use vstd::prelude::*;

use crate::infra::{
    find_node, find_seen, holds_data, kind_holds_data, kind_rank, lookup, lookup_seen, node_key,
    rank, seen_key,
    InfraMap, Key, Node, NodeKind, ObservedMap, PlanError, Seen, State,
};

verus! {

/// One edit to external state.
#[derive(Debug)]
pub enum Change {
    Create { kind: NodeKind, identity: String, fingerprint: u64 },
    /// An in-place change of a node's content that keeps its data.
    Update { kind: NodeKind, identity: String, from: u64, to: u64 },
    /// Removal of a node; `destructive` when the node holds persisted user data.
    Delete { kind: NodeKind, identity: String, destructive: bool },
}

/// What the caller allows the planner to emit.
#[derive(Clone, Copy, Debug, PartialEq, Eq, Structural)]
pub struct PlanOptions {
    /// Changes that destroy persisted data may be emitted.
    pub allow_destructive: bool,
    /// A changed node may be updated in place rather than deleted and created again.
    pub in_place_updates: bool,
}

impl PlanOptions {
    /// The options of a run: production never allows changes that destroy data.
    pub fn for_run(allow_destructive: bool, in_place_updates: bool, is_production: bool) -> (r:
        Self)
        ensures
            r.allow_destructive == (allow_destructive && !is_production),
            r.in_place_updates == in_place_updates,
    {
        PlanOptions { allow_destructive: allow_destructive && !is_production, in_place_updates }
    }
}

pub open spec fn is_destructive(c: Change) -> bool {
    match c {
        Change::Delete { destructive, .. } => destructive,
        _ => false,
    }
}

pub open spec fn create_of(n: Node) -> Change {
    Change::Create { kind: n.kind, identity: n.identity, fingerprint: n.fingerprint }
}

/// A key needs a creation when it is absent from the observed state or could not be read.
pub open spec fn needs_create(o: Seq<Seen>, k: Key) -> bool {
    lookup_seen(o, k) is None || lookup_seen(o, k)->Some_0 is None
}

/// A desired fingerprint needs an update when the observed node has another one.
pub open spec fn needs_update(o: Seq<Seen>, k: Key, fp: u64) -> bool {
    lookup_seen(o, k) is Some && lookup_seen(o, k)->Some_0 is Some && lookup_seen(o, k)->Some_0->Some_0
        != fp
}

/// An observed node is deleted when it was read and is not desired.
pub open spec fn needs_delete(e: Seen, d: Seq<Node>) -> bool {
    e.fingerprint is Some && lookup(d, seen_key(e)) is None
}

pub open spec fn delete_of(e: Seen) -> Change {
    Change::Delete { kind: e.kind, identity: e.identity, destructive: holds_data(e.kind) }
}

/// Creations, in the order of the desired nodes.
pub open spec fn creates(o: Seq<Seen>, d: Seq<Node>) -> Seq<Change>
    decreases d.len(),
{
    if d.len() == 0 {
        seq![]
    } else {
        let rest = creates(o, d.drop_last());
        if needs_create(o, node_key(d.last())) {
            rest.push(create_of(d.last()))
        } else {
            rest
        }
    }
}

pub open spec fn kind_of(c: Change) -> NodeKind {
    match c {
        Change::Create { kind, .. } => kind,
        Change::Update { kind, .. } => kind,
        Change::Delete { kind, .. } => kind,
    }
}

pub open spec fn key_of(c: Change) -> Key {
    match c {
        Change::Create { kind, identity, .. } => (kind, identity@),
        Change::Update { kind, identity, .. } => (kind, identity@),
        Change::Delete { kind, identity, .. } => (kind, identity@),
    }
}

/// A changed node keeps its data through an in-place update when the caller allows such
/// updates and the node holds data; any other changed node is deleted and created again.
pub open spec fn kept_in_place(k: NodeKind, in_place: bool) -> bool {
    in_place && holds_data(k)
}

/// In-place updates of changed nodes, in the order of the desired nodes.
pub open spec fn in_place_updates(o: Seq<Seen>, d: Seq<Node>, in_place: bool) -> Seq<Change>
    decreases d.len(),
{
    if d.len() == 0 {
        seq![]
    } else {
        let rest = in_place_updates(o, d.drop_last(), in_place);
        let n = d.last();
        if needs_update(o, node_key(n), n.fingerprint) && kept_in_place(n.kind, in_place) {
            rest.push(
                Change::Update {
                    kind: n.kind,
                    identity: n.identity,
                    from: lookup_seen(o, node_key(n))->Some_0->Some_0,
                    to: n.fingerprint,
                },
            )
        } else {
            rest
        }
    }
}

/// The observed node of a key was read.
pub open spec fn known(o: Seq<Seen>, k: Key) -> bool {
    lookup_seen(o, k) is Some && lookup_seen(o, k)->Some_0 is Some
}

/// The table that a node depends on is replaced: it changed and is not updated in place.
pub open spec fn parent_replaced(o: Seq<Seen>, all: Seq<Node>, n: Node, in_place: bool) -> bool {
    &&& n.parent is Some
    &&& !kept_in_place(NodeKind::Table, in_place)
    &&& lookup(all, (NodeKind::Table, n.parent->Some_0@)) is Some
    &&& needs_update(
        o,
        (NodeKind::Table, n.parent->Some_0@),
        lookup(all, (NodeKind::Table, n.parent->Some_0@))->Some_0,
    )
}

/// A node is replaced (deleted, then created again) when it is not kept in place and
/// either its own content changed or, being observed, the table it depends on is replaced.
pub open spec fn replaced(o: Seq<Seen>, all: Seq<Node>, n: Node, in_place: bool) -> bool {
    !kept_in_place(n.kind, in_place) && (needs_update(o, node_key(n), n.fingerprint) || (
    parent_replaced(o, all, n, in_place) && known(o, node_key(n))))
}

/// Deletions of replaced nodes, in the order of the desired nodes.
pub open spec fn replaced_deletes(o: Seq<Seen>, all: Seq<Node>, d: Seq<Node>, in_place: bool) -> Seq<
    Change,
>
    decreases d.len(),
{
    if d.len() == 0 {
        seq![]
    } else {
        let rest = replaced_deletes(o, all, d.drop_last(), in_place);
        let n = d.last();
        if replaced(o, all, n, in_place) {
            rest.push(
                Change::Delete { kind: n.kind, identity: n.identity, destructive: holds_data(n.kind) },
            )
        } else {
            rest
        }
    }
}

/// Creations of replaced nodes, in the order of the desired nodes.
pub open spec fn replace_creates(o: Seq<Seen>, all: Seq<Node>, d: Seq<Node>, in_place: bool) -> Seq<
    Change,
>
    decreases d.len(),
{
    if d.len() == 0 {
        seq![]
    } else {
        let rest = replace_creates(o, all, d.drop_last(), in_place);
        let n = d.last();
        if replaced(o, all, n, in_place) {
            rest.push(create_of(n))
        } else {
            rest
        }
    }
}

/// Deletions of observed nodes that are not desired, in the order of the observed nodes.
pub open spec fn observed_deletes(o: Seq<Seen>, d: Seq<Node>) -> Seq<Change>
    decreases o.len(),
{
    if o.len() == 0 {
        seq![]
    } else {
        let rest = observed_deletes(o.drop_last(), d);
        if needs_delete(o.last(), d) {
            rest.push(delete_of(o.last()))
        } else {
            rest
        }
    }
}

/// The changes of one rank, in their given order.
pub open spec fn of_rank(cs: Seq<Change>, r: nat) -> Seq<Change>
    decreases cs.len(),
{
    if cs.len() == 0 {
        seq![]
    } else {
        let rest = of_rank(cs.drop_last(), r);
        if rank(kind_of(cs.last())) == r {
            rest.push(cs.last())
        } else {
            rest
        }
    }
}

/// The changes of rank `r` or higher, highest rank first, in their given order within a rank.
pub open spec fn from_rank(cs: Seq<Change>, r: nat) -> Seq<Change>
    decreases 7 - r,
{
    if r >= 7 {
        seq![]
    } else {
        from_rank(cs, r + 1) + of_rank(cs, r)
    }
}

/// Changes in reverse prerequisite order (dependents first), ties kept in their given order.
pub open spec fn dependents_first(cs: Seq<Change>) -> Seq<Change> {
    from_rank(cs, 0)
}

/// Changes of existing nodes: data-holding nodes whose content changed are updated in place
/// when allowed; the other changed nodes, and the nodes that depend on a replaced table,
/// are deleted (dependents first) and then created again (prerequisites first).
pub open spec fn updates(o: Seq<Seen>, d: Seq<Node>, in_place: bool) -> Seq<Change> {
    in_place_updates(o, d, in_place) + dependents_first(replaced_deletes(o, d, d, in_place))
        + replace_creates(o, d, d, in_place)
}

/// Deletions of observed nodes that are not desired: in reverse prerequisite order, and
/// within a kind in the order of the observed nodes, which is by identity.
pub open spec fn deletes(o: Seq<Seen>, d: Seq<Node>) -> Seq<Change> {
    dependents_first(observed_deletes(o, d))
}

/// The plan from an observed state to a desired one: creations in prerequisite order,
/// then updates, then deletions in reverse prerequisite order.
pub open spec fn plan_spec(o: Seq<Seen>, d: Seq<Node>, opts: PlanOptions) -> Seq<Change> {
    creates(o, d) + updates(o, d, opts.in_place_updates) + deletes(o, d)
}

pub open spec fn has_destructive(cs: Seq<Change>) -> bool {
    exists|i: int| 0 <= i < cs.len() && is_destructive(#[trigger] cs[i])
}

/// The effect of one change on the external state.
pub open spec fn apply_change(m: State, c: Change) -> State {
    match c {
        Change::Create { kind, identity, fingerprint } => m.insert(
            (kind, identity@),
            Some(fingerprint),
        ),
        Change::Update { kind, identity, to, .. } => m.insert((kind, identity@), Some(to)),
        Change::Delete { kind, identity, .. } => m.remove((kind, identity@)),
    }
}

/// The effect of a sequence of changes applied in order.
pub open spec fn apply(m: State, cs: Seq<Change>) -> State
    decreases cs.len(),
{
    if cs.len() == 0 {
        m
    } else {
        apply_change(apply(m, cs.drop_last()), cs.last())
    }
}

fn copy_string(s: &String) -> (r: String)
    ensures
        r == *s,
{
    s.clone()
}

fn copy_change(c: &Change) -> (r: Change)
    ensures
        r == *c,
{
    match c {
        Change::Create { kind, identity, fingerprint } => Change::Create {
            kind: *kind,
            identity: copy_string(identity),
            fingerprint: *fingerprint,
        },
        Change::Update { kind, identity, from, to } => Change::Update {
            kind: *kind,
            identity: copy_string(identity),
            from: *from,
            to: *to,
        },
        Change::Delete { kind, identity, destructive } => Change::Delete {
            kind: *kind,
            identity: copy_string(identity),
            destructive: *destructive,
        },
    }
}

fn change_kind(c: &Change) -> (r: NodeKind)
    ensures
        r == kind_of(*c),
{
    match c {
        Change::Create { kind, .. } => *kind,
        Change::Update { kind, .. } => *kind,
        Change::Delete { kind, .. } => *kind,
    }
}

fn append_all(out: &mut Vec<Change>, xs: &Vec<Change>)
    ensures
        final(out)@ == old(out)@ + xs@,
{
    let ghost base = out@;
    let mut i: usize = 0;
    while i < xs.len()
        invariant
            i <= xs@.len(),
            out@ == base + xs@.subrange(0, i as int),
            base == old(out)@,
        decreases xs@.len() - i,
    {
        out.push(copy_change(&xs[i]));
        assert(xs@.subrange(0, i + 1) =~= xs@.subrange(0, i as int).push(xs@[i as int]));
        assert(out@ =~= base + xs@.subrange(0, i + 1));
        i = i + 1;
    }
    assert(xs@.subrange(0, xs@.len() as int) =~= xs@);
}

fn parent_is_replaced(o: &Vec<Seen>, d: &Vec<Node>, n: &Node, ip: bool) -> (r: bool)
    ensures
        r == parent_replaced(o@, d@, *n, ip),
{
    if ip {
        return false;
    }
    match &n.parent {
        None => false,
        Some(p) => match find_node(d, NodeKind::Table, p) {
            None => false,
            Some(t) => match find_seen(o, NodeKind::Table, p) {
                None => false,
                Some(j) => match o[j].fingerprint {
                    None => false,
                    Some(f) => f != d[t].fingerprint,
                },
            },
        },
    }
}

/// Puts changes in reverse prerequisite order, keeping their order within a rank.
pub fn order_dependents_first(cs: &Vec<Change>) -> (r: Vec<Change>)
    ensures
        r@ == dependents_first(cs@),
{
    let mut out: Vec<Change> = Vec::new();
    let mut r: u8 = 7;
    while r > 0
        invariant
            r <= 7,
            out@ == from_rank(cs@, r as nat),
        decreases r,
    {
        let rr: u8 = r - 1;
        let ghost base = out@;
        let mut i: usize = 0;
        assert(cs@.subrange(0, 0) =~= Seq::<Change>::empty());
        assert(base =~= base + of_rank(cs@.subrange(0, 0), rr as nat));
        while i < cs.len()
            invariant
                i <= cs@.len(),
                rr < 7,
                base == from_rank(cs@, rr as nat + 1),
                out@ == base + of_rank(cs@.subrange(0, i as int), rr as nat),
            decreases cs@.len() - i,
        {
            assert(cs@.subrange(0, i + 1).drop_last() =~= cs@.subrange(0, i as int));
            if kind_rank(change_kind(&cs[i])) == rr {
                out.push(copy_change(&cs[i]));
            }
            assert(out@ =~= base + of_rank(cs@.subrange(0, i + 1), rr as nat));
            i = i + 1;
        }
        assert(cs@.subrange(0, cs@.len() as int) =~= cs@);
        r = rr;
    }
    out
}

/// Computes the ordered changes that take the observed nodes to the desired ones.
/// Fails exactly when the plan would destroy persisted data and the caller did not allow it.
pub fn plan_nodes(o: &Vec<Seen>, d: &Vec<Node>, opts: PlanOptions) -> (r: Result<
    Vec<Change>,
    PlanError,
>)
    ensures
        r is Ok <==> (opts.allow_destructive || !has_destructive(plan_spec(o@, d@, opts))),
        r is Ok ==> r->Ok_0@ == plan_spec(o@, d@, opts),
        r is Err ==> r->Err_0 == PlanError::DestructiveNotAllowed,
        r is Ok ==> forall|i: int|
            0 <= i < r->Ok_0@.len() && is_destructive(#[trigger] r->Ok_0@[i])
                ==> opts.allow_destructive,
{
    let ip = opts.in_place_updates;
    let mut out: Vec<Change> = Vec::new();
    let mut upd: Vec<Change> = Vec::new();
    let mut rep_del: Vec<Change> = Vec::new();
    let mut rep_new: Vec<Change> = Vec::new();
    let mut i: usize = 0;
    while i < d.len()
        invariant
            i <= d@.len(),
            ip == opts.in_place_updates,
            out@ == creates(o@, d@.subrange(0, i as int)),
            upd@ == in_place_updates(o@, d@.subrange(0, i as int), ip),
            rep_del@ == replaced_deletes(o@, d@, d@.subrange(0, i as int), ip),
            rep_new@ == replace_creates(o@, d@, d@.subrange(0, i as int), ip),
        decreases d@.len() - i,
    {
        let ghost pre = d@.subrange(0, i as int);
        assert(d@.subrange(0, i + 1).drop_last() =~= pre);
        let n = &d[i];
        match find_seen(o, n.kind, &n.identity) {
            None => {
                out.push(
                    Change::Create {
                        kind: n.kind,
                        identity: copy_string(&n.identity),
                        fingerprint: n.fingerprint,
                    },
                );
            },
            Some(j) => match o[j].fingerprint {
                None => {
                    out.push(
                        Change::Create {
                            kind: n.kind,
                            identity: copy_string(&n.identity),
                            fingerprint: n.fingerprint,
                        },
                    );
                },
                Some(f) => {
                    let keep = ip && kind_holds_data(n.kind);
                    if f != n.fingerprint && keep {
                        upd.push(
                            Change::Update {
                                kind: n.kind,
                                identity: copy_string(&n.identity),
                                from: f,
                                to: n.fingerprint,
                            },
                        );
                    } else if !keep && (f != n.fingerprint || parent_is_replaced(o, d, n, ip)) {
                        let destructive = kind_holds_data(n.kind);
                        rep_del.push(
                            Change::Delete {
                                kind: n.kind,
                                identity: copy_string(&n.identity),
                                destructive,
                            },
                        );
                        rep_new.push(
                            Change::Create {
                                kind: n.kind,
                                identity: copy_string(&n.identity),
                                fingerprint: n.fingerprint,
                            },
                        );
                    }
                },
            },
        }
        i = i + 1;
    }
    assert(d@.subrange(0, d@.len() as int) =~= d@);
    let mut obs_del: Vec<Change> = Vec::new();
    let mut j: usize = 0;
    while j < o.len()
        invariant
            j <= o@.len(),
            obs_del@ == observed_deletes(o@.subrange(0, j as int), d@),
        decreases o@.len() - j,
    {
        assert(o@.subrange(0, j + 1).drop_last() =~= o@.subrange(0, j as int));
        let s = &o[j];
        let del = match s.fingerprint {
            None => false,
            Some(_) => find_node(d, s.kind, &s.identity).is_none(),
        };
        if del {
            let destructive = kind_holds_data(s.kind);
            obs_del.push(Change::Delete { kind: s.kind, identity: copy_string(&s.identity), destructive });
        }
        j = j + 1;
    }
    assert(o@.subrange(0, o@.len() as int) =~= o@);
    let rep_del_ordered = order_dependents_first(&rep_del);
    let obs_del_ordered = order_dependents_first(&obs_del);
    append_all(&mut out, &upd);
    append_all(&mut out, &rep_del_ordered);
    append_all(&mut out, &rep_new);
    append_all(&mut out, &obs_del_ordered);
    assert(out@ =~= plan_spec(o@, d@, opts));
    if !opts.allow_destructive {
        let mut k: usize = 0;
        while k < out.len()
            invariant
                k <= out@.len(),
                !opts.allow_destructive,
                out@ == plan_spec(o@, d@, opts),
                forall|m: int| 0 <= m < k ==> !is_destructive(#[trigger] out@[m]),
            decreases out@.len() - k,
        {
            let bad = match &out[k] {
                Change::Delete { destructive, .. } => *destructive,
                _ => false,
            };
            if bad {
                assert(is_destructive(plan_spec(o@, d@, opts)[k as int]));
                return Err(PlanError::DestructiveNotAllowed);
            }
            k = k + 1;
        }
        assert(!has_destructive(plan_spec(o@, d@, opts))) by {
            assert forall|m: int| 0 <= m < out@.len() implies !is_destructive(
                #[trigger] plan_spec(o@, d@, opts)[m],
            ) by {
                assert(!is_destructive(out@[m]));
            }
        }
    }
    Ok(out)
}

/// Plans the changes from the observed infrastructure to the desired one: creations in
/// prerequisite order, then updates, then deletions in reverse prerequisite order. Fails
/// exactly when a change would destroy persisted data and the caller did not allow it.
pub fn plan(observed: &ObservedMap, desired: &InfraMap, opts: PlanOptions) -> (r: Result<
    Vec<Change>,
    PlanError,
>)
    requires
        observed.wf(),
        desired.wf(),
    ensures
        r is Ok <==> (opts.allow_destructive || !has_destructive(
            plan_spec(observed@, desired@, opts),
        )),
        r is Ok ==> r->Ok_0@ == plan_spec(observed@, desired@, opts),
        r is Err ==> r->Err_0 == PlanError::DestructiveNotAllowed,
        r is Ok ==> forall|i: int|
            0 <= i < r->Ok_0@.len() && is_destructive(#[trigger] r->Ok_0@[i])
                ==> opts.allow_destructive,
{
    plan_nodes(observed.nodes(), desired.nodes(), opts)
}

} // verus!
