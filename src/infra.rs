use vstd::prelude::*;
use vstd::string::StrSliceExecFns;

verus! {

/// The kinds of resource in an infrastructure map, in prerequisite order.
#[derive(Clone, Copy, Debug, PartialEq, Eq, Structural)]
pub enum NodeKind {
    Topic,
    Table,
    View,
    SyncJob,
    IngestionRoute,
    ConsumptionApi,
    WorkerProcess,
}

/// Position of a kind in prerequisite order: a node may only depend on nodes of a lower rank.
pub open spec fn rank(k: NodeKind) -> nat {
    match k {
        NodeKind::Topic => 0,
        NodeKind::Table => 1,
        NodeKind::View => 2,
        NodeKind::SyncJob => 3,
        NodeKind::IngestionRoute => 4,
        NodeKind::ConsumptionApi => 5,
        NodeKind::WorkerProcess => 6,
    }
}

pub fn kind_rank(k: NodeKind) -> (r: u8)
    ensures
        r == rank(k),
{
    match k {
        NodeKind::Topic => 0,
        NodeKind::Table => 1,
        NodeKind::View => 2,
        NodeKind::SyncJob => 3,
        NodeKind::IngestionRoute => 4,
        NodeKind::ConsumptionApi => 5,
        NodeKind::WorkerProcess => 6,
    }
}

/// Kinds whose nodes hold persisted user data: destroying one loses that data.
pub open spec fn holds_data(k: NodeKind) -> bool {
    k == NodeKind::Topic || k == NodeKind::Table
}

pub fn kind_holds_data(k: NodeKind) -> (r: bool)
    ensures
        r == holds_data(k),
{
    match k {
        NodeKind::Topic | NodeKind::Table => true,
        _ => false,
    }
}

/// The identity of a node: its kind and its domain-unique name.
pub type Key = (NodeKind, Seq<char>);

/// A desired node: kind, identity and content fingerprint.
#[derive(Debug)]
pub struct Node {
    pub kind: NodeKind,
    pub identity: String,
    pub fingerprint: u64,
    /// The table this node reads or writes, if any: replacing that table replaces this
    /// node too.
    pub parent: Option<String>,
}

/// An observed node. Its fingerprint is `None` when the node exists but could not be read.
#[derive(Debug)]
pub struct Seen {
    pub kind: NodeKind,
    pub identity: String,
    pub fingerprint: Option<u64>,
}

pub open spec fn node_key(n: Node) -> Key {
    (n.kind, n.identity@)
}

pub open spec fn seen_key(n: Seen) -> Key {
    (n.kind, n.identity@)
}

/// The fingerprint that a sequence of desired nodes gives a key (the last node with it wins).
pub open spec fn lookup(d: Seq<Node>, k: Key) -> Option<u64>
    decreases d.len(),
{
    if d.len() == 0 {
        None
    } else if node_key(d.last()) == k {
        Some(d.last().fingerprint)
    } else {
        lookup(d.drop_last(), k)
    }
}

/// What a sequence of observed nodes says of a key: absent (`None`), present but
/// unreadable (`Some(None)`), or present with a fingerprint.
pub open spec fn lookup_seen(o: Seq<Seen>, k: Key) -> Option<Option<u64>>
    decreases o.len(),
{
    if o.len() == 0 {
        None
    } else if seen_key(o.last()) == k {
        Some(o.last().fingerprint)
    } else {
        lookup_seen(o.drop_last(), k)
    }
}

/// External state as a map from identity to what is known of the node.
pub type State = Map<Key, Option<u64>>;

pub open spec fn desired_state(d: Seq<Node>) -> State {
    Map::new(|k: Key| lookup(d, k) is Some, |k: Key| Some(lookup(d, k)->Some_0))
}

pub open spec fn observed_state(o: Seq<Seen>) -> State {
    Map::new(|k: Key| lookup_seen(o, k) is Some, |k: Key| lookup_seen(o, k)->Some_0)
}

pub open spec fn nodes_wf(d: Seq<Node>) -> bool {
    &&& forall|i: int, j: int|
        0 <= i < j < d.len() ==> node_key(#[trigger] d[i]) != node_key(#[trigger] d[j])
    &&& forall|i: int, j: int|
        0 <= i < j < d.len() ==> rank(#[trigger] d[i].kind) <= rank(#[trigger] d[j].kind)
    &&& forall|i: int, j: int|
        0 <= i < j < d.len() && (#[trigger] d[i]).kind == (#[trigger] d[j]).kind ==> lex_lt(
            d[i].identity@,
            d[j].identity@,
        )
}

pub open spec fn seen_wf(o: Seq<Seen>) -> bool {
    &&& forall|i: int, j: int|
        0 <= i < j < o.len() ==> seen_key(#[trigger] o[i]) != seen_key(#[trigger] o[j])
    &&& forall|i: int, j: int|
        0 <= i < j < o.len() ==> rank(#[trigger] o[i].kind) <= rank(#[trigger] o[j].kind)
    &&& forall|i: int, j: int|
        0 <= i < j < o.len() && (#[trigger] o[i]).kind == (#[trigger] o[j]).kind ==> lex_lt(
            o[i].identity@,
            o[j].identity@,
        )
}

/// `a` and `b` agree on their first `i` characters.
pub open spec fn same_prefix(a: Seq<char>, b: Seq<char>, i: int) -> bool {
    &&& 0 <= i <= a.len()
    &&& i <= b.len()
    &&& forall|j: int| 0 <= j < i ==> a[j] == b[j]
}

/// Lexicographic order of identities, by code point.
pub open spec fn lex_lt(a: Seq<char>, b: Seq<char>) -> bool {
    exists|i: int|
        #[trigger] same_prefix(a, b, i) && ((i == a.len() && i < b.len()) || (i < a.len() && i
            < b.len() && (a[i] as u32) < (b[i] as u32)))
}

/// Order of nodes in a map: by prerequisite rank, then by identity.
pub open spec fn precedes(k1: NodeKind, id1: Seq<char>, k2: NodeKind, id2: Seq<char>) -> bool {
    rank(k1) < rank(k2) || (k1 == k2 && lex_lt(id1, id2))
}

proof fn lemma_rank_injective(a: NodeKind, b: NodeKind)
    ensures
        rank(a) == rank(b) ==> a == b,
{
}

pub(crate) proof fn lemma_lex_trans(a: Seq<char>, b: Seq<char>, c: Seq<char>)
    requires
        lex_lt(a, b),
        lex_lt(b, c),
    ensures
        lex_lt(a, c),
{
    let i = choose|i: int|
        #[trigger] same_prefix(a, b, i) && ((i == a.len() && i < b.len()) || (i < a.len() && i
            < b.len() && (a[i] as u32) < (b[i] as u32)));
    let k = choose|k: int|
        #[trigger] same_prefix(b, c, k) && ((k == b.len() && k < c.len()) || (k < b.len() && k
            < c.len() && (b[k] as u32) < (c[k] as u32)));
    if i < k {
        assert(same_prefix(a, c, i));
    } else if k < i {
        assert(same_prefix(a, c, k));
        assert(a[k] == b[k]);
    } else {
        assert(same_prefix(a, c, i));
    }
}

/// Compares two identities lexicographically: negative, zero or positive.
pub fn compare_ids(a: &String, b: &String) -> (r: i8)
    ensures
        r < 0 ==> lex_lt(a@, b@),
        r > 0 ==> lex_lt(b@, a@),
        r == 0 ==> a@ == b@,
{
    let sa = a.as_str();
    let sb = b.as_str();
    let la = sa.unicode_len();
    let lb = sb.unicode_len();
    let mut i: usize = 0;
    while i < la && i < lb
        invariant
            la == a@.len(),
            lb == b@.len(),
            sa@ == a@,
            sb@ == b@,
            i <= la,
            i <= lb,
            forall|j: int| 0 <= j < i ==> a@[j] == b@[j],
        decreases la - i,
    {
        let ca = sa.get_char(i);
        let cb = sb.get_char(i);
        if ca != cb {
            assert(same_prefix(a@, b@, i as int));
            assert(same_prefix(b@, a@, i as int));
            if (ca as u32) < (cb as u32) {
                return -1;
            } else {
                return 1;
            }
        }
        i = i + 1;
    }
    assert(same_prefix(a@, b@, i as int));
    assert(same_prefix(b@, a@, i as int));
    if la < lb {
        -1
    } else if la > lb {
        1
    } else {
        assert(a@ =~= b@);
        0
    }
}

/// Compares the positions of two nodes in a map: negative, zero (same identity) or positive.
pub fn order(k1: NodeKind, id1: &String, k2: NodeKind, id2: &String) -> (r: i8)
    ensures
        r < 0 ==> precedes(k1, id1@, k2, id2@),
        r > 0 ==> precedes(k2, id2@, k1, id1@),
        r == 0 ==> k1 == k2 && id1@ == id2@,
{
    let r1 = kind_rank(k1);
    let r2 = kind_rank(k2);
    if r1 < r2 {
        -1
    } else if r1 > r2 {
        1
    } else {
        proof {
            lemma_rank_injective(k1, k2);
        }
        compare_ids(id1, id2)
    }
}

/// Errors of building a map or of planning.
#[derive(Clone, Copy, Debug, PartialEq, Eq, Structural)]
pub enum PlanError {
    /// Two nodes of one map share an identity.
    DuplicateIdentity,
    /// The plan needs a change that destroys persisted data and the caller did not allow it.
    DestructiveNotAllowed,
}

pub fn same_key(kind: NodeKind, identity: &String, other_kind: NodeKind, other: &String) -> (r: bool)
    ensures
        r == ((kind, identity@) == (other_kind, other@)),
{
    kind == other_kind && *identity == *other
}

/// Finds the desired node of a key, searching from the end.
pub fn find_node(d: &Vec<Node>, kind: NodeKind, identity: &String) -> (r: Option<usize>)
    ensures
        r is None ==> lookup(d@, (kind, identity@)) is None,
        r is Some ==> r->Some_0 < d@.len() && lookup(d@, (kind, identity@)) == Some(
            d@[r->Some_0 as int].fingerprint,
        ) && node_key(d@[r->Some_0 as int]) == (kind, identity@),
{
    let mut i: usize = d.len();
    assert(d@.subrange(0, i as int) =~= d@);
    while i > 0
        invariant
            i <= d@.len(),
            lookup(d@, (kind, identity@)) == lookup(d@.subrange(0, i as int), (kind, identity@)),
        decreases i,
    {
        let ghost s = d@.subrange(0, i as int);
        if same_key(d[i - 1].kind, &d[i - 1].identity, kind, identity) {
            return Some(i - 1);
        }
        assert(s.drop_last() =~= d@.subrange(0, i - 1));
        i = i - 1;
    }
    None
}

/// Finds the observed node of a key, searching from the end.
pub fn find_seen(o: &Vec<Seen>, kind: NodeKind, identity: &String) -> (r: Option<usize>)
    ensures
        r is None ==> lookup_seen(o@, (kind, identity@)) is None,
        r is Some ==> r->Some_0 < o@.len() && lookup_seen(o@, (kind, identity@)) == Some(
            o@[r->Some_0 as int].fingerprint,
        ),
{
    let mut i: usize = o.len();
    assert(o@.subrange(0, i as int) =~= o@);
    while i > 0
        invariant
            i <= o@.len(),
            lookup_seen(o@, (kind, identity@)) == lookup_seen(
                o@.subrange(0, i as int),
                (kind, identity@),
            ),
        decreases i,
    {
        let ghost s = o@.subrange(0, i as int);
        if same_key(o[i - 1].kind, &o[i - 1].identity, kind, identity) {
            return Some(i - 1);
        }
        assert(s.drop_last() =~= o@.subrange(0, i - 1));
        i = i - 1;
    }
    None
}

pub(crate) proof fn lemma_node_present(d: Seq<Node>, i: int)
    requires
        0 <= i < d.len(),
    ensures
        lookup(d, node_key(d[i])) is Some,
    decreases d.len(),
{
    if i != d.len() - 1 && node_key(d.last()) != node_key(d[i]) {
        assert(d.drop_last()[i] == d[i]);
        lemma_node_present(d.drop_last(), i);
    }
}

pub(crate) proof fn lemma_seen_present(o: Seq<Seen>, i: int)
    requires
        0 <= i < o.len(),
    ensures
        lookup_seen(o, seen_key(o[i])) is Some,
    decreases o.len(),
{
    if i != o.len() - 1 && seen_key(o.last()) != seen_key(o[i]) {
        assert(o.drop_last()[i] == o[i]);
        lemma_seen_present(o.drop_last(), i);
    }
}

pub(crate) proof fn lemma_node_index(d: Seq<Node>, k: Key) -> (j: int)
    requires
        lookup(d, k) is Some,
    ensures
        0 <= j < d.len(),
        node_key(d[j]) == k,
    decreases d.len(),
{
    if node_key(d.last()) == k {
        d.len() - 1
    } else {
        let j = lemma_node_index(d.drop_last(), k);
        assert(d.drop_last()[j] == d[j]);
        j
    }
}

/// Inserting a node keeps every identity the sequence had and adds the node's own.
pub proof fn lemma_insert_keeps(d: Seq<Node>, p: int, n: Node, k: Key)
    requires
        0 <= p <= d.len(),
        lookup(d, k) is Some || k == node_key(n),
    ensures
        lookup(d.insert(p, n), k) is Some,
{
    let t = d.insert(p, n);
    if k == node_key(n) {
        assert(t[p] == n);
        lemma_node_present(t, p);
    } else {
        let j = lemma_node_index(d, k);
        let j2 = if j < p {
            j
        } else {
            j + 1
        };
        assert(t[j2] == d[j]);
        lemma_node_present(t, j2);
    }
}

/// The desired infrastructure: nodes with unique identities, in prerequisite order.
pub struct InfraMap {
    nodes: Vec<Node>,
}

impl View for InfraMap {
    type V = Seq<Node>;

    closed spec fn view(&self) -> Seq<Node> {
        self.nodes@
    }
}

impl InfraMap {
    pub open spec fn wf(&self) -> bool {
        nodes_wf(self@)
    }

    pub fn new() -> (r: Self)
        ensures
            r.wf(),
            r@ == Seq::<Node>::empty(),
    {
        InfraMap { nodes: Vec::new() }
    }

    pub fn nodes(&self) -> (r: &Vec<Node>)
        ensures
            r@ == self@,
    {
        &self.nodes
    }

    /// Adds a node after every node of its rank or a lower one; fails, leaving the map
    /// as it was, when a node with the same identity is already there.
    pub fn insert(&mut self, node: Node) -> (r: Result<(), PlanError>)
        requires
            old(self).wf(),
        ensures
            final(self).wf(),
            lookup(old(self)@, node_key(node)) is Some ==> r == Err::<(), PlanError>(
                PlanError::DuplicateIdentity,
            ) && final(self)@ == old(self)@,
            lookup(old(self)@, node_key(node)) is None ==> r is Ok && exists|p: int|
                0 <= p <= old(self)@.len() && final(self)@ == old(self)@.insert(p, node) && (
                forall|i: int|
                    0 <= i < p ==> precedes(
                        (#[trigger] old(self)@[i]).kind,
                        old(self)@[i].identity@,
                        node.kind,
                        node.identity@,
                    )) && (forall|i: int|
                p <= i < old(self)@.len() ==> precedes(
                    node.kind,
                    node.identity@,
                    (#[trigger] old(self)@[i]).kind,
                    old(self)@[i].identity@,
                )),
    {
        if find_node(&self.nodes, node.kind, &node.identity).is_some() {
            return Err(PlanError::DuplicateIdentity);
        }
        let ghost before = self.nodes@;
        assert forall|i: int| 0 <= i < before.len() implies node_key(#[trigger] before[i]) != node_key(
            node,
        ) by {
            lemma_node_present(before, i);
        }
        let mut p: usize = 0;
        let mut stop = false;
        while !stop && p < self.nodes.len()
            invariant
                p <= self.nodes@.len(),
                self.nodes@ == before,
                forall|i: int| 0 <= i < before.len() ==> node_key(#[trigger] before[i]) != node_key(node),
                forall|i: int|
                    0 <= i < p ==> precedes(
                        (#[trigger] before[i]).kind,
                        before[i].identity@,
                        node.kind,
                        node.identity@,
                    ),
                stop ==> p < before.len() && precedes(
                    node.kind,
                    node.identity@,
                    before[p as int].kind,
                    before[p as int].identity@,
                ),
            decreases 2 * (self.nodes@.len() - p) + (if stop { 0int } else { 1int }),
        {
            let c = order(self.nodes[p].kind, &self.nodes[p].identity, node.kind, &node.identity);
            if c < 0 {
                p = p + 1;
            } else {
                if c == 0 {
                    assert(node_key(before[p as int]) == node_key(node));
                }
                stop = true;
            }
        }
        self.nodes.insert(p, node);
        proof {
            let after = self.nodes@;
            assert(after == before.insert(p as int, node));
            assert forall|i: int| p <= i < before.len() implies precedes(
                node.kind,
                node.identity@,
                (#[trigger] before[i]).kind,
                before[i].identity@,
            ) by {
                if i > p {
                    lemma_rank_injective(before[p as int].kind, before[i].kind);
                    lemma_rank_injective(node.kind, before[i].kind);
                    if node.kind == before[i].kind && before[p as int].kind == node.kind {
                        lemma_lex_trans(node.identity@, before[p as int].identity@, before[i].identity@);
                    }
                }
            }
            assert forall|i: int, j: int| 0 <= i < j < after.len() implies node_key(#[trigger] after[i])
                != node_key(#[trigger] after[j]) && rank(after[i].kind) <= rank(after[j].kind) && (
            after[i].kind == after[j].kind ==> lex_lt(after[i].identity@, after[j].identity@)) by {
                if i < p {
                    assert(after[i] == before[i]);
                    if j < p {
                        assert(after[j] == before[j]);
                    } else if j > p {
                        assert(after[j] == before[j - 1]);
                    }
                } else if i == p {
                    assert(after[j] == before[j - 1]);
                } else {
                    assert(after[i] == before[i - 1]);
                    assert(after[j] == before[j - 1]);
                }
                lemma_rank_injective(after[i].kind, after[j].kind);
            }
        }
        Ok(())
    }
}

/// The observed infrastructure: nodes with unique identities, in prerequisite order.
pub struct ObservedMap {
    nodes: Vec<Seen>,
}

impl View for ObservedMap {
    type V = Seq<Seen>;

    closed spec fn view(&self) -> Seq<Seen> {
        self.nodes@
    }
}

impl ObservedMap {
    pub open spec fn wf(&self) -> bool {
        seen_wf(self@)
    }

    pub fn new() -> (r: Self)
        ensures
            r.wf(),
            r@ == Seq::<Seen>::empty(),
    {
        ObservedMap { nodes: Vec::new() }
    }

    pub fn nodes(&self) -> (r: &Vec<Seen>)
        ensures
            r@ == self@,
    {
        &self.nodes
    }

    /// Adds a node after every node of its rank or a lower one; fails, leaving the map
    /// as it was, when a node with the same identity is already there.
    pub fn insert(&mut self, node: Seen) -> (r: Result<(), PlanError>)
        requires
            old(self).wf(),
        ensures
            final(self).wf(),
            lookup_seen(old(self)@, seen_key(node)) is Some ==> r == Err::<(), PlanError>(
                PlanError::DuplicateIdentity,
            ) && final(self)@ == old(self)@,
            lookup_seen(old(self)@, seen_key(node)) is None ==> r is Ok && exists|p: int|
                0 <= p <= old(self)@.len() && final(self)@ == old(self)@.insert(p, node) && (
                forall|i: int|
                    0 <= i < p ==> precedes(
                        (#[trigger] old(self)@[i]).kind,
                        old(self)@[i].identity@,
                        node.kind,
                        node.identity@,
                    )) && (forall|i: int|
                p <= i < old(self)@.len() ==> precedes(
                    node.kind,
                    node.identity@,
                    (#[trigger] old(self)@[i]).kind,
                    old(self)@[i].identity@,
                )),
    {
        if find_seen(&self.nodes, node.kind, &node.identity).is_some() {
            return Err(PlanError::DuplicateIdentity);
        }
        let ghost before = self.nodes@;
        assert forall|i: int| 0 <= i < before.len() implies seen_key(#[trigger] before[i]) != seen_key(
            node,
        ) by {
            lemma_seen_present(before, i);
        }
        let mut p: usize = 0;
        let mut stop = false;
        while !stop && p < self.nodes.len()
            invariant
                p <= self.nodes@.len(),
                self.nodes@ == before,
                forall|i: int| 0 <= i < before.len() ==> seen_key(#[trigger] before[i]) != seen_key(node),
                forall|i: int|
                    0 <= i < p ==> precedes(
                        (#[trigger] before[i]).kind,
                        before[i].identity@,
                        node.kind,
                        node.identity@,
                    ),
                stop ==> p < before.len() && precedes(
                    node.kind,
                    node.identity@,
                    before[p as int].kind,
                    before[p as int].identity@,
                ),
            decreases 2 * (self.nodes@.len() - p) + (if stop { 0int } else { 1int }),
        {
            let c = order(self.nodes[p].kind, &self.nodes[p].identity, node.kind, &node.identity);
            if c < 0 {
                p = p + 1;
            } else {
                if c == 0 {
                    assert(seen_key(before[p as int]) == seen_key(node));
                }
                stop = true;
            }
        }
        self.nodes.insert(p, node);
        proof {
            let after = self.nodes@;
            assert(after == before.insert(p as int, node));
            assert forall|i: int| p <= i < before.len() implies precedes(
                node.kind,
                node.identity@,
                (#[trigger] before[i]).kind,
                before[i].identity@,
            ) by {
                if i > p {
                    lemma_rank_injective(before[p as int].kind, before[i].kind);
                    lemma_rank_injective(node.kind, before[i].kind);
                    if node.kind == before[i].kind && before[p as int].kind == node.kind {
                        lemma_lex_trans(node.identity@, before[p as int].identity@, before[i].identity@);
                    }
                }
            }
            assert forall|i: int, j: int| 0 <= i < j < after.len() implies seen_key(#[trigger] after[i])
                != seen_key(#[trigger] after[j]) && rank(after[i].kind) <= rank(after[j].kind) && (
            after[i].kind == after[j].kind ==> lex_lt(after[i].identity@, after[j].identity@)) by {
                if i < p {
                    assert(after[i] == before[i]);
                    if j < p {
                        assert(after[j] == before[j]);
                    } else if j > p {
                        assert(after[j] == before[j - 1]);
                    }
                } else if i == p {
                    assert(after[j] == before[j - 1]);
                } else {
                    assert(after[i] == before[i - 1]);
                    assert(after[j] == before[j - 1]);
                }
                lemma_rank_injective(after[i].kind, after[j].kind);
            }
        }
        Ok(())
    }
}

} // verus!
