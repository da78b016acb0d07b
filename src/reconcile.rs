use vstd::prelude::*;

use crate::infra::{
    desired_state, lemma_seen_present, lex_lt, lookup, lookup_seen, node_key, nodes_wf,
    observed_state, rank, seen_key, seen_wf, Key, Node, Seen, State,
};
use crate::plan::{
    apply, apply_change, create_of, creates, deletes, dependents_first, from_rank,
    in_place_updates, kept_in_place, key_of, known, kind_of, needs_create, needs_delete, needs_update,
    observed_deletes, of_rank, plan_spec, replace_creates, replaced, replaced_deletes, updates, Change,
    PlanOptions,
};

verus! {

/// The state reached by applying a plan: every desired node with its desired fingerprint,
/// and every observed node that could not be read and is not desired, left as it was.
pub open spec fn reconciled(o: Seq<Seen>, d: Seq<Node>) -> State {
    Map::new(
        |k: Key| lookup(d, k) is Some || lookup_seen(o, k) == Some(None::<u64>),
        |k: Key|
            if lookup(d, k) is Some {
                Some(lookup(d, k)->Some_0)
            } else {
                None
            },
    )
}

spec fn create_map(o: Seq<Seen>, d: Seq<Node>) -> State {
    Map::new(
        |k: Key| lookup(d, k) is Some && needs_create(o, k),
        |k: Key| Some(lookup(d, k)->Some_0),
    )
}

spec fn update_map(o: Seq<Seen>, d: Seq<Node>) -> State {
    Map::new(
        |k: Key| lookup(d, k) is Some && needs_update(o, k, lookup(d, k)->Some_0),
        |k: Key| Some(lookup(d, k)->Some_0),
    )
}

spec fn part_map(o: Seq<Seen>, d: Seq<Node>, in_place: bool, part: bool) -> State {
    Map::new(
        |k: Key|
            lookup(d, k) is Some && needs_update(o, k, lookup(d, k)->Some_0) && kept_in_place(
                k.0,
                in_place,
            ) == part,
        |k: Key| Some(lookup(d, k)->Some_0),
    )
}

/// Every change of the sequence is a deletion.
spec fn all_deletes(cs: Seq<Change>) -> bool {
    forall|i: int| 0 <= i < cs.len() ==> (#[trigger] cs[i]) is Delete
}

/// The identities that a sequence of changes touches.
spec fn keys_of(cs: Seq<Change>) -> Set<Key>
    decreases cs.len(),
{
    if cs.len() == 0 {
        Set::empty()
    } else {
        keys_of(cs.drop_last()).insert(key_of(cs.last()))
    }
}

spec fn delete_set(o: Seq<Seen>, d: Seq<Node>) -> Set<Key> {
    Set::new(
        |k: Key|
            lookup_seen(o, k) is Some && lookup_seen(o, k)->Some_0 is Some && lookup(d, k) is None,
    )
}

proof fn lemma_apply_concat(m: State, a: Seq<Change>, b: Seq<Change>)
    ensures
        apply(m, a + b) == apply(apply(m, a), b),
    decreases b.len(),
{
    if b.len() == 0 {
        assert(a + b =~= a);
    } else {
        lemma_apply_concat(m, a, b.drop_last());
        assert((a + b).drop_last() =~= a + b.drop_last());
        assert((a + b).last() == b.last());
    }
}

proof fn lemma_apply_one(m: State, c: Change)
    ensures
        apply(m, seq![c]) == apply_change(m, c),
{
    assert(seq![c].drop_last() =~= Seq::<Change>::empty());
    assert(apply(m, seq![c].drop_last()) == m);
    assert(seq![c].last() == c);
}

proof fn lemma_lookup_absent(d: Seq<Node>, k: Key)
    requires
        forall|i: int| 0 <= i < d.len() ==> node_key(#[trigger] d[i]) != k,
    ensures
        lookup(d, k) is None,
    decreases d.len(),
{
    if d.len() > 0 {
        assert(node_key(d[d.len() - 1]) != k);
        assert forall|i: int| 0 <= i < d.drop_last().len() implies node_key(
            #[trigger] d.drop_last()[i],
        ) != k by {
            assert(d.drop_last()[i] == d[i]);
        }
        lemma_lookup_absent(d.drop_last(), k);
    }
}

proof fn lemma_lookup_seen_absent(o: Seq<Seen>, k: Key)
    requires
        forall|i: int| 0 <= i < o.len() ==> seen_key(#[trigger] o[i]) != k,
    ensures
        lookup_seen(o, k) is None,
    decreases o.len(),
{
    if o.len() > 0 {
        assert(seen_key(o[o.len() - 1]) != k);
        assert forall|i: int| 0 <= i < o.drop_last().len() implies seen_key(
            #[trigger] o.drop_last()[i],
        ) != k by {
            assert(o.drop_last()[i] == o[i]);
        }
        lemma_lookup_seen_absent(o.drop_last(), k);
    }
}

proof fn lemma_lookup_at(d: Seq<Node>, i: int)
    requires
        nodes_wf(d),
        0 <= i < d.len(),
    ensures
        lookup(d, node_key(d[i])) == Some(d[i].fingerprint),
    decreases d.len(),
{
    if i != d.len() - 1 {
        assert(node_key(d[i]) != node_key(d[d.len() - 1]));
        assert(d.drop_last()[i] == d[i]);
        lemma_lookup_at(d.drop_last(), i);
    }
}

proof fn lemma_creates_effect(m: State, o: Seq<Seen>, d: Seq<Node>)
    ensures
        apply(m, creates(o, d)) == m.union_prefer_right(create_map(o, d)),
    decreases d.len(),
{
    if d.len() == 0 {
        assert(m.union_prefer_right(create_map(o, d)) =~= m);
    } else {
        let dl = d.drop_last();
        let n = d.last();
        lemma_creates_effect(m, o, dl);
        if needs_create(o, node_key(n)) {
            let rest = creates(o, dl);
            assert(rest.push(create_of(n)).drop_last() =~= rest);
        }
        assert(apply(m, creates(o, d)) =~= m.union_prefer_right(create_map(o, d)));
    }
}

proof fn lemma_nodes_wf_drop_last(d: Seq<Node>)
    requires
        nodes_wf(d),
        d.len() > 0,
    ensures
        nodes_wf(d.drop_last()),
        lookup(d.drop_last(), node_key(d.last())) is None,
{
    let dl = d.drop_last();
    assert forall|i: int, j: int| 0 <= i < j < dl.len() implies node_key(#[trigger] dl[i])
        != node_key(#[trigger] dl[j]) && rank(dl[i].kind) <= rank(dl[j].kind) && (dl[i].kind
        == dl[j].kind ==> lex_lt(dl[i].identity@, dl[j].identity@)) by {
        assert(dl[i] == d[i] && dl[j] == d[j]);
    }
    assert forall|i: int| 0 <= i < dl.len() implies node_key(#[trigger] dl[i]) != node_key(
        d.last(),
    ) by {
        assert(dl[i] == d[i]);
    }
    lemma_lookup_absent(dl, node_key(d.last()));
}

proof fn lemma_apply_deletes(m: State, cs: Seq<Change>)
    requires
        all_deletes(cs),
    ensures
        apply(m, cs) == m.remove_keys(keys_of(cs)),
    decreases cs.len(),
{
    if cs.len() == 0 {
        assert(m.remove_keys(keys_of(cs)) =~= m);
    } else {
        let cl = cs.drop_last();
        assert(all_deletes(cl)) by {
            assert forall|i: int| 0 <= i < cl.len() implies (#[trigger] cl[i]) is Delete by {
                assert(cl[i] == cs[i]);
            }
        }
        assert(cs[cs.len() - 1] is Delete);
        lemma_apply_deletes(m, cl);
        assert(apply(m, cs) =~= m.remove_keys(keys_of(cs)));
    }
}

proof fn lemma_keys_of_concat(a: Seq<Change>, b: Seq<Change>)
    ensures
        keys_of(a + b) == keys_of(a) + keys_of(b),
    decreases b.len(),
{
    if b.len() == 0 {
        assert(a + b =~= a);
        assert(keys_of(a) + keys_of(b) =~= keys_of(a));
    } else {
        lemma_keys_of_concat(a, b.drop_last());
        assert((a + b).drop_last() =~= a + b.drop_last());
        assert(keys_of(a + b) =~= keys_of(a) + keys_of(b));
    }
}

proof fn lemma_of_rank(cs: Seq<Change>, r: nat)
    ensures
        all_deletes(cs) ==> all_deletes(of_rank(cs, r)),
        keys_of(of_rank(cs, r)) == Set::new(|k: Key| keys_of(cs).contains(k) && rank(k.0) == r),
    decreases cs.len(),
{
    if cs.len() == 0 {
        assert(keys_of(of_rank(cs, r)) =~= Set::new(
            |k: Key| keys_of(cs).contains(k) && rank(k.0) == r,
        ));
    } else {
        let cl = cs.drop_last();
        lemma_of_rank(cl, r);
        if all_deletes(cs) {
            assert(all_deletes(cl)) by {
                assert forall|i: int| 0 <= i < cl.len() implies (#[trigger] cl[i]) is Delete by {
                    assert(cl[i] == cs[i]);
                }
            }
            assert(cs[cs.len() - 1] is Delete);
            let f = of_rank(cs, r);
            assert forall|i: int| 0 <= i < f.len() implies (#[trigger] f[i]) is Delete by {
                if i < of_rank(cl, r).len() {
                    assert(f[i] == of_rank(cl, r)[i]);
                }
            }
        }
        assert(key_of(cs.last()).0 == kind_of(cs.last()));
        if rank(kind_of(cs.last())) == r {
            assert(of_rank(cs, r).drop_last() =~= of_rank(cl, r));
        }
        assert(keys_of(of_rank(cs, r)) =~= Set::new(
            |k: Key| keys_of(cs).contains(k) && rank(k.0) == r,
        ));
    }
}

proof fn lemma_rank_bound(k: crate::infra::NodeKind)
    ensures
        rank(k) < 7,
{
}

proof fn lemma_from_rank(cs: Seq<Change>, r: nat)
    ensures
        all_deletes(cs) ==> all_deletes(from_rank(cs, r)),
        keys_of(from_rank(cs, r)) == Set::new(|k: Key| keys_of(cs).contains(k) && rank(k.0) >= r),
    decreases 7 - r,
{
    if r >= 7 {
        assert forall|k: Key| !(keys_of(cs).contains(k) && rank(k.0) >= r) by {
            lemma_rank_bound(k.0);
        }
        assert(keys_of(from_rank(cs, r)) =~= Set::new(
            |k: Key| keys_of(cs).contains(k) && rank(k.0) >= r,
        ));
    } else {
        lemma_from_rank(cs, r + 1);
        lemma_of_rank(cs, r);
        let a = from_rank(cs, r + 1);
        let b = of_rank(cs, r);
        lemma_keys_of_concat(a, b);
        if all_deletes(cs) {
            assert forall|i: int| 0 <= i < (a + b).len() implies (#[trigger] (a + b)[i]) is Delete by {
                if i < a.len() {
                    assert((a + b)[i] == a[i]);
                } else {
                    assert((a + b)[i] == b[i - a.len()]);
                }
            }
        }
        assert(keys_of(from_rank(cs, r)) =~= Set::new(
            |k: Key| keys_of(cs).contains(k) && rank(k.0) >= r,
        ));
    }
}

proof fn lemma_dependents_first(m: State, cs: Seq<Change>)
    requires
        all_deletes(cs),
    ensures
        apply(m, dependents_first(cs)) == m.remove_keys(keys_of(cs)),
{
    lemma_from_rank(cs, 0);
    lemma_apply_deletes(m, dependents_first(cs));
    assert(keys_of(dependents_first(cs)) =~= keys_of(cs));
}

proof fn lemma_in_place_effect(m: State, o: Seq<Seen>, d: Seq<Node>, ip: bool)
    requires
        nodes_wf(d),
    ensures
        apply(m, in_place_updates(o, d, ip)) == m.union_prefer_right(part_map(o, d, ip, true)),
    decreases d.len(),
{
    if d.len() == 0 {
        assert(m.union_prefer_right(part_map(o, d, ip, true)) =~= m);
    } else {
        let dl = d.drop_last();
        lemma_nodes_wf_drop_last(d);
        lemma_in_place_effect(m, o, dl, ip);
        let n = d.last();
        if needs_update(o, node_key(n), n.fingerprint) && kept_in_place(n.kind, ip) {
            assert(in_place_updates(o, d, ip).drop_last() =~= in_place_updates(o, dl, ip));
        }
        assert(apply(m, in_place_updates(o, d, ip)) =~= m.union_prefer_right(
            part_map(o, d, ip, true),
        ));
    }
}

/// The nodes that are replaced, with their desired fingerprints.
spec fn rep_map(o: Seq<Seen>, all: Seq<Node>, d: Seq<Node>, ip: bool) -> State
    decreases d.len(),
{
    if d.len() == 0 {
        Map::empty()
    } else {
        let rest = rep_map(o, all, d.drop_last(), ip);
        if replaced(o, all, d.last(), ip) {
            rest.insert(node_key(d.last()), Some(d.last().fingerprint))
        } else {
            rest
        }
    }
}

proof fn lemma_rep_map(o: Seq<Seen>, all: Seq<Node>, d: Seq<Node>, ip: bool)
    requires
        nodes_wf(d),
    ensures
        forall|k: Key|
            #[trigger] rep_map(o, all, d, ip).contains_key(k) ==> lookup(d, k) is Some
                && rep_map(o, all, d, ip)[k] == Some(lookup(d, k)->Some_0) && !kept_in_place(
                k.0,
                ip,
            ) && (needs_update(o, k, lookup(d, k)->Some_0) || lookup_seen(o, k) == Some(
                Some(lookup(d, k)->Some_0),
            )),
        forall|k: Key|
            lookup(d, k) is Some && needs_update(o, k, lookup(d, k)->Some_0) && !kept_in_place(
                k.0,
                ip,
            ) ==> #[trigger] rep_map(o, all, d, ip).contains_key(k),
    decreases d.len(),
{
    if d.len() > 0 {
        let dl = d.drop_last();
        lemma_nodes_wf_drop_last(d);
        lemma_rep_map(o, all, dl, ip);
    }
}

proof fn lemma_replace_creates_effect(m: State, o: Seq<Seen>, all: Seq<Node>, d: Seq<Node>, ip: bool)
    ensures
        apply(m, replace_creates(o, all, d, ip)) == m.union_prefer_right(rep_map(o, all, d, ip)),
    decreases d.len(),
{
    if d.len() == 0 {
        assert(m.union_prefer_right(rep_map(o, all, d, ip)) =~= m);
    } else {
        let dl = d.drop_last();
        lemma_replace_creates_effect(m, o, all, dl, ip);
        if replaced(o, all, d.last(), ip) {
            assert(replace_creates(o, all, d, ip).drop_last() =~= replace_creates(o, all, dl, ip));
        }
        assert(apply(m, replace_creates(o, all, d, ip)) =~= m.union_prefer_right(
            rep_map(o, all, d, ip),
        ));
    }
}

proof fn lemma_replaced_deletes_keys(o: Seq<Seen>, all: Seq<Node>, d: Seq<Node>, ip: bool)
    ensures
        all_deletes(replaced_deletes(o, all, d, ip)),
        keys_of(replaced_deletes(o, all, d, ip)) == rep_map(o, all, d, ip).dom(),
    decreases d.len(),
{
    if d.len() == 0 {
        assert(rep_map(o, all, d, ip).dom() =~= Set::<Key>::empty());
    } else {
        let dl = d.drop_last();
        lemma_replaced_deletes_keys(o, all, dl, ip);
        let rest = replaced_deletes(o, all, dl, ip);
        let cur = replaced_deletes(o, all, d, ip);
        if replaced(o, all, d.last(), ip) {
            assert(cur.drop_last() =~= rest);
            assert forall|i: int| 0 <= i < cur.len() implies (#[trigger] cur[i]) is Delete by {
                if i < rest.len() {
                    assert(cur[i] == rest[i]);
                }
            }
        }
        assert(keys_of(cur) =~= rep_map(o, all, d, ip).dom());
    }
}

proof fn lemma_observed_deletes_keys(o: Seq<Seen>, d: Seq<Node>)
    requires
        seen_wf(o),
    ensures
        all_deletes(observed_deletes(o, d)),
        keys_of(observed_deletes(o, d)) == delete_set(o, d),
    decreases o.len(),
{
    if o.len() == 0 {
        assert(delete_set(o, d) =~= Set::<Key>::empty());
    } else {
        let ol = o.drop_last();
        let e = o.last();
        assert(seen_wf(ol)) by {
            assert forall|i: int, j: int| 0 <= i < j < ol.len() implies seen_key(#[trigger] ol[i])
                != seen_key(#[trigger] ol[j]) && rank(ol[i].kind) <= rank(ol[j].kind) && (ol[i].kind
                == ol[j].kind ==> lex_lt(ol[i].identity@, ol[j].identity@)) by {
                assert(ol[i] == o[i] && ol[j] == o[j]);
            }
        }
        assert forall|i: int| 0 <= i < ol.len() implies seen_key(#[trigger] ol[i]) != seen_key(
            e,
        ) by {
            assert(ol[i] == o[i]);
        }
        lemma_lookup_seen_absent(ol, seen_key(e));
        lemma_observed_deletes_keys(ol, d);
        let rest = observed_deletes(ol, d);
        let cur = observed_deletes(o, d);
        if needs_delete(e, d) {
            assert(cur.drop_last() =~= rest);
            assert forall|i: int| 0 <= i < cur.len() implies (#[trigger] cur[i]) is Delete by {
                if i < rest.len() {
                    assert(cur[i] == rest[i]);
                }
            }
        }
        assert(keys_of(cur) =~= delete_set(o, d));
    }
}

proof fn lemma_updates_effect(m: State, o: Seq<Seen>, d: Seq<Node>, ip: bool)
    requires
        nodes_wf(d),
        forall|k: Key|
            #[trigger] known(o, k) ==> m.contains_key(k) && m[k] == lookup_seen(o, k)->Some_0,
    ensures
        apply(m, updates(o, d, ip)) == m.union_prefer_right(update_map(o, d)),
{
    let a = in_place_updates(o, d, ip);
    let b = dependents_first(replaced_deletes(o, d, d, ip));
    let c = replace_creates(o, d, d, ip);
    lemma_apply_concat(m, a + b, c);
    lemma_apply_concat(m, a, b);
    lemma_in_place_effect(m, o, d, ip);
    let m1 = m.union_prefer_right(part_map(o, d, ip, true));
    lemma_replaced_deletes_keys(o, d, d, ip);
    lemma_dependents_first(m1, replaced_deletes(o, d, d, ip));
    let rm = rep_map(o, d, d, ip);
    let m2 = m1.remove_keys(rm.dom());
    lemma_replace_creates_effect(m2, o, d, d, ip);
    lemma_rep_map(o, d, d, ip);
    assert forall|k: Key| rm.contains_key(k) && !needs_update(o, k, lookup(d, k)->Some_0) implies m.contains_key(k) && m[k] == Some(lookup(d, k)->Some_0) by {
        assert(known(o, k));
    }
    let um = update_map(o, d);
    let pt = part_map(o, d, ip, true);
    assert forall|k: Key|
        #[trigger] m2.union_prefer_right(rm).contains_key(k) == m.union_prefer_right(um).contains_key(
            k,
        ) && (m2.union_prefer_right(rm).contains_key(k) ==> m2.union_prefer_right(rm)[k]
            == m.union_prefer_right(um)[k]) by {
        if rm.contains_key(k) {
            if !needs_update(o, k, lookup(d, k)->Some_0) {
                assert(known(o, k));
            }
        } else if pt.contains_key(k) {
        } else if um.contains_key(k) {
            assert(rm.contains_key(k));
        }
    }
    assert(m2.union_prefer_right(rm) =~= m.union_prefer_right(um));
}

proof fn lemma_deletes_effect(m: State, o: Seq<Seen>, d: Seq<Node>)
    requires
        seen_wf(o),
    ensures
        apply(m, deletes(o, d)) == m.remove_keys(delete_set(o, d)),
{
    lemma_observed_deletes_keys(o, d);
    lemma_dependents_first(m, observed_deletes(o, d));
}

/// Applying the plan to the observed state gives every desired node its desired
/// fingerprint, removes every readable node that is not desired, and leaves every
/// unreadable node that is not desired untouched.
pub proof fn lemma_plan_reconciles(o: Seq<Seen>, d: Seq<Node>, opts: PlanOptions)
    requires
        seen_wf(o),
        nodes_wf(d),
    ensures
        apply(observed_state(o), plan_spec(o, d, opts)) == reconciled(o, d),
{
    let m0 = observed_state(o);
    let c = creates(o, d);
    let u = updates(o, d, opts.in_place_updates);
    let x = deletes(o, d);
    lemma_apply_concat(m0, c + u, x);
    lemma_apply_concat(m0, c, u);
    lemma_creates_effect(m0, o, d);
    let m1 = apply(m0, c);
    assert forall|k: Key| #[trigger] known(o, k) implies m1.contains_key(k) && m1[k] == lookup_seen(o, k)->Some_0 by {
        assert(!create_map(o, d).contains_key(k));
    }
    lemma_updates_effect(m1, o, d, opts.in_place_updates);
    let m2 = apply(m1, u);
    lemma_deletes_effect(m2, o, d);
    assert(apply(m0, plan_spec(o, d, opts)) =~= reconciled(o, d));
}

/// Convergence: when every observed node that could not be read is desired, one
/// application of the plan makes the observed state equal to the desired state.
pub proof fn lemma_convergence(o: Seq<Seen>, d: Seq<Node>, opts: PlanOptions)
    requires
        seen_wf(o),
        nodes_wf(d),
        forall|k: Key| lookup_seen(o, k) == Some(None::<u64>) ==> #[trigger] lookup(d, k) is Some,
    ensures
        apply(observed_state(o), plan_spec(o, d, opts)) == desired_state(d),
{
    lemma_plan_reconciles(o, d, opts);
    assert(reconciled(o, d) =~= desired_state(d));
}

proof fn lemma_nothing_to_create_or_update(
    o: Seq<Seen>,
    all: Seq<Node>,
    d: Seq<Node>,
    in_place: bool,
)
    requires
        forall|k: Key|
            #[trigger] lookup(all, k) is Some ==> lookup_seen(o, k) == Some(
                Some(lookup(all, k)->Some_0),
            ),
        forall|i: int|
            0 <= i < d.len() ==> lookup_seen(o, node_key(#[trigger] d[i])) == Some(
                Some(d[i].fingerprint),
            ),
    ensures
        creates(o, d) == Seq::<Change>::empty(),
        in_place_updates(o, d, in_place) == Seq::<Change>::empty(),
        replaced_deletes(o, all, d, in_place) == Seq::<Change>::empty(),
        replace_creates(o, all, d, in_place) == Seq::<Change>::empty(),
    decreases d.len(),
{
    if d.len() > 0 {
        let dl = d.drop_last();
        assert(lookup_seen(o, node_key(d[d.len() - 1])) == Some(Some(d[d.len() - 1].fingerprint)));
        assert forall|i: int| 0 <= i < dl.len() implies lookup_seen(o, node_key(#[trigger] dl[i]))
            == Some(Some(dl[i].fingerprint)) by {
            assert(dl[i] == d[i]);
        }
        lemma_nothing_to_create_or_update(o, all, dl, in_place);
    }
}

proof fn lemma_nothing_to_delete(o: Seq<Seen>, d: Seq<Node>)
    requires
        forall|i: int|
            0 <= i < o.len() && (#[trigger] o[i]).fingerprint is Some ==> lookup(
                d,
                seen_key(o[i]),
            ) is Some,
    ensures
        observed_deletes(o, d) == Seq::<Change>::empty(),
    decreases o.len(),
{
    if o.len() > 0 {
        let ol = o.drop_last();
        assert(o[o.len() - 1] == o.last());
        assert forall|i: int| 0 <= i < ol.len() && (#[trigger] ol[i]).fingerprint is Some implies lookup(
            d,
            seen_key(ol[i]),
        ) is Some by {
            assert(ol[i] == o[i]);
        }
        lemma_nothing_to_delete(ol, d);
    }
}

proof fn lemma_from_rank_empty(r: nat)
    ensures
        from_rank(Seq::<Change>::empty(), r) == Seq::<Change>::empty(),
    decreases 7 - r,
{
    if r < 7 {
        lemma_from_rank_empty(r + 1);
        assert(of_rank(Seq::<Change>::empty(), r) == Seq::<Change>::empty());
        assert(from_rank(Seq::<Change>::empty(), r) =~= Seq::<Change>::empty());
    }
}

/// At the desired state there is nothing to do: when the observed state equals the
/// desired state, the plan is empty.
pub proof fn lemma_plan_empty_at_desired(o: Seq<Seen>, d: Seq<Node>, opts: PlanOptions)
    requires
        seen_wf(o),
        nodes_wf(d),
        observed_state(o) == desired_state(d),
    ensures
        plan_spec(o, d, opts) == Seq::<Change>::empty(),
{
    assert forall|i: int| 0 <= i < d.len() implies lookup_seen(o, node_key(#[trigger] d[i]))
        == Some(Some(d[i].fingerprint)) by {
        lemma_lookup_at(d, i);
        assert(desired_state(d).contains_key(node_key(d[i])));
        assert(observed_state(o)[node_key(d[i])] == Some(d[i].fingerprint));
    }
    assert forall|i: int| 0 <= i < o.len() && (#[trigger] o[i]).fingerprint is Some implies lookup(
        d,
        seen_key(o[i]),
    ) is Some by {
        lemma_seen_present(o, i);
        assert(observed_state(o).contains_key(seen_key(o[i])));
    }
    assert forall|k: Key| #[trigger] lookup(d, k) is Some implies lookup_seen(o, k) == Some(
        Some(lookup(d, k)->Some_0),
    ) by {
        assert(desired_state(d).contains_key(k));
        assert(observed_state(o).contains_key(k));
        assert(observed_state(o)[k] == desired_state(d)[k]);
    }
    lemma_nothing_to_create_or_update(o, d, d, opts.in_place_updates);
    lemma_nothing_to_delete(o, d);
    lemma_from_rank_empty(0);
    assert(plan_spec(o, d, opts) =~= Seq::<Change>::empty());
}

/// Convergence within two rounds: after one application of the plan, planning again
/// against nodes observed in the state reached gives no change.
pub proof fn lemma_second_round_empty(
    o: Seq<Seen>,
    d: Seq<Node>,
    reached: Seq<Seen>,
    opts: PlanOptions,
)
    requires
        seen_wf(o),
        seen_wf(reached),
        nodes_wf(d),
        forall|k: Key| lookup_seen(o, k) == Some(None::<u64>) ==> #[trigger] lookup(d, k) is Some,
        observed_state(reached) == apply(observed_state(o), plan_spec(o, d, opts)),
    ensures
        plan_spec(reached, d, opts) == Seq::<Change>::empty(),
{
    lemma_convergence(o, d, opts);
    lemma_plan_empty_at_desired(reached, d, opts);
}

/// Determinism: planning from the same observed nodes to the same desired nodes always
/// gives the same sequence of changes.
pub proof fn lemma_plan_deterministic(
    o1: Seq<Seen>,
    d1: Seq<Node>,
    o2: Seq<Seen>,
    d2: Seq<Node>,
    opts: PlanOptions,
)
    requires
        o1 == o2,
        d1 == d2,
    ensures
        plan_spec(o1, d1, opts) == plan_spec(o2, d2, opts),
{
}

} // verus!
