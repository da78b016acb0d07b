use vstd::prelude::*;
use vstd::string::StringExecFns;

use crate::infra::{
    lemma_insert_keeps, lemma_node_index, lemma_node_present, lookup, node_key, InfraMap, Key,
    Node, NodeKind, PlanError,
};
use crate::schema::{columns_sorted, fingerprint, fingerprint_of, normalize, Column};

verus! {

/// A data model of one version: its name, the version as it appears in names (`0_0` for
/// version 0.0), whether it is the current version, and its columns.
#[derive(Debug)]
pub struct DataModel {
    pub name: String,
    pub version_tag: String,
    pub current: bool,
    pub columns: Vec<Column>,
}

/// Fingerprint of the nodes of a model that do not depend on its schema: its topic, its
/// sync job (replaced with its table rather than on its own) and its ingestion route.
pub const SCHEMALESS_FINGERPRINT: u64 = 0;

/// The fingerprint of the model's schema: that of its columns in normal form.
pub open spec fn schema_fingerprint(m: DataModel, fp: u64) -> bool {
    exists|n: Seq<Column>|
        n.to_multiset() == m.columns@.to_multiset() && columns_sorted(n) && fp
            == #[trigger] fingerprint_of(n)
}

pub open spec fn topic_name(m: DataModel) -> Seq<char> {
    m.name@ + "_"@ + m.version_tag@
}

/// The table of the current version bears the model's name; older versions add their tag.
pub open spec fn table_name(m: DataModel) -> Seq<char> {
    if m.current {
        m.name@
    } else {
        m.name@ + "_"@ + m.version_tag@
    }
}

pub open spec fn route_path(m: DataModel) -> Seq<char> {
    if m.current {
        "/ingest/"@ + m.name@
    } else {
        "/ingest/"@ + m.name@ + "/"@ + m.version_tag@
    }
}

/// The identities of a model's topic, table, sync job and ingestion route, in that order.
pub open spec fn model_keys(m: DataModel) -> Seq<Key> {
    seq![
        (NodeKind::Topic, topic_name(m)),
        (NodeKind::Table, table_name(m)),
        (NodeKind::SyncJob, table_name(m) + "->"@ + table_name(m)),
        (NodeKind::IngestionRoute, route_path(m)),
    ]
}

/// The nodes of a model: its topic, its table (with the schema's fingerprint), the sync job
/// from topic to table (which depends on the table) and its ingestion route.
pub open spec fn model_nodes_ok(m: DataModel, r: Seq<Node>) -> bool {
    &&& r.len() == 4
    &&& forall|t: int| 0 <= t < 4 ==> node_key(#[trigger] r[t]) == model_keys(m)[t]
    &&& r[0].fingerprint == SCHEMALESS_FINGERPRINT && r[0].parent is None
    &&& schema_fingerprint(m, r[1].fingerprint) && r[1].parent is None
    &&& r[2].fingerprint == SCHEMALESS_FINGERPRINT && r[2].parent is Some
        && r[2].parent->Some_0@ == table_name(m)
    &&& r[3].fingerprint == SCHEMALESS_FINGERPRINT && r[3].parent is None
}

/// The desired nodes of one data model.
pub fn model_nodes(m: &DataModel) -> (r: Vec<Node>)
    ensures
        model_nodes_ok(*m, r@),
{
    let normal = normalize(&m.columns);
    let fp = fingerprint(&normal);
    proof {
        reveal_strlit("_");
        reveal_strlit("->");
        reveal_strlit("/ingest/");
        reveal_strlit("/");
    }
    let topic = m.name.clone().concat("_").concat(m.version_tag.as_str());
    let table = if m.current {
        m.name.clone()
    } else {
        m.name.clone().concat("_").concat(m.version_tag.as_str())
    };
    let sync = table.clone().concat("->").concat(table.as_str());
    let route = if m.current {
        String::from_str("/ingest/").concat(m.name.as_str())
    } else {
        String::from_str("/ingest/").concat(m.name.as_str()).concat("/").concat(
            m.version_tag.as_str(),
        )
    };
    let parent = Some(table.clone());
    let mut r: Vec<Node> = Vec::new();
    r.push(
        Node {
            kind: NodeKind::Topic,
            identity: topic,
            fingerprint: SCHEMALESS_FINGERPRINT,
            parent: None,
        },
    );
    r.push(Node { kind: NodeKind::Table, identity: table, fingerprint: fp, parent: None });
    r.push(
        Node { kind: NodeKind::SyncJob, identity: sync, fingerprint: SCHEMALESS_FINGERPRINT, parent },
    );
    r.push(
        Node {
            kind: NodeKind::IngestionRoute,
            identity: route,
            fingerprint: SCHEMALESS_FINGERPRINT,
            parent: None,
        },
    );
    assert(node_key(r@[0]) == model_keys(*m)[0]);
    assert(node_key(r@[1]) == model_keys(*m)[1]);
    assert(node_key(r@[2]) == model_keys(*m)[2]);
    assert(node_key(r@[3]) == model_keys(*m)[3]);
    r
}

/// The identities of all the models' nodes, model after model.
pub open spec fn all_keys(models: Seq<DataModel>) -> Seq<Key>
    decreases models.len(),
{
    if models.len() == 0 {
        seq![]
    } else {
        all_keys(models.drop_last()) + model_keys(models.last())
    }
}

/// The identities are pairwise distinct and none is already in the map.
pub open spec fn fresh(old: Seq<Node>, ks: Seq<Key>) -> bool {
    &&& forall|x: int| 0 <= x < ks.len() ==> lookup(old, #[trigger] ks[x]) is None
    &&& forall|x: int, y: int| 0 <= x < y < ks.len() ==> #[trigger] ks[x] != #[trigger] ks[y]
}

proof fn lemma_all_keys_prefix(s: Seq<DataModel>, j: int)
    requires
        0 <= j <= s.len(),
    ensures
        all_keys(s.subrange(0, j)).len() == 4 * j,
        all_keys(s).len() == 4 * s.len(),
        all_keys(s).subrange(0, 4 * j) == all_keys(s.subrange(0, j)),
    decreases s.len(),
{
    if s.len() == 0 {
        assert(s.subrange(0, j) =~= s);
    } else if j == s.len() {
        assert(s.subrange(0, j) =~= s);
        lemma_all_keys_prefix(s.drop_last(), j - 1);
        assert(all_keys(s).subrange(0, 4 * j) =~= all_keys(s));
    } else {
        let dl = s.drop_last();
        lemma_all_keys_prefix(dl, j);
        assert(dl.subrange(0, j) =~= s.subrange(0, j));
        assert(all_keys(s).subrange(0, 4 * j) =~= all_keys(dl).subrange(0, 4 * j));
    }
}

/// Inserting a node adds exactly its identity to those of the sequence.
proof fn lemma_insert_only(d: Seq<Node>, p: int, n: Node, k: Key)
    requires
        0 <= p <= d.len(),
    ensures
        lookup(d.insert(p, n), k) is Some <==> (lookup(d, k) is Some || k == node_key(n)),
{
    let t = d.insert(p, n);
    if lookup(d, k) is Some || k == node_key(n) {
        lemma_insert_keeps(d, p, n, k);
    }
    if lookup(t, k) is Some {
        let j = lemma_node_index(t, k);
        if j < p {
            assert(t[j] == d[j]);
            lemma_node_present(d, j);
        } else if j > p {
            assert(t[j] == d[j - 1]);
            lemma_node_present(d, j - 1);
        }
    }
}

/// Adds the nodes of every model to a desired map. It succeeds exactly when the models'
/// identities are pairwise distinct and none is already in the map; then the map keeps
/// every node it had and holds every model's nodes. Otherwise it fails at the first clash.
pub fn add_models(map: &mut InfraMap, models: &Vec<DataModel>) -> (r: Result<(), PlanError>)
    requires
        old(map).wf(),
    ensures
        final(map).wf(),
        r is Ok <==> fresh(old(map)@, all_keys(models@)),
        r is Err ==> r->Err_0 == PlanError::DuplicateIdentity,
        r is Ok ==> forall|k: Key|
            #[trigger] lookup(final(map)@, k) is Some <==> (lookup(old(map)@, k) is Some
                || all_keys(models@).contains(k)),
{
    let ghost base = map@;
    let ghost every = all_keys(models@);
    proof {
        lemma_all_keys_prefix(models@, 0);
        assert(models@.subrange(0, 0) =~= Seq::<DataModel>::empty());
    }
    let mut i: usize = 0;
    while i < models.len()
        invariant
            i <= models@.len(),
            base == old(map)@,
            every == all_keys(models@),
            every.len() == 4 * models@.len(),
            map.wf(),
            fresh(base, all_keys(models@.subrange(0, i as int))),
            every.subrange(0, 4 * i) == all_keys(models@.subrange(0, i as int)),
            forall|k: Key|
                #[trigger] lookup(map@, k) is Some <==> (lookup(base, k) is Some || all_keys(
                    models@.subrange(0, i as int),
                ).contains(k)),
        decreases models@.len() - i,
    {
        let ghost done = all_keys(models@.subrange(0, i as int));
        let ghost mk = model_keys(models@[i as int]);
        proof {
            lemma_all_keys_prefix(models@, i as int);
            lemma_all_keys_prefix(models@, i + 1);
            assert(models@.subrange(0, i + 1).drop_last() =~= models@.subrange(0, i as int));
            assert(all_keys(models@.subrange(0, i + 1)) == done + mk);
        }
        let nodes = model_nodes(&models[i]);
        let ghost all = nodes@;
        let mut rest = nodes;
        let mut k: usize = 0;
        assert(done + mk.subrange(0, 0) =~= done);
        while rest.len() > 0
            invariant
                map.wf(),
                i < models@.len(),
                k + rest@.len() == 4,
                done.len() == 4 * i,
                mk.len() == 4,
                all.len() == 4,
                mk == model_keys(models@[i as int]),
                forall|t: int| 0 <= t < 4 ==> node_key(#[trigger] all[t]) == mk[t],
                rest@ == all.subrange(k as int, 4),
                every == all_keys(models@),
                base == old(map)@,
                every.len() == 4 * models@.len(),
                every.subrange(0, 4 * i + 4) == done + mk,
                fresh(base, done + mk.subrange(0, k as int)),
                forall|key: Key|
                    #[trigger] lookup(map@, key) is Some <==> (lookup(base, key) is Some || (done
                        + mk.subrange(0, k as int)).contains(key)),
            decreases rest@.len(),
        {
            let n = rest.remove(0);
            assert(n == all[k as int]);
            assert(rest@ =~= all.subrange(k + 1, 4));
            let ghost before = map@;
            let ghost x = mk[k as int];
            let ghost ks = done + mk.subrange(0, k as int);
            let ghost ks1 = done + mk.subrange(0, k + 1);
            assert(ks1 =~= ks.push(x));
            assert(every[4 * i + k] == x) by {
                assert((done + mk)[4 * i + k] == mk[k as int]);
                assert(every.subrange(0, 4 * i + 4)[4 * i + k] == every[4 * i + k]);
            }
            assert(node_key(all[k as int]) == x);
            match map.insert(n) {
                Ok(()) => {
                    proof {
                        let p = choose|p: int|
                            0 <= p <= before.len() && map@ == before.insert(p, all[k as int]) && (
                            forall|y: int|
                                0 <= y < p ==> crate::infra::precedes(
                                    (#[trigger] before[y]).kind,
                                    before[y].identity@,
                                    all[k as int].kind,
                                    all[k as int].identity@,
                                )) && (forall|y: int|
                                p <= y < before.len() ==> crate::infra::precedes(
                                    all[k as int].kind,
                                    all[k as int].identity@,
                                    (#[trigger] before[y]).kind,
                                    before[y].identity@,
                                ));
                        assert forall|key: Key| #[trigger] lookup(map@, key) is Some <==> (lookup(
                            base,
                            key,
                        ) is Some || ks1.contains(key)) by {
                            lemma_insert_only(before, p, all[k as int], key);
                            if key == x {
                                assert(ks1[ks.len() as int] == x);
                            }
                            if ks1.contains(key) && !ks.contains(key) {
                                let w = choose|w: int| 0 <= w < ks1.len() && ks1[w] == key;
                                assert(w == ks.len());
                            }
                            if ks.contains(key) {
                                let w = choose|w: int| 0 <= w < ks.len() && ks[w] == key;
                                assert(ks1[w] == key);
                            }
                        }
                        assert(lookup(base, x) is None) by {
                            assert(!ks.contains(x));
                        }
                        assert forall|y: int| 0 <= y < ks.len() implies ks[y] != x by {
                            assert(lookup(before, ks[y]) is Some);
                        }
                        assert(fresh(base, ks1)) by {
                            assert forall|a: int, b: int| 0 <= a < b < ks1.len() implies #[trigger] ks1[a]
                                != #[trigger] ks1[b] by {
                                if b == ks.len() {
                                    assert(ks1[a] == ks[a]);
                                } else {
                                    assert(ks1[a] == ks[a] && ks1[b] == ks[b]);
                                }
                            }
                            assert forall|a: int| 0 <= a < ks1.len() implies lookup(base, #[trigger] ks1[a]) is None by {
                                if a < ks.len() {
                                    assert(ks1[a] == ks[a]);
                                }
                            }
                        }
                    }
                },
                Err(e) => {
                    proof {
                        assert(lookup(before, x) is Some);
                        assert(every.subrange(0, 4 * i + 4)[4 * i + k] == x);
                        if lookup(base, x) is None {
                            let w = choose|w: int| 0 <= w < ks.len() && ks[w] == x;
                            assert(ks[w] == (done + mk)[w]);
                            assert(every.subrange(0, 4 * i + 4)[w] == every[w]);
                            assert(every[w] == x);
                            assert(!fresh(base, every));
                        } else {
                            assert(!fresh(base, every));
                        }
                    }
                    return Err(e);
                },
            }
            k = k + 1;
        }
        proof {
            assert(mk.subrange(0, 4) =~= mk);
        }
        i = i + 1;
    }
    proof {
        assert(models@.subrange(0, models@.len() as int) =~= models@);
    }
    Ok(())
}

/// The identities of a sequence of nodes.
pub open spec fn keys_of_nodes(ns: Seq<Node>) -> Seq<Key> {
    ns.map_values(|n: Node| node_key(n))
}

/// Adds nodes to a desired map, in order. It succeeds exactly when their identities are
/// pairwise distinct and none is already in the map; then the map holds exactly its former
/// identities and theirs.
pub fn add_nodes(map: &mut InfraMap, nodes: Vec<Node>) -> (r: Result<(), PlanError>)
    requires
        old(map).wf(),
    ensures
        final(map).wf(),
        r is Ok <==> fresh(old(map)@, keys_of_nodes(nodes@)),
        r is Err ==> r->Err_0 == PlanError::DuplicateIdentity,
        r is Ok ==> forall|k: Key|
            #[trigger] lookup(final(map)@, k) is Some <==> (lookup(old(map)@, k) is Some
                || keys_of_nodes(nodes@).contains(k)),
{
    let ghost base = map@;
    let ghost all = nodes@;
    let ghost ks_all = keys_of_nodes(nodes@);
    let total = nodes.len();
    let mut rest = nodes;
    let mut k: usize = 0;
    assert(ks_all.subrange(0, 0) =~= Seq::<Key>::empty());
    assert(rest@ =~= all.subrange(0, all.len() as int));
    while rest.len() > 0
        invariant
            map.wf(),
            base == old(map)@,
            ks_all == keys_of_nodes(all),
            all == nodes@,
            all.len() == total,
            k + rest@.len() == all.len(),
            rest@ == all.subrange(k as int, all.len() as int),
            fresh(base, ks_all.subrange(0, k as int)),
            forall|key: Key|
                #[trigger] lookup(map@, key) is Some <==> (lookup(base, key) is Some
                    || ks_all.subrange(0, k as int).contains(key)),
        decreases rest@.len(),
    {
        let n = rest.remove(0);
        assert(n == all[k as int]);
        assert(rest@ =~= all.subrange(k + 1, all.len() as int));
        let ghost before = map@;
        let ghost x = ks_all[k as int];
        let ghost ks = ks_all.subrange(0, k as int);
        let ghost ks1 = ks_all.subrange(0, k + 1);
        assert(ks1 =~= ks.push(x));
        assert(node_key(all[k as int]) == x);
        match map.insert(n) {
            Ok(()) => {
                proof {
                    let p = choose|p: int|
                        0 <= p <= before.len() && map@ == before.insert(p, all[k as int]) && (
                        forall|y: int|
                            0 <= y < p ==> crate::infra::precedes(
                                (#[trigger] before[y]).kind,
                                before[y].identity@,
                                all[k as int].kind,
                                all[k as int].identity@,
                            )) && (forall|y: int|
                            p <= y < before.len() ==> crate::infra::precedes(
                                all[k as int].kind,
                                all[k as int].identity@,
                                (#[trigger] before[y]).kind,
                                before[y].identity@,
                            ));
                    assert forall|key: Key| #[trigger] lookup(map@, key) is Some <==> (lookup(
                        base,
                        key,
                    ) is Some || ks1.contains(key)) by {
                        lemma_insert_only(before, p, all[k as int], key);
                        if key == x {
                            assert(ks1[ks.len() as int] == x);
                        }
                        if ks1.contains(key) && !ks.contains(key) {
                            let w = choose|w: int| 0 <= w < ks1.len() && ks1[w] == key;
                            assert(w == ks.len());
                        }
                        if ks.contains(key) {
                            let w = choose|w: int| 0 <= w < ks.len() && ks[w] == key;
                            assert(ks1[w] == key);
                        }
                    }
                    assert(lookup(base, x) is None) by {
                        assert(!ks.contains(x));
                    }
                    assert forall|y: int| 0 <= y < ks.len() implies ks[y] != x by {
                        assert(lookup(before, ks[y]) is Some);
                    }
                    assert forall|a: int, b: int| 0 <= a < b < ks1.len() implies #[trigger] ks1[a]
                        != #[trigger] ks1[b] by {
                        if b == ks.len() {
                            assert(ks1[a] == ks[a]);
                        } else {
                            assert(ks1[a] == ks[a] && ks1[b] == ks[b]);
                        }
                    }
                    assert forall|a: int| 0 <= a < ks1.len() implies lookup(base, #[trigger] ks1[a]) is None by {
                        if a < ks.len() {
                            assert(ks1[a] == ks[a]);
                        }
                    }
                }
            },
            Err(e) => {
                proof {
                    assert(lookup(before, x) is Some);
                    if lookup(base, x) is None {
                        let w = choose|w: int| 0 <= w < ks.len() && ks[w] == x;
                        assert(ks_all[w] == ks_all[k as int]);
                        assert(!fresh(base, ks_all));
                    } else {
                        assert(lookup(base, ks_all[k as int]) is Some);
                        assert(!fresh(base, ks_all));
                    }
                }
                return Err(e);
            },
        }
        k = k + 1;
    }
    assert(ks_all.subrange(0, ks_all.len() as int) =~= ks_all);
    Ok(())
}

/// The worker of a version sync: a sync job from the source version's table to the target
/// version's table, replaced with the target table.
pub fn version_sync_node(source_table: &String, target_table: &String) -> (r: Node)
    ensures
        r.kind == NodeKind::SyncJob,
        r.identity@ == source_table@ + "->"@ + target_table@,
        r.fingerprint == SCHEMALESS_FINGERPRINT,
        r.parent is Some && r.parent->Some_0@ == target_table@,
{
    proof {
        reveal_strlit("->");
    }
    Node {
        kind: NodeKind::SyncJob,
        identity: source_table.clone().concat("->").concat(target_table.as_str()),
        fingerprint: SCHEMALESS_FINGERPRINT,
        parent: Some(target_table.clone()),
    }
}

/// The model inventory: each model's table name with the fingerprint of its schema.
pub fn inventory(models: &Vec<DataModel>) -> (r: Vec<(String, u64)>)
    ensures
        r@.len() == models@.len(),
        forall|i: int|
            0 <= i < r@.len() ==> (#[trigger] r@[i]).0@ == table_name(models@[i])
                && schema_fingerprint(models@[i], r@[i].1),
{
    let mut r: Vec<(String, u64)> = Vec::new();
    let mut i: usize = 0;
    while i < models.len()
        invariant
            i <= models@.len(),
            r@.len() == i,
            forall|j: int|
                0 <= j < i ==> (#[trigger] r@[j]).0@ == table_name(models@[j])
                    && schema_fingerprint(models@[j], r@[j].1),
        decreases models@.len() - i,
    {
        let nodes = model_nodes(&models[i]);
        let table = &nodes[1];
        assert(node_key(nodes@[1]) == model_keys(models@[i as int])[1]);
        r.push((table.identity.clone(), table.fingerprint));
        i = i + 1;
    }
    r
}

} // verus!
