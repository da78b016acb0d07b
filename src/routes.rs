use vstd::prelude::*;

use crate::infra::NodeKind;
use crate::plan::Change;

verus! {

/// What the web server knows of one HTTP route.
#[derive(Debug)]
pub struct RouteMeta {
    pub model_name: String,
    pub version: String,
    pub topic: String,
    pub columns: Vec<String>,
    pub file_path: String,
}

/// A route of the table: its path and its metadata.
#[derive(Debug)]
pub struct Route {
    pub path: String,
    pub meta: RouteMeta,
}

#[derive(Clone, Copy, Debug, PartialEq, Eq, Structural)]
pub enum RouteOp {
    Add,
    Remove,
    Replace,
}

/// A notice to the web server that the route table changed at a path.
#[derive(Debug)]
pub struct RouteUpdate {
    pub op: RouteOp,
    pub path: String,
    /// The route's metadata: the new one for an addition or a replacement, the removed one
    /// for a removal.
    pub meta: RouteMeta,
}

/// Two metadata records say the same thing.
pub open spec fn same_meta(a: RouteMeta, b: RouteMeta) -> bool {
    &&& a.model_name@ == b.model_name@
    &&& a.version@ == b.version@
    &&& a.topic@ == b.topic@
    &&& a.file_path@ == b.file_path@
    &&& a.columns@.len() == b.columns@.len()
    &&& forall|i: int| 0 <= i < a.columns@.len() ==> (#[trigger] a.columns@[i])@ == b.columns@[i]@
}

fn copy_meta(m: &RouteMeta) -> (r: RouteMeta)
    ensures
        same_meta(r, *m),
{
    let mut columns: Vec<String> = Vec::new();
    let mut i: usize = 0;
    while i < m.columns.len()
        invariant
            i <= m.columns@.len(),
            columns@.len() == i,
            forall|j: int| 0 <= j < i ==> (#[trigger] columns@[j])@ == m.columns@[j]@,
        decreases m.columns@.len() - i,
    {
        columns.push(m.columns[i].clone());
        i = i + 1;
    }
    RouteMeta {
        model_name: m.model_name.clone(),
        version: m.version.clone(),
        topic: m.topic.clone(),
        columns,
        file_path: m.file_path.clone(),
    }
}

#[derive(Clone, Copy, Debug, PartialEq, Eq, Structural)]
pub enum RouteError {
    /// A route with this path is already in the table.
    Collision,
    /// No route with this path is in the table.
    NotFound,
}

pub open spec fn route_lookup(s: Seq<Route>, p: Seq<char>) -> Option<RouteMeta>
    decreases s.len(),
{
    if s.len() == 0 {
        None
    } else if s.last().path@ == p {
        Some(s.last().meta)
    } else {
        route_lookup(s.drop_last(), p)
    }
}

pub open spec fn routes_unique(s: Seq<Route>) -> bool {
    forall|i: int, j: int| 0 <= i < j < s.len() ==> (#[trigger] s[i]).path@ != (#[trigger] s[j]).path@
}

/// The effect of a route update on the table, when it succeeds.
pub open spec fn route_effect(
    m: Map<Seq<char>, RouteMeta>,
    op: RouteOp,
    p: Seq<char>,
    meta: RouteMeta,
) -> Map<Seq<char>, RouteMeta> {
    match op {
        RouteOp::Add => m.insert(p, meta),
        RouteOp::Replace => m.insert(p, meta),
        RouteOp::Remove => m.remove(p),
    }
}

/// Whether a route update succeeds on the table: an addition needs a free path, a removal
/// or a replacement an occupied one.
pub open spec fn route_update_ok(m: Map<Seq<char>, RouteMeta>, op: RouteOp, p: Seq<char>) -> bool {
    match op {
        RouteOp::Add => !m.contains_key(p),
        _ => m.contains_key(p),
    }
}

/// The effect of a sequence of successful route updates.
pub open spec fn route_effects(
    m: Map<Seq<char>, RouteMeta>,
    ups: Seq<(RouteOp, Seq<char>, RouteMeta)>,
) -> Map<Seq<char>, RouteMeta>
    decreases ups.len(),
{
    if ups.len() == 0 {
        m
    } else {
        let u = ups.last();
        route_effect(route_effects(m, ups.drop_last()), u.0, u.1, u.2)
    }
}

proof fn lemma_route_absent(s: Seq<Route>, p: Seq<char>)
    requires
        forall|i: int| 0 <= i < s.len() ==> (#[trigger] s[i]).path@ != p,
    ensures
        route_lookup(s, p) is None,
    decreases s.len(),
{
    if s.len() > 0 {
        assert(s[s.len() - 1].path@ != p);
        assert forall|i: int| 0 <= i < s.drop_last().len() implies (
        #[trigger] s.drop_last()[i]).path@ != p by {
            assert(s.drop_last()[i] == s[i]);
        }
        lemma_route_absent(s.drop_last(), p);
    }
}

proof fn lemma_route_present(s: Seq<Route>, p: Seq<char>) -> (j: int)
    requires
        route_lookup(s, p) is Some,
    ensures
        0 <= j < s.len(),
        s[j].path@ == p,
        route_lookup(s, p) == Some(s[j].meta),
    decreases s.len(),
{
    if s.last().path@ == p {
        s.len() - 1
    } else {
        let j = lemma_route_present(s.drop_last(), p);
        assert(s.drop_last()[j] == s[j]);
        j
    }
}

proof fn lemma_route_at(s: Seq<Route>, i: int)
    requires
        routes_unique(s),
        0 <= i < s.len(),
    ensures
        route_lookup(s, s[i].path@) == Some(s[i].meta),
    decreases s.len(),
{
    if i != s.len() - 1 {
        assert(s[i].path@ != s[s.len() - 1].path@);
        assert(s.drop_last()[i] == s[i]);
        assert(routes_unique(s.drop_last())) by {
            assert forall|a: int, b: int| 0 <= a < b < s.drop_last().len() implies (
            #[trigger] s.drop_last()[a]).path@ != (#[trigger] s.drop_last()[b]).path@ by {
                assert(s.drop_last()[a] == s[a] && s.drop_last()[b] == s[b]);
            }
        }
        lemma_route_at(s.drop_last(), i);
    }
}

/// Routes stay served: a route in the table is still there after any sequence of
/// successful updates none of which removes its path.
pub proof fn lemma_route_stays(
    m: Map<Seq<char>, RouteMeta>,
    p: Seq<char>,
    ups: Seq<(RouteOp, Seq<char>, RouteMeta)>,
)
    requires
        m.contains_key(p),
        forall|i: int| 0 <= i < ups.len() ==> !((#[trigger] ups[i]).0 == RouteOp::Remove && ups[i].1 == p),
    ensures
        route_effects(m, ups).contains_key(p),
    decreases ups.len(),
{
    if ups.len() > 0 {
        let rest = ups.drop_last();
        assert forall|i: int| 0 <= i < rest.len() implies !((#[trigger] rest[i]).0 == RouteOp::Remove
            && rest[i].1 == p) by {
            assert(rest[i] == ups[i]);
        }
        assert(ups[ups.len() - 1] == ups.last());
        lemma_route_stays(m, p, rest);
    }
}

/// Kinds of node that are served as HTTP routes.
pub open spec fn is_route_kind(k: NodeKind) -> bool {
    k == NodeKind::IngestionRoute || k == NodeKind::ConsumptionApi
}

/// The route update that a change of a route node gives, if any.
pub open spec fn route_op_spec(c: Change) -> Option<RouteOp> {
    match c {
        Change::Create { kind, .. } => if is_route_kind(kind) {
            Some(RouteOp::Add)
        } else {
            None
        },
        Change::Update { kind, .. } => if is_route_kind(kind) {
            Some(RouteOp::Replace)
        } else {
            None
        },
        Change::Delete { kind, .. } => if is_route_kind(kind) {
            Some(RouteOp::Remove)
        } else {
            None
        },
    }
}

/// The route update to make for a change: creating, updating or deleting an ingestion route
/// or a consumption API adds, replaces or removes its route; other changes touch no route.
pub fn route_op_for(change: &Change) -> (r: Option<RouteOp>)
    ensures
        r == route_op_spec(*change),
{
    let (kind, op) = match change {
        Change::Create { kind, .. } => (*kind, RouteOp::Add),
        Change::Update { kind, .. } => (*kind, RouteOp::Replace),
        Change::Delete { kind, .. } => (*kind, RouteOp::Remove),
    };
    match kind {
        NodeKind::IngestionRoute | NodeKind::ConsumptionApi => Some(op),
        _ => None,
    }
}

/// The table from HTTP path to route metadata; paths are unique and case-sensitive.
pub struct RouteTable {
    routes: Vec<Route>,
}

impl View for RouteTable {
    type V = Map<Seq<char>, RouteMeta>;

    closed spec fn view(&self) -> Map<Seq<char>, RouteMeta> {
        Map::new(
            |p: Seq<char>| route_lookup(self.routes@, p) is Some,
            |p: Seq<char>| route_lookup(self.routes@, p)->Some_0,
        )
    }
}

impl RouteTable {
    pub closed spec fn wf(&self) -> bool {
        routes_unique(self.routes@)
    }

    pub fn new() -> (r: Self)
        ensures
            r.wf(),
            r@ == Map::<Seq<char>, RouteMeta>::empty(),
    {
        let r = RouteTable { routes: Vec::new() };
        assert(r@ =~= Map::<Seq<char>, RouteMeta>::empty());
        r
    }

    fn find(&self, path: &String) -> (r: Option<usize>)
        requires
            self.wf(),
        ensures
            r is None ==> !self@.contains_key(path@),
            r is Some ==> r->Some_0 < self.routes@.len() && self.routes@[r->Some_0 as int].path@
                == path@ && self@.contains_key(path@),
    {
        let mut i: usize = 0;
        while i < self.routes.len()
            invariant
                i <= self.routes@.len(),
                self.wf(),
                forall|j: int| 0 <= j < i ==> (#[trigger] self.routes@[j]).path@ != path@,
            decreases self.routes@.len() - i,
        {
            if self.routes[i].path == *path {
                proof {
                    lemma_route_at(self.routes@, i as int);
                }
                return Some(i);
            }
            i = i + 1;
        }
        proof {
            lemma_route_absent(self.routes@, path@);
        }
        None
    }

    /// The route of a path, if the table has one.
    pub fn get(&self, path: &String) -> (r: Option<&RouteMeta>)
        requires
            self.wf(),
        ensures
            r is None ==> !self@.contains_key(path@),
            r is Some ==> self@.contains_key(path@) && *r->Some_0 == self@[path@],
    {
        match self.find(path) {
            None => None,
            Some(i) => {
                proof {
                    lemma_route_at(self.routes@, i as int);
                }
                Some(&self.routes[i].meta)
            },
        }
    }

    /// Adds a route; the table changes before the update to announce is handed back.
    /// Fails, leaving the table as it was, when the path is taken.
    pub fn add(&mut self, path: String, meta: RouteMeta) -> (r: Result<RouteUpdate, RouteError>)
        requires
            old(self).wf(),
        ensures
            final(self).wf(),
            r is Ok <==> route_update_ok(old(self)@, RouteOp::Add, path@),
            r is Ok ==> final(self)@ == route_effect(old(self)@, RouteOp::Add, path@, meta)
                && r->Ok_0.op == RouteOp::Add && r->Ok_0.path@ == path@ && same_meta(
                r->Ok_0.meta,
                meta,
            ),
            r is Err ==> r->Err_0 == RouteError::Collision && final(self)@ == old(self)@,
    {
        if self.find(&path).is_some() {
            return Err(RouteError::Collision);
        }
        let ghost before = self.routes@;
        let update_path = path.clone();
        let update_meta = copy_meta(&meta);
        self.routes.push(Route { path, meta });
        proof {
            let after = self.routes@;
            assert(after.drop_last() =~= before);
            assert forall|i: int, j: int| 0 <= i < j < after.len() implies (#[trigger] after[i]).path@
                != (#[trigger] after[j]).path@ by {
                if j == after.len() - 1 {
                    assert(after[i] == before[i]);
                    lemma_route_at(before, i);
                } else {
                    assert(after[i] == before[i] && after[j] == before[j]);
                }
            }
            assert(self@ =~= old(self)@.insert(update_path@, meta));
        }
        Ok(RouteUpdate { op: RouteOp::Add, path: update_path, meta: update_meta })
    }

    fn take(&mut self, path: &String) -> (r: Option<Route>)
        requires
            old(self).wf(),
        ensures
            final(self).wf(),
            r is None ==> !old(self)@.contains_key(path@) && final(self)@ == old(self)@,
            r is Some ==> old(self)@.contains_key(path@) && final(self)@ == old(self)@.remove(path@)
                && r->Some_0.meta == old(self)@[path@],
    {
        match self.find(path) {
            None => None,
            Some(i) => {
                let ghost before = self.routes@;
                proof {
                    lemma_route_at(before, i as int);
                }
                let route = self.routes.remove(i);
                proof {
                    let after = self.routes@;
                    assert(after == before.remove(i as int));
                    assert forall|a: int, b: int| 0 <= a < b < after.len() implies (
                    #[trigger] after[a]).path@ != (#[trigger] after[b]).path@ by {
                        let a0 = if a < i { a } else { a + 1 };
                        let b0 = if b < i { b } else { b + 1 };
                        assert(after[a] == before[a0] && after[b] == before[b0]);
                    }
                    assert forall|p: Seq<char>| #[trigger] route_lookup(after, p) == (if p
                        == path@ {
                        None
                    } else {
                        route_lookup(before, p)
                    }) by {
                        if p == path@ {
                            assert forall|a: int| 0 <= a < after.len() implies (
                            #[trigger] after[a]).path@ != p by {
                                let a0 = if a < i { a } else { a + 1 };
                                assert(after[a] == before[a0]);
                            }
                            lemma_route_absent(after, p);
                        } else if route_lookup(before, p) is Some {
                            let j = lemma_route_present(before, p);
                            let j1 = if j < i { j } else { j - 1 };
                            assert(after[j1] == before[j]);
                            lemma_route_at(before, j);
                            lemma_route_at(after, j1);
                        } else {
                            assert forall|a: int| 0 <= a < after.len() implies (
                            #[trigger] after[a]).path@ != p by {
                                let a0 = if a < i { a } else { a + 1 };
                                assert(after[a] == before[a0]);
                                if before[a0].path@ == p {
                                    lemma_route_at(before, a0);
                                }
                            }
                            lemma_route_absent(after, p);
                        }
                    }
                    assert(self@ =~= old(self)@.remove(path@));
                }
                Some(route)
            },
        }
    }

    /// Removes the route of a path. Fails, leaving the table as it was, when there is none.
    pub fn remove(&mut self, path: &String) -> (r: Result<RouteUpdate, RouteError>)
        requires
            old(self).wf(),
        ensures
            final(self).wf(),
            r is Ok <==> route_update_ok(old(self)@, RouteOp::Remove, path@),
            r is Ok ==> final(self)@ == old(self)@.remove(path@) && r->Ok_0.op == RouteOp::Remove
                && r->Ok_0.path@ == path@ && r->Ok_0.meta == old(self)@[path@],
            r is Err ==> r->Err_0 == RouteError::NotFound && final(self)@ == old(self)@,
    {
        match self.take(path) {
            None => Err(RouteError::NotFound),
            Some(route) => Ok(RouteUpdate { op: RouteOp::Remove, path: path.clone(), meta: route.meta }),
        }
    }

    /// Replaces the route of a path. Fails, leaving the table as it was, when there is none.
    pub fn replace(&mut self, path: String, meta: RouteMeta) -> (r: Result<RouteUpdate, RouteError>)
        requires
            old(self).wf(),
        ensures
            final(self).wf(),
            r is Ok <==> route_update_ok(old(self)@, RouteOp::Replace, path@),
            r is Ok ==> final(self)@ == route_effect(old(self)@, RouteOp::Replace, path@, meta)
                && r->Ok_0.op == RouteOp::Replace && r->Ok_0.path@ == path@ && same_meta(
                r->Ok_0.meta,
                meta,
            ),
            r is Err ==> r->Err_0 == RouteError::NotFound && final(self)@ == old(self)@,
    {
        match self.take(&path) {
            None => Err(RouteError::NotFound),
            Some(_) => {
                let ghost mid = self@;
                let added = self.add(path, meta);
                match added {
                    Ok(u) => {
                        assert(self@ =~= old(self)@.insert(u.path@, meta));
                        Ok(RouteUpdate { op: RouteOp::Replace, path: u.path, meta: u.meta })
                    },
                    Err(_) => {
                        assert(false);
                        Err(RouteError::NotFound)
                    },
                }
            },
        }
    }
}

} // verus!
