use vstd::prelude::*;

verus! {

/// How to launch a child process: the program and its arguments.
#[derive(Debug)]
pub struct ProcessSpec {
    pub program: String,
    pub args: Vec<String>,
}

/// Two specs launch the same command line.
pub open spec fn same_spec(a: ProcessSpec, b: ProcessSpec) -> bool {
    &&& a.program@ == b.program@
    &&& a.args@.len() == b.args@.len()
    &&& forall|i: int| 0 <= i < a.args@.len() ==> (#[trigger] a.args@[i])@ == b.args@[i]@
}

/// Compares two specs by their command lines.
pub fn specs_match(a: &ProcessSpec, b: &ProcessSpec) -> (r: bool)
    ensures
        r == same_spec(*a, *b),
{
    if a.program != b.program || a.args.len() != b.args.len() {
        return false;
    }
    let mut i: usize = 0;
    while i < a.args.len()
        invariant
            i <= a.args@.len(),
            a.args@.len() == b.args@.len(),
            a.program@ == b.program@,
            forall|j: int| 0 <= j < i ==> (#[trigger] a.args@[j])@ == b.args@[j]@,
        decreases a.args@.len() - i,
    {
        if a.args[i] != b.args[i] {
            return false;
        }
        i = i + 1;
    }
    true
}

/// A supervised child: its logical identity and how it was launched.
#[derive(Debug)]
pub struct Child {
    pub id: String,
    pub spec: ProcessSpec,
}

/// What the caller must do to the processes after a registry operation.
#[derive(Clone, Copy, Debug, PartialEq, Eq, Structural)]
pub enum ProcessAction {
    /// Launch a new child.
    Spawn,
    /// Terminate the running child, wait until it is gone, then launch the new one.
    Replace,
    /// Terminate the running child.
    Terminate,
    /// Nothing to do.
    Keep,
}

pub open spec fn child_lookup(s: Seq<Child>, id: Seq<char>) -> Option<ProcessSpec>
    decreases s.len(),
{
    if s.len() == 0 {
        None
    } else if s.last().id@ == id {
        Some(s.last().spec)
    } else {
        child_lookup(s.drop_last(), id)
    }
}

pub open spec fn children_unique(s: Seq<Child>) -> bool {
    forall|i: int, j: int| 0 <= i < j < s.len() ==> (#[trigger] s[i]).id@ != (#[trigger] s[j]).id@
}

/// The live children after `start(id, spec)`.
pub open spec fn start_effect(m: Map<Seq<char>, ProcessSpec>, id: Seq<char>, spec: ProcessSpec) -> Map<
    Seq<char>,
    ProcessSpec,
> {
    if m.contains_key(id) && same_spec(m[id], spec) {
        m
    } else {
        m.insert(id, spec)
    }
}

/// What `start(id, spec)` asks the caller to do.
pub open spec fn start_action(m: Map<Seq<char>, ProcessSpec>, id: Seq<char>, spec: ProcessSpec) -> ProcessAction {
    if !m.contains_key(id) {
        ProcessAction::Spawn
    } else if same_spec(m[id], spec) {
        ProcessAction::Keep
    } else {
        ProcessAction::Replace
    }
}

/// The live children after starting each child of a sequence in turn.
pub open spec fn start_all_effect(m: Map<Seq<char>, ProcessSpec>, cs: Seq<Child>) -> Map<
    Seq<char>,
    ProcessSpec,
>
    decreases cs.len(),
{
    if cs.len() == 0 {
        m
    } else {
        start_effect(start_all_effect(m, cs.drop_last()), cs.last().id@, cs.last().spec)
    }
}

/// The identities of a sequence of children are pairwise distinct.
pub open spec fn ids_distinct(cs: Seq<Child>) -> bool {
    forall|i: int, j: int| 0 <= i < j < cs.len() ==> (#[trigger] cs[i]).id@ != (#[trigger] cs[j]).id@
}

/// Every child of the sequence already runs with its spec.
pub open spec fn all_running(m: Map<Seq<char>, ProcessSpec>, cs: Seq<Child>) -> bool {
    forall|i: int|
        0 <= i < cs.len() ==> m.contains_key((#[trigger] cs[i]).id@) && same_spec(
            m[cs[i].id@],
            cs[i].spec,
        )
}

proof fn lemma_start_all_running(m: Map<Seq<char>, ProcessSpec>, cs: Seq<Child>)
    requires
        all_running(m, cs),
    ensures
        start_all_effect(m, cs) == m,
    decreases cs.len(),
{
    if cs.len() > 0 {
        let cl = cs.drop_last();
        assert(all_running(m, cl)) by {
            assert forall|i: int| 0 <= i < cl.len() implies m.contains_key((#[trigger] cl[i]).id@)
                && same_spec(m[cl[i].id@], cl[i].spec) by {
                assert(cl[i] == cs[i]);
            }
        }
        lemma_start_all_running(m, cl);
        assert(cs[cs.len() - 1] == cs.last());
    }
}

proof fn lemma_start_all_runs_all(m: Map<Seq<char>, ProcessSpec>, cs: Seq<Child>)
    requires
        ids_distinct(cs),
    ensures
        all_running(start_all_effect(m, cs), cs),
    decreases cs.len(),
{
    if cs.len() > 0 {
        let cl = cs.drop_last();
        assert(ids_distinct(cl)) by {
            assert forall|i: int, j: int| 0 <= i < j < cl.len() implies (#[trigger] cl[i]).id@
                != (#[trigger] cl[j]).id@ by {
                assert(cl[i] == cs[i] && cl[j] == cs[j]);
            }
        }
        lemma_start_all_runs_all(m, cl);
        let r = start_all_effect(m, cs);
        assert forall|i: int| 0 <= i < cs.len() implies r.contains_key((#[trigger] cs[i]).id@)
            && same_spec(r[cs[i].id@], cs[i].spec) by {
            if i < cs.len() - 1 {
                assert(cl[i] == cs[i]);
                assert(cs[i].id@ != cs[cs.len() - 1].id@);
            }
        }
    }
}

/// Sync registry idempotence: starting the same children (with distinct identities) a
/// second time changes nothing, and every one of them then runs with its spec.
pub proof fn lemma_start_all_idempotent(m: Map<Seq<char>, ProcessSpec>, cs: Seq<Child>)
    requires
        ids_distinct(cs),
    ensures
        start_all_effect(start_all_effect(m, cs), cs) == start_all_effect(m, cs),
        all_running(start_all_effect(m, cs), cs),
{
    lemma_start_all_runs_all(m, cs);
    lemma_start_all_running(start_all_effect(m, cs), cs);
}

/// Registry idempotence: starting an identity twice with the same spec leaves exactly one
/// live child for it, with that spec, and the second start asks for nothing.
pub proof fn lemma_start_idempotent(m: Map<Seq<char>, ProcessSpec>, id: Seq<char>, spec: ProcessSpec)
    ensures
        start_effect(m, id, spec).contains_key(id),
        same_spec(start_effect(m, id, spec)[id], spec),
        start_effect(start_effect(m, id, spec), id, spec) == start_effect(m, id, spec),
        start_action(start_effect(m, id, spec), id, spec) == ProcessAction::Keep,
{
}

proof fn lemma_child_absent(s: Seq<Child>, id: Seq<char>)
    requires
        forall|i: int| 0 <= i < s.len() ==> (#[trigger] s[i]).id@ != id,
    ensures
        child_lookup(s, id) is None,
    decreases s.len(),
{
    if s.len() > 0 {
        assert(s[s.len() - 1].id@ != id);
        assert forall|i: int| 0 <= i < s.drop_last().len() implies (
        #[trigger] s.drop_last()[i]).id@ != id by {
            assert(s.drop_last()[i] == s[i]);
        }
        lemma_child_absent(s.drop_last(), id);
    }
}

proof fn lemma_child_present(s: Seq<Child>, id: Seq<char>) -> (j: int)
    requires
        child_lookup(s, id) is Some,
    ensures
        0 <= j < s.len(),
        s[j].id@ == id,
    decreases s.len(),
{
    if s.last().id@ == id {
        s.len() - 1
    } else {
        let j = lemma_child_present(s.drop_last(), id);
        assert(s.drop_last()[j] == s[j]);
        j
    }
}

proof fn lemma_child_at(s: Seq<Child>, i: int)
    requires
        children_unique(s),
        0 <= i < s.len(),
    ensures
        child_lookup(s, s[i].id@) == Some(s[i].spec),
    decreases s.len(),
{
    if i != s.len() - 1 {
        assert(s[i].id@ != s[s.len() - 1].id@);
        assert(s.drop_last()[i] == s[i]);
        assert(children_unique(s.drop_last())) by {
            assert forall|a: int, b: int| 0 <= a < b < s.drop_last().len() implies (
            #[trigger] s.drop_last()[a]).id@ != (#[trigger] s.drop_last()[b]).id@ by {
                assert(s.drop_last()[a] == s[a] && s.drop_last()[b] == s[b]);
            }
        }
        lemma_child_at(s.drop_last(), i);
    }
}

/// The live children of one pool, keyed by logical identity.
pub struct ProcessRegistry {
    children: Vec<Child>,
}

impl View for ProcessRegistry {
    type V = Map<Seq<char>, ProcessSpec>;

    closed spec fn view(&self) -> Map<Seq<char>, ProcessSpec> {
        Map::new(
            |id: Seq<char>| child_lookup(self.children@, id) is Some,
            |id: Seq<char>| child_lookup(self.children@, id)->Some_0,
        )
    }
}

impl ProcessRegistry {
    pub closed spec fn wf(&self) -> bool {
        children_unique(self.children@)
    }

    pub fn new() -> (r: Self)
        ensures
            r.wf(),
            r@ == Map::<Seq<char>, ProcessSpec>::empty(),
    {
        let r = ProcessRegistry { children: Vec::new() };
        assert(r@ =~= Map::<Seq<char>, ProcessSpec>::empty());
        r
    }

    fn find(&self, id: &String) -> (r: Option<usize>)
        requires
            self.wf(),
        ensures
            r is None ==> !self@.contains_key(id@),
            r is Some ==> r->Some_0 < self.children@.len() && self.children@[r->Some_0 as int].id@
                == id@ && self@.contains_key(id@) && self@[id@]
                == self.children@[r->Some_0 as int].spec,
    {
        let mut i: usize = 0;
        while i < self.children.len()
            invariant
                i <= self.children@.len(),
                self.wf(),
                forall|j: int| 0 <= j < i ==> (#[trigger] self.children@[j]).id@ != id@,
            decreases self.children@.len() - i,
        {
            if self.children[i].id == *id {
                proof {
                    lemma_child_at(self.children@, i as int);
                }
                return Some(i);
            }
            i = i + 1;
        }
        proof {
            lemma_child_absent(self.children@, id@);
        }
        None
    }

    fn put(&mut self, child: Child)
        requires
            old(self).wf(),
            !old(self)@.contains_key(child.id@),
        ensures
            final(self).wf(),
            final(self)@ == old(self)@.insert(child.id@, child.spec),
    {
        let ghost before = self.children@;
        let ghost id = child.id@;
        let ghost spec = child.spec;
        self.children.push(child);
        proof {
            let after = self.children@;
            assert(after.drop_last() =~= before);
            assert forall|i: int, j: int| 0 <= i < j < after.len() implies (#[trigger] after[i]).id@
                != (#[trigger] after[j]).id@ by {
                if j == after.len() - 1 {
                    assert(after[i] == before[i]);
                    lemma_child_at(before, i);
                } else {
                    assert(after[i] == before[i] && after[j] == before[j]);
                }
            }
            assert(self@ =~= old(self)@.insert(id, spec));
        }
    }

    fn take(&mut self, id: &String) -> (r: Option<Child>)
        requires
            old(self).wf(),
        ensures
            final(self).wf(),
            r is None ==> !old(self)@.contains_key(id@) && final(self)@ == old(self)@,
            r is Some ==> old(self)@.contains_key(id@) && final(self)@ == old(self)@.remove(id@),
    {
        match self.find(id) {
            None => None,
            Some(i) => {
                let ghost before = self.children@;
                let child = self.children.remove(i);
                proof {
                    let after = self.children@;
                    assert(after == before.remove(i as int));
                    assert forall|a: int, b: int| 0 <= a < b < after.len() implies (
                    #[trigger] after[a]).id@ != (#[trigger] after[b]).id@ by {
                        let a0 = if a < i { a } else { a + 1 };
                        let b0 = if b < i { b } else { b + 1 };
                        assert(after[a] == before[a0] && after[b] == before[b0]);
                    }
                    assert forall|k: Seq<char>| #[trigger] child_lookup(after, k) == (if k == id@ {
                        None
                    } else {
                        child_lookup(before, k)
                    }) by {
                        if k == id@ {
                            assert forall|a: int| 0 <= a < after.len() implies (
                            #[trigger] after[a]).id@ != k by {
                                let a0 = if a < i { a } else { a + 1 };
                                assert(after[a] == before[a0]);
                            }
                            lemma_child_absent(after, k);
                        } else if child_lookup(before, k) is Some {
                            let j = lemma_child_present(before, k);
                            let j1 = if j < i { j } else { j - 1 };
                            assert(after[j1] == before[j]);
                            lemma_child_at(before, j);
                            lemma_child_at(after, j1);
                        } else {
                            assert forall|a: int| 0 <= a < after.len() implies (
                            #[trigger] after[a]).id@ != k by {
                                let a0 = if a < i { a } else { a + 1 };
                                assert(after[a] == before[a0]);
                                if before[a0].id@ == k {
                                    lemma_child_at(before, a0);
                                }
                            }
                            lemma_child_absent(after, k);
                        }
                    }
                    assert(self@ =~= old(self)@.remove(id@));
                }
                Some(child)
            },
        }
    }

    /// Records that a child with this spec should run under this identity, and says what
    /// to do: launch it, replace the running one (stop, confirm, then launch), or nothing
    /// when one with the same spec already runs.
    pub fn start(&mut self, id: String, spec: ProcessSpec) -> (r: ProcessAction)
        requires
            old(self).wf(),
        ensures
            final(self).wf(),
            r == start_action(old(self)@, id@, spec),
            final(self)@ == start_effect(old(self)@, id@, spec),
    {
        match self.find(&id) {
            None => {
                self.put(Child { id, spec });
                ProcessAction::Spawn
            },
            Some(i) => {
                if specs_match(&self.children[i].spec, &spec) {
                    ProcessAction::Keep
                } else {
                    let ghost key = id@;
                    let _ = self.take(&id);
                    self.put(Child { id, spec });
                    assert(final(self)@ =~= old(self)@.insert(key, spec)) by {
                        assert(old(self)@.remove(key).insert(key, spec) =~= old(self)@.insert(key, spec));
                    }
                    ProcessAction::Replace
                }
            },
        }
    }

    /// Starts every child of a sequence in turn, and says for each what to do with it.
    pub fn start_all(&mut self, children: Vec<Child>) -> (r: Vec<ProcessAction>)
        requires
            old(self).wf(),
        ensures
            final(self).wf(),
            final(self)@ == start_all_effect(old(self)@, children@),
            r@.len() == children@.len(),
            forall|i: int|
                0 <= i < r@.len() ==> #[trigger] r@[i] == start_action(
                    start_all_effect(old(self)@, children@.subrange(0, i)),
                    children@[i].id@,
                    children@[i].spec,
                ),
    {
        let ghost all = children@;
        let n = children.len();
        let mut actions: Vec<ProcessAction> = Vec::new();
        let mut rest = children;
        let mut i: usize = 0;
        assert(all.subrange(0, 0) =~= Seq::<Child>::empty());
        assert(rest@ =~= all.subrange(0, all.len() as int));
        while rest.len() > 0
            invariant
                self.wf(),
                rest@ == all.subrange(i as int, all.len() as int),
                i <= all.len(),
                all.len() == n,
                self@ == start_all_effect(old(self)@, all.subrange(0, i as int)),
                actions@.len() == i,
                forall|j: int|
                    0 <= j < i ==> #[trigger] actions@[j] == start_action(
                        start_all_effect(old(self)@, all.subrange(0, j)),
                        all[j].id@,
                        all[j].spec,
                    ),
            decreases rest@.len(),
        {
            let child = rest.remove(0);
            assert(child == all[i as int]);
            assert(rest@ =~= all.subrange(i + 1, all.len() as int));
            assert(all.subrange(0, i + 1).drop_last() =~= all.subrange(0, i as int));
            let action = self.start(child.id, child.spec);
            actions.push(action);
            i = i + 1;
        }
        assert(all.subrange(0, all.len() as int) =~= all);
        actions
    }

    /// Stops the child of an identity: asks for its termination when it runs, and for
    /// nothing otherwise.
    pub fn stop(&mut self, id: &String) -> (r: ProcessAction)
        requires
            old(self).wf(),
        ensures
            final(self).wf(),
            final(self)@ == old(self)@.remove(id@),
            r == (if old(self)@.contains_key(id@) {
                ProcessAction::Terminate
            } else {
                ProcessAction::Keep
            }),
    {
        match self.take(id) {
            None => {
                assert(old(self)@.remove(id@) =~= old(self)@);
                ProcessAction::Keep
            },
            Some(_) => ProcessAction::Terminate,
        }
    }

    /// Records that the child of an identity exited by itself; true when it was live.
    pub fn record_exit(&mut self, id: &String) -> (r: bool)
        requires
            old(self).wf(),
        ensures
            final(self).wf(),
            final(self)@ == old(self)@.remove(id@),
            r == old(self)@.contains_key(id@),
    {
        let action = self.stop(id);
        match action {
            ProcessAction::Terminate => true,
            _ => false,
        }
    }

    /// The identities of the live children.
    pub fn list(&self) -> (r: Vec<String>)
        requires
            self.wf(),
        ensures
            forall|i: int| 0 <= i < r@.len() ==> self@.contains_key(#[trigger] r@[i]@),
            forall|id: Seq<char>| self@.contains_key(id) ==> exists|i: int| 0 <= i < r@.len() && #[trigger] r@[i]@ == id,
            forall|i: int, j: int| 0 <= i < j < r@.len() ==> (#[trigger] r@[i])@ != (#[trigger] r@[j])@,
    {
        let mut out: Vec<String> = Vec::new();
        let mut i: usize = 0;
        while i < self.children.len()
            invariant
                i <= self.children@.len(),
                self.wf(),
                out@.len() == i,
                forall|j: int| 0 <= j < i ==> (#[trigger] out@[j])@ == self.children@[j].id@,
            decreases self.children@.len() - i,
        {
            out.push(self.children[i].id.clone());
            i = i + 1;
        }
        proof {
            assert forall|j: int| 0 <= j < out@.len() implies self@.contains_key(#[trigger] out@[j]@) by {
                lemma_child_at(self.children@, j);
            }
            assert forall|id: Seq<char>| self@.contains_key(id) implies exists|j: int| 0 <= j < out@.len() && #[trigger] out@[j]@ == id by {
                let j = lemma_child_present(self.children@, id);
                assert(out@[j]@ == id);
            }
        }
        out
    }
}

} // verus!
