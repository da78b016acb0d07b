use vstd::prelude::*;

verus! {

pub const NEWLINE: u8 = 10;

pub const CARRIAGE_RETURN: u8 = 13;

/// A line without the carriage return of a CRLF ending.
pub open spec fn without_cr(l: Seq<u8>) -> Seq<u8> {
    if l.len() > 0 && l.last() == CARRIAGE_RETURN {
        l.drop_last()
    } else {
        l
    }
}

/// Removes the carriage return that ends a line written with CRLF endings, as line
/// readers do.
pub fn strip_cr(line: &mut Vec<u8>)
    ensures
        final(line)@ == without_cr(old(line)@),
{
    let n = line.len();
    if n > 0 && line[n - 1] == CARRIAGE_RETURN {
        line.pop();
        assert(line@ =~= old(line)@.drop_last());
    }
}

/// The byte contents of a sequence of buffers.
pub open spec fn views(ls: Seq<Vec<u8>>) -> Seq<Seq<u8>> {
    ls.map_values(|v: Vec<u8>| v@)
}

/// The bytes of a sequence of lines, each followed by its newline.
pub open spec fn joined(ls: Seq<Seq<u8>>) -> Seq<u8>
    decreases ls.len(),
{
    if ls.len() == 0 {
        seq![]
    } else {
        joined(ls.drop_last()) + ls.last() + seq![NEWLINE]
    }
}

pub open spec fn no_newline(s: Seq<u8>) -> bool {
    forall|i: int| 0 <= i < s.len() ==> s[i] != NEWLINE
}

/// Splits the output stream of one child process into lines, in the order it was written.
pub struct LineBuffer {
    partial: Vec<u8>,
}

impl LineBuffer {
    /// The bytes received after the last newline.
    pub closed spec fn pending(&self) -> Seq<u8> {
        self.partial@
    }

    pub open spec fn wf(&self) -> bool {
        no_newline(self.pending())
    }

    pub fn new() -> (r: Self)
        ensures
            r.wf(),
            r.pending() == Seq::<u8>::empty(),
    {
        LineBuffer { partial: Vec::new() }
    }

    /// Takes the next chunk of output and returns the lines it completes, in order. The
    /// lines, each with its newline, followed by what is still pending, are exactly what
    /// was pending before followed by the chunk.
    pub fn push(&mut self, chunk: &[u8]) -> (r: Vec<Vec<u8>>)
        requires
            old(self).wf(),
        ensures
            final(self).wf(),
            joined(views(r@)) + final(self).pending() == old(self).pending() + chunk@,
            forall|i: int| 0 <= i < r@.len() ==> no_newline(#[trigger] r@[i]@),
    {
        let mut current: Vec<u8> = Vec::new();
        std::mem::swap(&mut current, &mut self.partial);
        let mut lines: Vec<Vec<u8>> = Vec::new();
        let mut i: usize = 0;
        assert(joined(views(lines@)) =~= Seq::<u8>::empty());
        assert(chunk@.subrange(0, 0) =~= Seq::<u8>::empty());
        while i < chunk.len()
            invariant
                i <= chunk@.len(),
                no_newline(current@),
                forall|j: int| 0 <= j < lines@.len() ==> no_newline(#[trigger] lines@[j]@),
                joined(views(lines@)) + current@ == old(self).partial@ + chunk@.subrange(0, i as int),
            decreases chunk@.len() - i,
        {
            let b = chunk[i];
            let ghost before = lines@;
            let ghost cur = current@;
            if b == NEWLINE {
                let mut done: Vec<u8> = Vec::new();
                std::mem::swap(&mut done, &mut current);
                lines.push(done);
                assert(views(lines@).drop_last() =~= views(before));
                assert(views(lines@).last() == cur);
                assert(joined(views(lines@)) == joined(views(before)) + cur + seq![NEWLINE]);
                assert(current@ =~= Seq::<u8>::empty());
                assert(chunk@.subrange(0, i + 1) =~= chunk@.subrange(0, i as int).push(b));
                assert(joined(views(lines@)) + current@ =~= (joined(views(before)) + cur).push(b));
            } else {
                current.push(b);
                assert(views(lines@) == views(before));
                assert(chunk@.subrange(0, i + 1) =~= chunk@.subrange(0, i as int).push(b));
                assert(joined(views(lines@)) + current@ =~= (joined(views(before)) + cur).push(b));
            }
            assert(joined(views(lines@)) + current@ =~= old(self).partial@ + chunk@.subrange(0, i + 1));
            i = i + 1;
        }
        assert(chunk@.subrange(0, chunk@.len() as int) =~= chunk@);
        self.partial = current;
        lines
    }

    /// Ends the stream: returns the last, unterminated line if any bytes are pending.
    pub fn finish(&mut self) -> (r: Option<Vec<u8>>)
        requires
            old(self).wf(),
        ensures
            final(self).wf(),
            final(self).pending() == Seq::<u8>::empty(),
            old(self).pending().len() == 0 ==> r is None,
            old(self).pending().len() > 0 ==> r is Some && r->Some_0@ == old(self).pending(),
    {
        let mut rest: Vec<u8> = Vec::new();
        std::mem::swap(&mut rest, &mut self.partial);
        if rest.len() == 0 {
            None
        } else {
            Some(rest)
        }
    }
}

proof fn lemma_joined_concat(a: Seq<Seq<u8>>, b: Seq<Seq<u8>>)
    ensures
        joined(a + b) == joined(a) + joined(b),
    decreases b.len(),
{
    if b.len() == 0 {
        assert(a + b =~= a);
        assert(joined(a) + joined(b) =~= joined(a));
    } else {
        lemma_joined_concat(a, b.drop_last());
        assert((a + b).drop_last() =~= a + b.drop_last());
        assert(joined(a + b) =~= joined(a) + joined(b));
    }
}

/// Ordering of lines: across two successive chunks, the lines handed out, first those of
/// the first chunk then those of the second, followed by what is still pending, are the
/// bytes in the order the child wrote them.
pub proof fn lemma_lines_in_order(
    p0: Seq<u8>,
    c1: Seq<u8>,
    l1: Seq<Seq<u8>>,
    p1: Seq<u8>,
    c2: Seq<u8>,
    l2: Seq<Seq<u8>>,
    p2: Seq<u8>,
)
    requires
        joined(l1) + p1 == p0 + c1,
        joined(l2) + p2 == p1 + c2,
    ensures
        joined(l1 + l2) + p2 == p0 + c1 + c2,
{
    lemma_joined_concat(l1, l2);
    assert(joined(l1) + joined(l2) + p2 =~= joined(l1) + (joined(l2) + p2));
    assert(joined(l1) + (p1 + c2) =~= (joined(l1) + p1) + c2);
    assert(joined(l1 + l2) + p2 =~= p0 + c1 + c2);
}

} // verus!
