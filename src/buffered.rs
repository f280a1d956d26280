//! Holding output back until a line is complete, so that lines of two streams that
//! share one destination are never mixed.
use vstd::prelude::*;

verus! {

pub const NEWLINE: u8 = 10;

/// Whether `l` is one complete line: its only line feed is its last byte.
pub open spec fn is_line(l: Seq<u8>) -> bool {
    &&& l.len() > 0
    &&& l.last() == NEWLINE
    &&& forall|j: int| 0 <= j < l.len() - 1 ==> l[j] != NEWLINE
}

pub open spec fn line_views(lines: Seq<Vec<u8>>) -> Seq<Seq<u8>> {
    lines.map_values(|l: Vec<u8>| l@)
}

/// Buffers what is written until a line is complete; each complete line is then
/// handed out whole, to be written in one piece under a lock that the writers of one
/// destination share.
pub struct LineWriteDecorator {
    buffer: Vec<u8>,
}

impl View for LineWriteDecorator {
    type V = Seq<u8>;

    /// The bytes held back: the start of a line.
    closed spec fn view(&self) -> Seq<u8> {
        self.buffer@
    }
}

impl LineWriteDecorator {
    /// Holds no complete line.
    pub open spec fn wf(&self) -> bool {
        forall|j: int| 0 <= j < self@.len() ==> self@[j] != NEWLINE
    }

    pub fn new() -> (r: LineWriteDecorator)
        ensures
            r.wf(),
            r@ == Seq::<u8>::empty(),
    {
        LineWriteDecorator { buffer: Vec::new() }
    }

    /// Takes in `input` and returns the lines it completes, in order, each to be
    /// written whole; the rest is held back.
    pub fn write(&mut self, input: &[u8]) -> (lines: Vec<Vec<u8>>)
        requires
            old(self).wf(),
        ensures
            final(self).wf(),
            line_views(lines@).flatten() + final(self)@ == old(self)@ + input@,
            forall|k: int| 0 <= k < lines@.len() ==> is_line(#[trigger] lines@[k]@),
    {
        let ghost start = self@;
        let mut lines: Vec<Vec<u8>> = Vec::new();
        let n = input.len();
        let mut i: usize = 0;
        while i < n
            invariant
                n == input@.len(),
                i <= n,
                self.wf(),
                line_views(lines@).flatten() + self@ == start + input@.take(i as int),
                forall|k: int| 0 <= k < lines@.len() ==> is_line(#[trigger] lines@[k]@),
            decreases n - i,
        {
            let b = input[i];
            let ghost before = self@;
            self.buffer.push(b);
            proof {
                let f = line_views(lines@).flatten();
                assert(input@.take(i + 1) =~= input@.take(i as int).push(b));
                assert(self@ =~= before.push(b));
                assert(f + before.push(b) =~= (f + before).push(b));
                assert(line_views(lines@).flatten() + self@ =~= start + input@.take(i + 1));
            }
            if b == NEWLINE {
                let mut line: Vec<u8> = Vec::new();
                std::mem::swap(&mut line, &mut self.buffer);
                let ghost old_lines = line_views(lines@);
                lines.push(line);
                proof {
                    assert(line_views(lines@) =~= old_lines.push(line@));
                    old_lines.lemma_flatten_push(line@);
                    assert(line_views(lines@).flatten() + self@ =~= start + input@.take(i + 1));
                    assert(is_line(line@));
                }
            }
            i = i + 1;
        }
        assert(input@.take(n as int) =~= input@);
        lines
    }

    /// The bytes held back, complete line or not, to be written on a flush; they stay
    /// held until `flush` confirms that they were written.
    pub fn held(&self) -> (r: &[u8])
        ensures
            r@ == self@,
    {
        self.buffer.as_slice()
    }

    /// Records that the bytes held back were written: nothing is held any more.
    pub fn flush(&mut self)
        ensures
            final(self)@ == Seq::<u8>::empty(),
            final(self).wf(),
    {
        self.buffer.clear();
    }
}

} // verus!
