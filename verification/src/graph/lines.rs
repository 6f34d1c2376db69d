use crate::graph::text::copy_range;
use vstd::prelude::*;

verus! {

/// A line of the input that is not empty: its number in the input, counted
/// from one over all lines, and its bytes without the line break.
pub struct Line {
    pub number: int,
    pub text: Seq<u8>,
}

/// The number of bytes before the first line feed, or the length of `s` if it
/// holds none.
pub open spec fn line_len(s: Seq<u8>) -> nat
    decreases s.len(),
{
    if s.len() > 0 && s[0] != 10 {
        1 + line_len(s.skip(1))
    } else {
        0
    }
}

/// The first line of `s` without its line break: the bytes before the first
/// line feed, less a carriage return that stands directly before that line feed.
pub open spec fn first_line(s: Seq<u8>) -> Seq<u8> {
    let k = line_len(s) as int;
    if k < s.len() && k > 0 && s[k - 1] == 13 {
        s.take(k - 1)
    } else {
        s.take(k)
    }
}

/// What follows the first line of `s` and its line feed.
pub open spec fn after_first_line(s: Seq<u8>) -> Seq<u8> {
    let k = line_len(s) as int;
    if k < s.len() {
        s.skip(k + 1)
    } else {
        s.skip(k)
    }
}

/// The lines of `s` that are not empty, in order, where the first line of `s`
/// has the number `number`.
pub open spec fn lines_from(s: Seq<u8>, number: int) -> Seq<Line>
    decreases s.len(),
{
    if s.len() == 0 {
        Seq::<Line>::empty()
    } else {
        proof {
            lemma_line_len_le(s);
        }
        let rest = lines_from(after_first_line(s), number + 1);
        if first_line(s).len() > 0 {
            seq![Line { number: number, text: first_line(s) }] + rest
        } else {
            rest
        }
    }
}

/// The lines of an input that are not empty, numbered from one.
pub open spec fn lines_of(input: Seq<u8>) -> Seq<Line> {
    lines_from(input, 1)
}

/// The first line ends inside the sequence.
pub proof fn lemma_line_len_le(s: Seq<u8>)
    ensures
        line_len(s) <= s.len(),
    decreases s.len(),
{
    if s.len() > 0 && s[0] != 10 {
        lemma_line_len_le(s.skip(1));
    }
}

/// A run of `k` bytes other than line feeds, at the end of the sequence or
/// before a line feed, is the first line.
pub proof fn lemma_line_len_is(s: Seq<u8>, k: int)
    requires
        0 <= k <= s.len(),
        forall|j: int| 0 <= j < k ==> (#[trigger] s[j]) != 10,
        k == s.len() || s[k] == 10,
    ensures
        line_len(s) == k,
    decreases k,
{
    if k > 0 {
        let t = s.skip(1);
        lemma_line_len_is(t, k - 1);
    }
}

/// A reader that hands out the lines of an input one by one and passes over
/// the empty ones.
pub struct FilterNewLine {
    inner: Vec<u8>,
    pos: usize,
    line_num: usize,
}

impl FilterNewLine {
    /// The reader stands inside its input, and has read no more lines than bytes.
    pub closed spec fn wf(&self) -> bool {
        self.line_num <= self.pos <= self.inner@.len()
    }

    /// The lines that are still to be handed out.
    pub closed spec fn remaining(&self) -> Seq<Line> {
        lines_from(self.inner@.skip(self.pos as int), self.line_num + 1)
    }

    /// The number of the line that was read last; zero before the first.
    pub closed spec fn last_number(&self) -> int {
        self.line_num as int
    }

    /// A reader at the start of `inner`.
    pub fn new(inner: Vec<u8>) -> (reader: Self)
        ensures
            reader.wf(),
            reader.remaining() == lines_of(inner@),
            reader.last_number() == 0,
    {
        assert(inner@.skip(0) =~= inner@);
        Self { inner, pos: 0, line_num: 0 }
    }

    /// The number of the line that was read last; zero before the first.
    pub fn line_number(&self) -> (number: usize)
        ensures
            number == self.last_number(),
    {
        self.line_num
    }

    /// The next line that is not empty, without its line break; `None` at the
    /// end of the input.
    pub fn next(&mut self) -> (line: Option<Vec<u8>>)
        requires
            old(self).wf(),
        ensures
            final(self).wf(),
            match line {
                Some(text) => {
                    &&& old(self).remaining().len() > 0
                    &&& text@ == old(self).remaining()[0].text
                    &&& final(self).last_number() == old(self).remaining()[0].number
                    &&& final(self).remaining() == old(self).remaining().skip(1)
                },
                None => {
                    &&& old(self).remaining().len() == 0
                    &&& final(self).remaining().len() == 0
                },
            },
    {
        let ghost s = self.inner@;
        loop
            invariant
                self.wf(),
                self.inner@ == s,
                self.remaining() == old(self).remaining(),
            decreases s.len() - self.pos,
        {
            let len = self.inner.len();
            if self.pos >= len {
                return None;
            }
            let start = self.pos;
            let mut end = start;
            while end < len && self.inner[end] != 10
                invariant
                    self.inner@ == s,
                    len == s.len(),
                    start <= end <= len,
                    forall|j: int| start <= j < end ==> (#[trigger] s[j]) != 10,
                decreases len - end,
            {
                end += 1;
            }
            let terminated = end < len;
            let text_end = if terminated && end > start && self.inner[end - 1] == 13 {
                end - 1
            } else {
                end
            };
            let next_pos = if terminated {
                end + 1
            } else {
                end
            };
            let ghost t = s.skip(start as int);
            proof {
                let k = end - start;
                lemma_line_len_is(t, k);
                assert(after_first_line(t) =~= s.skip(next_pos as int));
            }
            self.pos = next_pos;
            self.line_num = self.line_num + 1;
            if text_end > start {
                let text = copy_range(self.inner.as_slice(), start, text_end);
                assert(old(self).remaining().skip(1) =~= self.remaining());
                return Some(text);
            }
        }
    }
}

} // verus!
