use vstd::prelude::*;

verus! {

/// The byte that ends a line.
pub const NEWLINE: u8 = 10;

/// The number of bytes of `bytes` that stand before its first line end, or
/// all of them where it holds none.
pub open spec fn line_length(bytes: Seq<u8>) -> nat
    decreases bytes.len(),
{
    if bytes.len() == 0 || bytes[0] == NEWLINE {
        0
    } else {
        1 + line_length(bytes.drop_first())
    }
}

/// Hands out the lines of an input held in memory, one at a time.
pub struct LineReader {
    input: Vec<u8>,
    position: usize,
}

impl LineReader {
    /// The bytes that have not been handed out yet.
    pub closed spec fn remaining(&self) -> Seq<u8> {
        self.input@.skip(self.position as int)
    }

    /// The reader has not run past its input.
    pub closed spec fn well_formed(&self) -> bool {
        self.position <= self.input@.len()
    }

    /// A reader at the start of `input`.
    pub fn new(input: Vec<u8>) -> (reader: LineReader)
        ensures
            reader.well_formed(),
            reader.remaining() == input@,
    {
        let reader = LineReader { input, position: 0 };
        assert(reader.input@.skip(0) =~= reader.input@);
        reader
    }

    /// Hands out the next line, without the byte that ends it, and moves
    /// past both. A last line needs no line end. At the end of the input
    /// there is no line, and the reader stays where it is.
    pub fn next_line(&mut self) -> (line: Option<Vec<u8>>)
        requires
            old(self).well_formed(),
        ensures
            final(self).well_formed(),
            old(self).remaining().len() == 0 ==> line is None && final(self).remaining() == old(
                self,
            ).remaining(),
            old(self).remaining().len() > 0 ==> {
                let length = line_length(old(self).remaining()) as int;
                &&& line is Some
                &&& line->0@ == old(self).remaining().take(length)
                &&& forall|i: int| 0 <= i < length ==> line->0@[i] != NEWLINE
                &&& final(self).remaining().len() < old(self).remaining().len()
                &&& final(self).remaining() == old(self).remaining().skip(
                    if length < old(self).remaining().len() {
                        length + 1
                    } else {
                        length
                    },
                )
            },
    {
        let ghost rest = self.remaining();
        let total: usize = self.input.len();
        if self.position >= total {
            return None;
        }
        let mut line: Vec<u8> = Vec::new();
        let mut cursor: usize = self.position;
        assert(rest.skip(0) =~= rest);
        assert(rest.take(0) =~= line@);
        while cursor < total && self.input[cursor] != NEWLINE
            invariant
                self.position <= cursor <= total,
                total == self.input@.len(),
                rest == self.input@.skip(self.position as int),
                line@ == rest.take(cursor - self.position),
                line_length(rest) == (cursor - self.position) + line_length(
                    rest.skip(cursor - self.position),
                ),
            decreases total - cursor,
        {
            let ghost at = cursor - self.position;
            assert(rest.skip(at).drop_first() =~= rest.skip(at + 1));
            assert(rest.take(at + 1) =~= rest.take(at).push(self.input@[cursor as int]));
            line.push(self.input[cursor]);
            cursor = cursor + 1;
        }
        let ghost length = cursor - self.position;
        assert(line_length(rest.skip(length)) == 0);
        proof {
            lemma_line_length_bound(rest);
            assert forall|i: int| 0 <= i < length implies line@[i] != NEWLINE by {
                lemma_line_is_within(rest, i);
            }
        }
        let ghost before = self.position;
        if cursor < total {
            self.position = cursor + 1;
            assert(self.input@.skip(self.position as int) =~= rest.skip(length + 1));
        } else {
            self.position = cursor;
            assert(self.input@.skip(self.position as int) =~= rest.skip(length));
        }
        Some(line)
    }
}

/// The bytes of a line hold no line end, and a line is no longer than the
/// bytes it is read from.
pub proof fn lemma_line_is_within(bytes: Seq<u8>, i: int)
    requires
        0 <= i < line_length(bytes),
    ensures
        line_length(bytes) <= bytes.len(),
        bytes[i] != NEWLINE,
    decreases bytes.len(),
{
    if i > 0 {
        lemma_line_is_within(bytes.drop_first(), i - 1);
    } else {
        lemma_line_length_bound(bytes);
    }
}

/// A line is no longer than the bytes it is read from, and where it is
/// shorter, the byte after it is a line end.
pub proof fn lemma_line_length_bound(bytes: Seq<u8>)
    ensures
        line_length(bytes) <= bytes.len(),
        line_length(bytes) < bytes.len() ==> bytes[line_length(bytes) as int] == NEWLINE,
    decreases bytes.len(),
{
    if bytes.len() > 0 && bytes[0] != NEWLINE {
        lemma_line_length_bound(bytes.drop_first());
    }
}

} // verus!
