use vstd::prelude::*;

use crate::text::push_char;

verus! {

/// The abstract state of a [`Buffer`]: the text written so far, the current
/// indentation level (in steps of four spaces), and whether the next write
/// starts a new line.
pub type BufferState = (Seq<char>, u8, bool);

/// The spaces that open a line at indentation `level`.
pub open spec fn indentation(level: u8) -> Seq<char> {
    Seq::new(4 * level as nat, |i: int| ' ')
}

/// The line `s` is exactly a closing brace.
pub open spec fn is_close_brace(s: Seq<char>) -> bool {
    s == seq!['}']
}

/// The line `s` opens a block: its last character is `{`.
pub open spec fn opens_block(s: Seq<char>) -> bool {
    s.len() > 0 && s.last() == '{'
}

/// The state after writing `s` (indenting first when at the start of a line).
pub open spec fn spec_write(st: BufferState, s: Seq<char>) -> BufferState {
    (st.0 + (if st.2 { indentation(st.1) } else { Seq::empty() }) + s, st.1, false)
}

/// A write of `s` can be performed without overflowing the indentation width.
pub open spec fn write_ok(st: BufferState, s: Seq<char>) -> bool {
    st.2 ==> st.1 < 64
}

/// The indentation level in force for the line `s`: one less for a closing brace.
pub open spec fn line_level(st: BufferState, s: Seq<char>) -> u8 {
    if is_close_brace(s) { (st.1 - 1) as u8 } else { st.1 }
}

/// The state after writing the line `s` followed by a newline: a closing
/// brace dedents first, a line that opens a block indents afterwards.
pub open spec fn spec_writeln(st: BufferState, s: Seq<char>) -> BufferState {
    let st1: BufferState = (st.0, line_level(st, s), st.2);
    let st2 = if s.len() > 0 { spec_write(st1, s) } else { st1 };
    let level = if opens_block(s) { (st2.1 + 1) as u8 } else { st2.1 };
    (st2.0.push('\n'), level, true)
}

/// A line `s` can be written: a closing brace is never written at level 0,
/// and the indentation stays within its bounds.
pub open spec fn writeln_ok(st: BufferState, s: Seq<char>) -> bool {
    &&& is_close_brace(s) ==> st.1 > 0
    &&& s.len() > 0 && st.2 ==> line_level(st, s) < 64
    &&& opens_block(s) ==> line_level(st, s) < 255
}

/// A text buffer that indents each new line by its current block depth.
pub struct Buffer {
    buf: String,
    indent: u8,
    start: bool,
}

impl View for Buffer {
    type V = BufferState;

    closed spec fn view(&self) -> BufferState {
        (self.buf@, self.indent, self.start)
    }
}

impl Buffer {
    /// An empty buffer at indentation `indent`, at the start of a line.
    pub fn new(indent: u8) -> (b: Self)
        ensures
            b@ == (Seq::<char>::empty(), indent, true),
    {
        Buffer { buf: String::new(), indent, start: true }
    }

    /// The text written so far.
    pub fn into_string(self) -> (s: String)
        ensures
            s@ == self@.0,
    {
        self.buf
    }

    /// Writes `s` followed by a newline. A line that is exactly `}` closes the
    /// current block first; a line that ends with `{` opens a new one.
    pub fn writeln(&mut self, s: &str)
        requires
            writeln_ok(old(self)@, s@),
        ensures
            final(self)@ == spec_writeln(old(self)@, s@),
    {
        let n = s.unicode_len();
        let close = n == 1 && s.get_char(0) == '}';
        proof {
            if close {
                assert(s@ =~= seq!['}']);
            }
        }
        assert(close == is_close_brace(s@));
        if close {
            self.dedent();
        }
        if !s.is_empty() {
            self.write(s);
        }
        push_char(&mut self.buf, '\n');
        if n > 0 && s.get_char(n - 1) == '{' {
            self.indent();
        }
        self.start = true;
    }

    /// Writes `s`, indenting first when at the start of a line.
    pub fn write(&mut self, s: &str)
        requires
            write_ok(old(self)@, s@),
        ensures
            final(self)@ == spec_write(old(self)@, s@),
    {
        if self.start {
            let width = self.indent * 4;
            let ghost before = self.buf@;
            let mut i: u8 = 0;
            while i < width
                invariant
                    i <= width,
                    width == 4 * self.indent,
                    self.buf@ == before + Seq::new(i as nat, |k: int| ' '),
                decreases width - i,
            {
                push_char(&mut self.buf, ' ');
                i = i + 1;
                assert(self.buf@ =~= before + Seq::new(i as nat, |k: int| ' '));
            }
            assert(self.buf@ =~= before + indentation(self.indent));
            self.start = false;
        }
        self.buf.append(s);
    }

    /// Appends `s` as it stands, with no indentation and no change of state.
    pub fn append_raw(&mut self, s: &str)
        ensures
            final(self)@ == (old(self)@.0 + s@, old(self)@.1, old(self)@.2),
    {
        self.buf.append(s);
    }

    /// Opens a block: one more level of indentation.
    pub fn indent(&mut self)
        requires
            old(self)@.1 < 255,
        ensures
            final(self)@ == (old(self)@.0, (old(self)@.1 + 1) as u8, old(self)@.2),
    {
        self.indent = self.indent + 1;
    }

    /// Closes a block: one level less of indentation.
    pub fn dedent(&mut self)
        requires
            old(self)@.1 > 0,
        ensures
            final(self)@ == (old(self)@.0, (old(self)@.1 - 1) as u8, old(self)@.2),
    {
        self.indent = self.indent - 1;
    }
}

/// Writing only appends: what the buffer held before a write, or before a
/// line, stays at its start.
pub proof fn lemma_writes_append(st: BufferState, s: Seq<char>)
    ensures
        spec_write(st, s).0.subrange(0, st.0.len() as int) == st.0,
        spec_writeln(st, s).0.subrange(0, st.0.len() as int) == st.0,
{
    let w = spec_write(st, s);
    assert(w.0.subrange(0, st.0.len() as int) =~= st.0);
    let st1: BufferState = (st.0, line_level(st, s), st.2);
    let w1 = spec_write(st1, s);
    assert(w1.0.subrange(0, st.0.len() as int) =~= st.0);
    assert(w1.0.push('\n').subrange(0, st.0.len() as int) =~= st.0);
    assert(st.0.push('\n').subrange(0, st.0.len() as int) =~= st.0);
}

/// A block opened by a line that ends in `{` is closed by a line `}`: the
/// `}` stands at the indentation of the opening line, and afterwards the
/// indentation is back where it was.
pub proof fn lemma_block_balance(st: BufferState, open: Seq<char>)
    requires
        opens_block(open),
        writeln_ok(st, open),
        st.1 < 64,
    ensures
        writeln_ok(spec_writeln(st, open), seq!['}']),
        spec_writeln(spec_writeln(st, open), seq!['}']).1 == st.1,
        spec_writeln(spec_writeln(st, open), seq!['}']).0 == spec_writeln(st, open).0 + indentation(
            st.1,
        ) + seq!['}', '\n'],
{
    assert(!is_close_brace(open));
    let mid = spec_writeln(st, open);
    assert(mid.1 == st.1 + 1);
    assert(is_close_brace(seq!['}']));
    assert(!opens_block(seq!['}']));
    assert(spec_writeln(mid, seq!['}']).0 =~= mid.0 + indentation(st.1) + seq!['}', '\n']);
}

} // verus!
