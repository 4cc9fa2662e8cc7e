use vstd::prelude::*;

use crate::buffer::{indentation, Buffer, BufferState};
use crate::text::{
    contains_text, lemma_contains_around, lemma_contains_extend,
    debug_str, debug_str_list, decimal, push_decimal, str_debug, str_list_debug, utf8_str,
};
use vstd::utf8::{decode_utf8, valid_utf8};
use crate::ranges::{
    gap, gaps, gaps_upto, is_gap, lemma_gaps_upto, lemma_second_widest_unique, lemma_widest_unique,
    lists_gaps, second_widest, select_widest, sorted, spec_ranges, widest, FLAG,
};

verus! {

/// An escape rule: the byte `char` is replaced by the text `quote`.
pub struct Pair<'a> {
    pub char: u8,
    pub quote: &'a [u8],
}

impl<'a> Pair<'a> {
    pub fn new(char: u8, quote: &'a [u8]) -> (p: Pair<'a>)
        ensures
            p.char == char,
            p.quote@ == quote@,
    {
        Pair { char, quote }
    }
}

/// The escaped bytes of the rules, in order.
pub open spec fn chars_of(pairs: Seq<Pair>) -> Seq<u8> {
    pairs.map_values(|p: Pair| p.char)
}

/// Writes the code of an escaping type for a set of rules.
pub struct Generator<'a> {
    pub pairs: &'a [Pair<'a>],
    pub simd: bool,
    pub ranges: bool,
    pub avx: bool,
}

impl<'a> Generator<'a> {
    pub fn new<'n>(pairs: &'n [Pair<'n>], simd: bool, ranges: bool, avx: bool) -> (g: Generator<'n>)
        ensures
            g.pairs@ == pairs@,
            g.simd == simd,
            g.ranges == ranges,
            g.avx == avx,
    {
        Generator { pairs, simd, ranges, avx }
    }

    /// The description of the escaped bytes for the vector code: see
    /// [`spec_ranges`].
    pub fn calculate_ranges(&self) -> (r: Vec<u8>)
        requires
            self.pairs@.len() > 0,
            sorted(chars_of(self.pairs@)),
        ensures
            r@ == spec_ranges(chars_of(self.pairs@)),
    {
        let ghost cs = chars_of(self.pairs@);
        let mut r: Vec<u8> = Vec::new();
        let len = self.pairs.len();
        assert(forall|i: int| 0 <= i < len ==> cs[i] == self.pairs@[i].char);
        if len == 1 {
            r.push(self.pairs[0].char);
            r.push(FLAG);
            return r;
        }
        let e = len - 1;
        let mut d: Vec<(usize, u8)> = Vec::new();
        for i in 0..e
            invariant
                e == len - 1,
                len == self.pairs@.len(),
                cs == chars_of(self.pairs@),
                sorted(cs),
                d@.len() == gaps_upto(cs, i as int).len(),
                forall|t: int| 0 <= t < d@.len() ==> (#[trigger] d@[t]).0 == gaps_upto(cs, i as int)[t],
                forall|t: int| 0 <= t < d@.len() ==> (#[trigger] d@[t]).1 == gap(cs, d@[t].0 as int),
        {
            assert(cs[i as int] <= cs[i + 1]);
            let diff = self.pairs[i + 1].char - self.pairs[i].char;
            if 1 < diff {
                d.push((i, diff));
            }
            assert(gaps_upto(cs, i + 1) == if is_gap(cs, i as int) {
                gaps_upto(cs, i as int).push(i as int)
            } else {
                gaps_upto(cs, i as int)
            });
        }
        assert(lists_gaps(d@, cs));
        proof {
            lemma_gaps_upto(cs, cs.len() - 1);
        }
        if d.len() == 0 {
            // one range
            r.push(self.pairs[0].char);
            r.push(self.pairs[e].char);
        } else if d.len() == 1 {
            if e == 1 {
                // two single bytes
                r.push(self.pairs[0].char);
                r.push(self.pairs[e].char);
                r.push(FLAG);
            } else {
                let i = d[0].0;
                if i == 0 {
                    // one range and one single byte
                    r.push(self.pairs[i + 1].char);
                    r.push(self.pairs[e].char);
                    r.push(self.pairs[0].char);
                } else {
                    r.push(self.pairs[0].char);
                    r.push(self.pairs[i].char);
                    r.push(self.pairs[i + 1].char);
                    if i + 1 != e {
                        // two ranges
                        r.push(self.pairs[e].char);
                    }
                }
            }
        } else {
            if e <= 2 {
                // three single bytes
                let mut k: usize = 0;
                while k < len
                    invariant
                        k <= len,
                        len == self.pairs@.len(),
                        cs == chars_of(self.pairs@),
                        r@ == cs.subrange(0, k as int),
                    decreases len - k,
                {
                    r.push(self.pairs[k].char);
                    k = k + 1;
                    assert(r@ =~= cs.subrange(0, k as int));
                }
                r.push(FLAG);
                assert(cs.subrange(0, len as int) =~= cs);
                return r;
            }
            let (a, b) = select_widest(&d, Ghost(cs));
            proof {
                lemma_widest_unique(cs, widest(cs), d@[a as int].0 as int);
                lemma_second_widest_unique(cs, second_widest(cs), d@[b as int].0 as int);
            }
            let (f, l) = if d[a].0 < d[b].0 { (d[a].0, d[b].0) } else { (d[b].0, d[a].0) };
            if f + 1 == l {
                if f == 0 {
                    self.push_1_ranges_2_equals_at_first(&mut r, f, l, e);
                } else if l + 1 == e {
                    self.push_1_ranges_2_equals_at_last(&mut r, f, l, e);
                } else {
                    self.push_2_ranges_1_equals(&mut r, f, l, e);
                }
            } else if f == 0 {
                if l + 1 == e {
                    self.push_1_ranges_2_equals_at_first_last(&mut r, f, l, e);
                } else {
                    self.push_2_ranges_1_equals_at_first(&mut r, f, l, e);
                }
            } else if l + 1 == e {
                self.push_2_ranges_1_equals_at_last(&mut r, f, l, e);
            } else {
                self.push_3_ranges(&mut r, f, l, e);
            }
        }
        r
    }

    fn push_1_ranges_2_equals_at_first(&self, r: &mut Vec<u8>, f: usize, l: usize, e: usize)
        requires
            f < l < e < self.pairs@.len(),
        ensures
            final(r)@ == old(r)@ + seq![
                self.pairs@[l + 1].char,
                self.pairs@[e as int].char,
                self.pairs@[0].char,
                self.pairs@[f + 1].char,
                FLAG,
            ],
    {
        r.push(self.pairs[l + 1].char);
        r.push(self.pairs[e].char);
        r.push(self.pairs[0].char);
        r.push(self.pairs[f + 1].char);
        r.push(FLAG);
    }

    fn push_1_ranges_2_equals_at_last(&self, r: &mut Vec<u8>, f: usize, l: usize, e: usize)
        requires
            f < l <= e < self.pairs@.len(),
        ensures
            final(r)@ == old(r)@ + seq![
                self.pairs@[0].char,
                self.pairs@[f as int].char,
                self.pairs@[l as int].char,
                self.pairs@[e as int].char,
                FLAG,
            ],
    {
        r.push(self.pairs[0].char);
        r.push(self.pairs[f].char);
        r.push(self.pairs[l].char);
        r.push(self.pairs[e].char);
        r.push(FLAG);
    }

    fn push_1_ranges_2_equals_at_first_last(&self, r: &mut Vec<u8>, f: usize, l: usize, e: usize)
        requires
            f < l <= e < self.pairs@.len(),
        ensures
            final(r)@ == old(r)@ + seq![
                self.pairs@[f + 1].char,
                self.pairs@[l as int].char,
                self.pairs@[0].char,
                self.pairs@[e as int].char,
                FLAG,
            ],
    {
        r.push(self.pairs[f + 1].char);
        r.push(self.pairs[l].char);
        r.push(self.pairs[0].char);
        r.push(self.pairs[e].char);
        r.push(FLAG);
    }

    fn push_2_ranges_1_equals(&self, r: &mut Vec<u8>, f: usize, l: usize, e: usize)
        requires
            f < l < e < self.pairs@.len(),
        ensures
            final(r)@ == old(r)@ + seq![
                self.pairs@[0].char,
                self.pairs@[f as int].char,
                self.pairs@[l + 1].char,
                self.pairs@[e as int].char,
                self.pairs@[f + 1].char,
            ],
    {
        r.push(self.pairs[0].char);
        r.push(self.pairs[f].char);
        r.push(self.pairs[l + 1].char);
        r.push(self.pairs[e].char);
        r.push(self.pairs[f + 1].char);
    }

    fn push_2_ranges_1_equals_at_first(&self, r: &mut Vec<u8>, f: usize, l: usize, e: usize)
        requires
            f < l < e < self.pairs@.len(),
        ensures
            final(r)@ == old(r)@ + seq![
                self.pairs@[f + 1].char,
                self.pairs@[l as int].char,
                self.pairs@[l + 1].char,
                self.pairs@[e as int].char,
                self.pairs@[0].char,
            ],
    {
        r.push(self.pairs[f + 1].char);
        r.push(self.pairs[l].char);
        r.push(self.pairs[l + 1].char);
        r.push(self.pairs[e].char);
        r.push(self.pairs[0].char);
    }

    fn push_2_ranges_1_equals_at_last(&self, r: &mut Vec<u8>, f: usize, l: usize, e: usize)
        requires
            f < l <= e < self.pairs@.len(),
        ensures
            final(r)@ == old(r)@ + seq![
                self.pairs@[0].char,
                self.pairs@[f as int].char,
                self.pairs@[f + 1].char,
                self.pairs@[l as int].char,
                self.pairs@[e as int].char,
            ],
    {
        r.push(self.pairs[0].char);
        r.push(self.pairs[f].char);
        r.push(self.pairs[f + 1].char);
        r.push(self.pairs[l].char);
        r.push(self.pairs[e].char);
    }

    fn push_3_ranges(&self, r: &mut Vec<u8>, f: usize, l: usize, e: usize)
        requires
            f < l < e < self.pairs@.len(),
        ensures
            final(r)@ == old(r)@ + seq![
                self.pairs@[0].char,
                self.pairs@[f as int].char,
                self.pairs@[f + 1].char,
                self.pairs@[l as int].char,
                self.pairs@[l + 1].char,
                self.pairs@[e as int].char,
            ],
    {
        r.push(self.pairs[0].char);
        r.push(self.pairs[f].char);
        r.push(self.pairs[f + 1].char);
        r.push(self.pairs[l].char);
        r.push(self.pairs[l + 1].char);
        r.push(self.pairs[e].char);
    }
}

/// The line `s` and its newline.
pub open spec fn line(s: Seq<char>) -> Seq<char> {
    s.push('\n')
}

/// The indentation that opens the first line of a block written at level
/// `k`: none when the buffer is in the middle of a line.
pub open spec fn lead(k: u8, start: bool) -> Seq<char> {
    if start {
        indentation(k)
    } else {
        Seq::empty()
    }
}

/// The indentation `d` levels below `k`.
pub open spec fn ind(k: u8, d: int) -> Seq<char> {
    indentation((k + d) as u8)
}

/// `true` or `false`, as `Display` writes a `bool`.
pub open spec fn bool_text(b: bool) -> Seq<char> {
    if b { "true"@ } else { "false"@ }
}

/// The module with the scalar escaping code, written at level `k`.
pub open spec fn scalar_text(pairs: Seq<Pair>, k: u8, start: bool) -> Seq<char> {
    lead(k, start) + if pairs.len() == 1 {
        line("mod scalar { use super :: * ; _v_escape_escape_scalar ! (one V_ESCAPE_CHAR , V_ESCAPE_QUOTES) ; }"@)
    } else {
        line("mod scalar { use super :: * ; _v_escape_escape_scalar ! (V_ESCAPE_TABLE , V_ESCAPE_QUOTES , V_ESCAPE_LEN) ; }"@)
    }
}

/// The call that selects the escaping code at compile time, written at level `k`.
pub open spec fn cfg_if_text(g: Generator, k: u8, start: bool) -> Seq<char> {
    lead(k, start) + line(
        "_v_escape_cfg_escape!("@ + bool_text(g.simd) + ", "@ + bool_text(
            g.ranges || g.pairs@.len() == 1,
        ) + ", "@ + bool_text(g.avx && g.ranges) + ");"@,
    )
}

/// The buffer can take a block that goes `depth` levels deeper than its
/// current level.
pub open spec fn room_for(st: BufferState, depth: int) -> bool {
    st.1 + depth < 64
}

fn push_bool(out: &mut String, b: bool)
    ensures
        final(out)@ == old(out)@ + bool_text(b),
{
    if b {
        out.append("true");
    } else {
        out.append("false");
    }
}

impl<'a> Generator<'a> {
    fn write_scalar(&self, buf: &mut Buffer)
        requires
            old(buf)@.2 ==> room_for(old(buf)@, 0),
        ensures
            final(buf)@ == (
                old(buf)@.0 + scalar_text(self.pairs@, old(buf)@.1, old(buf)@.2),
                old(buf)@.1,
                true,
            ),
    {
        proof {
            reveal_strlit("mod scalar { use super :: * ; _v_escape_escape_scalar ! (one V_ESCAPE_CHAR , V_ESCAPE_QUOTES) ; }");
            reveal_strlit("mod scalar { use super :: * ; _v_escape_escape_scalar ! (V_ESCAPE_TABLE , V_ESCAPE_QUOTES , V_ESCAPE_LEN) ; }");
        }
        let ghost st = buf@;
        if self.pairs.len() == 1 {
            buf.writeln("mod scalar { use super :: * ; _v_escape_escape_scalar ! (one V_ESCAPE_CHAR , V_ESCAPE_QUOTES) ; }");
        } else {
            buf.writeln("mod scalar { use super :: * ; _v_escape_escape_scalar ! (V_ESCAPE_TABLE , V_ESCAPE_QUOTES , V_ESCAPE_LEN) ; }");
        }
        assert(buf@.0 =~= st.0 + scalar_text(self.pairs@, st.1, st.2));
    }

    fn write_cfg_if(&self, buf: &mut Buffer)
        requires
            old(buf)@.2 ==> room_for(old(buf)@, 0),
        ensures
            final(buf)@ == (
                old(buf)@.0 + cfg_if_text(*self, old(buf)@.1, old(buf)@.2),
                old(buf)@.1,
                true,
            ),
    {
        let ghost st = buf@;
        let mut s = String::new();
        s.append("_v_escape_cfg_escape!(");
        push_bool(&mut s, self.simd);
        s.append(", ");
        push_bool(&mut s, self.ranges || self.pairs.len() == 1);
        s.append(", ");
        push_bool(&mut s, self.avx && self.ranges);
        s.append(");");
        proof {
            reveal_strlit(");");
        }
        buf.writeln(s.as_str());
        assert(buf@.0 =~= st.0 + cfg_if_text(*self, st.1, st.2));
    }
}

/// The first position of `b` in `cs` at or after `i`, or the length of `cs`.
pub open spec fn index_from(cs: Seq<u8>, b: u8, i: int) -> int
    decreases cs.len() - i,
{
    if i >= cs.len() {
        cs.len() as int
    } else if cs[i] == b {
        i
    } else {
        index_from(cs, b, i + 1)
    }
}

/// The entry of the escape table for the byte `b`: the position of the rule
/// for `b`, or the number of rules when no rule escapes `b`.
pub open spec fn table_index(cs: Seq<u8>, b: u8) -> int {
    index_from(cs, b, 0)
}

/// The entries of the escape table for the bytes below `n`, each followed by `, `.
pub open spec fn table_text(cs: Seq<u8>, n: int) -> Seq<char>
    decreases n,
{
    if n <= 0 {
        Seq::empty()
    } else {
        table_text(cs, n - 1) + decimal(table_index(cs, (n - 1) as u8) as nat) + ", "@
    }
}

/// Every replacement text is valid UTF-8.
pub open spec fn quotes_valid(pairs: Seq<Pair>) -> bool {
    forall|i: int| 0 <= i < pairs.len() ==> valid_utf8(#[trigger] pairs[i].quote@)
}

/// The replacement texts, decoded.
pub open spec fn quote_texts(pairs: Seq<Pair>) -> Seq<Seq<char>> {
    pairs.map_values(|p: Pair| decode_utf8(p.quote@))
}

/// The static items, written at level `k`: the escaped byte or the escape
/// table, the replacement texts, and their number.
pub open spec fn static_table_text(pairs: Seq<Pair>, k: u8, start: bool) -> Seq<char> {
    let len = pairs.len();
    lead(k, start) + (if len == 1 {
        line("const V_ESCAPE_CHAR: u8 = "@ + decimal(pairs[0].char as nat) + ";"@) + indentation(k)
            + line(
            "static V_ESCAPE_QUOTES: &str = "@ + str_debug(decode_utf8(pairs[0].quote@)) + ";"@,
        )
    } else {
        "static V_ESCAPE_TABLE: [u8; 256] = ["@ + table_text(chars_of(pairs), 256) + line("];"@)
            + indentation(k) + line(
            "static V_ESCAPE_QUOTES: [&str; "@ + decimal(len) + "] = "@ + str_list_debug(
                quote_texts(pairs),
            ) + ";"@,
        )
    }) + indentation(k) + line("const V_ESCAPE_LEN: usize = "@ + decimal(len) + ";"@)
}

impl<'a> Generator<'a> {
    /// The entry of the escape table for `b`.
    fn table_index(&self, b: u8) -> (n: usize)
        ensures
            n == table_index(chars_of(self.pairs@), b),
    {
        let ghost cs = chars_of(self.pairs@);
        let mut i: usize = 0;
        while i < self.pairs.len()
            invariant
                i <= self.pairs@.len(),
                cs == chars_of(self.pairs@),
                index_from(cs, b, 0) == index_from(cs, b, i as int),
            decreases self.pairs@.len() - i,
        {
            if self.pairs[i].char == b {
                return i;
            }
            i = i + 1;
        }
        i
    }

    #[verifier::rlimit(40)]
    fn write_static_table(&self, buf: &mut Buffer)
        requires
            self.pairs@.len() > 0,
            quotes_valid(self.pairs@),
            room_for(old(buf)@, 0),
        ensures
            final(buf)@ == (
                old(buf)@.0 + static_table_text(self.pairs@, old(buf)@.1, old(buf)@.2),
                old(buf)@.1,
                true,
            ),
    {
        let ghost st = buf@;
        let ghost pairs = self.pairs@;
        let len = self.pairs.len();
        proof {
            reveal_strlit(";");
        }
        if len == 1 {
            let mut s = String::new();
            s.append("const V_ESCAPE_CHAR: u8 = ");
            push_decimal(&mut s, self.pairs[0].char as usize);
            s.append(";");
            buf.writeln(s.as_str());
            assert(valid_utf8(pairs[0].quote@));
            let q = match utf8_str(self.pairs[0].quote) {
                Some(q) => q,
                None => {
                    proof {
                        assert(false);
                    }
                    ""
                },
            };
            let mut s = String::new();
            s.append("static V_ESCAPE_QUOTES: &str = ");
            let d = debug_str(q);
            s.append(d.as_str());
            s.append(";");
            buf.writeln(s.as_str());
            assert(buf@.0 =~= st.0 + lead(st.1, st.2) + line(
                "const V_ESCAPE_CHAR: u8 = "@ + decimal(pairs[0].char as nat) + ";"@,
            ) + indentation(st.1) + line(
                "static V_ESCAPE_QUOTES: &str = "@ + str_debug(decode_utf8(pairs[0].quote@)) + ";"@,
            ));
        } else {
            buf.write("static V_ESCAPE_TABLE: [u8; 256] = [");
            let ghost head = buf@.0;
            let mut i: usize = 0;
            while i < 256
                invariant
                    i <= 256,
                    buf@ == (head + table_text(chars_of(self.pairs@), i as int), st.1, false),
                decreases 256 - i,
            {
                let n = self.table_index(i as u8);
                let mut item = String::new();
                push_decimal(&mut item, n);
                item.append(", ");
                buf.write(item.as_str());
                i = i + 1;
                assert(buf@.0 =~= head + table_text(chars_of(self.pairs@), i as int));
            }
            proof {
                reveal_strlit("];");
            }
            buf.writeln("];");
            let mut quotes: Vec<&str> = Vec::new();
            let mut k: usize = 0;
            while k < len
                invariant
                    k <= len,
                    len == self.pairs@.len(),
                    quotes_valid(self.pairs@),
                    quotes@.len() == k,
                    forall|t: int|
                        0 <= t < k ==> (#[trigger] quotes@[t])@ == decode_utf8(self.pairs@[t].quote@),
                decreases len - k,
            {
                assert(valid_utf8(self.pairs@[k as int].quote@));
                let q = match utf8_str(self.pairs[k].quote) {
                    Some(q) => q,
                    None => {
                        proof {
                            assert(false);
                        }
                        ""
                    },
                };
                quotes.push(q);
                k = k + 1;
            }
            assert(quotes@.map_values(|s: &str| s@) =~= quote_texts(self.pairs@));
            let mut s = String::new();
            s.append("static V_ESCAPE_QUOTES: [&str; ");
            push_decimal(&mut s, len);
            s.append("] = ");
            let d = debug_str_list(&quotes);
            s.append(d.as_str());
            s.append(";");
            buf.writeln(s.as_str());
            assert(buf@.0 =~= st.0 + lead(st.1, st.2) + "static V_ESCAPE_TABLE: [u8; 256] = ["@
                + table_text(chars_of(pairs), 256) + line("];"@) + indentation(st.1) + line(
                "static V_ESCAPE_QUOTES: [&str; "@ + decimal(len as nat) + "] = "@ + str_list_debug(
                    quote_texts(pairs),
                ) + ";"@,
            ));
        }
        let ghost body = buf@.0;
        let mut s = String::new();
        s.append("const V_ESCAPE_LEN: usize = ");
        push_decimal(&mut s, len);
        s.append(";");
        buf.writeln(s.as_str());
        assert(buf@.0 =~= body + indentation(st.1) + line(
            "const V_ESCAPE_LEN: usize = "@ + decimal(len as nat) + ";"@,
        ));
        assert(buf@.0 =~= st.0 + static_table_text(pairs, st.1, st.2));
    }
}

/// The bytes of a list, each in decimal and followed by `, `.
pub open spec fn macro_tt(xs: Seq<u8>) -> Seq<char>
    decreases xs.len(),
{
    if xs.len() == 0 {
        Seq::empty()
    } else {
        macro_tt(xs.drop_last()) + decimal(xs.last() as nat) + ", "@
    }
}

/// The escaped bytes, padded with zeros to sixteen.
pub open spec fn padded_chars(pairs: Seq<Pair>) -> Seq<u8> {
    chars_of(pairs) + Seq::new((16 - pairs.len()) as nat, |i: int| 0u8)
}

/// The opening lines of a module at level `k`: the `cfg` attribute `cfg` and `mod name {`.
pub open spec fn module_head(cfg: Seq<char>, name: Seq<char>, k: u8, start: bool) -> Seq<char> {
    lead(k, start) + line(cfg) + indentation(k) + line(name)
}

/// The inside of the comparison module, one level below `k`.
pub open spec fn eq_body(pairs: Seq<Pair>, k: u8) -> Seq<char> {
    if pairs.len() == 1 {
        ind(k, 1) + line("mod ranges {"@) + ind(k, 2) + line("use super::super::*;"@) + ind(k, 2)
            + line(
            "_v_escape_escape_ranges!((V_ESCAPE_CHAR, V_ESCAPE_QUOTES, V_ESCAPE_LEN) "@ + decimal(
                pairs[0].char as nat,
            ) + ", 128, );"@,
        ) + ind(k, 1) + line("}"@)
    } else {
        ind(k, 1) + line("use super::*;"@) + ind(k, 1)
            + " _v_escape_escape_sse!((V_ESCAPE_TABLE, V_ESCAPE_QUOTES, V_ESCAPE_LEN) "@ + macro_tt(
            padded_chars(pairs),
        ) + line(");"@)
    }
}

/// The module of the vector code that compares with each escaped byte,
/// written at level `k`.
pub open spec fn eq_text(pairs: Seq<Pair>, k: u8, start: bool) -> Seq<char> {
    module_head(r#"#[cfg(all(target_arch = "x86_64", not(all(target_os = "windows", v_escape_nosimd))))]"#@, "mod sse {"@, k, start) + eq_body(pairs, k) + indentation(k) + line("}"@)
}

/// The levels that the comparison module goes below its own.
pub open spec fn eq_depth(pairs: Seq<Pair>) -> int {
    if pairs.len() == 1 { 2 } else { 1 }
}

/// One module of the vector code over ranges, for the instruction set
/// `name`, written at level `m`.
pub open spec fn simd_module_text(name: Seq<char>, one: bool, ranges: Seq<u8>, m: u8) -> Seq<char> {
    indentation(m) + "pub mod "@ + name + line(" {"@) + ind(m, 1) + line("use super::super::*;"@)
        + ind(m, 1) + "_v_escape_escape_ranges!("@ + name + (if one {
        "2 (V_ESCAPE_CHAR, V_ESCAPE_QUOTES, V_ESCAPE_LEN) "@
    } else {
        "2 (V_ESCAPE_TABLE, V_ESCAPE_QUOTES, V_ESCAPE_LEN) "@
    }) + macro_tt(ranges) + line(");"@) + indentation(m) + line("}"@)
}

/// The modules of the vector code over ranges inside a block at level `k`.
pub open spec fn ranges_body(g: Generator, k: u8) -> Seq<char> {
    let r = spec_ranges(chars_of(g.pairs@));
    let one = g.pairs@.len() == 1;
    if g.avx {
        simd_module_text("avx"@, one, r, (k + 1) as u8) + simd_module_text(
            "sse"@,
            one,
            r,
            (k + 1) as u8,
        )
    } else {
        simd_module_text("sse"@, one, r, (k + 1) as u8)
    }
}

/// The modules of the vector code over ranges, written at level `k`: AVX
/// and SSE, or SSE alone.
pub open spec fn ranges_text(g: Generator, k: u8, start: bool) -> Seq<char> {
    module_head(r#"#[cfg(all(target_arch = "x86_64", not(v_escape_nosimd)))]"#@, "mod ranges {"@, k, start) + ranges_body(g, k) + indentation(k) + line("}"@)
}

impl<'a> Generator<'a> {
    fn write_macro_tt(&self, buf: &mut Buffer, items: &[u8])
        ensures
            final(buf)@ == (old(buf)@.0 + macro_tt(items@), old(buf)@.1, old(buf)@.2),
    {
        let ghost head = buf@.0;
        let mut i: usize = 0;
        while i < items.len()
            invariant
                i <= items@.len(),
                buf@ == (head + macro_tt(items@.subrange(0, i as int)), old(buf)@.1, old(buf)@.2),
            decreases items@.len() - i,
        {
            let mut item = String::new();
            push_decimal(&mut item, items[i] as usize);
            item.append(", ");
            buf.append_raw(item.as_str());
            assert(items@.subrange(0, i + 1).drop_last() =~= items@.subrange(0, i as int));
            i = i + 1;
            assert(buf@.0 =~= head + macro_tt(items@.subrange(0, i as int)));
        }
        assert(items@.subrange(0, i as int) =~= items@);
    }

    #[verifier::rlimit(50)]
    fn write_eq(&self, buf: &mut Buffer)
        requires
            self.pairs@.len() <= 16,
            room_for(old(buf)@, eq_depth(self.pairs@)),
        ensures
            final(buf)@ == (
                old(buf)@.0 + eq_text(self.pairs@, old(buf)@.1, old(buf)@.2),
                old(buf)@.1,
                true,
            ),
    {
        let ghost st = buf@;
        let len = self.pairs.len();
        proof {
            reveal_strlit(r#"#[cfg(all(target_arch = "x86_64", not(all(target_os = "windows", v_escape_nosimd))))]"#);
            reveal_strlit("mod sse {");
            reveal_strlit("mod ranges {");
            reveal_strlit("use super::super::*;");
            reveal_strlit("use super::*;");
            reveal_strlit(";");
            reveal_strlit(");");
            reveal_strlit("}");
        }
        buf.writeln(r#"#[cfg(all(target_arch = "x86_64", not(all(target_os = "windows", v_escape_nosimd))))]"#);
        buf.writeln("mod sse {");
        let ghost head = buf@.0;
        assert(head =~= st.0 + module_head(r#"#[cfg(all(target_arch = "x86_64", not(all(target_os = "windows", v_escape_nosimd))))]"#@, "mod sse {"@, st.1, st.2));
        if len == 1 {
            buf.writeln("mod ranges {");
            buf.writeln("use super::super::*;");
            let mut s = String::new();
            s.append("_v_escape_escape_ranges!((V_ESCAPE_CHAR, V_ESCAPE_QUOTES, V_ESCAPE_LEN) ");
            push_decimal(&mut s, self.pairs[0].char as usize);
            s.append(", 128, );");
            proof {
                reveal_strlit(", 128, );");
            }
            buf.writeln(s.as_str());
            assert("}"@ =~= seq!['}']);
            buf.writeln("}");
            assert(buf@.0 =~= head + eq_body(self.pairs@, st.1));
        } else {
            buf.writeln("use super::*;");
            let mut chars: Vec<u8> = Vec::new();
            let mut k: usize = 0;
            while k < len
                invariant
                    k <= len,
                    len == self.pairs@.len(),
                    chars@ == chars_of(self.pairs@).subrange(0, k as int),
                decreases len - k,
            {
                chars.push(self.pairs[k].char);
                k = k + 1;
                assert(chars@ =~= chars_of(self.pairs@).subrange(0, k as int));
            }
            while k < 16
                invariant
                    len <= k <= 16,
                    len == self.pairs@.len(),
                    chars@ == chars_of(self.pairs@) + Seq::new((k - len) as nat, |i: int| 0u8),
                decreases 16 - k,
            {
                chars.push(0);
                k = k + 1;
                assert(chars@ =~= chars_of(self.pairs@) + Seq::new((k - len) as nat, |i: int| 0u8));
            }
            assert(chars@ =~= padded_chars(self.pairs@));
            buf.write(" _v_escape_escape_sse!((V_ESCAPE_TABLE, V_ESCAPE_QUOTES, V_ESCAPE_LEN) ");
            self.write_macro_tt(buf, chars.as_slice());
            buf.writeln(");");
        }
        assert(buf@.0 =~= head + eq_body(self.pairs@, st.1));
        assert("}"@ =~= seq!['}']);
        buf.writeln("}");
        assert(buf@.0 =~= st.0 + eq_text(self.pairs@, st.1, st.2));
    }
}

/// The vector code, written at level `k`: none, comparisons with each byte,
/// or ranges.
pub open spec fn functions_text(g: Generator, k: u8, start: bool) -> Seq<char> {
    scalar_text(g.pairs@, k, start) + if g.simd {
        if g.ranges {
            ranges_text(g, k, true)
        } else {
            eq_text(g.pairs@, k, true)
        }
    } else {
        Seq::empty()
    }
}

/// The whole code written for a generator.
pub open spec fn build_text(g: Generator) -> Seq<char> {
    static_table_text(g.pairs@, 0, true) + functions_text(g, 0, true) + cfg_if_text(g, 0, true)
}

/// The rules can be turned into vector code: at most sixteen of them for the
/// comparisons with each byte, and, for the ranges, at least one, ordered
/// by byte.
pub open spec fn vector_ready(g: Generator) -> bool {
    &&& g.simd && !g.ranges ==> g.pairs@.len() <= 16
    &&& g.simd && g.ranges ==> g.pairs@.len() > 0 && sorted(chars_of(g.pairs@))
}

/// The levels that the vector code goes below the level it is written at.
pub open spec fn functions_depth(g: Generator) -> int {
    if g.simd && g.ranges {
        2
    } else if g.simd {
        eq_depth(g.pairs@)
    } else {
        0
    }
}

/// The inputs on which the code can be written: at least one rule, every
/// replacement text in UTF-8, and rules fit for the vector code.
pub open spec fn buildable(g: Generator) -> bool {
    &&& g.pairs@.len() > 0
    &&& quotes_valid(g.pairs@)
    &&& vector_ready(g)
}

impl<'a> Generator<'a> {
    #[verifier::rlimit(50)]
    fn write_simd_module(&self, buf: &mut Buffer, name: &str, ranges: &[u8])
        requires
            room_for(old(buf)@, 1),
            old(buf)@.2,
        ensures
            final(buf)@ == (
                old(buf)@.0 + simd_module_text(name@, self.pairs@.len() == 1, ranges@, old(buf)@.1),
                old(buf)@.1,
                true,
            ),
    {
        let ghost st = buf@;
        proof {
            reveal_strlit(" {");
            reveal_strlit("use super::super::*;");
            reveal_strlit(");");
            reveal_strlit("}");
        }
        buf.write("pub mod ");
        buf.write(name);
        buf.writeln(" {");
        buf.writeln("use super::super::*;");
        let ghost opened = buf@.0;
        assert(opened =~= st.0 + indentation(st.1) + "pub mod "@ + name@ + line(" {"@) + ind(st.1, 1)
            + line("use super::super::*;"@));
        buf.write("_v_escape_escape_ranges!(");
        buf.write(name);
        if self.pairs.len() == 1 {
            buf.write("2 (V_ESCAPE_CHAR, V_ESCAPE_QUOTES, V_ESCAPE_LEN) ");
        } else {
            buf.write("2 (V_ESCAPE_TABLE, V_ESCAPE_QUOTES, V_ESCAPE_LEN) ");
        }
        self.write_macro_tt(buf, ranges);
        buf.writeln(");");
        assert("}"@ =~= seq!['}']);
        buf.writeln("}");
        assert(buf@.0 =~= st.0 + simd_module_text(name@, self.pairs@.len() == 1, ranges@, st.1));
    }

    #[verifier::rlimit(40)]
    fn write_ranges(&self, buf: &mut Buffer)
        requires
            self.pairs@.len() > 0,
            sorted(chars_of(self.pairs@)),
            room_for(old(buf)@, 2),
        ensures
            final(buf)@ == (
                old(buf)@.0 + ranges_text(*self, old(buf)@.1, old(buf)@.2),
                old(buf)@.1,
                true,
            ),
    {
        let ghost st = buf@;
        proof {
            reveal_strlit(r#"#[cfg(all(target_arch = "x86_64", not(v_escape_nosimd)))]"#);
            reveal_strlit("mod ranges {");
            reveal_strlit("}");
        }
        buf.writeln(r#"#[cfg(all(target_arch = "x86_64", not(v_escape_nosimd)))]"#);
        buf.writeln("mod ranges {");
        let ghost head = buf@.0;
        assert(head =~= st.0 + module_head(r#"#[cfg(all(target_arch = "x86_64", not(v_escape_nosimd)))]"#@, "mod ranges {"@, st.1, st.2));
        let ranges = self.calculate_ranges();
        if self.avx {
            self.write_simd_module(buf, "avx", ranges.as_slice());
        }
        self.write_simd_module(buf, "sse", ranges.as_slice());
        assert(buf@.0 =~= head + ranges_body(*self, st.1));
        assert("}"@ =~= seq!['}']);
        buf.writeln("}");
        assert(buf@.0 =~= st.0 + ranges_text(*self, st.1, st.2));
    }

    fn write_functions(&self, buf: &mut Buffer)
        requires
            vector_ready(*self),
            self.simd || old(buf)@.2 ==> room_for(old(buf)@, functions_depth(*self)),
        ensures
            final(buf)@ == (
                old(buf)@.0 + functions_text(*self, old(buf)@.1, old(buf)@.2),
                old(buf)@.1,
                true,
            ),
    {
        let ghost st = buf@;
        self.write_scalar(buf);
        if self.simd {
            if self.ranges {
                self.write_ranges(buf);
            } else {
                self.write_eq(buf);
            }
        }
        assert(buf@.0 =~= st.0 + functions_text(*self, st.1, st.2));
    }

    /// Writes the code of the escaping type: the static items, the scalar
    /// and vector code, and the selection among them.
    pub fn build(&self) -> (code: String)
        requires
            buildable(*self),
        ensures
            code@ == build_text(*self),
    {
        let mut buf = Buffer::new(0);
        self.write_static_table(&mut buf);
        self.write_functions(&mut buf);
        self.write_cfg_if(&mut buf);
        assert(buf@.0 =~= build_text(*self));
        buf.into_string()
    }
}

/// Writes the code of an escaping type for the rules `pairs`: the same text
/// as `Generator::new(pairs, simd, ranges, avx).build()`.
pub fn generate(pairs: &[Pair], simd: bool, ranges: bool, avx: bool) -> (code: String)
    requires
        buildable(Generator { pairs, simd, ranges, avx }),
    ensures
        code@ == build_text(Generator { pairs, simd, ranges, avx }),
{
    Generator::new(pairs, simd, ranges, avx).build()
}

proof fn lemma_index_from(cs: Seq<u8>, b: u8, i: int)
    requires
        0 <= i <= cs.len(),
    ensures
        i <= index_from(cs, b, i) <= cs.len(),
        index_from(cs, b, i) < cs.len() ==> cs[index_from(cs, b, i)] == b,
        forall|k: int| i <= k < index_from(cs, b, i) ==> cs[k] != b,
    decreases cs.len() - i,
{
    if i < cs.len() && cs[i] != b {
        lemma_index_from(cs, b, i + 1);
    }
}

/// The escape table points at the rules: an entry below the number of rules
/// is the position of the first rule for that byte, and an entry equal to
/// the number of rules marks a byte that no rule escapes. When the escaped
/// bytes are all different, the entry for the byte of rule `j` is `j`.
pub proof fn lemma_table_index(cs: Seq<u8>, b: u8)
    ensures
        0 <= table_index(cs, b) <= cs.len(),
        table_index(cs, b) < cs.len() ==> cs[table_index(cs, b)] == b,
        table_index(cs, b) == cs.len() <==> !cs.contains(b),
        (forall|i: int, j: int| 0 <= i < j < cs.len() ==> cs[i] != cs[j]) ==> forall|j: int|
            0 <= j < cs.len() && cs[j] == b ==> table_index(cs, b) == j,
{
    lemma_index_from(cs, b, 0);
    if cs.contains(b) {
        let j = choose|j: int| 0 <= j < cs.len() && cs[j] == b;
        assert(table_index(cs, b) <= j);
    }
}

/// The flags reach only the vector code and the last line. Without `simd`,
/// neither `ranges` nor `avx` changes the modules; with `simd` and without
/// `ranges`, `avx` changes nothing at all. Every other line of the whole text
/// is the same.
pub proof fn lemma_flags_reach(g1: Generator, g2: Generator)
    requires
        g1.pairs@ == g2.pairs@,
        g1.simd == g2.simd,
        g1.simd ==> !g1.ranges && !g2.ranges,
    ensures
        forall|k: u8, start: bool| functions_text(g1, k, start) == functions_text(g2, k, start),
        build_text(g1) == static_table_text(g1.pairs@, 0, true) + functions_text(g1, 0, true)
            + cfg_if_text(g1, 0, true),
        build_text(g2) == static_table_text(g1.pairs@, 0, true) + functions_text(g1, 0, true)
            + cfg_if_text(g2, 0, true),
        g1.simd ==> build_text(g1) == build_text(g2),
{
}

/// The list of bytes is written piece by piece: the list of a concatenation
/// is the concatenation of the lists, and one byte `x` is written in decimal
/// followed by `, `.
pub proof fn lemma_macro_tt_concat(a: Seq<u8>, b: Seq<u8>, x: u8)
    ensures
        macro_tt(a + b) == macro_tt(a) + macro_tt(b),
        macro_tt(seq![x]) == decimal(x as nat) + ", "@,
    decreases b.len(),
{
    let one = seq![x];
    assert(one.drop_last() =~= Seq::<u8>::empty());
    assert(macro_tt(Seq::<u8>::empty()) == Seq::<char>::empty());
    assert(macro_tt(one) =~= decimal(x as nat) + ", "@);
    if b.len() == 0 {
        assert(a + b =~= a);
        assert(macro_tt(a) + macro_tt(b) =~= macro_tt(a));
    } else {
        lemma_macro_tt_concat(a, b.drop_last(), x);
        assert((a + b).drop_last() =~= a + b.drop_last());
        assert((a + b).last() == b.last());
    }
}

proof fn lemma_simd_module_head(name: Seq<char>, one: bool, r: Seq<u8>, m: u8)
    ensures
        contains_text(simd_module_text(name, one, r, m), "pub mod "@ + name + " {"@),
{
    let p = "pub mod "@ + name + " {"@;
    let rest = seq!['\n'] + ind(m, 1) + line("use super::super::*;"@) + ind(m, 1)
        + "_v_escape_escape_ranges!("@ + name + (if one {
        "2 (V_ESCAPE_CHAR, V_ESCAPE_QUOTES, V_ESCAPE_LEN) "@
    } else {
        "2 (V_ESCAPE_TABLE, V_ESCAPE_QUOTES, V_ESCAPE_LEN) "@
    }) + macro_tt(r) + line(");"@) + indentation(m) + line("}"@);
    assert(simd_module_text(name, one, r, m) =~= indentation(m) + p + rest);
    lemma_contains_around(indentation(m), p, rest);
}

#[verifier::rlimit(80)]
proof fn lemma_ranges_text_parts(g: Generator, k: u8, start: bool)
    ensures
        contains_text(ranges_text(g, k, start), r#"#[cfg(all(target_arch = "x86_64", not(v_escape_nosimd)))]"#@),
        contains_text(ranges_text(g, k, start), "pub mod "@ + "sse"@ + " {"@),
        g.avx ==> contains_text(ranges_text(g, k, start), "pub mod "@ + "avx"@ + " {"@),
{
    let r = spec_ranges(chars_of(g.pairs@));
    let one = g.pairs@.len() == 1;
    let k1 = (k + 1) as u8;
    let rt = ranges_text(g, k, start);
    let body = ranges_body(g, k);
    let front = lead(k, start) + line(r#"#[cfg(all(target_arch = "x86_64", not(v_escape_nosimd)))]"#@) + indentation(k) + line("mod ranges {"@);
    let end = indentation(k) + line("}"@);
    assert(rt =~= front + body + end);
    let head_rest = seq!['\n'] + indentation(k) + line("mod ranges {"@) + body + end;
    assert(rt =~= lead(k, start) + r#"#[cfg(all(target_arch = "x86_64", not(v_escape_nosimd)))]"#@ + head_rest);
    lemma_contains_around(lead(k, start), r#"#[cfg(all(target_arch = "x86_64", not(v_escape_nosimd)))]"#@, head_rest);
    let sse = simd_module_text("sse"@, one, r, k1);
    let psse = "pub mod "@ + "sse"@ + " {"@;
    lemma_simd_module_head("sse"@, one, r, k1);
    if g.avx {
        let avx = simd_module_text("avx"@, one, r, k1);
        let pavx = "pub mod "@ + "avx"@ + " {"@;
        lemma_simd_module_head("avx"@, one, r, k1);
        assert(body == avx + sse);
        lemma_contains_extend(front, avx, sse + end, pavx);
        assert(front + avx + (sse + end) =~= rt);
        lemma_contains_extend(front + avx, sse, end, psse);
        assert(front + avx + sse + end =~= rt);
    } else {
        assert(body == sse);
        lemma_contains_extend(front, sse, end, psse);
    }
}

/// With `simd` and `ranges`, the code holds the module of ranges with its
/// SSE submodule, and with `avx` also its AVX submodule, whatever the rules.
pub proof fn lemma_ranges_modules_written(g: Generator)
    requires
        g.simd,
        g.ranges,
    ensures
        contains_text(build_text(g), r#"#[cfg(all(target_arch = "x86_64", not(v_escape_nosimd)))]"#@),
        contains_text(build_text(g), "pub mod "@ + "sse"@ + " {"@),
        g.avx ==> contains_text(build_text(g), "pub mod "@ + "avx"@ + " {"@),
{
    let before = static_table_text(g.pairs@, 0, true) + scalar_text(g.pairs@, 0, true);
    let after = cfg_if_text(g, 0, true);
    let rt = ranges_text(g, 0, true);
    assert(build_text(g) =~= before + rt + after);
    lemma_ranges_text_parts(g, 0, true);
    lemma_contains_extend(before, rt, after, r#"#[cfg(all(target_arch = "x86_64", not(v_escape_nosimd)))]"#@);
    lemma_contains_extend(before, rt, after, "pub mod "@ + "sse"@ + " {"@);
    if g.avx {
        lemma_contains_extend(before, rt, after, "pub mod "@ + "avx"@ + " {"@);
    }
}

/// With `simd` and without `ranges`, for two to sixteen rules, the code calls
/// the comparison macro with exactly sixteen bytes: the escaped bytes in
/// order, then zeros.
pub proof fn lemma_comparison_bytes(g: Generator, xs: Seq<u8>)
    requires
        g.simd,
        !g.ranges,
        2 <= g.pairs@.len() <= 16,
        xs.len() == 16,
        forall|i: int| 0 <= i < g.pairs@.len() ==> xs[i] == g.pairs@[i].char,
        forall|i: int| g.pairs@.len() <= i < 16 ==> xs[i] == 0,
    ensures
        contains_text(build_text(g), " _v_escape_escape_sse!((V_ESCAPE_TABLE, V_ESCAPE_QUOTES, V_ESCAPE_LEN) "@ + macro_tt(xs) + ");"@),
{
    let pairs = g.pairs@;
    assert(xs =~= padded_chars(pairs));
    let call = " _v_escape_escape_sse!((V_ESCAPE_TABLE, V_ESCAPE_QUOTES, V_ESCAPE_LEN) "@ + macro_tt(xs) + ");"@;
    let body = eq_body(pairs, 0);
    let front = ind(0, 1) + line("use super::*;"@) + ind(0, 1);
    assert(body =~= front + call + seq!['\n']);
    lemma_contains_around(front, call, seq!['\n']);
    let before = static_table_text(pairs, 0, true) + scalar_text(pairs, 0, true)
        + module_head(r#"#[cfg(all(target_arch = "x86_64", not(all(target_os = "windows", v_escape_nosimd))))]"#@, "mod sse {"@, 0, true);
    let after = indentation(0) + line("}"@) + cfg_if_text(g, 0, true);
    assert(build_text(g) =~= before + body + after);
    lemma_contains_extend(before, body, after, call);
}

/// The selection call names the code that was written: its second flag is
/// `true` exactly when `ranges` is set or there is a single rule, whatever
/// `avx` is; its last flag is `true` exactly when both `avx` and `ranges`
/// are set.
pub proof fn lemma_selection_flags(g: Generator, k: u8, start: bool)
    ensures
        ({
            let pre = lead(k, start) + "_v_escape_cfg_escape!("@ + bool_text(g.simd) + ", "@;
            let t = cfg_if_text(g, k, start);
            &&& (g.ranges || g.pairs@.len() == 1) ==> t.subrange(0, pre.len() + 6int) == pre + "true, "@
            &&& !(g.ranges || g.pairs@.len() == 1) ==> t.subrange(0, pre.len() + 7int) == pre
                + "false, "@
            &&& g.avx && g.ranges ==> t.subrange(t.len() - 7, t.len() as int) == "true);\n"@
            &&& !(g.avx && g.ranges) ==> t.subrange(t.len() - 8, t.len() as int) == "false);\n"@
        }),
{
    let pre = lead(k, start) + "_v_escape_cfg_escape!("@ + bool_text(g.simd) + ", "@;
    let t = cfg_if_text(g, k, start);
    reveal_strlit("true");
    reveal_strlit("false");
    reveal_strlit(", ");
    reveal_strlit("true, ");
    reveal_strlit("false, ");
    let rest = bool_text(g.avx && g.ranges) + ");"@;
    if g.ranges || g.pairs@.len() == 1 {
        assert(t =~= pre + "true, "@ + rest.push('\n'));
        assert(t.subrange(0, pre.len() + 6int) =~= pre + "true, "@);
    } else {
        assert(t =~= pre + "false, "@ + rest.push('\n'));
        assert(t.subrange(0, pre.len() + 7int) =~= pre + "false, "@);
    }
    reveal_strlit(");");
    reveal_strlit("true);\n");
    reveal_strlit("false);\n");
    if g.avx && g.ranges {
        assert(t.subrange(t.len() - 7, t.len() as int) =~= "true);\n"@);
    } else {
        assert(t.subrange(t.len() - 8, t.len() as int) =~= "false);\n"@);
    }
}

/// `t` is the escape table of the bytes `cs`: for each byte, the position of
/// the first rule for it, or the number of rules when none escapes it.
pub open spec fn is_escape_table(t: Seq<u8>, cs: Seq<u8>) -> bool {
    &&& t.len() == 256
    &&& forall|b: int|
        0 <= b < 256 ==> {
            &&& (#[trigger] t[b]) <= cs.len()
            &&& t[b] < cs.len() ==> cs[t[b] as int] == b
            &&& forall|j: int| 0 <= j < t[b] ==> cs[j] != b
        }
}

proof fn lemma_table_text_list(cs: Seq<u8>, t: Seq<u8>, n: int)
    requires
        cs.len() < 256,
        is_escape_table(t, cs),
        0 <= n <= 256,
    ensures
        table_text(cs, n) == macro_tt(t.subrange(0, n)),
    decreases n,
{
    if n > 0 {
        lemma_table_text_list(cs, t, n - 1);
        let b = n - 1;
        lemma_index_from(cs, b as u8, 0);
        let x = table_index(cs, b as u8);
        assert(t[b] <= cs.len());
        if x < t[b] {
            assert(cs[x] == b);
        } else if t[b] < x {
            assert(t[b] < cs.len());
            assert(cs[t[b] as int] == b);
        }
        assert(x == t[b]);
        assert(t.subrange(0, n).drop_last() =~= t.subrange(0, n - 1));
    } else {
        assert(t.subrange(0, 0) =~= Seq::<u8>::empty());
    }
}

/// The static items name what the escaping code needs: with a single rule,
/// its byte in decimal; with more (and fewer than 256), the escape table of
/// 256 entries, each the position of the first rule for its byte or the
/// number of rules; and always the number of rules.
pub proof fn lemma_static_items_written(g: Generator, t: Seq<u8>)
    requires
        g.pairs@.len() > 0,
        g.pairs@.len() < 256,
        is_escape_table(t, chars_of(g.pairs@)),
    ensures
        g.pairs@.len() == 1 ==> contains_text(
            build_text(g),
            "const V_ESCAPE_CHAR: u8 = "@ + decimal(g.pairs@[0].char as nat) + ";"@,
        ),
        g.pairs@.len() > 1 ==> contains_text(
            build_text(g),
            "static V_ESCAPE_TABLE: [u8; 256] = ["@ + macro_tt(t) + "];"@,
        ),
        contains_text(build_text(g), "const V_ESCAPE_LEN: usize = "@ + decimal(g.pairs@.len()) + ";"@),
{
    let pairs = g.pairs@;
    let len = pairs.len();
    let st = static_table_text(pairs, 0, true);
    let rest = functions_text(g, 0, true) + cfg_if_text(g, 0, true);
    assert(build_text(g) =~= st + rest);
    assert(indentation(0) =~= Seq::<char>::empty());
    let plen = "const V_ESCAPE_LEN: usize = "@ + decimal(len) + ";"@;
    let mid = if len == 1 {
        line("const V_ESCAPE_CHAR: u8 = "@ + decimal(pairs[0].char as nat) + ";"@) + indentation(0)
            + line(
            "static V_ESCAPE_QUOTES: &str = "@ + str_debug(decode_utf8(pairs[0].quote@)) + ";"@,
        )
    } else {
        "static V_ESCAPE_TABLE: [u8; 256] = ["@ + table_text(chars_of(pairs), 256) + line("];"@)
            + indentation(0) + line(
            "static V_ESCAPE_QUOTES: [&str; "@ + decimal(len) + "] = "@ + str_list_debug(
                quote_texts(pairs),
            ) + ";"@,
        )
    };
    assert(st =~= (lead(0, true) + mid + indentation(0)) + plen + seq!['\n']);
    lemma_contains_around(lead(0, true) + mid + indentation(0), plen, seq!['\n']);
    lemma_contains_extend(Seq::empty(), st, rest, plen);
    assert(Seq::<char>::empty() + st + rest =~= build_text(g));
    if len == 1 {
        let pc = "const V_ESCAPE_CHAR: u8 = "@ + decimal(pairs[0].char as nat) + ";"@;
        let after = seq!['\n'] + indentation(0) + line(
            "static V_ESCAPE_QUOTES: &str = "@ + str_debug(decode_utf8(pairs[0].quote@)) + ";"@,
        ) + indentation(0) + line(plen) + rest;
        assert(build_text(g) =~= lead(0, true) + pc + after);
        lemma_contains_around(lead(0, true), pc, after);
    } else {
        lemma_table_text_list(chars_of(pairs), t, 256);
        assert(t.subrange(0, 256) =~= t);
        let pt = "static V_ESCAPE_TABLE: [u8; 256] = ["@ + macro_tt(t) + "];"@;
        let after = seq!['\n'] + indentation(0) + line(
            "static V_ESCAPE_QUOTES: [&str; "@ + decimal(len) + "] = "@ + str_list_debug(
                quote_texts(pairs),
            ) + ";"@,
        ) + indentation(0) + line(plen) + rest;
        assert(build_text(g) =~= lead(0, true) + pt + after);
        lemma_contains_around(lead(0, true), pt, after);
    }
}

} // verus!
