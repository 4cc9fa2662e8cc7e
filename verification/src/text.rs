use vstd::prelude::*;

verus! {

/// Appends one character to a `String` (`String::push`).
/// Trusted: the new contents are the old contents followed by `c`.
#[verifier::external_body]
pub(crate) fn push_char(out: &mut String, c: char)
    ensures
        final(out)@ == old(out)@.push(c),
{
    out.push(c);
}

/// The decimal digit character for `d < 10`.
pub open spec fn digit_char(d: nat) -> char {
    if d == 0 { '0' } else if d == 1 { '1' } else if d == 2 { '2' } else if d == 3 { '3' }
    else if d == 4 { '4' } else if d == 5 { '5' } else if d == 6 { '6' } else if d == 7 { '7' }
    else if d == 8 { '8' } else { '9' }
}

/// The decimal representation of `n`, without sign or leading zeros.
pub open spec fn decimal(n: nat) -> Seq<char>
    decreases n,
{
    if n < 10 {
        seq![digit_char(n)]
    } else {
        decimal(n / 10).push(digit_char(n % 10))
    }
}

fn exec_digit_char(d: usize) -> (c: char)
    requires
        d < 10,
    ensures
        c == digit_char(d as nat),
{
    if d == 0 { '0' } else if d == 1 { '1' } else if d == 2 { '2' } else if d == 3 { '3' }
    else if d == 4 { '4' } else if d == 5 { '5' } else if d == 6 { '6' } else if d == 7 { '7' }
    else if d == 8 { '8' } else { '9' }
}

/// Appends the decimal representation of `n`.
pub fn push_decimal(out: &mut String, n: usize)
    ensures
        final(out)@ == old(out)@ + decimal(n as nat),
    decreases n,
{
    if n >= 10 {
        push_decimal(out, n / 10);
    }
    push_char(out, exec_digit_char(n % 10));
}

} // verus!

verus! {

/// Checks and decodes UTF-8 (`std::str::from_utf8`). Trusted: the result is
/// present exactly when the bytes are valid UTF-8, and then holds the
/// characters they encode.
#[verifier::external_body]
pub(crate) fn utf8_str<'b>(bytes: &'b [u8]) -> (r: Option<&'b str>)
    ensures
        r is Some <==> vstd::utf8::valid_utf8(bytes@),
        r matches Some(s) ==> s@ == vstd::utf8::decode_utf8(bytes@),
{
    std::str::from_utf8(bytes).ok()
}

/// What `format!("{:#?}", s)` gives for a string slice `s` (its `Debug`
/// form: the characters in double quotes, with escapes).
pub uninterp spec fn str_debug(s: Seq<char>) -> Seq<char>;

/// Formats a string slice with `{:#?}` (`<str as Debug>::fmt`). Trusted: the
/// result is `str_debug` of the characters; nothing more is stated of it.
#[verifier::external_body]
pub(crate) fn debug_str(s: &str) -> (r: String)
    ensures
        r@ == str_debug(s@),
{
    format!("{:#?}", s)
}

/// The entries of a pretty-printed list: each on a line of its own,
/// indented by four spaces, in its `Debug` form and followed by a comma.
pub open spec fn str_list_entries(ss: Seq<Seq<char>>) -> Seq<char>
    decreases ss.len(),
{
    if ss.len() == 0 {
        Seq::empty()
    } else {
        str_list_entries(ss.drop_last()) + "    "@ + str_debug(ss.last()) + ",\n"@
    }
}

/// What `format!("{:#?}", v)` gives for a vector of string slices holding
/// the strings `ss`: `[]` when it is empty, else `[`, a newline, the
/// entries, and `]`.
pub open spec fn str_list_debug(ss: Seq<Seq<char>>) -> Seq<char> {
    if ss.len() == 0 {
        "[]"@
    } else {
        "[\n"@ + str_list_entries(ss) + "]"@
    }
}

/// Formats a vector of string slices with `{:#?}` (`<Vec<&str> as Debug>::fmt`
/// in its alternate form). Trusted: the result is `str_list_debug` of the
/// strings, in order. The alternate form indents every line of an entry; the
/// `Debug` form of a string escapes its newlines, so each entry takes one line.
#[verifier::external_body]
pub(crate) fn debug_str_list(v: &Vec<&str>) -> (r: String)
    ensures
        r@ == str_list_debug(v@.map_values(|s: &str| s@)),
{
    format!("{:#?}", v)
}

} // verus!

verus! {

/// The value of a decimal digit character.
pub open spec fn digit_value(c: char) -> int {
    (c as int) - ('0' as int)
}

/// The character is one of `0` to `9`.
pub open spec fn is_digit(c: char) -> bool {
    '0' <= c && c <= '9'
}

/// The number that a string of decimal digits stands for, read from left to right.
pub open spec fn decimal_value(s: Seq<char>) -> int
    decreases s.len(),
{
    if s.len() == 0 {
        0
    } else {
        decimal_value(s.drop_last()) * 10 + digit_value(s.last())
    }
}

/// The decimal text of `n` reads back as `n`: it is a nonempty string of
/// digits whose value in base ten is `n`, without a leading zero (unless it
/// is `0` itself).
pub proof fn lemma_decimal_reads_back(n: nat)
    ensures
        decimal(n).len() > 0,
        forall|i: int| 0 <= i < decimal(n).len() ==> is_digit(#[trigger] decimal(n)[i]),
        decimal_value(decimal(n)) == n,
        decimal(n)[0] == '0' ==> n == 0 && decimal(n).len() == 1,
    decreases n,
{
    if n < 10 {
        assert(decimal(n).drop_last() =~= Seq::<char>::empty());
        assert(digit_value(digit_char(n)) == n);
        assert(decimal_value(decimal(n)) == decimal_value(Seq::<char>::empty()) * 10 + digit_value(digit_char(n)));
    } else {
        lemma_decimal_reads_back(n / 10);
        let d = decimal(n / 10);
        assert(decimal(n).drop_last() =~= d);
        assert(digit_value(digit_char(n % 10)) == n % 10);
        assert(decimal_value(decimal(n)) == decimal_value(d) * 10 + digit_value(digit_char(n % 10)));
        assert((n / 10) * 10 + n % 10 == n) by (nonlinear_arith);
        assert(decimal(n)[0] == d[0]);
        assert forall|i: int| 0 <= i < decimal(n).len() implies is_digit(#[trigger] decimal(n)[i]) by {
            if i < d.len() {
                assert(decimal(n)[i] == d[i]);
            }
        }
    }
}

/// The text `p` occurs in `t`.
pub open spec fn contains_text(t: Seq<char>, p: Seq<char>) -> bool {
    exists|i: int| 0 <= i <= t.len() - p.len() && #[trigger] t.subrange(i, i + p.len()) == p
}

/// A text occurs in any text built around it.
pub proof fn lemma_contains_around(a: Seq<char>, p: Seq<char>, b: Seq<char>)
    ensures
        contains_text(a + p + b, p),
{
    let t = a + p + b;
    assert(t.subrange(a.len() as int, (a.len() + p.len()) as int) =~= p);
}

/// What occurs in a text occurs in any text built around it.
pub proof fn lemma_contains_extend(a: Seq<char>, t: Seq<char>, b: Seq<char>, p: Seq<char>)
    requires
        contains_text(t, p),
    ensures
        contains_text(a + t + b, p),
{
    let i = choose|i: int| 0 <= i <= t.len() - p.len() && #[trigger] t.subrange(i, i + p.len()) == p;
    let u = a + t + b;
    assert(u.subrange(a.len() + i, a.len() + i + p.len()) =~= t.subrange(i, i + p.len()));
}

} // verus!
