use vstd::prelude::*;

use crate::text::push_char;

verus! {

/// The replacement of one character in HTML: `<`, `>`, `&`, `"`, `'` and `/`
/// become character references; every other character stands for itself.
pub open spec fn html_quote(c: char) -> Seq<char> {
    if c == '<' {
        "&lt;"@
    } else if c == '>' {
        "&gt;"@
    } else if c == '&' {
        "&amp;"@
    } else if c == '"' {
        "&quot;"@
    } else if c == '\'' {
        "&#x27;"@
    } else if c == '/' {
        "&#x2f;"@
    } else {
        seq![c]
    }
}

/// The text `s` escaped for HTML, character by character.
pub open spec fn html_escape(s: Seq<char>) -> Seq<char>
    decreases s.len(),
{
    if s.len() == 0 {
        Seq::empty()
    } else {
        html_escape(s.drop_last()) + html_quote(s.last())
    }
}

/// A character that HTML escaping replaces.
pub open spec fn is_html_special(c: char) -> bool {
    c == '<' || c == '>' || c == '&' || c == '"' || c == '\'' || c == '/'
}

/// A text to be escaped for HTML.
pub struct HTMLEscape<'a> {
    text: &'a str,
}

impl<'a> View for HTMLEscape<'a> {
    type V = Seq<char>;

    closed spec fn view(&self) -> Seq<char> {
        self.text@
    }
}

/// Wraps `s` for escaping.
pub fn escape<'a>(s: &'a str) -> (e: HTMLEscape<'a>)
    ensures
        e@ == s@,
{
    HTMLEscape { text: s }
}

impl<'a> HTMLEscape<'a> {
    /// Wraps `s` for escaping.
    pub fn from(s: &'a str) -> (e: HTMLEscape<'a>)
        ensures
            e@ == s@,
    {
        HTMLEscape { text: s }
    }

    /// The escaped text.
    pub fn to_string(&self) -> (out: String)
        ensures
            out@ == html_escape(self@),
    {
        let mut out = String::new();
        let ghost text = self.text@;
        for c in it: self.text.chars()
            invariant
                text == self.text@,
                it.seq() == text,
                out@ == html_escape(text.take(it.index() as int)),
        {
            let ghost k = it.index() as int;
            if c == '<' {
                out.append("&lt;");
            } else if c == '>' {
                out.append("&gt;");
            } else if c == '&' {
                out.append("&amp;");
            } else if c == '"' {
                out.append("&quot;");
            } else if c == '\'' {
                out.append("&#x27;");
            } else if c == '/' {
                out.append("&#x2f;");
            } else {
                push_char(&mut out, c);
            }
            assert(text.take(k + 1).drop_last() =~= text.take(k));
        }
        assert(text.take(text.len() as int) =~= text);
        out
    }
}

/// A character that has a meaning in markup and never appears in escaped text.
pub open spec fn is_markup(c: char) -> bool {
    c == '<' || c == '>' || c == '"' || c == '\'' || c == '/'
}

/// Escaping goes character by character: the escape of a concatenation is
/// the concatenation of the escapes.
pub proof fn lemma_escape_concat(a: Seq<char>, b: Seq<char>)
    ensures
        html_escape(a + b) == html_escape(a) + html_escape(b),
    decreases b.len(),
{
    if b.len() == 0 {
        assert(a + b =~= a);
        assert(html_escape(a) + html_escape(b) =~= html_escape(a));
    } else {
        lemma_escape_concat(a, b.drop_last());
        assert((a + b).drop_last() =~= a + b.drop_last());
        assert((a + b).last() == b.last());
    }
}

/// Escaped text holds none of `<`, `>`, `"`, `'` and `/`.
pub proof fn lemma_escape_safe(s: Seq<char>)
    ensures
        forall|i: int| 0 <= i < html_escape(s).len() ==> !is_markup(#[trigger] html_escape(s)[i]),
    decreases s.len(),
{
    if s.len() > 0 {
        lemma_escape_safe(s.drop_last());
        reveal_strlit("&lt;");
        reveal_strlit("&gt;");
        reveal_strlit("&amp;");
        reveal_strlit("&quot;");
        reveal_strlit("&#x27;");
        reveal_strlit("&#x2f;");
        let p = html_escape(s.drop_last());
        let q = html_quote(s.last());
        assert forall|i: int| 0 <= i < (p + q).len() implies !is_markup(#[trigger] (p + q)[i]) by {
            if i >= p.len() {
                assert((p + q)[i] == q[i - p.len()]);
            }
        }
    }
}

/// Text without any character that escaping replaces is left as it is.
pub proof fn lemma_escape_plain(s: Seq<char>)
    requires
        forall|i: int| 0 <= i < s.len() ==> !is_html_special(#[trigger] s[i]),
    ensures
        html_escape(s) == s,
    decreases s.len(),
{
    if s.len() > 0 {
        lemma_escape_plain(s.drop_last());
        assert(!is_html_special(s[s.len() - 1]));
        assert(s.drop_last().push(s.last()) =~= s);
    }
}

} // verus!
