use v_escape::buffer::Buffer;
use v_escape::generator::{Generator, Pair};
use v_escape::html::{escape, HTMLEscape};

static Q: &[u8] = b"q";

/// Reads a description back as the set of bytes that the vector mask flags.
fn flagged(r: &[u8], b: u8) -> bool {
    let in_range = |k: usize| r[k] <= b && b <= r[k + 1];
    if *r.last().unwrap() == 128 {
        if r.len() == 5 {
            in_range(0) || b == r[2] || b == r[3]
        } else {
            r[..r.len() - 1].contains(&b)
        }
    } else {
        (r.len() >= 2 && in_range(0))
            || (r.len() >= 4 && in_range(2))
            || (r.len() >= 6 && in_range(4))
            || (r.len() % 2 == 1 && b == *r.last().unwrap())
    }
}

fn ranges_of(chars: &[u8]) -> Vec<u8> {
    let pairs: Vec<Pair> = chars.iter().map(|c| Pair::new(*c, Q)).collect();
    Generator::new(&pairs, true, true, false).calculate_ranges()
}

fn gap_count(chars: &[u8]) -> usize {
    chars.windows(2).filter(|w| w[1] - w[0] > 1).count()
}

const SETS: &[&[u8]] = &[
    &[5],
    &[3, 4, 5],
    &[3, 9],
    &[1, 7, 8, 9],
    &[1, 2, 3, 9],
    &[1, 2, 6, 7],
    &[0, 4, 9],
    &[0, 2, 4, 6],
    &[10, 11, 20, 21, 40, 41, 42, 90],
    &[34, 38, 39, 47, 60, 62],
    &[0, 1, 3, 5, 7, 9, 50, 52, 55, 60, 61, 62, 63, 64, 126, 127],
];

#[test]
fn ranges_flag_every_escaped_byte() {
    for chars in SETS {
        let r = ranges_of(chars);
        for c in chars.iter() {
            assert!(flagged(&r, *c), "{:?} misses {}", r, c);
        }
    }
}

#[test]
fn ranges_are_exact_with_two_gaps_or_fewer() {
    for chars in SETS {
        let r = ranges_of(chars);
        for b in 0..=127u8 {
            if flagged(&r, b) {
                assert!(b >= chars[0] && b <= *chars.last().unwrap());
                if gap_count(chars) <= 2 {
                    assert!(chars.contains(&b), "{:?} flags {}", r, b);
                }
            }
        }
    }
}

#[test]
fn ranges_leave_out_the_two_widest_gaps() {
    // gaps: 10 (at 1), 19 (at 3), 49 (at 6) -> the widest are at 6 and 3
    let chars: &[u8] = &[10, 11, 21, 22, 41, 42, 43, 92];
    let r = ranges_of(chars);
    assert_eq!(r, vec![10, 22, 41, 43, 92]);
    for b in 23..41u8 {
        assert!(!flagged(&r, b));
    }
    for b in 44..92u8 {
        assert!(!flagged(&r, b));
    }
    // the narrowest gap is taken into a range
    assert!(flagged(&r, 15));
}

#[test]
fn ranges_rank_equal_gaps_by_position() {
    // three gaps of width 2: the first two rank before the third
    assert_eq!(ranges_of(&[0, 2, 4, 6]), vec![4, 6, 0, 2, 128]);
    // two gaps of width 5 after a narrower one
    assert_eq!(ranges_of(&[0, 2, 7, 12]), vec![0, 2, 7, 12, 128]);
}

#[test]
fn ranges_of_html_rules() {
    // " & ' / < >
    assert_eq!(ranges_of(&[34, 38, 39, 47, 60, 62]), vec![34, 39, 60, 62, 47]);
}

#[test]
fn buffer_indents_blocks() {
    let mut b = Buffer::new(0);
    b.writeln("mod a {");
    b.writeln("mod b {");
    b.write("x");
    b.write("y");
    b.writeln(";");
    b.writeln("}");
    b.writeln("");
    b.writeln("}");
    assert_eq!(b.into_string(), "mod a {\n    mod b {\n        xy;\n    }\n\n}\n");
}

#[test]
fn buffer_starts_at_its_indentation() {
    let mut b = Buffer::new(2);
    b.write("a");
    b.append_raw("1, 2, ");
    b.writeln("b");
    b.indent();
    b.writeln("c");
    b.dedent();
    b.dedent();
    b.writeln("d");
    assert_eq!(b.into_string(), "        a1, 2, b\n            c\n    d\n");
}

#[test]
fn escape_goes_character_by_character() {
    let a = "a<b";
    let b = "'c'/&";
    let joined = format!("{}{}", a, b);
    assert_eq!(
        HTMLEscape::from(&joined).to_string(),
        format!("{}{}", HTMLEscape::from(a).to_string(), HTMLEscape::from(b).to_string())
    );
    assert_eq!(escape(&joined).to_string(), "a&lt;b&#x27;c&#x27;&#x2f;&amp;");
}

#[test]
fn escaped_text_has_no_markup() {
    let out = escape("<script>alert(\"x\" + '/')</script> & é").to_string();
    for c in ['<', '>', '"', '\'', '/'] {
        assert!(!out.contains(c));
    }
    assert_eq!(
        out,
        "&lt;script&gt;alert(&quot;x&quot; + &#x27;&#x2f;&#x27;)&lt;&#x2f;script&gt; &amp; é"
    );
}

#[test]
fn plain_text_is_left_as_it_is() {
    let s = "plain text, with ünïcode: ok";
    assert_eq!(escape(s).to_string(), s);
}

#[test]
fn ranges_move_with_the_bytes() {
    for chars in SETS {
        let top = *chars.last().unwrap();
        for d in [1u8, 7, 20] {
            if top + d < 128 {
                let moved: Vec<u8> = chars.iter().map(|c| c + d).collect();
                let expected: Vec<u8> = ranges_of(chars)
                    .iter()
                    .map(|x| if *x == 128 { 128 } else { x + d })
                    .collect();
                assert_eq!(ranges_of(&moved), expected);
            }
        }
    }
}

#[test]
fn avx_matters_only_for_ranges() {
    let pairs = [Pair::new(38, b"&amp;"), Pair::new(60, b"&lt;"), Pair::new(62, b"&gt;")];
    assert_eq!(
        Generator::new(&pairs, true, false, true).build(),
        Generator::new(&pairs, true, false, false).build()
    );
    let plain = Generator::new(&pairs, false, false, false).build();
    let other = Generator::new(&pairs, false, true, true).build();
    let cut = |s: &str| s[..s.trim_end().rfind('\n').unwrap()].to_string();
    assert_eq!(cut(&plain), cut(&other));
    assert_ne!(plain, other);
}
