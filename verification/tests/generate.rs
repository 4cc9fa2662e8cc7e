use v_escape::generator::{generate, Generator, Pair};

#[test]
fn generate_two_rules_with_ranges_and_avx() {
    let pairs = [Pair::new(60, "&lt;".as_bytes()), Pair::new(62, "&gt;".as_bytes())];
    let expected = "static V_ESCAPE_TABLE: [u8; 256] = [2, 2, 2, 2, 2, 2, 2, 2, 2, 2, 2, 2, 2, 2, 2, 2, 2, 2, 2, 2, 2, 2, 2, 2, 2, 2, 2, 2, 2, 2, 2, 2, 2, 2, 2, 2, 2, 2, 2, 2, 2, 2, 2, 2, 2, 2, 2, 2, 2, 2, 2, 2, 2, 2, 2, 2, 2, 2, 2, 2, 0, 2, 1, 2, 2, 2, 2, 2, 2, 2, 2, 2, 2, 2, 2, 2, 2, 2, 2, 2, 2, 2, 2, 2, 2, 2, 2, 2, 2, 2, 2, 2, 2, 2, 2, 2, 2, 2, 2, 2, 2, 2, 2, 2, 2, 2, 2, 2, 2, 2, 2, 2, 2, 2, 2, 2, 2, 2, 2, 2, 2, 2, 2, 2, 2, 2, 2, 2, 2, 2, 2, 2, 2, 2, 2, 2, 2, 2, 2, 2, 2, 2, 2, 2, 2, 2, 2, 2, 2, 2, 2, 2, 2, 2, 2, 2, 2, 2, 2, 2, 2, 2, 2, 2, 2, 2, 2, 2, 2, 2, 2, 2, 2, 2, 2, 2, 2, 2, 2, 2, 2, 2, 2, 2, 2, 2, 2, 2, 2, 2, 2, 2, 2, 2, 2, 2, 2, 2, 2, 2, 2, 2, 2, 2, 2, 2, 2, 2, 2, 2, 2, 2, 2, 2, 2, 2, 2, 2, 2, 2, 2, 2, 2, 2, 2, 2, 2, 2, 2, 2, 2, 2, 2, 2, 2, 2, 2, 2, 2, 2, 2, 2, 2, 2, 2, 2, 2, 2, 2, 2, 2, 2, 2, 2, 2, 2, ];\nstatic V_ESCAPE_QUOTES: [&str; 2] = [\n    \"&lt;\",\n    \"&gt;\",\n];\nconst V_ESCAPE_LEN: usize = 2;\nmod scalar { use super :: * ; _v_escape_escape_scalar ! (V_ESCAPE_TABLE , V_ESCAPE_QUOTES , V_ESCAPE_LEN) ; }\n#[cfg(all(target_arch = \"x86_64\", not(v_escape_nosimd)))]\nmod ranges {\n    pub mod avx {\n        use super::super::*;\n        _v_escape_escape_ranges!(avx2 (V_ESCAPE_TABLE, V_ESCAPE_QUOTES, V_ESCAPE_LEN) 60, 62, 128, );\n    }\n    pub mod sse {\n        use super::super::*;\n        _v_escape_escape_ranges!(sse2 (V_ESCAPE_TABLE, V_ESCAPE_QUOTES, V_ESCAPE_LEN) 60, 62, 128, );\n    }\n}\n_v_escape_cfg_escape!(true, true, true);\n";
    assert_eq!(generate(&pairs, true, true, true), expected);
    assert_eq!(Generator::new(&pairs, true, true, true).build(), expected);
}

#[test]
fn generate_one_rule_with_comparisons() {
    let pairs = [Pair::new(34, "\\\"".as_bytes())];
    let expected = "const V_ESCAPE_CHAR: u8 = 34;\nstatic V_ESCAPE_QUOTES: &str = \"\\\\\\\"\";\nconst V_ESCAPE_LEN: usize = 1;\nmod scalar { use super :: * ; _v_escape_escape_scalar ! (one V_ESCAPE_CHAR , V_ESCAPE_QUOTES) ; }\n#[cfg(all(target_arch = \"x86_64\", not(all(target_os = \"windows\", v_escape_nosimd))))]\nmod sse {\n    mod ranges {\n        use super::super::*;\n        _v_escape_escape_ranges!((V_ESCAPE_CHAR, V_ESCAPE_QUOTES, V_ESCAPE_LEN) 34, 128, );\n    }\n}\n_v_escape_cfg_escape!(true, true, false);\n";
    assert_eq!(generate(&pairs, true, false, false), expected);
    assert_eq!(Generator::new(&pairs, true, false, false).build(), expected);
}

#[test]
fn generate_three_rules_with_comparisons() {
    let pairs = [Pair::new(38, "&amp;".as_bytes()), Pair::new(60, "&lt;".as_bytes()), Pair::new(62, "&gt;".as_bytes())];
    let expected = "static V_ESCAPE_TABLE: [u8; 256] = [3, 3, 3, 3, 3, 3, 3, 3, 3, 3, 3, 3, 3, 3, 3, 3, 3, 3, 3, 3, 3, 3, 3, 3, 3, 3, 3, 3, 3, 3, 3, 3, 3, 3, 3, 3, 3, 3, 0, 3, 3, 3, 3, 3, 3, 3, 3, 3, 3, 3, 3, 3, 3, 3, 3, 3, 3, 3, 3, 3, 1, 3, 2, 3, 3, 3, 3, 3, 3, 3, 3, 3, 3, 3, 3, 3, 3, 3, 3, 3, 3, 3, 3, 3, 3, 3, 3, 3, 3, 3, 3, 3, 3, 3, 3, 3, 3, 3, 3, 3, 3, 3, 3, 3, 3, 3, 3, 3, 3, 3, 3, 3, 3, 3, 3, 3, 3, 3, 3, 3, 3, 3, 3, 3, 3, 3, 3, 3, 3, 3, 3, 3, 3, 3, 3, 3, 3, 3, 3, 3, 3, 3, 3, 3, 3, 3, 3, 3, 3, 3, 3, 3, 3, 3, 3, 3, 3, 3, 3, 3, 3, 3, 3, 3, 3, 3, 3, 3, 3, 3, 3, 3, 3, 3, 3, 3, 3, 3, 3, 3, 3, 3, 3, 3, 3, 3, 3, 3, 3, 3, 3, 3, 3, 3, 3, 3, 3, 3, 3, 3, 3, 3, 3, 3, 3, 3, 3, 3, 3, 3, 3, 3, 3, 3, 3, 3, 3, 3, 3, 3, 3, 3, 3, 3, 3, 3, 3, 3, 3, 3, 3, 3, 3, 3, 3, 3, 3, 3, 3, 3, 3, 3, 3, 3, 3, 3, 3, 3, 3, 3, 3, 3, 3, 3, 3, 3, ];\nstatic V_ESCAPE_QUOTES: [&str; 3] = [\n    \"&amp;\",\n    \"&lt;\",\n    \"&gt;\",\n];\nconst V_ESCAPE_LEN: usize = 3;\nmod scalar { use super :: * ; _v_escape_escape_scalar ! (V_ESCAPE_TABLE , V_ESCAPE_QUOTES , V_ESCAPE_LEN) ; }\n#[cfg(all(target_arch = \"x86_64\", not(all(target_os = \"windows\", v_escape_nosimd))))]\nmod sse {\n    use super::*;\n     _v_escape_escape_sse!((V_ESCAPE_TABLE, V_ESCAPE_QUOTES, V_ESCAPE_LEN) 38, 60, 62, 0, 0, 0, 0, 0, 0, 0, 0, 0, 0, 0, 0, 0, );\n}\n_v_escape_cfg_escape!(true, false, false);\n";
    assert_eq!(generate(&pairs, true, false, false), expected);
    assert_eq!(Generator::new(&pairs, true, false, false).build(), expected);
}

#[test]
fn generate_without_vector_code() {
    let pairs = [Pair::new(39, "&#x27;".as_bytes()), Pair::new(47, "&#x2f;".as_bytes())];
    let expected = "static V_ESCAPE_TABLE: [u8; 256] = [2, 2, 2, 2, 2, 2, 2, 2, 2, 2, 2, 2, 2, 2, 2, 2, 2, 2, 2, 2, 2, 2, 2, 2, 2, 2, 2, 2, 2, 2, 2, 2, 2, 2, 2, 2, 2, 2, 2, 0, 2, 2, 2, 2, 2, 2, 2, 1, 2, 2, 2, 2, 2, 2, 2, 2, 2, 2, 2, 2, 2, 2, 2, 2, 2, 2, 2, 2, 2, 2, 2, 2, 2, 2, 2, 2, 2, 2, 2, 2, 2, 2, 2, 2, 2, 2, 2, 2, 2, 2, 2, 2, 2, 2, 2, 2, 2, 2, 2, 2, 2, 2, 2, 2, 2, 2, 2, 2, 2, 2, 2, 2, 2, 2, 2, 2, 2, 2, 2, 2, 2, 2, 2, 2, 2, 2, 2, 2, 2, 2, 2, 2, 2, 2, 2, 2, 2, 2, 2, 2, 2, 2, 2, 2, 2, 2, 2, 2, 2, 2, 2, 2, 2, 2, 2, 2, 2, 2, 2, 2, 2, 2, 2, 2, 2, 2, 2, 2, 2, 2, 2, 2, 2, 2, 2, 2, 2, 2, 2, 2, 2, 2, 2, 2, 2, 2, 2, 2, 2, 2, 2, 2, 2, 2, 2, 2, 2, 2, 2, 2, 2, 2, 2, 2, 2, 2, 2, 2, 2, 2, 2, 2, 2, 2, 2, 2, 2, 2, 2, 2, 2, 2, 2, 2, 2, 2, 2, 2, 2, 2, 2, 2, 2, 2, 2, 2, 2, 2, 2, 2, 2, 2, 2, 2, 2, 2, 2, 2, 2, 2, 2, 2, 2, 2, 2, 2, ];\nstatic V_ESCAPE_QUOTES: [&str; 2] = [\n    \"&#x27;\",\n    \"&#x2f;\",\n];\nconst V_ESCAPE_LEN: usize = 2;\nmod scalar { use super :: * ; _v_escape_escape_scalar ! (V_ESCAPE_TABLE , V_ESCAPE_QUOTES , V_ESCAPE_LEN) ; }\n_v_escape_cfg_escape!(false, false, false);\n";
    assert_eq!(generate(&pairs, false, false, false), expected);
    assert_eq!(Generator::new(&pairs, false, false, false).build(), expected);
}

#[test]
fn generate_one_rule_with_ranges() {
    let pairs = [Pair::new(92, "\\\\".as_bytes())];
    let expected = "const V_ESCAPE_CHAR: u8 = 92;\nstatic V_ESCAPE_QUOTES: &str = \"\\\\\\\\\";\nconst V_ESCAPE_LEN: usize = 1;\nmod scalar { use super :: * ; _v_escape_escape_scalar ! (one V_ESCAPE_CHAR , V_ESCAPE_QUOTES) ; }\n#[cfg(all(target_arch = \"x86_64\", not(v_escape_nosimd)))]\nmod ranges {\n    pub mod sse {\n        use super::super::*;\n        _v_escape_escape_ranges!(sse2 (V_ESCAPE_CHAR, V_ESCAPE_QUOTES, V_ESCAPE_LEN) 92, 128, );\n    }\n}\n_v_escape_cfg_escape!(true, true, false);\n";
    assert_eq!(generate(&pairs, true, true, false), expected);
    assert_eq!(Generator::new(&pairs, true, true, false).build(), expected);
}

#[test]
fn generate_html_rules_with_ranges() {
    let pairs = [Pair::new(34, "&quot;".as_bytes()), Pair::new(38, "&amp;".as_bytes()), Pair::new(39, "&#x27;".as_bytes()), Pair::new(47, "&#x2f;".as_bytes()), Pair::new(60, "&lt;".as_bytes()), Pair::new(62, "&gt;".as_bytes())];
    let expected = "static V_ESCAPE_TABLE: [u8; 256] = [6, 6, 6, 6, 6, 6, 6, 6, 6, 6, 6, 6, 6, 6, 6, 6, 6, 6, 6, 6, 6, 6, 6, 6, 6, 6, 6, 6, 6, 6, 6, 6, 6, 6, 0, 6, 6, 6, 1, 2, 6, 6, 6, 6, 6, 6, 6, 3, 6, 6, 6, 6, 6, 6, 6, 6, 6, 6, 6, 6, 4, 6, 5, 6, 6, 6, 6, 6, 6, 6, 6, 6, 6, 6, 6, 6, 6, 6, 6, 6, 6, 6, 6, 6, 6, 6, 6, 6, 6, 6, 6, 6, 6, 6, 6, 6, 6, 6, 6, 6, 6, 6, 6, 6, 6, 6, 6, 6, 6, 6, 6, 6, 6, 6, 6, 6, 6, 6, 6, 6, 6, 6, 6, 6, 6, 6, 6, 6, 6, 6, 6, 6, 6, 6, 6, 6, 6, 6, 6, 6, 6, 6, 6, 6, 6, 6, 6, 6, 6, 6, 6, 6, 6, 6, 6, 6, 6, 6, 6, 6, 6, 6, 6, 6, 6, 6, 6, 6, 6, 6, 6, 6, 6, 6, 6, 6, 6, 6, 6, 6, 6, 6, 6, 6, 6, 6, 6, 6, 6, 6, 6, 6, 6, 6, 6, 6, 6, 6, 6, 6, 6, 6, 6, 6, 6, 6, 6, 6, 6, 6, 6, 6, 6, 6, 6, 6, 6, 6, 6, 6, 6, 6, 6, 6, 6, 6, 6, 6, 6, 6, 6, 6, 6, 6, 6, 6, 6, 6, 6, 6, 6, 6, 6, 6, 6, 6, 6, 6, 6, 6, 6, 6, 6, 6, 6, 6, ];\nstatic V_ESCAPE_QUOTES: [&str; 6] = [\n    \"&quot;\",\n    \"&amp;\",\n    \"&#x27;\",\n    \"&#x2f;\",\n    \"&lt;\",\n    \"&gt;\",\n];\nconst V_ESCAPE_LEN: usize = 6;\nmod scalar { use super :: * ; _v_escape_escape_scalar ! (V_ESCAPE_TABLE , V_ESCAPE_QUOTES , V_ESCAPE_LEN) ; }\n#[cfg(all(target_arch = \"x86_64\", not(v_escape_nosimd)))]\nmod ranges {\n    pub mod avx {\n        use super::super::*;\n        _v_escape_escape_ranges!(avx2 (V_ESCAPE_TABLE, V_ESCAPE_QUOTES, V_ESCAPE_LEN) 34, 39, 60, 62, 47, );\n    }\n    pub mod sse {\n        use super::super::*;\n        _v_escape_escape_ranges!(sse2 (V_ESCAPE_TABLE, V_ESCAPE_QUOTES, V_ESCAPE_LEN) 34, 39, 60, 62, 47, );\n    }\n}\n_v_escape_cfg_escape!(true, true, true);\n";
    assert_eq!(generate(&pairs, true, true, true), expected);
    assert_eq!(Generator::new(&pairs, true, true, true).build(), expected);
}
