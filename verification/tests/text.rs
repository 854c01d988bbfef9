use vera_core::text::{
    characters, collapse, contains, find_first, find_last, is_white_space, replace, starts_with,
    string_of, to_lower, trim, trim_end,
};

fn samples() -> Vec<&'static str> {
    vec![
        "",
        "a",
        " a ",
        "a  b",
        "\t\u{3000}ünï cödé\u{85}",
        "src/a/mod.rs",
        ".rs.rs",
        "a::b:::c",
        "::",
        "Größe ABC xyz [Z]@{",
        "x/y//z/",
    ]
}

fn patterns() -> Vec<&'static str> {
    vec!["", "a", "::", "/", ".rs", "src/", "ö", "mod", "zz"]
}

#[test]
fn white_space_is_that_of_unicode() {
    for code in 0..0x11_0000u32 {
        if let Some(c) = char::from_u32(code) {
            assert_eq!(is_white_space(c), c.is_whitespace(), "{}", code);
        }
    }
}

#[test]
fn characters_and_strings_are_the_same_text() {
    for s in samples() {
        assert_eq!(string_of(&characters(s)), s);
        assert_eq!(characters(s), s.chars().collect::<Vec<char>>());
    }
}

#[test]
fn texts_are_searched() {
    let place = |s: &str, byte: Option<usize>| byte.map(|b| s[..b].chars().count());
    for s in samples() {
        let text = characters(s);
        for p in patterns() {
            let pattern = characters(p);
            assert_eq!(find_first(&text, &pattern), place(s, s.find(p)));
            assert_eq!(find_last(&text, &pattern), place(s, s.rfind(p)));
            assert_eq!(contains(&text, &pattern), s.contains(p));
            assert_eq!(starts_with(&text, &pattern), s.starts_with(p));
        }
    }
}

#[test]
fn texts_are_trimmed_replaced_and_folded() {
    for s in samples() {
        let text = characters(s);
        assert_eq!(string_of(&trim(&text)), s.trim());
        assert_eq!(string_of(&to_lower(&text)), s.to_ascii_lowercase());
        assert_eq!(string_of(&replace(&text, '/', &characters("::"))), s.replace('/', "::"));
        assert_eq!(
            string_of(&collapse(&text)),
            s.split_whitespace().collect::<Vec<_>>().join(" ")
        );
        for p in patterns() {
            if !p.is_empty() {
                let mut cut = text.clone();
                trim_end(&mut cut, &characters(p));
                assert_eq!(string_of(&cut), s.trim_end_matches(p));
            }
        }
    }
}
