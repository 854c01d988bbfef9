use vera_core::path_query::{has_path_token, is_path_shaped_token, is_path_weighted_query};

fn trim_token(word: &str) -> String {
    word.trim_matches(|c: char| c == '"' || c == ',' || c == '?')
        .to_string()
}

fn weighted(query: &str) -> bool {
    is_path_weighted_query(query, trim_token)
}

#[test]
fn prose_with_a_slash_stays_semantic() {
    assert!(!weighted("read/write request handling"));
    assert!(!weighted("how are requests routed"));
    assert!(!weighted(""));
    assert!(!weighted("   "));
}

#[test]
fn configuration_files_weigh_paths() {
    for query in [
        "Cargo.toml settings",
        "package.JSON scripts",
        "where is ci.yaml",
        "ci.yml",
        "php.ini",
        "nginx.conf",
        "the Dockerfile",
        "MAKEFILE targets",
        "CMakeLists.txt",
    ] {
        assert!(weighted(query), "{}", query);
    }
}

#[test]
fn path_shaped_tokens_weigh_paths() {
    assert!(weighted("read/write"));
    assert!(weighted("open \"src/main.rs\", please"));
    assert!(weighted("look in ./scripts now"));
    assert!(weighted("look in ../scripts now"));
    assert!(weighted("look in /etc/passwd now"));
    assert!(weighted("look in ~/notes now"));
    assert!(weighted("look in C:\\temp now"));
    assert!(weighted("look in a\\b.rs now"));
}

#[test]
fn tokens_that_trim_to_nothing_do_not_count() {
    assert!(weighted("? read/write ,"));
    assert!(!weighted("\"x\" read/write"));
}

#[test]
fn shape_of_a_token() {
    assert!(!is_path_shaped_token("main.rs", true));
    assert!(!is_path_shaped_token("read/write", false));
    assert!(is_path_shaped_token("read/write", true));
    assert!(is_path_shaped_token("src/main.rs", false));
    assert!(!is_path_shaped_token("v1.2/notes", false));
    assert!(!is_path_shaped_token("src.d/", false));
    assert!(is_path_shaped_token("c:/x", false));
    assert!(!is_path_shaped_token("é:/x", false));
    assert!(!is_path_shaped_token("", true));
}

#[test]
fn single_token_is_counted_without_empty_ones() {
    let tokens = |t: &[&str]| t.iter().map(|s| s.to_string()).collect::<Vec<String>>();
    assert!(has_path_token(&tokens(&["", "a/b", ""])));
    assert!(!has_path_token(&tokens(&["x", "a/b"])));
    assert!(!has_path_token(&tokens(&[])));
}
