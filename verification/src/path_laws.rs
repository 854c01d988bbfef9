//! Which tokens and queries are taken for paths, in terms of their characters.
use vstd::prelude::*;
use crate::path_query::{config_named, filled, folded, has_path_token, is_path_shaped_token,
    is_path_weighted_query, last_segment, names_config_file, path_among, path_prefixed,
    path_shaped, path_weighted, trims, weighs};
use crate::text::{lowered, starts_in, trimmed, words};
use crate::text_laws::{occurrence_is_somewhere, occurrences_are_literal, stands};

verus! {

/// A slash of either kind.
pub open spec fn slash(c: char) -> bool {
    c == '/' || c == '\\'
}

/// There is a dot at `i`, and no slash of either kind after it.
pub open spec fn dot_in_last_segment(token: Seq<char>, i: int) -> bool {
    &&& 0 <= i < token.len()
    &&& token[i] == '.'
    &&& forall|k: int| i < k < token.len() ==> !slash(#[trigger] token[k])
}

/// The token holds a slash; and it is alone, or starts with `./`, `../`, a slash, a tilde
/// or a drive, or there is a dot after its last slash.
pub open spec fn path_like(token: Seq<char>, alone: bool) -> bool {
    let n = token.len();
    &&& exists|i: int| 0 <= i < n && slash(#[trigger] token[i])
    &&& {
        ||| alone
        ||| n >= 2 && token[0] == '.' && token[1] == '/'
        ||| n >= 3 && token[0] == '.' && token[1] == '.' && token[2] == '/'
        ||| token[0] == '/'
        ||| token[0] == '~'
        ||| n >= 2 && (token[0] as u32) < 128 && token[1] == ':'
        ||| exists|i: int| #[trigger] dot_in_last_segment(token, i)
    }
}

/// A dot is in the last segment exactly where it stands after every slash.
pub proof fn last_segment_is_after_the_slashes(token: Seq<char>)
    ensures
        last_segment(token).contains('.') <==> exists|i: int| #[trigger]
            dot_in_last_segment(token, i),
    decreases token.len(),
{
    if token.len() > 0 {
        let rest = token.drop_last();
        let n = token.len() - 1;
        last_segment_is_after_the_slashes(rest);
        if slash(token.last()) {
            assert(last_segment(token) =~= Seq::empty());
            assert forall|i: int| !#[trigger] dot_in_last_segment(token, i) by {
                if dot_in_last_segment(token, i) && i < n {
                    assert(!slash(token[n]));
                }
            }
        } else {
            let segment = last_segment(token);
            let before = last_segment(rest);
            assert(segment == before.push(token.last()));
            if segment.contains('.') {
                let k = choose|k: int| 0 <= k < segment.len() && segment[k] == '.';
                if k < before.len() {
                    assert(before[k] == '.');
                    let i = choose|i: int| #[trigger] dot_in_last_segment(rest, i);
                    assert forall|m: int| i < m < token.len() implies !slash(
                        #[trigger] token[m],
                    ) by {
                        if m < n {
                            assert(rest[m] == token[m]);
                        }
                    }
                    assert(dot_in_last_segment(token, i));
                } else {
                    assert(dot_in_last_segment(token, n));
                }
            }
            if exists|i: int| #[trigger] dot_in_last_segment(token, i) {
                let i = choose|i: int| #[trigger] dot_in_last_segment(token, i);
                if i == n {
                    assert(segment[segment.len() - 1] == '.');
                } else {
                    assert forall|m: int| i < m < rest.len() implies !slash(
                        #[trigger] rest[m],
                    ) by {
                        assert(rest[m] == token[m]);
                    }
                    assert(dot_in_last_segment(rest, i));
                    let k = choose|k: int| 0 <= k < before.len() && before[k] == '.';
                    assert(segment[k] == '.');
                }
            }
        }
    } else {
        assert(last_segment(token) =~= Seq::empty());
    }
}

/// A token is shaped like a path exactly where it looks like one.
pub proof fn shape_is_what_it_looks_like(token: Seq<char>, alone: bool)
    ensures
        path_shaped(token, alone) <==> path_like(token, alone),
{
    last_segment_is_after_the_slashes(token);
    lemma_prefixes(token);
    if token.contains('/') {
        let i = choose|i: int| 0 <= i < token.len() && token[i] == '/';
        assert(slash(token[i]));
    }
    if token.contains('\\') {
        let i = choose|i: int| 0 <= i < token.len() && token[i] == '\\';
        assert(slash(token[i]));
    }
}

proof fn lemma_one_byte(c: char)
    ensures
        (c as u32) < 128 <==> c < '\u{80}',
{
}

proof fn lemma_prefixes(token: Seq<char>)
    ensures
        starts_in(token, "./"@) <==> token.len() >= 2 && token[0] == '.' && token[1] == '/',
        starts_in(token, "../"@) <==> token.len() >= 3 && token[0] == '.' && token[1] == '.'
            && token[2] == '/',
        path_prefixed(token) <==> starts_in(token, "./"@) || starts_in(token, "../"@) || (
        token.len() > 0 && (token[0] == '/' || token[0] == '~')) || (token.len() >= 2 && (
        token[0] as u32) < 128 && token[1] == ':'),
{
    lemma_one_byte(token[0]);
    reveal_strlit("./");
    reveal_strlit("../");
    occurrences_are_literal(token, "./"@, 0);
    occurrences_are_literal(token, "../"@, 0);
    if stands(token, "./"@, 0) {
        assert(token[0int + 0] == "./"@[0] && token[0int + 1] == "./"@[1]);
    }
    if stands(token, "../"@, 0) {
        assert(token[0int + 0] == "../"@[0] && token[0int + 1] == "../"@[1] && token[0int + 2]
            == "../"@[2]);
    }
}

/// Testing a token says whether it looks like a path.
pub proof fn outcome_of_testing_a_token(token: &str, single_token_query: bool, res: bool)
    requires
        call_ensures(is_path_shaped_token, (token, single_token_query), res),
    ensures
        res <==> path_like(token@, single_token_query),
{
    shape_is_what_it_looks_like(token@, single_token_query);
}

/// Whatever a token holds, a slash and a dot after its last slash make it a path.
pub proof fn dot_after_the_last_slash_makes_a_path(
    token: &str,
    single_token_query: bool,
    res: bool,
    i: int,
    s: int,
)
    requires
        call_ensures(is_path_shaped_token, (token, single_token_query), res),
        0 <= s < i < token@.len(),
        slash(token@[s]),
        token@[i] == '.',
        forall|k: int| i < k < token@.len() ==> !slash(#[trigger] token@[k]),
    ensures
        res,
{
    outcome_of_testing_a_token(token, single_token_query, res);
    assert(dot_in_last_segment(token@, i));
}

/// The token at `i` is the only one that is not empty.
pub open spec fn alone_among(tokens: Seq<Seq<char>>, i: int) -> bool {
    forall|j: int| 0 <= j < tokens.len() && j != i ==> (#[trigger] tokens[j]).len() == 0
}

/// The token at `i` is not empty, and looks like a path beside the others.
pub open spec fn path_at(tokens: Seq<Seq<char>>, i: int) -> bool {
    &&& 0 <= i < tokens.len()
    &&& tokens[i].len() > 0
    &&& path_like(tokens[i], alone_among(tokens, i))
}

/// A path is among the tokens exactly where one of them looks like one.
pub proof fn paths_are_found_among_tokens(tokens: Seq<Seq<char>>)
    ensures
        path_among(tokens) <==> exists|i: int| #[trigger] path_at(tokens, i),
{
    let left = filled(tokens);
    if path_among(tokens) {
        let k = choose|k: int|
            0 <= k < left.len() && path_shaped(#[trigger] left[k], left.len() == 1);
        let i = lemma_filled_from(tokens, k);
        lemma_filled_alone(tokens, i);
        shape_is_what_it_looks_like(tokens[i], left.len() == 1);
        assert(path_at(tokens, i));
    }
    if exists|i: int| #[trigger] path_at(tokens, i) {
        let i = choose|i: int| #[trigger] path_at(tokens, i);
        let k = lemma_filled_at(tokens, i);
        lemma_filled_alone(tokens, i);
        shape_is_what_it_looks_like(tokens[i], left.len() == 1);
        assert(path_shaped(left[k], left.len() == 1));
    }
}

/// What is filled was there.
proof fn lemma_filled_from(tokens: Seq<Seq<char>>, k: int) -> (i: int)
    requires
        0 <= k < filled(tokens).len(),
    ensures
        0 <= i < tokens.len(),
        tokens[i] == filled(tokens)[k],
        tokens[i].len() > 0,
    decreases tokens.len(),
{
    let rest = tokens.drop_last();
    if k < filled(rest).len() {
        let i = lemma_filled_from(rest, k);
        assert(rest[i] == tokens[i]);
        i
    } else {
        tokens.len() - 1
    }
}

/// What is not empty is filled.
proof fn lemma_filled_at(tokens: Seq<Seq<char>>, i: int) -> (k: int)
    requires
        0 <= i < tokens.len(),
        tokens[i].len() > 0,
    ensures
        0 <= k < filled(tokens).len(),
        filled(tokens)[k] == tokens[i],
    decreases tokens.len(),
{
    let rest = tokens.drop_last();
    if i < rest.len() {
        assert(rest[i] == tokens[i]);
        lemma_filled_at(rest, i)
    } else {
        filled(rest).len() as int
    }
}

proof fn lemma_none_filled(tokens: Seq<Seq<char>>)
    ensures
        filled(tokens).len() == 0 <==> alone_among(tokens, -1),
{
    if filled(tokens).len() == 0 {
        assert forall|j: int| 0 <= j < tokens.len() && j != -1 implies (
        #[trigger] tokens[j]).len() == 0 by {
            if tokens[j].len() > 0 {
                let k = lemma_filled_at(tokens, j);
            }
        }
    } else {
        let i = lemma_filled_from(tokens, 0);
    }
}

/// One token is filled exactly where the others are empty.
proof fn lemma_filled_alone(tokens: Seq<Seq<char>>, i: int)
    requires
        0 <= i < tokens.len(),
        tokens[i].len() > 0,
    ensures
        (filled(tokens).len() == 1) == alone_among(tokens, i),
    decreases tokens.len(),
{
    let rest = tokens.drop_last();
    let n = tokens.len() - 1;
    lemma_none_filled(rest);
    if i == n {
        if alone_among(rest, -1) {
            assert forall|j: int| 0 <= j < tokens.len() && j != i implies (
            #[trigger] tokens[j]).len() == 0 by {
                assert(rest[j].len() == 0);
            }
        }
        if alone_among(tokens, i) {
            assert forall|j: int| 0 <= j < rest.len() && j != -1 implies (
            #[trigger] rest[j]).len() == 0 by {
                assert(tokens[j].len() == 0);
            }
        }
    } else {
        assert(rest[i] == tokens[i]);
        lemma_filled_alone(rest, i);
        let k = lemma_filled_at(rest, i);
        if tokens.last().len() == 0 {
            if alone_among(rest, i) {
                assert forall|j: int| 0 <= j < tokens.len() && j != i implies (
                #[trigger] tokens[j]).len() == 0 by {
                    if j < n {
                        assert(rest[j].len() == 0);
                    }
                }
            }
            if alone_among(tokens, i) {
                assert forall|j: int| 0 <= j < rest.len() && j != i implies (
                #[trigger] rest[j]).len() == 0 by {
                    assert(tokens[j].len() == 0);
                }
            }
        } else {
            assert(tokens[n].len() != 0);
        }
    }
}

/// Testing tokens says whether one of them looks like a path.
pub proof fn outcome_of_testing_tokens(tokens: &Vec<String>, res: bool)
    requires
        call_ensures(has_path_token, (tokens,), res),
    ensures
        ({
            let texts = tokens@.map_values(|t: String| t@);
            res <==> exists|i: int| #[trigger] path_at(texts, i)
        }),
{
    let texts = tokens@.map_values(|t: String| t@);
    paths_are_found_among_tokens(texts);
    assert(res == path_among(texts));
}

/// One of the names of configuration and build files stands in the text.
pub open spec fn names_a_file(text: Seq<char>) -> bool {
    exists|name: Seq<char>, i: int|
        #![trigger stands(text, name, i)]
        stands(text, name, i) && (name == ".toml"@ || name == ".json"@ || name == ".yaml"@ || name
            == ".yml"@ || name == ".ini"@ || name == ".conf"@ || name == "dockerfile"@ || name
            == "makefile"@ || name == "cmakelists.txt"@)
}

/// A configuration file is named exactly where one of the names stands.
pub proof fn configuration_files_are_named(text: Seq<char>)
    ensures
        config_named(text) <==> names_a_file(text),
{
    occurrence_is_somewhere(text, ".toml"@);
    occurrence_is_somewhere(text, ".json"@);
    occurrence_is_somewhere(text, ".yaml"@);
    occurrence_is_somewhere(text, ".yml"@);
    occurrence_is_somewhere(text, ".ini"@);
    occurrence_is_somewhere(text, ".conf"@);
    occurrence_is_somewhere(text, "dockerfile"@);
    occurrence_is_somewhere(text, "makefile"@);
    occurrence_is_somewhere(text, "cmakelists.txt"@);
}

/// Looking for a configuration file says whether one is named.
pub proof fn outcome_of_looking_for_a_file(text: &Vec<char>, res: bool)
    requires
        call_ensures(names_config_file, (text,), res),
    ensures
        res <==> names_a_file(text@),
{
    configuration_files_are_named(text@);
}

/// A path carries weight for a query exactly where the query, without white space
/// around it and in lower case, names a configuration file, or one of its words, once
/// trimmed, looks like a path.
pub proof fn outcome_of_weighing_a_query<T: Fn(&str) -> String>(
    query: &str,
    trim: T,
    token: spec_fn(Seq<char>) -> Seq<char>,
    res: bool,
)
    requires
        call_ensures(is_path_weighted_query::<T>, (query, trim), res),
        forall|word: &str, out: String| #[trigger]
            call_ensures(trim, (word,), out) ==> out@ == token(word@),
    ensures
        ({
            let text = lowered(trimmed(query@));
            let tokens = words(text).map_values(token);
            res <==> names_a_file(text) || exists|i: int| #[trigger] path_at(tokens, i)
        }),
{
    let text = lowered(trimmed(query@));
    assert(folded(query@) == text);
    assert(weighs(query@, trim, res));
    assert(trims(trim, token));
    assert(res == path_weighted(query@, token));
    configuration_files_are_named(text);
    paths_are_found_among_tokens(words(text).map_values(token));
}

} // verus!
