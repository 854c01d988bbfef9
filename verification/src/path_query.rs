//! Which queries name a file rather than describe code.
use vstd::prelude::*;
use crate::text::{characters, contains, has_character, lowered, occurs_in, split_words,
    starts_in, starts_with, string_of, to_lower, trim, trimmed, words};

verus! {

/// What follows the last slash, of either kind.
pub open spec fn last_segment(token: Seq<char>) -> Seq<char>
    decreases token.len(),
{
    if token.len() == 0 || token.last() == '/' || token.last() == '\\' {
        Seq::empty()
    } else {
        last_segment(token.drop_last()).push(token.last())
    }
}

/// The token starts like a path: with a dot directory, a slash, a tilde or a
/// Windows drive, a single-byte character before a colon.
pub open spec fn path_prefixed(token: Seq<char>) -> bool {
    ||| starts_in(token, "./"@)
    ||| starts_in(token, "../"@)
    ||| token.len() > 0 && (token[0] == '/' || token[0] == '~')
    ||| token.len() > 1 && token[0] < '\u{80}' && token[1] == ':'
}

/// The token holds a slash, and is the whole query, starts like a path, or ends in
/// a segment with a dot.
pub open spec fn path_shaped(token: Seq<char>, single_token_query: bool) -> bool {
    &&& token.contains('/') || token.contains('\\')
    &&& single_token_query || path_prefixed(token) || last_segment(token).contains('.')
}

/// The tokens that are not empty.
pub open spec fn filled(tokens: Seq<Seq<char>>) -> Seq<Seq<char>>
    decreases tokens.len(),
{
    if tokens.len() == 0 {
        tokens
    } else if tokens.last().len() == 0 {
        filled(tokens.drop_last())
    } else {
        filled(tokens.drop_last()).push(tokens.last())
    }
}

/// One of the tokens that are not empty is shaped like a path.
pub open spec fn path_among(tokens: Seq<Seq<char>>) -> bool {
    exists|i: int|
        0 <= i < filled(tokens).len() && path_shaped(
            #[trigger] filled(tokens)[i],
            filled(tokens).len() == 1,
        )
}

/// The text names a configuration or build file.
pub open spec fn config_named(lower: Seq<char>) -> bool {
    ||| occurs_in(lower, ".toml"@)
    ||| occurs_in(lower, ".json"@)
    ||| occurs_in(lower, ".yaml"@)
    ||| occurs_in(lower, ".yml"@)
    ||| occurs_in(lower, ".ini"@)
    ||| occurs_in(lower, ".conf"@)
    ||| occurs_in(lower, "dockerfile"@)
    ||| occurs_in(lower, "makefile"@)
    ||| occurs_in(lower, "cmakelists.txt"@)
}

/// The query as it is looked at: without white space around it, in lower case.
pub open spec fn folded(query: Seq<char>) -> Seq<char> {
    lowered(trimmed(query))
}

/// A path carries weight for the query, whose words `token` trims: it names a
/// configuration file, or one of its tokens is shaped like a path.
pub open spec fn path_weighted(
    query: Seq<char>,
    token: spec_fn(Seq<char>) -> Seq<char>,
) -> bool {
    config_named(folded(query)) || path_among(words(folded(query)).map_values(token))
}

/// `trim` computes `token`.
pub open spec fn trims<T: Fn(&str) -> String>(
    trim: T,
    token: spec_fn(Seq<char>) -> Seq<char>,
) -> bool {
    forall|word: &str, out: String| #[trigger]
        call_ensures(trim, (word,), out) ==> out@ == token(word@)
}

/// `res` says whether a path carries weight for the query, whatever `trim` computes. A
/// configuration file that is named decides without it.
pub open spec fn weighs<T: Fn(&str) -> String>(query: Seq<char>, trim: T, res: bool) -> bool {
    &&& config_named(folded(query)) ==> res
    &&& forall|token: spec_fn(Seq<char>) -> Seq<char>| #[trigger]
        trims(trim, token) ==> res == path_weighted(query, token)
}

/// Whether the last path segment carries a dot.
fn ends_in_dotted_segment(token: &Vec<char>) -> (res: bool)
    ensures
        res == last_segment(token@).contains('.'),
{
    let mut i: usize = token.len();
    proof {
        assert(token@.take(i as int) =~= token@);
    }
    while i > 0
        invariant
            i <= token.len(),
            last_segment(token@).contains('.') == last_segment(token@.take(i as int)).contains('.'),
        decreases i,
    {
        let ghost now = token@.take(i as int);
        proof {
            assert(now.drop_last() =~= token@.take(i - 1));
            assert(now.last() == token@[i - 1]);
        }
        let c = token[i - 1];
        if c == '/' || c == '\\' {
            return false;
        }
        if c == '.' {
            proof {
                let s = last_segment(now);
                assert(s[s.len() - 1] == '.');
            }
            return true;
        }
        proof {
            let rest = last_segment(token@.take(i - 1));
            let s = last_segment(now);
            assert(s == rest.push(c));
            if rest.contains('.') {
                let k = choose|k: int| 0 <= k < rest.len() && rest[k] == '.';
                assert(s[k] == '.');
            }
            if s.contains('.') {
                let k = choose|k: int| 0 <= k < s.len() && s[k] == '.';
                assert(rest[k] == '.');
            }
        }
        i = i - 1;
    }
    false
}

/// Whether a token of a query is shaped like a path.
///
/// A slash alone does not make a path: `read/write` is prose. A token with a slash
/// counts where it is the whole query or has path shape (prefix or file extension).
pub fn is_path_shaped_token(token: &str, single_token_query: bool) -> (res: bool)
    ensures
        res == path_shaped(token@, single_token_query),
{
    let token = characters(token);
    if !has_character(&token, '/') && !has_character(&token, '\\') {
        return false;
    }
    if single_token_query || starts_with(&token, &characters("./")) || starts_with(
        &token,
        &characters("../"),
    ) {
        return true;
    }
    if token.len() > 0 && (token[0] == '/' || token[0] == '~') {
        return true;
    }
    if token.len() > 1 && token[0] < '\u{80}' && token[1] == ':' {
        return true;
    }
    ends_in_dotted_segment(&token)
}

/// Whether one of the tokens that are not empty is shaped like a path.
pub fn has_path_token(tokens: &Vec<String>) -> (res: bool)
    ensures
        res == path_among(tokens@.map_values(|t: String| t@)),
{
    let ghost all = tokens@.map_values(|t: String| t@);
    let mut kept: Vec<&String> = Vec::new();
    let mut i: usize = 0;
    proof {
        assert(all.take(0) =~= Seq::empty());
    }
    while i < tokens.len()
        invariant
            i <= tokens.len(),
            all == tokens@.map_values(|t: String| t@),
            kept@.map_values(|t: &String| t@) == filled(all.take(i as int)),
        decreases tokens.len() - i,
    {
        let ghost was = kept@.map_values(|t: &String| t@);
        proof {
            assert(all.take(i + 1).drop_last() =~= all.take(i as int));
            assert(all.take(i + 1).last() == tokens@[i as int]@);
        }
        if characters(tokens[i].as_str()).len() > 0 {
            kept.push(&tokens[i]);
            proof {
                assert(kept@.map_values(|t: &String| t@) =~= was.push(tokens@[i as int]@));
            }
        }
        i = i + 1;
    }
    proof {
        assert(all.take(i as int) =~= all);
    }
    let ghost left = filled(all);
    let mut j: usize = 0;
    while j < kept.len()
        invariant
            j <= kept.len(),
            left == filled(all),
            all == tokens@.map_values(|t: String| t@),
            kept@.map_values(|t: &String| t@) == left,
            forall|k: int| 0 <= k < j ==> !path_shaped(#[trigger] left[k], left.len() == 1),
        decreases kept.len() - j,
    {
        proof {
            assert(left[j as int] == kept@[j as int]@);
        }
        if is_path_shaped_token(kept[j].as_str(), kept.len() == 1) {
            return true;
        }
        j = j + 1;
    }
    false
}

/// Whether the text names a configuration or build file.
pub fn names_config_file(lower: &Vec<char>) -> (res: bool)
    ensures
        res == config_named(lower@),
{
    contains(lower, &characters(".toml")) || contains(lower, &characters(".json")) || contains(
        lower,
        &characters(".yaml"),
    ) || contains(lower, &characters(".yml")) || contains(lower, &characters(".ini")) || contains(
        lower,
        &characters(".conf"),
    ) || contains(lower, &characters("dockerfile")) || contains(lower, &characters("makefile"))
        || contains(lower, &characters("cmakelists.txt"))
}

/// Whether a path carries weight for the query, whose words `trim_query_token`
/// turns into tokens.
pub fn is_path_weighted_query<T: Fn(&str) -> String>(
    query: &str,
    trim_query_token: T,
) -> (res: bool)
    requires
        forall|word: &str| #[trigger] call_requires(trim_query_token, (word,)),
    ensures
        config_named(folded(query@)) ==> res,
        forall|token: spec_fn(Seq<char>) -> Seq<char>| #[trigger]
            trims(trim_query_token, token) ==> res == path_weighted(query@, token),
        weighs(query@, trim_query_token, res),
{
    let lower = to_lower(&trim(&characters(query)));
    if names_config_file(&lower) {
        return true;
    }
    let pieces = split_words(&lower);
    let ghost all = words(lower@);
    let mut tokens: Vec<String> = Vec::new();
    let mut i: usize = 0;
    while i < pieces.len()
        invariant
            i <= pieces.len(),
            tokens.len() == i,
            all == pieces@.map_values(|w: Vec<char>| w@),
            forall|word: &str| #[trigger] call_requires(trim_query_token, (word,)),
            forall|token: spec_fn(Seq<char>) -> Seq<char>, k: int|
                #![trigger trims(trim_query_token, token), tokens@[k]]
                trims(trim_query_token, token) && 0 <= k < i ==> tokens@[k]@ == token(all[k]),
        decreases pieces.len() - i,
    {
        let word = string_of(&pieces[i]);
        let out = trim_query_token(word.as_str());
        proof {
            assert(all[i as int] == word@);
        }
        tokens.push(out);
        i = i + 1;
    }
    proof {
        assert forall|token: spec_fn(Seq<char>) -> Seq<char>| #[trigger]
            trims(trim_query_token, token) implies tokens@.map_values(|t: String| t@)
            == all.map_values(token) by {
            assert forall|k: int| 0 <= k < tokens.len() implies tokens@.map_values(
                |t: String| t@,
            )[k] == all.map_values(token)[k] by {
                assert(tokens@[k]@ == token(all[k]));
            }
            assert(tokens@.map_values(|t: String| t@) =~= all.map_values(token));
        }
    }
    has_path_token(&tokens)
}

/// Prose stays semantic: a query that names no configuration file and holds no
/// slash is not path-weighted, where trimming a word adds no slash.
pub proof fn queries_without_slash_are_semantic(
    query: Seq<char>,
    token: spec_fn(Seq<char>) -> Seq<char>,
)
    requires
        !config_named(folded(query)),
        forall|i: int|
            0 <= i < words(folded(query)).len() ==> !token(
                #[trigger] words(folded(query))[i],
            ).contains('/') && !token(words(folded(query))[i]).contains('\\'),
    ensures
        !path_weighted(query, token),
{
    let tokens = words(folded(query)).map_values(token);
    assert forall|i: int| 0 <= i < tokens.len() implies !(#[trigger] tokens[i]).contains('/')
        && !tokens[i].contains('\\') by {
        assert(tokens[i] == token(words(folded(query))[i]));
    }
    lemma_filled_among(tokens);
    assert forall|i: int| 0 <= i < filled(tokens).len() implies !path_shaped(
        #[trigger] filled(tokens)[i],
        filled(tokens).len() == 1,
    ) by {
        let k = choose|k: int| 0 <= k < tokens.len() && #[trigger] tokens[k] == filled(tokens)[i];
    }
}

/// What is filled was there.
proof fn lemma_filled_among(tokens: Seq<Seq<char>>)
    ensures
        forall|i: int|
            #![trigger filled(tokens)[i]]
            0 <= i < filled(tokens).len() ==> filled(tokens)[i].len() > 0 && exists|k: int|
                0 <= k < tokens.len() && #[trigger] tokens[k] == filled(tokens)[i],
    decreases tokens.len(),
{
    if tokens.len() > 0 {
        let rest = tokens.drop_last();
        lemma_filled_among(rest);
        let all = filled(tokens);
        let before = filled(rest);
        assert forall|i: int| #![trigger all[i]] 0 <= i < all.len() implies all[i].len() > 0
            && exists|k: int| 0 <= k < tokens.len() && #[trigger] tokens[k] == all[i] by {
            if i < before.len() {
                assert(all[i] == before[i]);
                let k = choose|k: int| 0 <= k < rest.len() && #[trigger] rest[k] == before[i];
                assert(tokens[k] == all[i]);
            } else {
                assert(tokens[tokens.len() - 1] == all[i]);
            }
        }
    }
}

} // verus!
