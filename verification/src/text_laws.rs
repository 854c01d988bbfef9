//! What searching, trimming, replacing, splitting and folding give, character for
//! character.
use vstd::prelude::*;
use crate::text::{after_first, before_last, characters, collapse, collapsed, contains, extend, find_first,
    find_last, first_from, has_character, is_space, is_white_space, is_word, join, joined,
    last_until, lemma_first_from_complete, lemma_first_from_sound,
    lemma_word_end, lemma_word_end_is, lemma_words_are_words, lemma_words_from_suffix,
    lemma_words_of_joined, lowered, occurs_at, occurs_in, part, replace, replaced, split_words,
    starts_with, string_of, to_lower, trim, trim_end, trimmed, trimmed_end, word_end, words, words_from};

verus! {

/// `pattern` stands in `s` from `i` on.
pub open spec fn stands(s: Seq<char>, pattern: Seq<char>, i: int) -> bool {
    &&& 0 <= i
    &&& i + pattern.len() <= s.len()
    &&& forall|k: int| 0 <= k < pattern.len() ==> s[i + k] == #[trigger] pattern[k]
}

/// What stands somewhere stands there character for character.
pub proof fn occurrences_are_literal(s: Seq<char>, pattern: Seq<char>, i: int)
    ensures
        occurs_at(s, pattern, i) <==> stands(s, pattern, i),
{
    if occurs_at(s, pattern, i) {
        assert forall|k: int| 0 <= k < pattern.len() implies s[i + k] == #[trigger] pattern[k] by {
            assert(s.subrange(i, i + pattern.len())[k] == pattern[k]);
        }
    }
    if stands(s, pattern, i) {
        assert(s.subrange(i, i + pattern.len()) =~= pattern);
    }
}

/// A pattern is found where it first stands, and nowhere if it stands nowhere.
pub proof fn first_place_is_found(s: &Vec<char>, pattern: &Vec<char>, res: Option<usize>)
    requires
        call_ensures(find_first, (s, pattern), res),
    ensures
        res matches Some(i) ==> stands(s@, pattern@, i as int) && forall|j: int|
            j < i ==> !#[trigger] stands(s@, pattern@, j),
        res is None ==> forall|j: int| !#[trigger] stands(s@, pattern@, j),
{
    lemma_first_is_first(s@, pattern@);
}

proof fn lemma_first_is_first(s: Seq<char>, pattern: Seq<char>)
    ensures
        first_from(s, pattern, 0) matches Some(i) ==> stands(s, pattern, i) && forall|j: int|
            j < i ==> !#[trigger] stands(s, pattern, j),
        first_from(s, pattern, 0) is None ==> forall|j: int| !#[trigger] stands(s, pattern, j),
{
    lemma_first_from_sound(s, pattern, 0);
    if first_from(s, pattern, 0) is Some {
        let i = first_from(s, pattern, 0)->0;
        occurrences_are_literal(s, pattern, i);
        assert forall|j: int| j < i implies !#[trigger] stands(s, pattern, j) by {
            occurrences_are_literal(s, pattern, j);
            if stands(s, pattern, j) {
                lemma_first_at_most(s, pattern, 0, j);
            }
        }
    } else {
        assert forall|j: int| !#[trigger] stands(s, pattern, j) by {
            occurrences_are_literal(s, pattern, j);
            if stands(s, pattern, j) {
                lemma_first_from_complete(s, pattern, 0, j);
            }
        }
    }
}

proof fn lemma_first_at_most(s: Seq<char>, pattern: Seq<char>, i: int, k: int)
    requires
        i <= k,
        occurs_at(s, pattern, k),
    ensures
        first_from(s, pattern, i) matches Some(j) && j <= k,
    decreases k - i,
{
    if i < k && !occurs_at(s, pattern, i) {
        lemma_first_at_most(s, pattern, i + 1, k);
    }
}

/// A pattern is found where it last stands, and nowhere if it stands nowhere.
pub proof fn last_place_is_found(s: &Vec<char>, pattern: &Vec<char>, res: Option<usize>)
    requires
        call_ensures(find_last, (s, pattern), res),
    ensures
        res matches Some(i) ==> stands(s@, pattern@, i as int) && forall|j: int|
            j > i ==> !#[trigger] stands(s@, pattern@, j),
        res is None ==> forall|j: int| !#[trigger] stands(s@, pattern@, j),
{
    lemma_last_is_last(s@, pattern@, s@.len() as int);
}

proof fn lemma_last_is_last(s: Seq<char>, pattern: Seq<char>, n: int)
    requires
        n <= s.len(),
    ensures
        last_until(s, pattern, n) matches Some(i) ==> stands(s, pattern, i) && i <= n && forall|
            j: int,
        | i < j <= n ==> !#[trigger] stands(s, pattern, j),
        last_until(s, pattern, n) is None ==> forall|j: int|
            j <= n ==> !#[trigger] stands(s, pattern, j),
    decreases n + 1,
{
    if n >= 0 {
        occurrences_are_literal(s, pattern, n);
        if !occurs_at(s, pattern, n) {
            lemma_last_is_last(s, pattern, n - 1);
        }
    }
}

/// What stands before the last occurrence starts the text, is followed by the
/// pattern, and that stands nowhere later.
pub proof fn before_last_is_before_the_last(s: Seq<char>, pattern: Seq<char>)
    ensures
        before_last(s, pattern) matches Some(head) ==> {
            &&& head.is_prefix_of(s)
            &&& stands(s, pattern, head.len() as int)
            &&& forall|j: int| j > head.len() ==> !#[trigger] stands(s, pattern, j)
        },
        before_last(s, pattern) is None ==> forall|j: int| !#[trigger] stands(s, pattern, j),
{
    lemma_last_is_last(s, pattern, s.len() as int);
}

/// What stands after the first occurrence ends the text, follows the pattern, and that
/// stands nowhere earlier.
pub proof fn after_first_is_after_the_first(s: Seq<char>, pattern: Seq<char>)
    ensures
        after_first(s, pattern) matches Some(tail) ==> {
            let at = s.len() - tail.len() - pattern.len();
            &&& tail.is_suffix_of(s)
            &&& stands(s, pattern, at)
            &&& forall|j: int| j < at ==> !#[trigger] stands(s, pattern, j)
        },
        after_first(s, pattern) is None ==> forall|j: int| !#[trigger] stands(s, pattern, j),
{
    lemma_first_is_first(s, pattern);
}

/// A text contains what stands in it, starts with what stands at its start, and has
/// the characters that are in it.
pub proof fn tests_on_texts(
    s: &Vec<char>,
    pattern: &Vec<char>,
    c: char,
    within: bool,
    at_start: bool,
    has: bool,
)
    requires
        call_ensures(contains, (s, pattern), within),
        call_ensures(starts_with, (s, pattern), at_start),
        call_ensures(has_character, (s, c), has),
    ensures
        within <==> exists|i: int| #[trigger] stands(s@, pattern@, i),
        at_start <==> stands(s@, pattern@, 0),
        has <==> exists|i: int| 0 <= i < s@.len() && #[trigger] s@[i] == c,
{
    occurrence_is_somewhere(s@, pattern@);
    occurrences_are_literal(s@, pattern@, 0);
}

/// What occurs in a text stands somewhere in it.
pub proof fn occurrence_is_somewhere(s: Seq<char>, pattern: Seq<char>)
    ensures
        occurs_in(s, pattern) <==> exists|i: int| #[trigger] stands(s, pattern, i),
{
    if occurs_in(s, pattern) {
        let i = choose|i: int| #[trigger] occurs_at(s, pattern, i);
        occurrences_are_literal(s, pattern, i);
    }
    if exists|i: int| #[trigger] stands(s, pattern, i) {
        let i = choose|i: int| #[trigger] stands(s, pattern, i);
        occurrences_are_literal(s, pattern, i);
    }
}

/// `n` copies of `s`.
pub open spec fn copies(s: Seq<char>, n: nat) -> Seq<char>
    decreases n,
{
    if n == 0 {
        Seq::empty()
    } else {
        copies(s, (n - 1) as nat) + s
    }
}

/// Trimming a suffix takes whole copies of it off the end, until none is left there.
pub proof fn trimming_takes_off_copies(s: Seq<char>, suffix: Seq<char>) -> (n: nat)
    requires
        suffix.len() > 0,
    ensures
        s == trimmed_end(s, suffix) + copies(suffix, n),
        !suffix.is_suffix_of(trimmed_end(s, suffix)),
    decreases s.len(),
{
    let at = s.len() - suffix.len();
    if occurs_at(s, suffix, at) {
        let rest = s.take(at);
        let m = trimming_takes_off_copies(rest, suffix);
        let left = trimmed_end(s, suffix);
        assert(left == trimmed_end(rest, suffix));
        assert(s =~= rest + suffix);
        assert(left + copies(suffix, m) + suffix =~= left + (copies(suffix, m) + suffix));
        m + 1
    } else {
        if suffix.is_suffix_of(s) {
            assert(s.subrange(at, at + suffix.len()) =~= suffix);
        }
        assert(s =~= s + Seq::<char>::empty());
        0
    }
}

/// For each character what stands in its place.
pub open spec fn substitutes(s: Seq<char>, c: char, by: Seq<char>) -> Seq<Seq<char>> {
    s.map_values(
        |d: char|
            if d == c {
                by
            } else {
                seq![d]
            },
    )
}

/// Replacing a character puts the text in the place of each, and keeps all others.
pub proof fn replacing_is_character_by_character(s: Seq<char>, c: char, by: Seq<char>)
    ensures
        replaced(s, c, by) == substitutes(s, c, by).flatten_alt(),
    decreases s.len(),
{
    let pieces = substitutes(s, c, by);
    if s.len() > 0 {
        replacing_is_character_by_character(s.drop_last(), c, by);
        assert(pieces.drop_last() =~= substitutes(s.drop_last(), c, by));
    } else {
        assert(replaced(s, c, by) =~= pieces.flatten_alt());
    }
}

/// The function that replaces does so.
pub proof fn replacing_replaces(s: &Vec<char>, c: char, by: &Vec<char>, res: Vec<char>)
    requires
        call_ensures(replace, (s, c, by), res),
    ensures
        res@ == substitutes(s@, c, by@).flatten_alt(),
{
    replacing_is_character_by_character(s@, c, by@);
}

/// White space is these characters.
pub open spec fn blank(c: char) -> bool {
    let code = c as u32;
    ||| 9 <= code <= 13
    ||| code == 32
    ||| code == 133
    ||| code == 160
    ||| code == 5760
    ||| 8192 <= code <= 8202
    ||| code == 8232
    ||| code == 8233
    ||| code == 8239
    ||| code == 8287
    ||| code == 12288
}

/// The test for white space holds of these characters alone.
pub proof fn white_space_is_these(c: char, res: bool)
    requires
        call_ensures(is_white_space, (c,), res),
    ensures
        res <==> blank(c),
        is_space(c) <==> blank(c),
{
    lemma_blank(c);
}

proof fn lemma_blank(c: char)
    ensures
        is_space(c) <==> blank(c),
{
}

/// Where the words of a text come from: white space parts them, and a stretch without
/// white space is one word.
pub proof fn white_space_parts_words(a: Seq<char>, c: char, b: Seq<char>)
    requires
        blank(c),
    ensures
        words(a + seq![c] + b) == words(a) + words(b),
{
    lemma_parted(a, c, b, 0);
}

proof fn lemma_parted(a: Seq<char>, c: char, b: Seq<char>, i: int)
    requires
        blank(c),
        0 <= i <= a.len(),
    ensures
        words_from(a + seq![c] + b, i) == words_from(a, i) + words(b),
    decreases a.len() - i,
{
    let s = a + seq![c] + b;
    let n = a.len() as int;
    assert(s[n] == c);
    if i == n {
        assert forall|k: int| 0 <= k < b.len() implies b[k] == #[trigger] s[k + (n + 1)] by {}
        lemma_words_from_suffix(b, s, 0, n + 1);
        assert(words_from(s, n) == words_from(s, n + 1));
        assert(words_from(a, n) =~= Seq::empty());
        assert(words_from(s, i) =~= words_from(a, i) + words(b));
    } else {
        assert(s[i] == a[i]);
        if is_space(a[i]) {
            lemma_parted(a, c, b, i + 1);
            assert(words_from(s, i) == words_from(s, i + 1));
            assert(words_from(a, i) == words_from(a, i + 1));
        } else {
            lemma_word_end(a, i + 1);
            let j = word_end(a, i + 1);
            assert forall|k: int| i + 1 <= k < j implies !is_space(#[trigger] s[k]) by {
                assert(s[k] == a[k]);
            }
            if j < n {
                assert(s[j] == a[j]);
            }
            lemma_word_end_is(s, i + 1, j);
            lemma_parted(a, c, b, j);
            let w = a.subrange(i, j);
            assert(s.subrange(i, j) =~= w);
            assert(words_from(s, i) == seq![w] + words_from(s, j));
            assert(words_from(a, i) == seq![w] + words_from(a, j));
            assert(seq![w] + (words_from(a, j) + words(b)) =~= seq![w] + words_from(a, j) + words(
                b,
            ));
        }
    }
}

/// A stretch without white space is one word, and nothing has no words.
pub proof fn stretches_are_words(w: Seq<char>)
    requires
        forall|i: int| 0 <= i < w.len() ==> !blank(#[trigger] w[i]),
    ensures
        w.len() > 0 ==> words(w) == seq![w],
        w.len() == 0 ==> words(w) == Seq::<Seq<char>>::empty(),
{
    let n = w.len() as int;
    if n > 0 {
        assert forall|i: int| 0 <= i < n implies !is_space(#[trigger] w[i]) by {
            assert(!blank(w[i]));
        }
        lemma_word_end_is(w, 1, n);
        assert(w.subrange(0, n) =~= w);
        assert(words_from(w, n) =~= Seq::empty());
        assert(words(w) =~= seq![w]);
    } else {
        assert(words(w) =~= Seq::empty());
    }
}

/// Joining puts the pieces one after the other, the separator before each but the
/// first.
pub proof fn joining_is_piece_by_piece(pieces: Seq<Seq<char>>, separator: Seq<char>)
    ensures
        pieces.len() == 0 ==> joined(pieces, separator) == Seq::<char>::empty(),
        pieces.len() > 0 ==> joined(pieces, separator) == pieces.drop_first().fold_left(
            pieces[0],
            |text: Seq<char>, piece: Seq<char>| text + separator + piece,
        ),
    decreases pieces.len(),
{
    let f = |text: Seq<char>, piece: Seq<char>| text + separator + piece;
    if pieces.len() == 1 {
        assert(pieces.drop_first() =~= Seq::empty());
    } else if pieces.len() > 1 {
        joining_is_piece_by_piece(pieces.drop_last(), separator);
        let rest = pieces.drop_first();
        assert(rest.drop_last() =~= pieces.drop_last().drop_first());
        assert(rest.last() == pieces.last());
        assert(rest.fold_left(pieces[0], f) == f(
            rest.drop_last().fold_left(pieces[0], f),
            rest.last(),
        ));
    }
}

/// The functions that split, join and collapse a text give its words, the pieces with
/// the separator between them, and the words with single spaces between them.
pub proof fn splitting_and_joining(
    s: &Vec<char>,
    pieces: &Vec<Vec<char>>,
    separator: char,
    split: Vec<Vec<char>>,
    together: Vec<char>,
    tidy: Vec<char>,
)
    requires
        call_ensures(split_words, (s,), split),
        call_ensures(join, (pieces, separator), together),
        call_ensures(collapse, (s,), tidy),
    ensures
        split@.map_values(|w: Vec<char>| w@) == words(s@),
        together@ == joined(pieces@.map_values(|w: Vec<char>| w@), seq![separator]),
        tidy@ == joined(words(s@), seq![' ']),
{
}

/// A collapsed text has the same words, no white space but single spaces, and none at
/// its ends.
pub proof fn collapsed_texts_are_tidy(s: Seq<char>)
    ensures
        words(collapsed(s)) == words(s),
        forall|i: int|
            0 <= i < collapsed(s).len() && blank(#[trigger] collapsed(s)[i]) ==> {
                &&& collapsed(s)[i] == ' '
                &&& 0 < i < collapsed(s).len() - 1
                &&& !blank(collapsed(s)[i - 1])
                &&& !blank(collapsed(s)[i + 1])
            },
{
    lemma_words_are_words(s, 0);
    lemma_words_of_joined(words(s));
    lemma_tidy(words(s));
}

proof fn lemma_tidy(ws: Seq<Seq<char>>)
    requires
        forall|k: int| 0 <= k < ws.len() ==> is_word(#[trigger] ws[k]),
    ensures
        ({
            let t = joined(ws, seq![' ']);
            &&& ws.len() > 0 ==> t.len() > 0 && !blank(t.last()) && !blank(t[0])
            &&& ws.len() == 0 ==> t.len() == 0
            &&& forall|i: int|
                0 <= i < t.len() && blank(#[trigger] t[i]) ==> {
                    &&& t[i] == ' '
                    &&& 0 < i < t.len() - 1
                    &&& !blank(t[i - 1])
                    &&& !blank(t[i + 1])
                }
        }),
    decreases ws.len(),
{
    let t = joined(ws, seq![' ']);
    if ws.len() > 0 {
        let w = ws.last();
        assert(is_word(ws[ws.len() - 1]));
        assert forall|i: int| 0 <= i < w.len() implies !blank(#[trigger] w[i]) by {
            lemma_blank(w[i]);
        }
        if ws.len() > 1 {
            let rest = ws.drop_last();
            assert forall|k: int| 0 <= k < rest.len() implies is_word(#[trigger] rest[k]) by {
                assert(is_word(ws[k]));
            }
            lemma_tidy(rest);
            let u = joined(rest, seq![' ']);
            let n = u.len() as int;
            assert(t == u + seq![' '] + w);
            assert forall|i: int| 0 <= i < t.len() && blank(#[trigger] t[i]) implies {
                &&& t[i] == ' '
                &&& 0 < i < t.len() - 1
                &&& !blank(t[i - 1])
                &&& !blank(t[i + 1])
            } by {
                if i < n {
                    assert(t[i] == u[i]);
                    assert(t[i - 1] == u[i - 1]);
                    assert(t[i + 1] == u[i + 1]);
                } else if i == n {
                    assert(t[i - 1] == u.last());
                    assert(t[i + 1] == w[0]);
                } else {
                    assert(t[i] == w[i - n - 1]);
                }
            }
            assert(t.last() == w.last());
            assert(t[0] == u[0]);
        }
    }
}

/// The lower case of an ASCII letter is the letter 32 places on; all else stays.
pub open spec fn small(c: char) -> u32 {
    if 65 <= c as u32 <= 90 {
        (c as u32 + 32) as u32
    } else {
        c as u32
    }
}

/// Folding the case changes each ASCII capital, character by character.
pub proof fn folding_is_character_by_character(s: &Vec<char>, res: Vec<char>)
    requires
        call_ensures(to_lower, (s,), res),
    ensures
        res@ == lowered(s@),
        res.len() == s.len(),
        forall|i: int| 0 <= i < s.len() ==> (#[trigger] res@[i]) as u32 == small(s@[i]),
{
    case_is_folded_by_character(s@);
}

/// Folding the case changes each ASCII capital, character by character.
pub proof fn case_is_folded_by_character(s: Seq<char>)
    ensures
        lowered(s).len() == s.len(),
        forall|i: int| 0 <= i < s.len() ==> (#[trigger] lowered(s)[i]) as u32 == small(s[i]),
{
}

/// Trimming white space takes off what is white space at the ends, and nothing else.
pub proof fn trimming_takes_off_white_space(s: Seq<char>) -> (parts: (Seq<char>, Seq<char>))
    ensures
        s == parts.0 + trimmed(s) + parts.1,
        forall|i: int| 0 <= i < parts.0.len() ==> blank(#[trigger] parts.0[i]),
        forall|i: int| 0 <= i < parts.1.len() ==> blank(#[trigger] parts.1[i]),
        trimmed(s).len() > 0 ==> !blank(trimmed(s)[0]) && !blank(trimmed(s).last()),
    decreases s.len(),
{
    let none = Seq::<char>::empty();
    if s.len() > 0 && is_space(s.first()) {
        let rest = s.drop_first();
        let (a, b) = trimming_takes_off_white_space(rest);
        assert(s =~= seq![s.first()] + rest);
        assert(seq![s.first()] + (a + trimmed(rest) + b) =~= seq![s.first()] + a + trimmed(rest) + b);
        lemma_blank(s.first());
        (seq![s.first()] + a, b)
    } else if s.len() > 0 && is_space(s.last()) {
        let rest = s.drop_last();
        let (a, b) = trimming_takes_off_white_space(rest);
        let end = b.push(s.last());
        assert(s =~= rest.push(s.last()));
        assert((a + trimmed(rest) + b).push(s.last()) =~= a + trimmed(rest) + end);
        lemma_blank(s.last());
        (a, end)
    } else {
        assert(s =~= none + s + none);
        if s.len() > 0 {
            lemma_blank(s.first());
            lemma_blank(s.last());
        }
        (none, none)
    }
}

/// The function that trims a suffix does so, the one that extends appends, and a part is
/// what stands between two places.
pub proof fn changes_to_texts(suffix: &Vec<char>, s: &Vec<char>, from: usize, to: usize)
    ensures
        forall|t: &mut Vec<char>| #[trigger]
            call_ensures(trim_end, (t, suffix), ()) ==> final(t)@ == trimmed_end((*t)@, suffix@),
        forall|t: &mut Vec<char>| #[trigger]
            call_ensures(extend, (t, suffix), ()) ==> final(t)@ == (*t)@ + suffix@,
        forall|res: Vec<char>| #[trigger]
            call_ensures(part, (s, from, to), res) ==> res@ == s@.subrange(from as int, to as int),
{
}

/// The function that trims does so, and strings and characters are the same text.
pub proof fn conversions_keep_the_text(
    s: &Vec<char>,
    t: &str,
    cut: Vec<char>,
    made: String,
    taken: Vec<char>,
)
    requires
        call_ensures(trim, (s,), cut),
        call_ensures(string_of, (s,), made),
        call_ensures(characters, (t,), taken),
    ensures
        cut@ == trimmed(s@),
        made@ == s@,
        taken@ == t@,
{
}

} // verus!
