//! Text as a sequence of characters: searching, trimming, replacing and folding.
use vstd::prelude::*;

verus! {

/// [`String::push`] appends the character to the end of the string.
pub assume_specification[ String::push ](s: &mut String, c: char)
    ensures
        final(s)@ == old(s)@.push(c),
;

/// `pattern` stands in `s` at `i`.
pub open spec fn occurs_at(s: Seq<char>, pattern: Seq<char>, i: int) -> bool {
    &&& 0 <= i
    &&& i + pattern.len() <= s.len()
    &&& s.subrange(i, i + pattern.len()) == pattern
}

/// `pattern` stands somewhere in `s`.
pub open spec fn occurs_in(s: Seq<char>, pattern: Seq<char>) -> bool {
    exists|i: int| #[trigger] occurs_at(s, pattern, i)
}

/// The first place at or after `i` where `pattern` stands in `s`.
pub open spec fn first_from(s: Seq<char>, pattern: Seq<char>, i: int) -> Option<int>
    decreases s.len() - i + 1,
{
    if i > s.len() {
        None
    } else if occurs_at(s, pattern, i) {
        Some(i)
    } else {
        first_from(s, pattern, i + 1)
    }
}

/// The last place at or before `i` where `pattern` stands in `s`.
pub open spec fn last_until(s: Seq<char>, pattern: Seq<char>, i: int) -> Option<int>
    decreases i + 1,
{
    if i < 0 {
        None
    } else if occurs_at(s, pattern, i) {
        Some(i)
    } else {
        last_until(s, pattern, i - 1)
    }
}

/// The part of `s` before the last occurrence of `pattern`.
pub open spec fn before_last(s: Seq<char>, pattern: Seq<char>) -> Option<Seq<char>> {
    match last_until(s, pattern, s.len() as int) {
        Some(i) => Some(s.take(i)),
        None => None,
    }
}

/// The part of `s` after the first occurrence of `pattern`.
pub open spec fn after_first(s: Seq<char>, pattern: Seq<char>) -> Option<Seq<char>> {
    match first_from(s, pattern, 0) {
        Some(i) => Some(s.skip(i + pattern.len())),
        None => None,
    }
}

/// `s` ends in `suffix`.
pub open spec fn ends_in(s: Seq<char>, suffix: Seq<char>) -> bool {
    occurs_at(s, suffix, s.len() - suffix.len())
}

/// `s` starts with `prefix`.
pub open spec fn starts_in(s: Seq<char>, prefix: Seq<char>) -> bool {
    occurs_at(s, prefix, 0)
}

/// `s` without `suffix` at its end, however often it stands there.
pub open spec fn trimmed_end(s: Seq<char>, suffix: Seq<char>) -> Seq<char>
    decreases s.len(),
{
    if suffix.len() > 0 && ends_in(s, suffix) {
        trimmed_end(s.take(s.len() - suffix.len()), suffix)
    } else {
        s
    }
}

/// `s` with `by` in the place of each `c`.
pub open spec fn replaced(s: Seq<char>, c: char, by: Seq<char>) -> Seq<char>
    decreases s.len(),
{
    if s.len() == 0 {
        s
    } else {
        replaced(s.drop_last(), c, by) + if s.last() == c {
            by
        } else {
            seq![s.last()]
        }
    }
}

/// The character is white space.
pub open spec fn is_space(c: char) -> bool {
    ||| '\u{9}' <= c <= '\u{d}'
    ||| c == ' '
    ||| c == '\u{85}'
    ||| c == '\u{a0}'
    ||| c == '\u{1680}'
    ||| '\u{2000}' <= c <= '\u{200a}'
    ||| c == '\u{2028}'
    ||| c == '\u{2029}'
    ||| c == '\u{202f}'
    ||| c == '\u{205f}'
    ||| c == '\u{3000}'
}

/// `s` without white space at its start and its end.
pub open spec fn trimmed(s: Seq<char>) -> Seq<char>
    decreases s.len(),
{
    if s.len() > 0 && is_space(s.first()) {
        trimmed(s.drop_first())
    } else if s.len() > 0 && is_space(s.last()) {
        trimmed(s.drop_last())
    } else {
        s
    }
}

/// The end of the run of characters other than white space that starts at `i`.
pub open spec fn word_end(s: Seq<char>, i: int) -> int
    decreases s.len() - i,
{
    if i >= s.len() || is_space(s[i]) {
        i
    } else {
        word_end(s, i + 1)
    }
}

/// The maximal runs of characters other than white space, from `i` on.
pub open spec fn words_from(s: Seq<char>, i: int) -> Seq<Seq<char>>
    decreases s.len() - i,
{
    if i >= s.len() || i < 0 {
        Seq::empty()
    } else if is_space(s[i]) {
        words_from(s, i + 1)
    } else {
        let j = word_end(s, i + 1);
        if j <= i || j > s.len() {
            Seq::empty()
        } else {
            seq![s.subrange(i, j)] + words_from(s, j)
        }
    }
}

/// The words of a text: what white space separates.
pub open spec fn words(s: Seq<char>) -> Seq<Seq<char>> {
    words_from(s, 0)
}

/// The pieces one after the other, with `separator` between them.
pub open spec fn joined(pieces: Seq<Seq<char>>, separator: Seq<char>) -> Seq<char>
    decreases pieces.len(),
{
    if pieces.len() == 0 {
        Seq::empty()
    } else if pieces.len() == 1 {
        pieces[0]
    } else {
        joined(pieces.drop_last(), separator) + separator + pieces.last()
    }
}

/// A text with single spaces between its words and none around them.
pub open spec fn collapsed(s: Seq<char>) -> Seq<char> {
    joined(words(s), seq![' '])
}

/// The lower case of an ASCII letter; every other character as it is.
pub open spec fn lower(c: char) -> char {
    if 'A' <= c <= 'Z' {
        (c as u32 + 32) as char
    } else {
        c
    }
}

/// `s` with its ASCII letters in lower case.
pub open spec fn lowered(s: Seq<char>) -> Seq<char> {
    s.map_values(|c: char| lower(c))
}

pub fn is_white_space(c: char) -> (res: bool)
    ensures
        res == is_space(c),
{
    ('\u{9}' <= c && c <= '\u{d}') || c == ' ' || c == '\u{85}' || c == '\u{a0}' || c == '\u{1680}'
        || ('\u{2000}' <= c && c <= '\u{200a}') || c == '\u{2028}' || c == '\u{2029}' || c
        == '\u{202f}' || c == '\u{205f}' || c == '\u{3000}'
}

fn exec_lower(c: char) -> (res: char)
    ensures
        res == lower(c),
{
    if 'A' <= c && c <= 'Z' {
        ((c as u8) + 32) as char
    } else {
        c
    }
}

/// The characters of a string.
pub fn characters(s: &str) -> (res: Vec<char>)
    ensures
        res@ == s@,
{
    let mut res: Vec<char> = Vec::new();
    for c in it: s.chars()
        invariant
            res@ == it.seq().take(it.index() as int),
            it.seq() == s@,
    {
        res.push(c);
    }
    res
}

/// The string with the given characters.
pub fn string_of(s: &Vec<char>) -> (res: String)
    ensures
        res@ == s@,
{
    let mut res = String::new();
    let mut i: usize = 0;
    while i < s.len()
        invariant
            i <= s.len(),
            res@ == s@.take(i as int),
        decreases s.len() - i,
    {
        res.push(s[i]);
        proof {
            assert(s@.take(i as int + 1) =~= s@.take(i as int).push(s@[i as int]));
        }
        i = i + 1;
    }
    proof {
        assert(s@.take(i as int) =~= s@);
    }
    res
}

/// Says whether `pattern` stands in `s` at `i`.
fn stands_at(s: &Vec<char>, pattern: &Vec<char>, i: usize) -> (res: bool)
    ensures
        res == occurs_at(s@, pattern@, i as int),
{
    if i > s.len() || pattern.len() > s.len() - i {
        return false;
    }
    let mut k: usize = 0;
    while k < pattern.len()
        invariant
            k <= pattern.len(),
            i + pattern.len() <= s.len(),
            forall|m: int| 0 <= m < k ==> s@[i + m] == #[trigger] pattern@[m],
        decreases pattern.len() - k,
    {
        if s[i + k] != pattern[k] {
            proof {
                assert(s@.subrange(i as int, i + pattern.len())[k as int] == s@[i + k]);
            }
            return false;
        }
        k = k + 1;
    }
    proof {
        assert(s@.subrange(i as int, i + pattern.len()) =~= pattern@);
    }
    true
}

/// A place is the first one exactly if the pattern stands there and at none before.
proof fn lemma_first_from(s: Seq<char>, pattern: Seq<char>, i: int, k: int)
    requires
        0 <= i <= k,
        forall|m: int| i <= m < k ==> !#[trigger] occurs_at(s, pattern, m),
    ensures
        occurs_at(s, pattern, k) ==> first_from(s, pattern, i) == Some(k),
        k > s.len() ==> first_from(s, pattern, i) is None,
    decreases k - i,
{
    if i < k {
        assert(!occurs_at(s, pattern, i));
        lemma_first_from(s, pattern, i + 1, k);
    }
}

/// `pattern` stands in `s` exactly if it has a first place there.
pub proof fn lemma_occurs_in(s: Seq<char>, pattern: Seq<char>)
    ensures
        occurs_in(s, pattern) <==> first_from(s, pattern, 0) is Some,
        first_from(s, pattern, 0) matches Some(i) ==> occurs_at(s, pattern, i),
{
    lemma_first_from_sound(s, pattern, 0);
    if first_from(s, pattern, 0) is None && occurs_in(s, pattern) {
        let k = choose|k: int| #[trigger] occurs_at(s, pattern, k);
        lemma_first_from_complete(s, pattern, 0, k);
    }
}

pub proof fn lemma_first_from_sound(s: Seq<char>, pattern: Seq<char>, i: int)
    ensures
        first_from(s, pattern, i) matches Some(k) ==> occurs_at(s, pattern, k),
    decreases s.len() - i + 1,
{
    if i <= s.len() && !occurs_at(s, pattern, i) {
        lemma_first_from_sound(s, pattern, i + 1);
    }
}

pub proof fn lemma_first_from_complete(s: Seq<char>, pattern: Seq<char>, i: int, k: int)
    requires
        i <= k,
        occurs_at(s, pattern, k),
    ensures
        first_from(s, pattern, i) is Some,
    decreases k - i,
{
    if i < k && !occurs_at(s, pattern, i) {
        lemma_first_from_complete(s, pattern, i + 1, k);
    }
}

/// The first place where `pattern` stands in `s`.
pub fn find_first(s: &Vec<char>, pattern: &Vec<char>) -> (res: Option<usize>)
    ensures
        match res {
            Some(i) => first_from(s@, pattern@, 0) == Some(i as int) && i + pattern.len() <= s.len(),
            None => first_from(s@, pattern@, 0) is None,
        },
{
    let mut i: usize = 0;
    while i < s.len()
        invariant
            i <= s.len(),
            forall|m: int| 0 <= m < i ==> !#[trigger] occurs_at(s@, pattern@, m),
        decreases s.len() - i,
    {
        if stands_at(s, pattern, i) {
            proof {
                lemma_first_from(s@, pattern@, 0, i as int);
            }
            return Some(i);
        }
        i = i + 1;
    }
    if stands_at(s, pattern, i) {
        proof {
            lemma_first_from(s@, pattern@, 0, i as int);
        }
        return Some(i);
    }
    proof {
        lemma_first_from(s@, pattern@, 0, i as int + 1);
    }
    None
}

/// The last place where `pattern` stands in `s`.
pub fn find_last(s: &Vec<char>, pattern: &Vec<char>) -> (res: Option<usize>)
    ensures
        match res {
            Some(i) => last_until(s@, pattern@, s.len() as int) == Some(i as int) && i
                + pattern.len() <= s.len(),
            None => last_until(s@, pattern@, s.len() as int) is None,
        },
{
    let mut i: usize = s.len();
    while i > 0
        invariant
            i <= s.len(),
            last_until(s@, pattern@, s.len() as int) == last_until(s@, pattern@, i as int),
        decreases i,
    {
        if stands_at(s, pattern, i) {
            return Some(i);
        }
        i = i - 1;
    }
    if stands_at(s, pattern, i) {
        return Some(i);
    }
    proof {
        assert(last_until(s@, pattern@, 0) == last_until(s@, pattern@, -1));
    }
    None
}

/// Says whether `pattern` stands anywhere in `s`.
pub fn contains(s: &Vec<char>, pattern: &Vec<char>) -> (res: bool)
    ensures
        res == occurs_in(s@, pattern@),
{
    proof {
        lemma_occurs_in(s@, pattern@);
    }
    find_first(s, pattern).is_some()
}

/// Says whether `s` starts with `prefix`.
pub fn starts_with(s: &Vec<char>, prefix: &Vec<char>) -> (res: bool)
    ensures
        res == starts_in(s@, prefix@),
{
    stands_at(s, prefix, 0)
}

/// Says whether `c` is among the characters of `s`.
pub fn has_character(s: &Vec<char>, c: char) -> (res: bool)
    ensures
        res == s@.contains(c),
{
    let mut i: usize = 0;
    while i < s.len()
        invariant
            i <= s.len(),
            forall|m: int| 0 <= m < i ==> s@[m] != c,
        decreases s.len() - i,
    {
        if s[i] == c {
            return true;
        }
        i = i + 1;
    }
    false
}

/// The characters of `s` from `from` up to `to`.
pub fn part(s: &Vec<char>, from: usize, to: usize) -> (res: Vec<char>)
    requires
        from <= to <= s.len(),
    ensures
        res@ == s@.subrange(from as int, to as int),
{
    let mut res: Vec<char> = Vec::new();
    let mut i: usize = from;
    while i < to
        invariant
            from <= i <= to <= s.len(),
            res@ == s@.subrange(from as int, i as int),
        decreases to - i,
    {
        res.push(s[i]);
        proof {
            assert(s@.subrange(from as int, i as int + 1) =~= s@.subrange(
                from as int,
                i as int,
            ).push(s@[i as int]));
        }
        i = i + 1;
    }
    res
}

/// Takes `suffix` off the end of `s`, however often it stands there.
pub fn trim_end(s: &mut Vec<char>, suffix: &Vec<char>)
    ensures
        final(s)@ == trimmed_end(old(s)@, suffix@),
{
    let ghost whole = s@;
    while suffix.len() > 0 && suffix.len() <= s.len() && stands_at(s, suffix, s.len() - suffix.len())
        invariant
            trimmed_end(whole, suffix@) == trimmed_end(s@, suffix@),
        decreases s.len(),
    {
        let rest: usize = s.len() - suffix.len();
        s.truncate(rest);
    }
}

/// Puts `by` in the place of each `c`.
pub fn replace(s: &Vec<char>, c: char, by: &Vec<char>) -> (res: Vec<char>)
    ensures
        res@ == replaced(s@, c, by@),
{
    let mut res: Vec<char> = Vec::new();
    let mut i: usize = 0;
    proof {
        assert(s@.take(0) =~= Seq::empty());
    }
    while i < s.len()
        invariant
            i <= s.len(),
            res@ == replaced(s@.take(i as int), c, by@),
        decreases s.len() - i,
    {
        let ghost was = res@;
        proof {
            assert(s@.take(i as int + 1).drop_last() =~= s@.take(i as int));
        }
        if s[i] == c {
            extend(&mut res, by);
        } else {
            res.push(s[i]);
            proof {
                assert(res@ =~= was + seq![s@[i as int]]);
            }
        }
        i = i + 1;
    }
    proof {
        assert(s@.take(i as int) =~= s@);
    }
    res
}

/// Appends the characters of `more` to `s`.
pub fn extend(s: &mut Vec<char>, more: &Vec<char>)
    ensures
        final(s)@ == old(s)@ + more@,
{
    let ghost was = s@;
    let mut k: usize = 0;
    proof {
        assert(s@ =~= was + more@.take(0));
    }
    while k < more.len()
        invariant
            k <= more.len(),
            s@ == was + more@.take(k as int),
        decreases more.len() - k,
    {
        s.push(more[k]);
        proof {
            assert(s@ =~= was + more@.take(k as int + 1));
        }
        k = k + 1;
    }
    proof {
        assert(more@.take(k as int) =~= more@);
    }
}

/// The characters with their ASCII letters in lower case.
pub fn to_lower(s: &Vec<char>) -> (res: Vec<char>)
    ensures
        res@ == lowered(s@),
{
    let mut res: Vec<char> = Vec::new();
    let mut i: usize = 0;
    while i < s.len()
        invariant
            i <= s.len(),
            res.len() == i,
            forall|k: int| 0 <= k < i ==> #[trigger] res@[k] == lower(s@[k]),
        decreases s.len() - i,
    {
        res.push(exec_lower(s[i]));
        i = i + 1;
    }
    proof {
        assert(res@ =~= lowered(s@));
    }
    res
}

/// `s` without white space at its start and its end.
pub fn trim(s: &Vec<char>) -> (res: Vec<char>)
    ensures
        res@ == trimmed(s@),
{
    let mut from: usize = 0;
    let mut to: usize = s.len();
    proof {
        assert(s@.subrange(0, s@.len() as int) =~= s@);
    }
    while from < to && is_white_space(s[from])
        invariant
            from <= to == s.len(),
            trimmed(s@.subrange(from as int, to as int)) == trimmed(s@),
        decreases to - from,
    {
        proof {
            assert(s@.subrange(from as int, to as int).drop_first() =~= s@.subrange(
                from + 1,
                to as int,
            ));
        }
        from = from + 1;
    }
    while from < to && is_white_space(s[to - 1])
        invariant
            from <= to <= s.len(),
            from < to ==> !is_space(s@[from as int]),
            trimmed(s@.subrange(from as int, to as int)) == trimmed(s@),
        decreases to - from,
    {
        proof {
            assert(s@.subrange(from as int, to as int).drop_last() =~= s@.subrange(
                from as int,
                to - 1,
            ));
        }
        to = to - 1;
    }
    part(s, from, to)
}

pub proof fn lemma_word_end(s: Seq<char>, i: int)
    requires
        0 <= i <= s.len(),
    ensures
        i <= word_end(s, i) <= s.len(),
        forall|k: int| i <= k < word_end(s, i) ==> !is_space(#[trigger] s[k]),
        word_end(s, i) < s.len() ==> is_space(s[word_end(s, i)]),
    decreases s.len() - i,
{
    if i < s.len() && !is_space(s[i]) {
        lemma_word_end(s, i + 1);
    }
}

/// A place that ends a run is the end of it.
pub proof fn lemma_word_end_is(s: Seq<char>, i: int, j: int)
    requires
        0 <= i <= j <= s.len(),
        forall|k: int| i <= k < j ==> !is_space(#[trigger] s[k]),
        j < s.len() ==> is_space(s[j]),
    ensures
        word_end(s, i) == j,
    decreases j - i,
{
    if i < j {
        assert(!is_space(s[i]));
        lemma_word_end_is(s, i + 1, j);
    }
}

/// The words of a text, in order.
pub fn split_words(s: &Vec<char>) -> (res: Vec<Vec<char>>)
    ensures
        res@.map_values(|w: Vec<char>| w@) == words(s@),
{
    let mut res: Vec<Vec<char>> = Vec::new();
    let mut i: usize = 0;
    proof {
        assert(res@.map_values(|w: Vec<char>| w@) + words_from(s@, 0) =~= words(s@));
    }
    while i < s.len()
        invariant
            i <= s.len(),
            res@.map_values(|w: Vec<char>| w@) + words_from(s@, i as int) == words(s@),
        decreases s.len() - i,
    {
        if is_white_space(s[i]) {
            i = i + 1;
        } else {
            let start: usize = i;
            let ghost was = res@;
            i = i + 1;
            while i < s.len() && !is_white_space(s[i])
                invariant
                    start < i <= s.len(),
                    word_end(s@, start as int + 1) == word_end(s@, i as int),
                decreases s.len() - i,
            {
                i = i + 1;
            }
            res.push(part(s, start, i));
            proof {
                let f = |w: Vec<char>| w@;
                let w = s@.subrange(start as int, i as int);
                assert(word_end(s@, i as int) == i);
                assert(words_from(s@, start as int) == seq![w] + words_from(s@, i as int));
                assert(res@.map_values(f) =~= was.map_values(f) + seq![w]);
                assert(res@.map_values(f) + words_from(s@, i as int) =~= was.map_values(f)
                    + words_from(s@, start as int));
            }
        }
    }
    proof {
        assert(res@.map_values(|w: Vec<char>| w@) =~= words(s@));
    }
    res
}

/// Joins the pieces with a separator between them.
pub fn join(pieces: &Vec<Vec<char>>, separator: char) -> (res: Vec<char>)
    ensures
        res@ == joined(pieces@.map_values(|w: Vec<char>| w@), seq![separator]),
{
    let ghost all = pieces@.map_values(|w: Vec<char>| w@);
    let mut res: Vec<char> = Vec::new();
    let mut i: usize = 0;
    proof {
        assert(all.take(0) =~= Seq::empty());
    }
    while i < pieces.len()
        invariant
            i <= pieces.len(),
            all == pieces@.map_values(|w: Vec<char>| w@),
            res@ == joined(all.take(i as int), seq![separator]),
        decreases pieces.len() - i,
    {
        let ghost was = res@;
        if i > 0 {
            res.push(separator);
        }
        extend(&mut res, &pieces[i]);
        proof {
            let now = all.take(i as int + 1);
            assert(now.drop_last() =~= all.take(i as int));
            assert(now.last() == pieces@[i as int]@);
            if i > 0 {
                assert(res@ =~= was + seq![separator] + pieces@[i as int]@);
            } else {
                assert(res@ =~= pieces@[i as int]@);
            }
        }
        i = i + 1;
    }
    proof {
        assert(all.take(i as int) =~= all);
    }
    res
}

/// The text with single spaces between its words and none around them.
pub fn collapse(s: &Vec<char>) -> (res: Vec<char>)
    ensures
        res@ == collapsed(s@),
{
    join(&split_words(s), ' ')
}

/// Every word is a non-empty run without white space.
pub open spec fn is_word(w: Seq<char>) -> bool {
    w.len() > 0 && forall|i: int| 0 <= i < w.len() ==> !is_space(#[trigger] w[i])
}

pub proof fn lemma_words_are_words(s: Seq<char>, i: int)
    requires
        0 <= i <= s.len(),
    ensures
        forall|k: int| 0 <= k < words_from(s, i).len() ==> is_word(#[trigger] words_from(s, i)[k]),
    decreases s.len() - i,
{
    if i < s.len() {
        if is_space(s[i]) {
            lemma_words_are_words(s, i + 1);
            assert(words_from(s, i) == words_from(s, i + 1));
        } else {
            lemma_word_end(s, i + 1);
            let j = word_end(s, i + 1);
            lemma_words_are_words(s, j);
            let w = s.subrange(i, j);
            assert(is_word(w)) by {
                assert forall|k: int| 0 <= k < w.len() implies !is_space(#[trigger] w[k]) by {
                    assert(w[k] == s[i + k]);
                }
            }
            let rest = words_from(s, j);
            let all = words_from(s, i);
            assert(all == seq![w] + rest);
            assert forall|k: int| 0 <= k < all.len() implies is_word(#[trigger] all[k]) by {
                if k > 0 {
                    assert(all[k] == rest[k - 1]);
                }
            }
        }
    }
}

/// Where a text goes on does not depend on what stands before.
pub proof fn lemma_words_from_suffix(s: Seq<char>, t: Seq<char>, i: int, d: int)
    requires
        0 <= i <= s.len(),
        0 <= i + d,
        t.len() == s.len() + d,
        forall|k: int| i <= k < s.len() ==> s[k] == #[trigger] t[k + d],
    ensures
        words_from(s, i) == words_from(t, i + d),
    decreases s.len() - i,
{
    if i < s.len() {
        assert(s[i] == t[i + d]);
        if is_space(s[i]) {
            lemma_words_from_suffix(s, t, i + 1, d);
        } else {
            lemma_word_end(s, i + 1);
            let j = word_end(s, i + 1);
            assert forall|k: int| i + 1 + d <= k < j + d implies !is_space(#[trigger] t[k]) by {
                assert(s[k - d] == t[k - d + d]);
            }
            if j < s.len() {
                assert(s[j] == t[j + d]);
            }
            lemma_word_end_is(t, i + 1 + d, j + d);
            assert(s.subrange(i, j) =~= t.subrange(i + d, j + d)) by {
                assert forall|k: int| 0 <= k < j - i implies s.subrange(i, j)[k] == t.subrange(
                    i + d,
                    j + d,
                )[k] by {
                    assert(s[i + k] == t[i + k + d]);
                }
            }
            lemma_words_from_suffix(s, t, j, d);
        }
    }
}

/// Joining from the front: the first piece, a separator, and the rest joined.
pub proof fn lemma_joined_front(pieces: Seq<Seq<char>>, separator: Seq<char>)
    requires
        pieces.len() > 1,
    ensures
        joined(pieces, separator) == pieces[0] + separator + joined(pieces.drop_first(), separator),
    decreases pieces.len(),
{
    if pieces.len() == 2 {
        assert(pieces.drop_last() =~= seq![pieces[0]]);
        assert(pieces.drop_first() =~= seq![pieces[1]]);
        assert(joined(pieces.drop_last(), separator) == pieces[0]);
        assert(joined(pieces.drop_first(), separator) == pieces[1]);
    } else {
        lemma_joined_front(pieces.drop_last(), separator);
        assert(pieces.drop_last().drop_first() =~= pieces.drop_first().drop_last());
        let middle = joined(pieces.drop_first().drop_last(), separator);
        assert(joined(pieces, separator) == pieces[0] + separator + middle + separator
            + pieces.last());
        assert(pieces[0] + separator + middle + separator + pieces.last() =~= pieces[0] + separator
            + (middle + separator + pieces.last()));
    }
}

/// The words of words joined by single spaces are those words.
pub proof fn lemma_words_of_joined(ws: Seq<Seq<char>>)
    requires
        forall|k: int| 0 <= k < ws.len() ==> is_word(#[trigger] ws[k]),
    ensures
        words(joined(ws, seq![' '])) == ws,
    decreases ws.len(),
{
    let sep = seq![' '];
    let s = joined(ws, sep);
    if ws.len() == 0 {
        assert(words(s) =~= ws);
    } else {
        let w = ws[0];
        let n = w.len() as int;
        assert(is_word(w));
        if ws.len() == 1 {
            lemma_word_end_is(s, 1, n);
            assert(s.subrange(0, n) =~= w);
            assert(words_from(s, n) =~= Seq::empty());
            assert(!is_space(s[0]));
            assert(words(s) =~= ws);
        } else {
            let rest = ws.drop_first();
            let t = joined(rest, sep);
            lemma_joined_front(ws, sep);
            assert forall|k: int| 0 <= k < rest.len() implies is_word(#[trigger] rest[k]) by {
                assert(is_word(ws[k + 1]));
            }
            lemma_words_of_joined(rest);
            assert(s == w + sep + t);
            assert forall|k: int| 1 <= k < n implies !is_space(#[trigger] s[k]) by {
                assert(s[k] == w[k]);
            }
            assert(s[0] == w[0]);
            assert(s[n] == ' ');
            lemma_word_end_is(s, 1, n);
            assert(s.subrange(0, n) =~= w);
            lemma_words_from_suffix(t, s, 0, n + 1);
            assert(words_from(s, n) == words_from(s, n + 1));
            assert(words(s) =~= seq![w] + rest);
            assert(seq![w] + rest =~= ws);
        }
    }
}

/// Collapsing a text a second time changes nothing.
pub proof fn collapsing_is_idempotent(s: Seq<char>)
    ensures
        words(collapsed(s)) == words(s),
        collapsed(collapsed(s)) == collapsed(s),
{
    lemma_words_are_words(s, 0);
    lemma_words_of_joined(words(s));
}

} // verus!
