//! What enriching a result tells of its place, in terms of its own name and path.
use vstd::prelude::*;
use crate::context_enrichment::{enrich_search_results, enriched, enriched_views,
    infer_parent_scope, module_scope, parent_scope, symbol_scope, EnrichedSearchResult};
use crate::text::{after_first, before_last, trimmed_end};
use crate::text_laws::{after_first_is_after_the_first, before_last_is_before_the_last, copies,
    replacing_is_character_by_character, stands, substitutes, trimming_takes_off_copies};
use crate::types::{result_views, ResultView, SearchResult};

verus! {

/// `separator` stands somewhere in `text`.
pub open spec fn separated(text: Seq<char>, separator: Seq<char>) -> bool {
    exists|i: int| #[trigger] stands(text, separator, i)
}

/// `head` is what stands before the last `separator` in `text`.
pub open spec fn head_of(text: Seq<char>, separator: Seq<char>, head: Seq<char>) -> bool {
    &&& head.is_prefix_of(text)
    &&& stands(text, separator, head.len() as int)
    &&& forall|j: int| j > head.len() ==> !#[trigger] stands(text, separator, j)
}

/// `stem` is what the path leaves after its first `src/`, without `.rs` at the end and
/// then without `/mod` at the end, however often each stands there.
pub open spec fn stem_of(path: Seq<char>, at: int, stem: Seq<char>, mods: nat, ends: nat) -> bool {
    &&& stands(path, "src/"@, at)
    &&& forall|j: int| j < at ==> !#[trigger] stands(path, "src/"@, j)
    &&& path.skip(at + "src/"@.len()) == stem + copies("/mod"@, mods) + copies(".rs"@, ends)
    &&& !".rs"@.is_suffix_of(stem + copies("/mod"@, mods))
    &&& !"/mod"@.is_suffix_of(stem)
}

/// The module of a stem: each slash as a path separator, all else as it is.
pub open spec fn module_of(stem: Seq<char>) -> Seq<char> {
    substitutes(stem, '/', "::"@).flatten_alt()
}

/// The scope is that of the path: the module of its stem, where it lies under `src/`
/// and its module has a name, and else unknown.
pub open spec fn scope_of_path(path: Seq<char>, scope: Option<String>) -> bool {
    &&& !separated(path, "src/"@) ==> scope is None
    &&& separated(path, "src/"@) ==> exists|at: int, stem: Seq<char>, mods: nat, ends: nat|
        #[trigger] stem_of(path, at, stem, mods, ends) && (module_of(stem).len() == 0
            ==> scope is None) && (module_of(stem).len() > 0 ==> scope is Some && scope->0@
            == module_of(stem))
}

/// The parent scope of a result is what stands before the last `::` of its symbol's
/// name; where there is none, before its last dot; and where there is none either, or
/// no name, it comes from the path.
pub proof fn outcome_of_inferring(result: &SearchResult, res: Option<String>)
    requires
        call_ensures(infer_parent_scope, (result,), res),
    ensures
        result.symbol_name matches Some(name) ==> {
            &&& separated(name@, "::"@) ==> res is Some && head_of(name@, "::"@, res->0@)
            &&& !separated(name@, "::"@) && separated(name@, "."@) ==> res is Some && head_of(
                name@,
                "."@,
                res->0@,
            )
            &&& !separated(name@, "::"@) && !separated(name@, "."@) ==> scope_of_path(
                result.file_path@,
                res,
            )
        },
        result.symbol_name is None ==> scope_of_path(result.file_path@, res),
{
    lemma_scope_of_path(result.file_path@);
    if result.symbol_name is Some {
        let name = result.symbol_name->0@;
        assert(result@.symbol_name == Some(name));
        before_last_is_before_the_last(name, "::"@);
        before_last_is_before_the_last(name, "."@);
        if before_last(name, "::"@) is Some {
            assert(stands(name, "::"@, before_last(name, "::"@)->0.len() as int));
            assert(symbol_scope(name) == before_last(name, "::"@));
        } else if before_last(name, "."@) is Some {
            assert(stands(name, "."@, before_last(name, "."@)->0.len() as int));
        }
        if symbol_scope(name) is None {
            assert(parent_scope(result@) == module_scope(result.file_path@));
        } else {
            assert(parent_scope(result@) == symbol_scope(name));
        }
    } else {
        assert(parent_scope(result@) == module_scope(result.file_path@));
    }
}

proof fn lemma_scope_of_path(path: Seq<char>)
    ensures
        forall|scope: Option<String>|
            #![trigger scope_of_path(path, scope)]
            crate::types::text_in(scope) == module_scope(path) ==> scope_of_path(path, scope),
{
    let root = "src/"@;
    reveal_strlit("src/");
    reveal_strlit(".rs");
    reveal_strlit("/mod");
    after_first_is_after_the_first(path, root);
    if after_first(path, root) is Some {
        let rest = after_first(path, root)->0;
        let at = path.len() - rest.len() - root.len();
        let ends = trimming_takes_off_copies(rest, ".rs"@);
        let cut = trimmed_end(rest, ".rs"@);
        let mods = trimming_takes_off_copies(cut, "/mod"@);
        let stem = trimmed_end(cut, "/mod"@);
        replacing_is_character_by_character(stem, '/', "::"@);
        assert(path.skip(at + root.len()) =~= rest);
        assert(stem_of(path, at, stem, mods, ends));
    }
}

/// The formatted content is the content under one line for the scope and one for the
/// enclosing signature, each where it is known.
pub proof fn outcome_of_formatting(item: &EnrichedSearchResult, res: String)
    requires
        call_ensures(EnrichedSearchResult::formatted_content, (item,), res),
    ensures
        ({
            let content = item.result.content@;
            match (item.parent_scope, item.enclosing_signature) {
                (None, None) => res@ == content,
                (Some(scope), None) => res@ == "// Scope: "@ + scope@ + "\n"@ + content,
                (None, Some(signature)) => res@ == "// Enclosing: "@ + signature@ + "\n"@
                    + content,
                (Some(scope), Some(signature)) => res@ == "// Scope: "@ + scope@ + "\n"@
                    + "// Enclosing: "@ + signature@ + "\n"@ + content,
            }
        }),
{
    let content = item.result.content@;
    assert(res@ == item@.formatted());
    match (item.parent_scope, item.enclosing_signature) {
        (None, None) => {
            assert(res@ =~= content);
        },
        (Some(scope), None) => {
            assert(res@ =~= "// Scope: "@ + scope@ + "\n"@ + content);
        },
        (None, Some(signature)) => {
            assert(res@ =~= "// Enclosing: "@ + signature@ + "\n"@ + content);
        },
        (Some(scope), Some(signature)) => {
            assert(res@ =~= "// Scope: "@ + scope@ + "\n"@ + "// Enclosing: "@ + signature@ + "\n"@
                + content);
        },
    }
}

/// `a` holds what `b` holds.
pub open spec fn same_result(a: SearchResult, b: SearchResult) -> bool {
    &&& a.file_path@ == b.file_path@
    &&& a.line_start == b.line_start
    &&& a.line_end == b.line_end
    &&& a.content@ == b.content@
    &&& a.language == b.language
    &&& a.score == b.score
    &&& a.symbol_name is Some <==> b.symbol_name is Some
    &&& a.symbol_name is Some ==> a.symbol_name->0@ == b.symbol_name->0@
    &&& a.symbol_type == b.symbol_type
    &&& a.part_index == b.part_index
}

/// Enriching keeps every result as it is and in its place, gives it the scope that is
/// inferred for it, and the signature that was given for all.
pub proof fn outcome_of_enriching(
    results: Vec<SearchResult>,
    signature: Option<&str>,
    res: Vec<EnrichedSearchResult>,
    k: int,
    scope: Option<String>,
)
    requires
        call_ensures(enrich_search_results, (results, signature), res),
        0 <= k < results.len(),
        call_ensures(infer_parent_scope, (&results@[k],), scope),
    ensures
        res.len() == results.len(),
        same_result(res@[k].result, results@[k]),
        res@[k].parent_scope is Some <==> scope is Some,
        scope is Some ==> res@[k].parent_scope->0@ == scope->0@,
        res@[k].enclosing_signature is Some <==> signature is Some,
        signature is Some ==> res@[k].enclosing_signature->0@ == signature->0@,
{
    let given = match signature {
        Some(s) => Some(s@),
        None => None,
    };
    let views = enriched_views(res@);
    let wanted = result_views(results@).map_values(|r: ResultView| enriched(r, given));
    assert(views == wanted);
    assert(views.len() == res.len() && wanted.len() == results.len());
    assert(views[k] == res@[k]@);
    assert(result_views(results@)[k] == results@[k]@);
    assert(wanted[k] == enriched(results@[k]@, given));
    let a = res@[k]@;
    assert(a.result == results@[k]@);
    assert(a.result.symbol_name == results@[k]@.symbol_name);
    assert(a.parent_scope == parent_scope(results@[k]@));
    assert(a.enclosing_signature == given);
}

/// A copy of a result, plain or enriched, holds what it holds.
pub proof fn copies_hold_the_same(
    a: &SearchResult,
    b: SearchResult,
    c: &EnrichedSearchResult,
    d: EnrichedSearchResult,
)
    requires
        call_ensures(SearchResult::clone, (a,), b),
        call_ensures(EnrichedSearchResult::clone, (c,), d),
    ensures
        same_result(b, *a),
        same_result(d.result, c.result),
        d.parent_scope is Some <==> c.parent_scope is Some,
        c.parent_scope is Some ==> d.parent_scope->0@ == c.parent_scope->0@,
        d.enclosing_signature is Some <==> c.enclosing_signature is Some,
        c.enclosing_signature is Some ==> d.enclosing_signature->0@ == c.enclosing_signature->0@,
{
    assert(b@ == a@);
    assert(b@.symbol_name == a@.symbol_name);
    assert(d@ == c@);
    assert(d@.result.symbol_name == c@.result.symbol_name);
    assert(d@.parent_scope == c@.parent_scope);
    assert(d@.enclosing_signature == c@.enclosing_signature);
}

} // verus!
