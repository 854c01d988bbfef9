//! Small-to-big context enrichment of search results.
//!
//! Enriches leaf-level search results with enclosing architectural context (class
//! names, trait and struct declarations, parent scope paths, or module
//! definitions), and unites results that stand in the same container.
use vstd::prelude::*;
use crate::text::{after_first, before_last, characters, find_first, find_last, part, replace,
    replaced, string_of, trim_end, trimmed_end};
use crate::types::{copy_text, result_views, text_in, ResultView, SearchResult};

verus! {

/// Search result enriched with parent scope and structural declaration context.
#[derive(Debug)]
pub struct EnrichedSearchResult {
    /// The primary matched leaf chunk result.
    pub result: SearchResult,
    /// Extracted or resolved parent scope (e.g. `crate::retrieval::hybrid::Searcher`).
    pub parent_scope: Option<String>,
    /// Enclosing signature or definition (e.g. `impl SearchService for ...`).
    pub enclosing_signature: Option<String>,
}

/// What an [`EnrichedSearchResult`] holds.
#[verifier::ext_equal]
pub struct EnrichedView {
    pub result: ResultView,
    pub parent_scope: Option<Seq<char>>,
    pub enclosing_signature: Option<Seq<char>>,
}

impl View for EnrichedSearchResult {
    type V = EnrichedView;

    open spec fn view(&self) -> EnrichedView {
        EnrichedView {
            result: self.result@,
            parent_scope: text_in(self.parent_scope),
            enclosing_signature: text_in(self.enclosing_signature),
        }
    }
}

impl Clone for EnrichedSearchResult {
    fn clone(&self) -> (res: Self)
        ensures
            res@ == self@,
    {
        EnrichedSearchResult {
            result: self.result.clone(),
            parent_scope: copy_text(&self.parent_scope),
            enclosing_signature: copy_text(&self.enclosing_signature),
        }
    }
}

/// A comment line that names `text`, or nothing where there is none.
pub open spec fn breadcrumb(label: Seq<char>, text: Option<Seq<char>>) -> Seq<char> {
    match text {
        Some(t) => label + t + "\n"@,
        None => Seq::empty(),
    }
}

impl EnrichedView {
    /// The content under the breadcrumbs of its scope and its enclosing signature.
    pub open spec fn formatted(self) -> Seq<char> {
        breadcrumb("// Scope: "@, self.parent_scope) + breadcrumb(
            "// Enclosing: "@,
            self.enclosing_signature,
        ) + self.result.content
    }
}

impl EnrichedSearchResult {
    /// Format the chunk content for agent prompt consumption, attaching parent breadcrumbs.
    pub fn formatted_content(&self) -> (res: String)
        ensures
            res@ == self@.formatted(),
    {
        let mut formatted = String::new();
        if let Some(scope) = &self.parent_scope {
            formatted.append("// Scope: ");
            formatted.append(scope.as_str());
            formatted.append("\n");
        }
        proof {
            assert(formatted@ =~= breadcrumb("// Scope: "@, self@.parent_scope));
        }
        if let Some(sig) = &self.enclosing_signature {
            formatted.append("// Enclosing: ");
            formatted.append(sig.as_str());
            formatted.append("\n");
        }
        proof {
            assert(formatted@ =~= breadcrumb("// Scope: "@, self@.parent_scope) + breadcrumb(
                "// Enclosing: "@,
                self@.enclosing_signature,
            ));
        }
        formatted.append(self.result.content.as_str());
        formatted
    }
}

/// The module that a path under a `src/` directory stands for.
pub open spec fn module_scope(path: Seq<char>) -> Option<Seq<char>> {
    match after_first(path, "src/"@) {
        Some(rest) => {
            let module = replaced(
                trimmed_end(trimmed_end(rest, ".rs"@), "/mod"@),
                '/',
                "::"@,
            );
            if module.len() == 0 {
                None
            } else {
                Some(module)
            }
        },
        None => None,
    }
}

/// The container that a symbol's own name gives.
pub open spec fn symbol_scope(name: Seq<char>) -> Option<Seq<char>> {
    match before_last(name, "::"@) {
        Some(parent) => Some(parent),
        None => before_last(name, "."@),
    }
}

/// The parent scope of a result: from its symbol's name, else from its path.
pub open spec fn parent_scope(result: ResultView) -> Option<Seq<char>> {
    match result.symbol_name {
        Some(name) => match symbol_scope(name) {
            Some(parent) => Some(parent),
            None => module_scope(result.file_path),
        },
        None => module_scope(result.file_path),
    }
}

/// What stands before the last occurrence of `separator` in `name`.
fn scope_before(name: &Vec<char>, separator: &str) -> (res: Option<String>)
    ensures
        text_in(res) == before_last(name@, separator@),
{
    match find_last(name, &characters(separator)) {
        Some(i) => {
            let parent = part(name, 0, i);
            proof {
                assert(parent@ =~= name@.take(i as int));
            }
            Some(string_of(&parent))
        },
        None => None,
    }
}

/// Heuristically extract parent scope from symbol name or file path.
pub fn infer_parent_scope(result: &SearchResult) -> (res: Option<String>)
    ensures
        text_in(res) == parent_scope(result@),
{
    if let Some(name) = &result.symbol_name {
        let name = characters(name.as_str());
        let parent = scope_before(&name, "::");
        if parent.is_some() {
            return parent;
        }
        let parent = scope_before(&name, ".");
        if parent.is_some() {
            return parent;
        }
    }

    // The module scope: "crates/vera-core/src/retrieval/hybrid.rs" gives "retrieval::hybrid".
    let path = characters(result.file_path.as_str());
    let root = characters("src/");
    if let Some(i) = find_first(&path, &root) {
        let mut module = part(&path, i + root.len(), path.len());
        proof {
            assert(module@ =~= path@.skip(i + root@.len()));
        }
        trim_end(&mut module, &characters(".rs"));
        trim_end(&mut module, &characters("/mod"));
        let module = replace(&module, '/', &characters("::"));
        if module.len() > 0 {
            return Some(string_of(&module));
        }
    }
    None
}

/// What each of the enriched results holds.
pub open spec fn enriched_views(results: Seq<EnrichedSearchResult>) -> Seq<EnrichedView> {
    results.map_values(|r: EnrichedSearchResult| r@)
}

/// A result with its parent scope and the signature given for all results.
pub open spec fn enriched(result: ResultView, signature: Option<Seq<char>>) -> EnrichedView {
    EnrichedView { result, parent_scope: parent_scope(result), enclosing_signature: signature }
}

/// Enrich a collection of search results with structural parent context.
pub fn enrich_search_results(
    results: Vec<SearchResult>,
    default_enclosing_sig: Option<&str>,
) -> (res: Vec<EnrichedSearchResult>)
    ensures
        enriched_views(res@) == result_views(results@).map_values(
            |r: ResultView|
                enriched(
                    r,
                    match default_enclosing_sig {
                        Some(s) => Some(s@),
                        None => None,
                    },
                ),
        ),
{
    let ghost signature = match default_enclosing_sig {
        Some(s) => Some(s@),
        None => None,
    };
    let mut res: Vec<EnrichedSearchResult> = Vec::new();
    for r in it: results
        invariant
            it.seq() == results@,
            res.len() == it.index(),
            signature == (match default_enclosing_sig {
                Some(s) => Some(s@),
                None => None,
            }),
            forall|k: int|
                0 <= k < res.len() ==> (#[trigger] res@[k])@ == enriched(results@[k]@, signature),
    {
        let parent_scope = infer_parent_scope(&r);
        let enclosing_signature = match default_enclosing_sig {
            Some(s) => Some(s.to_owned()),
            None => None,
        };
        res.push(EnrichedSearchResult { result: r, parent_scope, enclosing_signature });
    }
    proof {
        assert(enriched_views(res@) =~= result_views(results@).map_values(
            |r: ResultView| enriched(r, signature),
        ));
    }
    res
}

impl EnrichedView {
    /// The container of a result, where its scope is known: file and scope.
    pub open spec fn container(self) -> Option<(Seq<char>, Seq<char>)> {
        match self.parent_scope {
            Some(scope) => Some((self.result.file_path, scope)),
            None => None,
        }
    }
}

/// The results of one container, in order.
pub open spec fn siblings(
    items: Seq<EnrichedView>,
    container: Option<(Seq<char>, Seq<char>)>,
) -> Seq<EnrichedView>
    decreases items.len(),
{
    if items.len() == 0 {
        items
    } else if items.last().container() == container {
        siblings(items.drop_last(), container).push(items.last())
    } else {
        siblings(items.drop_last(), container)
    }
}

/// The container is known and holds at least `min` of the results.
pub open spec fn crowded(
    items: Seq<EnrichedView>,
    min: nat,
    container: Option<(Seq<char>, Seq<char>)>,
) -> bool {
    container is Some && siblings(items, container).len() >= min
}

/// What stands between the contents of united siblings.
pub open spec fn boundary() -> Seq<char> {
    "\n\n// ── Sibling Chunk ──\n"@
}

/// `a` and its later sibling `b` as one result: it spans the lines of both, has
/// the higher score, and holds both contents. The rest is that of `a`.
pub open spec fn absorbed(a: EnrichedView, b: EnrichedView) -> EnrichedView {
    EnrichedView {
        result: ResultView {
            line_start: if b.result.line_start < a.result.line_start {
                b.result.line_start
            } else {
                a.result.line_start
            },
            line_end: if b.result.line_end > a.result.line_end {
                b.result.line_end
            } else {
                a.result.line_end
            },
            score: if b.result.score.above(a.result.score) {
                b.result.score
            } else {
                a.result.score
            },
            content: a.result.content + boundary() + b.result.content,
            ..a.result
        },
        ..a
    }
}

/// Siblings as one result.
pub open spec fn united(group: Seq<EnrichedView>) -> EnrichedView
    decreases group.len(),
{
    if group.len() <= 1 {
        group[0]
    } else {
        absorbed(united(group.drop_last()), group.last())
    }
}

/// The result at `i` stands for itself or for all of its siblings: its container
/// is not crowded, or it is the first of it.
pub open spec fn leads(items: Seq<EnrichedView>, min: nat, i: int) -> bool {
    crowded(items, min, items[i].container()) ==> siblings(
        items.take(i),
        items[i].container(),
    ).len() == 0
}

/// Which of the first `n` results lead, in order.
pub open spec fn leaders(items: Seq<EnrichedView>, min: nat, n: nat) -> Seq<int>
    decreases n,
{
    if n == 0 {
        Seq::empty()
    } else if leads(items, min, n - 1) {
        leaders(items, min, (n - 1) as nat).push(n - 1)
    } else {
        leaders(items, min, (n - 1) as nat)
    }
}

/// What the leader at `i` stands for among the first `n` results.
pub open spec fn gathered(items: Seq<EnrichedView>, min: nat, n: nat, i: int) -> EnrichedView {
    if crowded(items, min, items[i].container()) {
        united(siblings(items.take(n as int), items[i].container()))
    } else {
        items[i]
    }
}

/// The first `n` results, those of a crowded container united in the place of the
/// first of them.
pub open spec fn merged_until(items: Seq<EnrichedView>, min: nat, n: nat) -> Seq<EnrichedView> {
    leaders(items, min, n).map_values(|i: int| gathered(items, min, n, i))
}

/// How many results of one container are united: the minimum asked for, but two at
/// least.
pub open spec fn threshold(min: nat) -> nat {
    if min < 2 {
        2
    } else {
        min
    }
}

/// The results, those of each container that holds `min` or more of them, and two at
/// least, united.
pub open spec fn merged(items: Seq<EnrichedView>, min: nat) -> Seq<EnrichedView> {
    merged_until(items, threshold(min), items.len())
}

/// Whether two results are known to stand in the same container.
fn same_container(a: &EnrichedSearchResult, b: &EnrichedSearchResult) -> (res: bool)
    ensures
        res == (a@.container() is Some && a@.container() == b@.container()),
{
    match (&a.parent_scope, &b.parent_scope) {
        (Some(s), Some(t)) => a.result.file_path == b.result.file_path && *s == *t,
        _ => false,
    }
}

/// How many of the results stand in the container of the result at `i`.
fn count_siblings(items: &Vec<EnrichedSearchResult>, i: usize) -> (res: usize)
    requires
        i < items.len(),
    ensures
        res == if items@[i as int]@.container() is Some {
            siblings(enriched_views(items@), items@[i as int]@.container()).len()
        } else {
            0
        },
{
    let ghost all = enriched_views(items@);
    let ghost container = items@[i as int]@.container();
    let mut count: usize = 0;
    let mut k: usize = 0;
    proof {
        assert(all.take(0) =~= Seq::empty());
    }
    while k < items.len()
        invariant
            i < items.len(),
            k <= items.len(),
            all == enriched_views(items@),
            container == items@[i as int]@.container(),
            count <= k,
            count == if container is Some {
                siblings(all.take(k as int), container).len()
            } else {
                0
            },
        decreases items.len() - k,
    {
        proof {
            assert(all.take(k + 1).drop_last() =~= all.take(k as int));
            assert(all.take(k + 1).last() == items@[k as int]@);
        }
        if same_container(&items[i], &items[k]) {
            count = count + 1;
        }
        k = k + 1;
    }
    proof {
        assert(all.take(k as int) =~= all);
    }
    count
}

/// What `siblings` picks: results of the container, wherever there are any.
pub proof fn lemma_siblings(items: Seq<EnrichedView>, container: Option<(Seq<char>, Seq<char>)>)
    ensures
        siblings(items, container).len() <= items.len(),
        forall|k: int|
            0 <= k < siblings(items, container).len() ==> (#[trigger] siblings(
                items,
                container,
            )[k]).container() == container,
        forall|k: int|
            0 <= k < items.len() && (#[trigger] items[k]).container() == container ==> siblings(
                items,
                container,
            ).len() > 0,
        siblings(items, container).len() > 0 ==> exists|k: int|
            0 <= k < items.len() && (#[trigger] items[k]).container() == container,
    decreases items.len(),
{
    if items.len() > 0 {
        let rest = items.drop_last();
        lemma_siblings(rest, container);
        let picked = siblings(rest, container);
        let all = siblings(items, container);
        if items.last().container() == container {
            assert(all == picked.push(items.last()));
            assert forall|k: int| 0 <= k < all.len() implies (#[trigger] all[k]).container()
                == container by {
                if k < picked.len() {
                    assert(all[k] == picked[k]);
                }
            }
            assert(items[items.len() - 1].container() == container);
        } else {
            assert(all == picked);
            assert forall|k: int| 0 <= k < all.len() implies (#[trigger] all[k]).container()
                == container by {
                assert(all[k] == picked[k]);
            }
            assert forall|k: int|
                0 <= k < items.len() && (#[trigger] items[k]).container()
                    == container implies all.len() > 0 by {
                assert(rest[k].container() == container);
            }
            if all.len() > 0 {
                let k = choose|k: int|
                    0 <= k < rest.len() && (#[trigger] rest[k]).container() == container;
                assert(items[k].container() == container);
            }
        }
    }
}

/// United siblings stand where the first of them stands.
pub proof fn lemma_united_container(group: Seq<EnrichedView>)
    requires
        group.len() > 0,
    ensures
        united(group).container() == group[0].container(),
    decreases group.len(),
{
    if group.len() > 1 {
        lemma_united_container(group.drop_last());
        assert(group.drop_last()[0] == group[0]);
    }
}

/// Of the first `n` results exactly those that lead are leaders.
pub proof fn lemma_leaders(items: Seq<EnrichedView>, min: nat, n: nat)
    ensures
        leaders(items, min, n).len() <= n,
        forall|j: int|
            0 <= j < leaders(items, min, n).len() ==> 0 <= #[trigger] leaders(items, min, n)[j] < n
                && leads(items, min, leaders(items, min, n)[j]),
        forall|i: int|
            0 <= i < n && #[trigger] leads(items, min, i) ==> leaders(items, min, n).contains(i),
        forall|j: int, k: int|
            0 <= j < k < leaders(items, min, n).len() ==> #[trigger] leaders(items, min, n)[j]
                < #[trigger] leaders(items, min, n)[k],
    decreases n,
{
    if n > 0 {
        let m = (n - 1) as nat;
        lemma_leaders(items, min, m);
        let before = leaders(items, min, m);
        let after = leaders(items, min, n);
        if leads(items, min, n - 1) {
            assert(after == before.push(n - 1));
            assert forall|i: int|
                0 <= i < n && #[trigger] leads(items, min, i) implies after.contains(i) by {
                if i == n - 1 {
                    assert(after[after.len() - 1] == i);
                } else {
                    let j = choose|j: int| 0 <= j < before.len() && before[j] == i;
                    assert(after[j] == i);
                }
            }
            assert forall|j: int| 0 <= j < after.len() implies 0 <= #[trigger] after[j] < n
                && leads(items, min, after[j]) by {
                if j < before.len() {
                    assert(after[j] == before[j]);
                }
            }
            assert forall|j: int, k: int|
                0 <= j < k < after.len() implies #[trigger] after[j] < #[trigger] after[k] by {
                assert(after[j] == before[j]);
                if k < before.len() {
                    assert(after[k] == before[k]);
                }
            }
        } else {
            assert(after == before);
        }
    }
}

/// A crowded container that occurs among the first `n` results has one leader there.
pub proof fn lemma_container_leader(items: Seq<EnrichedView>, min: nat, n: nat, i: int) -> (j: int)
    requires
        0 <= i < n <= items.len(),
        crowded(items, min, items[i].container()),
    ensures
        0 <= j <= i,
        items[j].container() == items[i].container(),
        leads(items, min, j),
    decreases i,
{
    lemma_siblings(items.take(i), items[i].container());
    if leads(items, min, i) {
        i
    } else {
        let k = choose|k: int|
            0 <= k < items.take(i).len() && (#[trigger] items.take(i)[k]).container()
                == items[i].container();
        assert(items[k].container() == items[i].container());
        lemma_container_leader(items, min, n, k)
    }
}

/// A crowded container has no two leaders.
pub proof fn lemma_one_leader(items: Seq<EnrichedView>, min: nat, i: int, j: int)
    requires
        0 <= i < items.len(),
        0 <= j < items.len(),
        leads(items, min, i),
        leads(items, min, j),
        items[i].container() == items[j].container(),
        crowded(items, min, items[i].container()),
    ensures
        i == j,
{
    lemma_siblings(items.take(i), items[i].container());
    lemma_siblings(items.take(j), items[j].container());
    if i < j {
        assert(items.take(j)[i].container() == items[j].container());
    } else if j < i {
        assert(items.take(i)[j].container() == items[i].container());
    }
}

/// What a leader stands for keeps the leader's container.
pub proof fn lemma_gathered_container(items: Seq<EnrichedView>, min: nat, n: nat, i: int)
    requires
        0 <= i < n <= items.len(),
    ensures
        gathered(items, min, n, i).container() == items[i].container(),
{
    let container = items[i].container();
    if crowded(items, min, container) {
        let first = items.take(n as int);
        lemma_siblings(first, container);
        assert(first[i].container() == container);
        lemma_united_container(siblings(first, container));
    }
}

/// One more result changes only what its own container's leader stands for.
proof fn lemma_gathered_step(items: Seq<EnrichedView>, min: nat, n: nat, i: int)
    requires
        0 <= i < n < items.len(),
    ensures
        !crowded(items, min, items[i].container()) || items[i].container()
            != items[n as int].container() ==> gathered(items, min, n + 1, i) == gathered(
            items,
            min,
            n,
            i,
        ),
        crowded(items, min, items[i].container()) && items[i].container()
            == items[n as int].container() ==> gathered(items, min, n + 1, i) == absorbed(
            gathered(items, min, n, i),
            items[n as int],
        ),
{
    let container = items[i].container();
    let before = items.take(n as int);
    let after = items.take(n as int + 1);
    assert(after.drop_last() =~= before);
    assert(after.last() == items[n as int]);
    lemma_siblings(before, container);
    assert(before[i].container() == container);
    if items[n as int].container() == container {
        let group = siblings(after, container);
        assert(group == siblings(before, container).push(items[n as int]));
        assert(group.drop_last() =~= siblings(before, container));
    }
}

/// A leader that joins the first `n` results stands for itself.
proof fn lemma_gathered_alone(items: Seq<EnrichedView>, min: nat, n: nat)
    requires
        n < items.len(),
        leads(items, min, n as int),
    ensures
        gathered(items, min, n + 1, n as int) == items[n as int],
{
    let container = items[n as int].container();
    let after = items.take(n as int + 1);
    assert(after.drop_last() =~= items.take(n as int));
    assert(after.last() == items[n as int]);
    if crowded(items, min, container) {
        assert(siblings(after, container) =~= seq![items[n as int]]);
    }
}

/// How the outcome grows by one result: the result joins at the end where it leads.
pub proof fn lemma_merged_push(items: Seq<EnrichedView>, min: nat, n: nat)
    requires
        n < items.len(),
        leads(items, min, n as int),
    ensures
        merged_until(items, min, n + 1) == merged_until(items, min, n).push(items[n as int]),
{
    let before = leaders(items, min, n);
    let after = leaders(items, min, n + 1);
    assert(after == before.push(n as int));
    lemma_leaders(items, min, n);
    lemma_gathered_alone(items, min, n);
    let was = merged_until(items, min, n);
    let now = merged_until(items, min, n + 1);
    assert forall|j: int| 0 <= j < was.len() implies now[j] == was[j] by {
        let i = before[j];
        assert(after[j] == i);
        lemma_gathered_step(items, min, n, i);
        if crowded(items, min, items[i].container()) && items[i].container()
            == items[n as int].container() {
            lemma_one_leader(items, min, i, n as int);
        }
    }
    assert(now =~= was.push(items[n as int]));
}

/// How the outcome grows by one result: the leader of its container absorbs it
/// where it does not lead.
pub proof fn lemma_merged_absorb(items: Seq<EnrichedView>, min: nat, n: nat, j: int)
    requires
        n < items.len(),
        !leads(items, min, n as int),
        0 <= j < merged_until(items, min, n).len(),
        merged_until(items, min, n)[j].container() == items[n as int].container(),
    ensures
        merged_until(items, min, n + 1) == merged_until(items, min, n).update(
            j,
            absorbed(merged_until(items, min, n)[j], items[n as int]),
        ),
{
    let before = leaders(items, min, n);
    assert(leaders(items, min, n + 1) == before);
    lemma_leaders(items, min, n);
    let was = merged_until(items, min, n);
    let now = merged_until(items, min, n + 1);
    lemma_gathered_container(items, min, n, before[j]);
    assert(was[j] == gathered(items, min, n, before[j]));
    assert forall|k: int| 0 <= k < was.len() implies now[k] == was.update(
        j,
        absorbed(was[j], items[n as int]),
    )[k] by {
        lemma_gathered_step(items, min, n, before[k]);
        if k != j && items[before[k]].container() == items[n as int].container() {
            lemma_one_leader(items, min, before[k], before[j]);
            if j < k {
                assert(before[j] < before[k]);
            } else {
                assert(before[k] < before[j]);
            }
        }
    }
    assert(now =~= was.update(j, absorbed(was[j], items[n as int])));
}

/// Extends `a` by its later sibling `b`.
fn absorb(a: &mut EnrichedSearchResult, b: &EnrichedSearchResult)
    ensures
        final(a)@ == absorbed(old(a)@, b@),
{
    if b.result.line_start < a.result.line_start {
        a.result.line_start = b.result.line_start;
    }
    if b.result.line_end > a.result.line_end {
        a.result.line_end = b.result.line_end;
    }
    if b.result.score.exceeds(a.result.score) {
        a.result.score = b.result.score;
    }
    a.result.content.append("\n\n// ── Sibling Chunk ──\n");
    a.result.content.append(b.result.content.as_str());
}

/// Auto-merge adjacent or co-scoped sibling methods into a unified enclosing context.
///
/// When multiple retrieved chunks share the exact same file and parent scope,
/// returning them separately fragments the agent's view. Where at least
/// `min_siblings_to_merge` of the results, and at least two, share a container,
/// they are united in the place of the first: from the first line of any to the
/// last line of any, with the highest score, the contents in order with a
/// boundary marker between them.
pub fn auto_merge_hierarchical_results(
    results: Vec<EnrichedSearchResult>,
    min_siblings_to_merge: usize,
) -> (res: Vec<EnrichedSearchResult>)
    ensures
        enriched_views(res@) == merged(enriched_views(results@), min_siblings_to_merge as nat),
{
    let least: usize = if min_siblings_to_merge < 2 {
        2
    } else {
        min_siblings_to_merge
    };
    let ghost items = enriched_views(results@);
    let ghost min = least as nat;

    let mut shared: Vec<bool> = Vec::new();
    let mut i: usize = 0;
    while i < results.len()
        invariant
            i <= results.len(),
            shared.len() == i,
            items == enriched_views(results@),
            min == least,
            min > 1,
            forall|k: int|
                0 <= k < i ==> #[trigger] shared@[k] == crowded(items, min, items[k].container()),
        decreases results.len() - i,
    {
        let count: usize = count_siblings(&results, i);
        shared.push(count >= least);
        i = i + 1;
    }

    let mut outcome: Vec<EnrichedSearchResult> = Vec::new();
    let mut n: usize = 0;
    for item in it: results
        invariant
            it.seq() == results@,
            n == it.index(),
            items == enriched_views(results@),
            shared.len() == results.len(),
            forall|k: int|
                0 <= k < results.len() ==> #[trigger] shared@[k] == crowded(
                    items,
                    min,
                    items[k].container(),
                ),
            enriched_views(outcome@) == merged_until(items, min, n as nat),
    {
        proof {
            lemma_leaders(items, min, n as nat);
        }
        let ghost was = enriched_views(outcome@);
        let ghost lead = leaders(items, min, n as nat);
        let mut target: Option<usize> = None;
        if shared[n] {
            let mut j: usize = 0;
            while j < outcome.len()
                invariant
                    j <= outcome.len(),
                    was == enriched_views(outcome@),
                    item@.container() is Some,
                    match target {
                        Some(t) => t < outcome.len() && was[t as int].container()
                            == item@.container(),
                        None => forall|k: int|
                            0 <= k < j ==> (#[trigger] was[k]).container() != item@.container(),
                    },
                decreases outcome.len() - j,
            {
                if target.is_none() && same_container(&item, &outcome[j]) {
                    target = Some(j);
                }
                j = j + 1;
            }
        }
        proof {
            assert(items[n as int] == item@);
            assert(was.len() == lead.len());
            assert(was.len() == outcome.len());
            if target is None && !leads(items, min, n as int) {
                let l = lemma_container_leader(items, min, n as nat + 1, n as int);
                assert(lead.contains(l));
                let k = choose|k: int| 0 <= k < lead.len() && lead[k] == l;
                lemma_gathered_container(items, min, n as nat, l);
                assert(was[k].container() == item@.container());
            }
            if target is Some && leads(items, min, n as int) {
                let t = target->0 as int;
                lemma_gathered_container(items, min, n as nat, lead[t]);
                assert(was[t] == gathered(items, min, n as nat, lead[t]));
                lemma_one_leader(items, min, lead[t], n as int);
            }
        }
        match target {
            Some(t) => {
                absorb(&mut outcome[t], &item);
                proof {
                    lemma_merged_absorb(items, min, n as nat, t as int);
                    assert(enriched_views(outcome@) =~= was.update(
                        t as int,
                        absorbed(was[t as int], item@),
                    ));
                }
            },
            None => {
                proof {
                    lemma_merged_push(items, min, n as nat);
                }
                outcome.push(item);
                proof {
                    assert(enriched_views(outcome@) =~= was.push(items[n as int]));
                }
            },
        }
        n = n + 1;
    }
    outcome
}

} // verus!
