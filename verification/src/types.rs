//! The search results that retrieval passes on, and the filters on them.
use vstd::prelude::*;
use crate::score::Score;

verus! {

/// The language of a file.
#[derive(Debug, Clone, Copy, PartialEq, Eq, Structural)]
pub enum Language {
    Astro,
    Dockerfile,
    Json,
    Markdown,
    Proto,
    Rust,
    Scss,
    Sql,
    Toml,
    Vue,
    Yaml,
    /// Another language that a parser knows, by its number there.
    Other(u16),
    Unknown,
}

/// The kind of symbol that a chunk of code defines.
#[derive(Debug, Clone, Copy, PartialEq, Eq, Structural)]
pub enum SymbolType {
    Function,
    Method,
    Class,
    Struct,
    Trait,
    Interface,
    Impl,
    /// Another kind that a parser extracts, by its number there.
    Other(u16),
}

/// One chunk of code that a search found.
#[derive(Debug)]
pub struct SearchResult {
    /// Path of the file, from the root of the repository.
    pub file_path: String,
    /// First line of the chunk.
    pub line_start: u32,
    /// Last line of the chunk.
    pub line_end: u32,
    /// Text of the chunk.
    pub content: String,
    /// Language of the file.
    pub language: Language,
    /// Relevance.
    pub score: Score,
    /// Name of the symbol that the chunk defines.
    pub symbol_name: Option<String>,
    /// Kind of the symbol that the chunk defines.
    pub symbol_type: Option<SymbolType>,
    /// Place among the parts of a symbol that was split.
    pub part_index: Option<u32>,
}

/// What a [`SearchResult`] holds.
#[verifier::ext_equal]
pub struct ResultView {
    pub file_path: Seq<char>,
    pub line_start: u32,
    pub line_end: u32,
    pub content: Seq<char>,
    pub language: Language,
    pub score: Score,
    pub symbol_name: Option<Seq<char>>,
    pub symbol_type: Option<SymbolType>,
    pub part_index: Option<u32>,
}

/// The characters of a text that may be missing.
pub open spec fn text_in(text: Option<String>) -> Option<Seq<char>> {
    match text {
        Some(t) => Some(t@),
        None => None,
    }
}

/// What each of the results holds.
pub open spec fn result_views(results: Seq<SearchResult>) -> Seq<ResultView> {
    results.map_values(|r: SearchResult| r@)
}

impl View for SearchResult {
    type V = ResultView;

    open spec fn view(&self) -> ResultView {
        ResultView {
            file_path: self.file_path@,
            line_start: self.line_start,
            line_end: self.line_end,
            content: self.content@,
            language: self.language,
            score: self.score,
            symbol_name: text_in(self.symbol_name),
            symbol_type: self.symbol_type,
            part_index: self.part_index,
        }
    }
}

/// A copy of a text that may be missing.
pub fn copy_text(text: &Option<String>) -> (res: Option<String>)
    ensures
        text_in(res) == text_in(*text),
{
    match text {
        Some(t) => Some(t.clone()),
        None => None,
    }
}

impl Clone for SearchResult {
    fn clone(&self) -> (res: Self)
        ensures
            res@ == self@,
    {
        SearchResult {
            file_path: self.file_path.clone(),
            line_start: self.line_start,
            line_end: self.line_end,
            content: self.content.clone(),
            language: self.language,
            score: self.score,
            symbol_name: copy_text(&self.symbol_name),
            symbol_type: self.symbol_type,
            part_index: self.part_index,
        }
    }
}

/// Conditions on search results, as one predicate; without one there are none.
#[derive(Debug, Clone, Copy)]
pub struct SearchFilters<F> {
    pub predicate: Option<F>,
}

impl<F: Fn(&SearchResult) -> bool> SearchFilters<F> {
    /// Whether no filter is active.
    pub fn is_empty(&self) -> (res: bool)
        ensures
            res == (self.predicate is None),
    {
        self.predicate.is_none()
    }

    /// Whether the filters accept `result`, or refuse it.
    pub open spec fn decides(&self, result: &SearchResult, accepted: bool) -> bool {
        match self.predicate {
            Some(p) => call_ensures(p, (result,), accepted),
            None => accepted,
        }
    }

    /// The filters can be asked about `result`.
    pub open spec fn answers(&self, result: &SearchResult) -> bool {
        self.predicate matches Some(p) ==> call_requires(p, (result,))
    }

    /// Whether the filters accept `result`.
    pub fn matches(&self, result: &SearchResult) -> (res: bool)
        requires
            self.answers(result),
        ensures
            self.decides(result, res),
    {
        match &self.predicate {
            Some(p) => p(result),
            None => true,
        }
    }
}

impl<F> Default for SearchFilters<F> {
    /// No filters.
    fn default() -> (res: Self)
        ensures
            res.predicate is None,
    {
        SearchFilters { predicate: None }
    }
}

} // verus!
