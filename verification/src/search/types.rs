//! Options, results and errors of a search.
use crate::index::error::{error_text, ErrorView, IndexError};
use crate::text::{decimal, decimal_of, join2, join3};
use vstd::prelude::*;

verus! {

/// How many results a search gives, and how far it goes for them.
#[derive(Clone, Copy, Debug, PartialEq, Eq, Structural)]
pub struct SearchOptions {
    pub limit: usize,
    pub max_nodes: u64,
    pub max_states: usize,
}

impl Default for SearchOptions {
    fn default() -> (r: Self)
        ensures
            r == (SearchOptions { limit: 100, max_nodes: 1_000_000, max_states: 20_000 }),
    {
        SearchOptions { limit: 100, max_nodes: 1_000_000, max_states: 20_000 }
    }
}

/// Why a search ended before it was complete.
#[derive(Clone, Copy, Debug, PartialEq, Eq, Structural)]
pub enum SearchStopReason {
    NodeLimit,
    StateLimit,
}

impl SearchStopReason {
    /// The reason as a word for programs.
    pub fn code(self) -> (r: &'static str)
        ensures
            r@ == (match self {
                SearchStopReason::NodeLimit => "node_limit"@,
                SearchStopReason::StateLimit => "state_limit"@,
            }),
    {
        match self {
            SearchStopReason::NodeLimit => "node_limit",
            SearchStopReason::StateLimit => "state_limit",
        }
    }

    /// The reason in words.
    pub fn message(self) -> (r: &'static str)
        ensures
            r@ == (match self {
                SearchStopReason::NodeLimit => "达到节点检查上限"@,
                SearchStopReason::StateLimit => "达到查询状态上限"@,
            }),
    {
        match self {
            SearchStopReason::NodeLimit => "达到节点检查上限",
            SearchStopReason::StateLimit => "达到查询状态上限",
        }
    }
}

/// A matching key with its frequency.
#[derive(Clone, Debug, PartialEq, Eq)]
pub struct SearchHit {
    pub text: String,
    pub score: u64,
}

/// The mathematical content of a [`SearchHit`].
pub struct HitView {
    pub text: Seq<char>,
    pub score: u64,
}

impl View for SearchHit {
    type V = HitView;

    open spec fn view(&self) -> HitView {
        HitView { text: self.text@, score: self.score }
    }
}

impl SearchHit {
    /// A copy of the hit.
    pub fn duplicate(&self) -> (r: Self)
        ensures
            r@ == self@,
    {
        SearchHit { text: self.text.clone(), score: self.score }
    }
}

/// What a search has found.
#[derive(Clone, Debug, Default, PartialEq, Eq)]
pub struct SearchReport {
    pub results: Vec<SearchHit>,
    pub visited: u64,
    pub derivative_states: usize,
    pub truncated: bool,
    pub stop_reason: Option<SearchStopReason>,
}

/// A failure of a search.
#[derive(Debug)]
pub enum SearchError {
    Index(IndexError),
    InvalidOptions(String),
    StateLimit { limit: usize },
}

/// The mathematical content of a [`SearchError`].
pub enum SearchErrorView {
    Index(ErrorView),
    InvalidOptions(Seq<char>),
    StateLimit { limit: usize },
}

impl View for SearchError {
    type V = SearchErrorView;

    open spec fn view(&self) -> SearchErrorView {
        match *self {
            SearchError::Index(e) => SearchErrorView::Index(e@),
            SearchError::InvalidOptions(message) => SearchErrorView::InvalidOptions(message@),
            SearchError::StateLimit { limit } => SearchErrorView::StateLimit { limit },
        }
    }
}

/// The text of an error.
pub open spec fn search_error_text(e: SearchErrorView) -> Seq<char> {
    match e {
        SearchErrorView::Index(e) => "索引读取失败："@ + error_text(e),
        SearchErrorView::InvalidOptions(message) => "搜索参数无效："@ + message,
        SearchErrorView::StateLimit { limit } => "查询自动机超过 "@ + decimal(limit as nat)
            + " 个状态；请缩短乱序式或减少交集"@,
    }
}

impl SearchError {
    /// The error in words.
    pub fn to_text(&self) -> (r: String)
        ensures
            r@ == search_error_text(self@),
    {
        match self {
            SearchError::Index(e) => join2("索引读取失败：", e.to_text().as_str()),
            SearchError::InvalidOptions(message) => join2(
                "搜索参数无效：",
                message.as_str(),
            ),
            SearchError::StateLimit { limit } => join3(
                "查询自动机超过 ",
                decimal_of(*limit as u64).as_str(),
                " 个状态；请缩短乱序式或减少交集",
            ),
        }
    }
}

} // verus!
