//! The read-only filter pipeline over the reconciled tree: free-text fuzzy
//! search and category toggles for services. It never mutates a node.
use vstd::prelude::*;

use crate::node::ContentType;
use crate::node::Node;
use crate::node::NodeView;
use crate::text::chars_of;
use crate::text::contains_chars;
use crate::text::dec_chars;
use crate::text::edit_distance;
use crate::text::is_substring_of;
use crate::text::levenshtein_distance;
use crate::text::lower_of;
use crate::text::lowercase;
use crate::text::u64_dec_str;

verus! {

use vstd::string::StringExecFns;

/// The four independent category toggles of the services view.
#[derive(Clone, Copy, PartialEq, Eq, Structural, Debug)]
pub struct ServiceToggles {
    pub running: bool,
    pub failed: bool,
    pub stopped: bool,
    pub disabled: bool,
}

/// At least one toggle is active.
pub open spec fn spec_any_toggle(t: ServiceToggles) -> bool {
    t.running || t.failed || t.stopped || t.disabled
}

/// The category filter on a node's service-state booleans: with no toggle
/// active everything passes; otherwise at least one active toggle's
/// predicate must hold.
pub open spec fn spec_category_matches(
    t: ServiceToggles,
    running: bool,
    enabled: bool,
    failed: bool,
    stopped: bool,
) -> bool {
    if !spec_any_toggle(t) {
        true
    } else {
        ||| (t.running && running)
        ||| (t.failed && failed)
        ||| (t.stopped && stopped)
        ||| (t.disabled && !enabled && !running && !failed)
    }
}

/// Category filter for one node; section headers always pass.
pub open spec fn spec_node_passes_category(n: NodeView, t: ServiceToggles) -> bool {
    if n.content_type == ContentType::SectionHeader {
        true
    } else {
        spec_category_matches(t, n.service_running, n.service_enabled, n.service_failed, n.service_stopped)
    }
}

pub fn node_passes_category(n: &Node, t: ServiceToggles) -> (r: bool)
    ensures
        r == spec_node_passes_category(n@, t),
{
    if n.content_type == ContentType::SectionHeader {
        return true;
    }
    if !(t.running || t.failed || t.stopped || t.disabled) {
        return true;
    }
    (t.running && n.service_running) || (t.failed && n.service_failed) || (t.stopped
        && n.service_stopped) || (t.disabled && !n.service_enabled && !n.service_running
        && !n.service_failed)
}

/// The normalized edit distance between `a` and `b` is at most six tenths
/// (inclusive); two empty sequences count as close.
pub open spec fn normalized_close(a: Seq<char>, b: Seq<char>) -> bool {
    let m = if a.len() >= b.len() {
        a.len()
    } else {
        b.len()
    };
    m == 0 || 10 * edit_distance(a, b) <= 6 * m
}

/// The search rule on lowercased name, decimal pid and lowercased query:
/// the query occurs in the name or the pid, or the name or the pid occurs
/// in the query, or name and query are close in normalized edit distance.
pub open spec fn spec_search_matches(
    name_l: Seq<char>,
    pid_s: Seq<char>,
    query_l: Seq<char>,
) -> bool {
    ||| is_substring_of(query_l, name_l)
    ||| is_substring_of(query_l, pid_s)
    ||| is_substring_of(name_l, query_l)
    ||| is_substring_of(pid_s, query_l)
    ||| normalized_close(name_l, query_l)
}

/// Does the entry with this name and pid match the search query?
pub fn search_matches(name: &str, pid: u32, query: &str) -> (r: bool)
    ensures
        r == spec_search_matches(lower_of(name@), dec_chars(pid as int), lower_of(query@)),
{
    let name_l = lowercase(name);
    let query_l = lowercase(query);
    let pid_s = u64_dec_str(pid as u64);
    let name_c = chars_of(name_l.as_str());
    let query_c = chars_of(query_l.as_str());
    let pid_c = chars_of(pid_s.as_str());
    if contains_chars(&name_c, &query_c) {
        return true;
    }
    if contains_chars(&pid_c, &query_c) {
        return true;
    }
    if contains_chars(&query_c, &name_c) {
        return true;
    }
    if contains_chars(&query_c, &pid_c) {
        return true;
    }
    let d = levenshtein_distance(name_l.as_str(), query_l.as_str());
    let nl = name_c.len();
    let ql = query_c.len();
    let m: usize = if nl >= ql {
        nl
    } else {
        ql
    };
    if m == 0 {
        return true;
    }
    let lhs: u128 = (d as u128) * 10;
    let rhs: u128 = (m as u128) * 6;
    lhs <= rhs
}

/// The search filter for one node: pass-through while search is inactive
/// or the query empty, and for section headers; otherwise the search rule.
pub open spec fn spec_node_passes_search(
    n: NodeView,
    search_active: bool,
    query: Seq<char>,
) -> bool {
    if !search_active || query.len() == 0 || n.content_type == ContentType::SectionHeader {
        true
    } else {
        spec_search_matches(lower_of(n.name), dec_chars(n.pid as int), lower_of(query))
    }
}

pub fn node_passes_search(n: &Node, search_active: bool, query: &str) -> (r: bool)
    ensures
        r == spec_node_passes_search(n@, search_active, query@),
{
    if !search_active {
        return true;
    }
    if query.unicode_len() == 0 {
        return true;
    }
    if n.content_type == ContentType::SectionHeader {
        return true;
    }
    search_matches(n.name.as_str(), n.pid, query)
}

/// The effective filter: a node is visible when it passes the search
/// filter and the category filter.
pub open spec fn spec_node_passes(
    n: NodeView,
    search_active: bool,
    query: Seq<char>,
    t: ServiceToggles,
) -> bool {
    spec_node_passes_search(n, search_active, query) && spec_node_passes_category(n, t)
}

pub fn node_passes(n: &Node, search_active: bool, query: &str, t: ServiceToggles) -> (r: bool)
    ensures
        r == spec_node_passes(n@, search_active, query@, t),
{
    node_passes_search(n, search_active, query) && node_passes_category(n, t)
}

/// A substring of a substring is a substring.
pub proof fn lemma_substring_transitive(a: Seq<char>, b: Seq<char>, c: Seq<char>)
    requires
        is_substring_of(a, b),
        is_substring_of(b, c),
    ensures
        is_substring_of(a, c),
{
    let i = choose|i: int|
        0 <= i && i + a.len() <= b.len() && #[trigger] b.subrange(i, i + a.len()) == a;
    let j = choose|j: int|
        0 <= j && j + b.len() <= c.len() && #[trigger] c.subrange(j, j + b.len()) == b;
    assert(c.subrange(j + i, j + i + a.len()) =~= a) by {
        assert forall|k: int| 0 <= k < a.len() implies c.subrange(j + i, j + i + a.len())[k]
            == a[k] by {
            assert(c.subrange(j + i, j + i + a.len())[k] == c[j + i + k]);
            assert(c.subrange(j, j + b.len())[i + k] == c[j + i + k]);
            assert(b[i + k] == c[j + i + k]);
            assert(b.subrange(i, i + a.len())[k] == b[i + k]);
        }
    }
}

/// Search monotonicity for exact-substring matches: a node that matched
/// because its lowercased name or pid string occurred exactly inside the
/// query keeps matching when the query widens to any query that contains
/// the old one as an exact substring.
pub proof fn lemma_search_monotonic(
    name_l: Seq<char>,
    pid_s: Seq<char>,
    query_l: Seq<char>,
    wider_l: Seq<char>,
)
    requires
        is_substring_of(name_l, query_l) || is_substring_of(pid_s, query_l),
        is_substring_of(query_l, wider_l),
    ensures
        spec_search_matches(name_l, pid_s, wider_l),
{
    if is_substring_of(name_l, query_l) {
        lemma_substring_transitive(name_l, query_l, wider_l);
    } else {
        lemma_substring_transitive(pid_s, query_l, wider_l);
    }
}

} // verus!
