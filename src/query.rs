use vstd::prelude::*;
use crate::types::{CaseView, Category, Id, Status};

verus! {

/// `k` occurs in `s` as a run of consecutive characters (the empty run occurs everywhere).
pub open spec fn is_substring(k: Seq<char>, s: Seq<char>) -> bool {
    exists|i: int| 0 <= i && i + k.len() <= s.len() && #[trigger] s.subrange(i, i + k.len()) == k
}

/// Relies on `str::contains` with a `&str` pattern: true exactly when `pat`
/// occurs in `s` as a contiguous sub-slice.
#[verifier::external_body]
pub(crate) fn str_contains(s: &str, pat: &str) -> (r: bool)
    ensures
        r == is_substring(pat@, s@),
{
    s.contains(pat)
}

/// The keyword is empty or occurs in the title or the description.
pub open spec fn keyword_matches(c: CaseView, keyword: Seq<char>) -> bool {
    is_substring(keyword, c.title) || is_substring(keyword, c.description)
}

pub open spec fn category_accepts(filter: Category, c: CaseView) -> bool {
    filter == Category::All || filter == c.category
}

pub open spec fn status_accepts(filter: Status, c: CaseView) -> bool {
    filter == Status::All || filter == c.status
}

/// A case satisfies all three filters.
pub open spec fn case_matches(c: CaseView, keyword: Seq<char>, category: Category, status: Status) -> bool {
    keyword_matches(c, keyword) && category_accepts(category, c) && status_accepts(status, c)
}

/// The entries of `s` that satisfy the filters, in the order of `s`.
pub open spec fn matching(
    s: Seq<(Id, CaseView)>,
    keyword: Seq<char>,
    category: Category,
    status: Status,
) -> Seq<(Id, CaseView)>
    decreases s.len(),
{
    if s.len() == 0 {
        Seq::empty()
    } else {
        let prev = matching(s.drop_last(), keyword, category, status);
        if case_matches(s.last().1, keyword, category, status) {
            prev.push(s.last())
        } else {
            prev
        }
    }
}

/// First rank (exclusive) of page `page`, where pages below 1 count as 1.
pub open spec fn window_start(page: nat, page_size: nat) -> nat {
    if page < 1 { 0 } else { ((page - 1) * page_size) as nat }
}

/// The entries of `m` whose 1-based rank lies in `(start, start + page_size]`.
pub open spec fn page_of<A>(m: Seq<A>, page: nat, page_size: nat) -> Seq<A> {
    let start = window_start(page, page_size);
    let end = start + page_size;
    if start >= m.len() {
        Seq::empty()
    } else if end >= m.len() {
        m.subrange(start as int, m.len() as int)
    } else {
        m.subrange(start as int, end as int)
    }
}

pub proof fn lemma_matching_len(s: Seq<(Id, CaseView)>, keyword: Seq<char>, category: Category, status: Status)
    ensures
        matching(s, keyword, category, status).len() <= s.len(),
    decreases s.len(),
{
    if s.len() > 0 {
        lemma_matching_len(s.drop_last(), keyword, category, status);
    }
}

} // verus!
