use vstd::prelude::*;
use crate::model::RegistryView;
use crate::query::{
    category_accepts, keyword_matches, lemma_matching_len, matching, page_of,
    status_accepts, str_contains, window_start,
};
use crate::types::{AccountId, CaseNFT, CaseNFTOutput, CaseView, Category, ContentHash, Error, Id, Status};

verus! {

/// The registry: records kept in ascending identifier order, the high-water
/// mark of allocated identifiers, and an optional owner.
pub struct Case {
    case: Vec<(Id, CaseNFT)>,
    last_id: Id,
    contract_owner: Option<AccountId>,
}

/// A stored entry as a value: its identifier and its case's fields.
pub open spec fn entry_view(e: (Id, CaseNFT)) -> (Id, CaseView) {
    (e.0, e.1@)
}

/// Query results as values, in order.
pub open spec fn outputs_view(v: Seq<CaseNFTOutput>) -> Seq<(Id, CaseView)> {
    v.map_values(|o: CaseNFTOutput| o@)
}

/// The configured owner as bytes, if any.
pub open spec fn owner_view(o: Option<AccountId>) -> Option<Seq<u8>> {
    match o {
        Some(a) => Some(a@),
        None => None,
    }
}

impl View for Case {
    type V = RegistryView;

    closed spec fn view(&self) -> RegistryView {
        RegistryView {
            entries: self.case@.map_values(|e: (Id, CaseNFT)| entry_view(e)),
            last_id: self.last_id as nat,
            owner: owner_view(self.contract_owner),
        }
    }
}

/// In a well-formed state every identifier is at least its rank, so there are
/// no more entries than allocated identifiers.
pub proof fn lemma_len_bounded(v: RegistryView)
    requires
        v.wf(),
    ensures
        v.entries.len() <= v.last_id,
        forall|i: int| 0 <= i < v.entries.len() ==> i < (#[trigger] v.entries[i]).0,
{
    assert forall|i: int| 0 <= i < v.entries.len() implies i < (#[trigger] v.entries[i]).0 by {
        lemma_id_at_least_rank(v, i);
    }
    if v.entries.len() > 0 {
        let k = v.entries.len() - 1;
        assert(k < v.entries[k].0);
    }
}

proof fn lemma_id_at_least_rank(v: RegistryView, i: int)
    requires
        v.wf(),
        0 <= i < v.entries.len(),
    ensures
        i < v.entries[i].0,
    decreases i,
{
    if i > 0 {
        lemma_id_at_least_rank(v, i - 1);
        assert(v.entries[i - 1].0 < v.entries[i].0);
    }
}

/// In a well-formed state an identifier sits at one position only.
pub proof fn lemma_index_unique(v: RegistryView, id: Id, i: int)
    requires
        v.wf(),
        0 <= i < v.entries.len(),
        v.entries[i].0 == id,
    ensures
        v.has_id(id),
        v.index_of(id) == i,
{
    assert(v.has_id(id));
    let j = v.index_of(id);
    if j < i {
        assert(v.entries[j].0 < v.entries[i].0);
    } else if i < j {
        assert(v.entries[i].0 < v.entries[j].0);
    }
}

/// The page that a push onto the matches yields: the new item joins the page
/// exactly when its rank falls inside the window.
pub proof fn lemma_page_of_push<A>(m: Seq<A>, x: A, page: nat, page_size: nat)
    ensures
        page_of(m.push(x), page, page_size) == if window_start(page, page_size) < m.len() + 1
            <= window_start(page, page_size) + page_size {
            page_of(m, page, page_size).push(x)
        } else {
            page_of(m, page, page_size)
        },
{
    let start = window_start(page, page_size);
    let end = start + page_size;
    let m2 = m.push(x);
    if start < m.len() + 1 && m.len() + 1 <= end {
        if start >= m.len() {
            assert(page_of(m2, page, page_size) =~= page_of(m, page, page_size).push(x));
        } else {
            assert(page_of(m2, page, page_size) =~= page_of(m, page, page_size).push(x));
        }
    } else {
        assert(page_of(m2, page, page_size) =~= page_of(m, page, page_size));
    }
}

impl Case {
    /// An empty registry owned by `contract_owner`.
    pub fn new(contract_owner: AccountId) -> (r: Case)
        ensures
            r@.wf(),
            r@.entries.len() == 0,
            r@.last_id == 0,
            r@.owner == Some(contract_owner@),
    {
        let r = Case { case: Vec::new(), last_id: 0, contract_owner: Some(contract_owner) };
        assert(r@.entries =~= Seq::<(Id, CaseView)>::empty());
        r
    }

    /// An empty registry with no owner: the privileged operation is open to all.
    pub fn new_unowned() -> (r: Case)
        ensures
            r@.wf(),
            r@.entries.len() == 0,
            r@.last_id == 0,
            r@.owner.is_none(),
    {
        let r = Case { case: Vec::new(), last_id: 0, contract_owner: None };
        assert(r@.entries =~= Seq::<(Id, CaseView)>::empty());
        r
    }

    /// The last identifier allocated, `0` before the first creation.
    pub fn last_id(&self) -> (r: Id)
        ensures
            r as nat == self@.last_id,
    {
        self.last_id
    }

    /// Position of `id` among the entries, by binary search over the
    /// ascending identifiers.
    fn position(&self, id: Id) -> (r: Option<usize>)
        requires
            self@.wf(),
        ensures
            r.is_some() == self@.has_id(id),
            r.is_some() ==> r.unwrap() as int == self@.index_of(id) && r.unwrap() < self.case@.len(),
    {
        let ghost v = self@;
        let mut lo: usize = 0;
        let mut hi: usize = self.case.len();
        while lo < hi
            invariant
                v == self@,
                v.wf(),
                v.entries.len() == self.case@.len(),
                0 <= lo <= hi <= self.case@.len(),
                forall|j: int| 0 <= j < lo ==> (#[trigger] v.entries[j]).0 < id,
                forall|j: int| hi <= j < v.entries.len() ==> (#[trigger] v.entries[j]).0 > id,
            decreases hi - lo,
        {
            let mid: usize = lo + (hi - lo) / 2;
            assert(v.entries[mid as int] == entry_view(self.case@[mid as int]));
            let k: Id = self.case[mid].0;
            if k == id {
                proof {
                    lemma_index_unique(v, id, mid as int);
                }
                return Some(mid);
            } else if k < id {
                assert forall|j: int| 0 <= j < mid + 1 implies (#[trigger] v.entries[j]).0 < id by {
                    if j < mid {
                        assert(v.entries[j].0 < v.entries[mid as int].0);
                    }
                }
                lo = mid + 1;
            } else {
                assert forall|j: int| mid <= j < v.entries.len() implies (#[trigger] v.entries[j]).0 > id by {
                    if j > mid {
                        assert(v.entries[mid as int].0 < v.entries[j].0);
                    }
                }
                hi = mid;
            }
        }
        assert(!v.has_id(id)) by {
            if v.has_id(id) {
                let j = choose|j: int| 0 <= j < v.entries.len() && (#[trigger] v.entries[j]).0 == id;
                assert(v.entries[j].0 == id);
            }
        }
        None
    }

    /// Stores `case` under a fresh identifier, one above the last allocated,
    /// and returns that identifier.
    pub fn set_case(&mut self, case: CaseNFT) -> (r: Id)
        requires
            old(self)@.wf(),
            old(self)@.last_id < u32::MAX as nat,
            case@.is_storable(),
        ensures
            final(self)@.wf(),
            r == old(self)@.next_id(),
            final(self)@ == old(self)@.create(case@),
    {
        let id: Id = self.last_id + 1;
        let ghost c = case@;
        self.case.push((id, case));
        self.last_id = id;
        assert(self@.entries =~= old(self)@.entries.push((id, c)));
        id
    }

    /// Removes the record under `case_id`; its identifier is never handed out again.
    pub fn burn_case(&mut self, case_id: Id) -> (r: Result<(), Error>)
        requires
            old(self)@.wf(),
        ensures
            final(self)@.wf(),
            final(self)@ == old(self)@.delete(case_id),
            r is Err <==> !old(self)@.has_id(case_id),
            r is Err ==> r == Err::<(), Error>(Error::CaseNotFound) && final(self)@ == old(self)@,
    {
        match self.position(case_id) {
            None => Err(Error::CaseNotFound),
            Some(i) => {
                let ghost before = self@;
                self.case.remove(i);
                assert(self@.entries =~= before.entries.remove(i as int));
                Ok(())
            },
        }
    }

    /// Replaces the whole record under `case_id` by `new_case`.
    pub fn update_case(&mut self, case_id: Id, new_case: CaseNFT) -> (r: Result<(), Error>)
        requires
            old(self)@.wf(),
            new_case@.is_storable(),
        ensures
            final(self)@.wf(),
            final(self)@ == old(self)@.update(case_id, new_case@),
            r is Err <==> !old(self)@.has_id(case_id),
            r is Err ==> r == Err::<(), Error>(Error::CaseNotFound) && final(self)@ == old(self)@,
    {
        match self.position(case_id) {
            None => Err(Error::CaseNotFound),
            Some(i) => {
                let ghost before = self@;
                let ghost c = new_case@;
                self.case.set(i, (case_id, new_case));
                assert(self@.entries =~= before.entries.update(i as int, (case_id, c)));
                Ok(())
            },
        }
    }

    /// The record under `case_id` with its identifier, or `None`.
    pub fn get_case_by_id(&self, case_id: Id) -> (r: Option<CaseNFTOutput>)
        requires
            self@.wf(),
        ensures
            r.is_some() == self@.has_id(case_id),
            r.is_some() ==> r.unwrap()@ == (case_id, self@.read(case_id).unwrap()),
    {
        match self.position(case_id) {
            None => None,
            Some(i) => {
                assert(self@.entries[i as int] == entry_view(self.case@[i as int]));
                Some(CaseNFTOutput::get_case(case_id, &self.case[i].1))
            },
        }
    }

    /// The title of the record under `case_id`, or `None`.
    pub fn get_case_title(&self, case_id: Id) -> (r: Option<String>)
        requires
            self@.wf(),
        ensures
            r.is_some() == self@.has_id(case_id),
            r.is_some() ==> r.unwrap()@ == self@.read(case_id).unwrap().title,
    {
        match self.position(case_id) {
            None => None,
            Some(i) => {
                assert(self@.entries[i as int] == entry_view(self.case@[i as int]));
                Some(self.case[i].1.title.clone())
            },
        }
    }

    /// `case_id` itself when a record is stored under it, else `0`.
    pub fn get_case_id(&self, case_id: Id) -> (r: Id)
        requires
            self@.wf(),
        ensures
            r == if self@.has_id(case_id) { case_id } else { 0 },
    {
        match self.position(case_id) {
            None => 0,
            Some(_) => case_id,
        }
    }

    /// The keyword is empty or a case-sensitive substring of the title or the description.
    pub fn case_contains_keywords(case: &CaseNFT, keyword: &String) -> (r: bool)
        ensures
            r == keyword_matches(case@, keyword@),
    {
        str_contains(case.title.as_str(), keyword.as_str()) || str_contains(
            case.description.as_str(),
            keyword.as_str(),
        )
    }

    /// The filter is `All` or equals the case's category.
    pub fn category_matches(case: &CaseNFT, category: Category) -> (r: bool)
        ensures
            r == category_accepts(category, case@),
    {
        match category {
            Category::All => true,
            _ => case.category == category,
        }
    }

    /// The filter is `All` or equals the case's status.
    pub fn status_matches(case: &CaseNFT, status: Status) -> (r: bool)
        ensures
            r == status_accepts(status, case@),
    {
        match status {
            Status::All => true,
            _ => case.status == status,
        }
    }

    /// One page of the records that satisfy the filters, and how many satisfy
    /// them in all. Matches are ranked from 1 in ascending identifier order;
    /// page `page` (pages below 1 count as 1) holds the ranks in
    /// `((page - 1) * entry, page * entry]`.
    pub fn get_all_case(
        &self,
        page: Id,
        entry: Id,
        keyword: String,
        category: Category,
        status: Status,
    ) -> (r: (Vec<CaseNFTOutput>, Id))
        requires
            self@.wf(),
        ensures
            r.1 as nat == matching(self@.entries, keyword@, category, status).len(),
            outputs_view(r.0@) == page_of(
                matching(self@.entries, keyword@, category, status),
                page as nat,
                entry as nat,
            ),
    {
        let ghost entries = self@.entries;
        let ghost kw = keyword@;
        let mut filtered_cases: Vec<CaseNFTOutput> = Vec::new();
        let mut total_cases: Id = 0;
        let first: Id = if page < 1 { 1 } else { page };
        let below: u64 = first as u64 - 1;
        assert(below * (entry as u64) <= 0xffff_ffff * 0xffff_ffff) by (nonlinear_arith)
            requires
                below <= 0xffff_ffff,
                entry <= 0xffff_ffff,
        ;
        let start_index: u64 = below * entry as u64;
        let end_index: u64 = start_index + entry as u64;
        proof {
            lemma_len_bounded(self@);
        }
        let mut i: usize = 0;
        while i < self.case.len()
            invariant
                self@.wf(),
                entries == self@.entries,
                kw == keyword@,
                entries.len() == self.case@.len(),
                entries.len() <= u32::MAX,
                0 <= i <= entries.len(),
                start_index as nat == window_start(page as nat, entry as nat),
                end_index == start_index + entry,
                total_cases as nat == matching(entries.subrange(0, i as int), kw, category, status).len(),
                outputs_view(filtered_cases@) == page_of(
                    matching(entries.subrange(0, i as int), kw, category, status),
                    page as nat,
                    entry as nat,
                ),
            decreases entries.len() - i,
        {
            let ghost prev_out = filtered_cases@;
            let ghost m = matching(entries.subrange(0, i as int), kw, category, status);
            proof {
                lemma_matching_len(entries.subrange(0, i as int), kw, category, status);
                assert(entries.subrange(0, i + 1).drop_last() =~= entries.subrange(0, i as int));
                assert(entries[i as int] == entry_view(self.case@[i as int]));
            }
            let id: Id = self.case[i].0;
            let case: &CaseNFT = &self.case[i].1;
            if Self::case_contains_keywords(case, &keyword) && Self::category_matches(case, category)
                && Self::status_matches(case, status) {
                total_cases = total_cases + 1;
                let rank: u64 = total_cases as u64;
                if rank > start_index && rank <= end_index {
                    let out = CaseNFTOutput::get_case(id, case);
                    filtered_cases.push(out);
                    assert(outputs_view(filtered_cases@) =~= outputs_view(prev_out).push((id, case@)));
                }
                proof {
                    lemma_page_of_push(m, (id, case@), page as nat, entry as nat);
                    assert(outputs_view(filtered_cases@) =~= page_of(
                        matching(entries.subrange(0, i + 1), kw, category, status),
                        page as nat,
                        entry as nat,
                    ));
                }
            }
            i = i + 1;
        }
        assert(entries.subrange(0, i as int) =~= entries);
        (filtered_cases, total_cases)
    }

    /// Every record with its identifier, in ascending identifier order.
    pub fn list_all(&self) -> (r: Vec<CaseNFTOutput>)
        requires
            self@.wf(),
        ensures
            outputs_view(r@) == self@.entries,
    {
        let mut out: Vec<CaseNFTOutput> = Vec::new();
        let mut i: usize = 0;
        while i < self.case.len()
            invariant
                0 <= i <= self.case@.len(),
                self@.entries.len() == self.case@.len(),
                outputs_view(out@) == self@.entries.subrange(0, i as int),
            decreases self.case@.len() - i,
        {
            assert(self@.entries[i as int] == entry_view(self.case@[i as int]));
            let ghost prev_out = out@;
            out.push(CaseNFTOutput::get_case(self.case[i].0, &self.case[i].1));
            assert(outputs_view(out@) =~= outputs_view(prev_out).push(self@.entries[i as int]));
            assert(outputs_view(out@) =~= self@.entries.subrange(0, i + 1));
            i = i + 1;
        }
        assert(self@.entries.subrange(0, i as int) =~= self@.entries);
        out
    }

    /// Decides whether `caller` may switch the registry's code to `code_hash`:
    /// refused with `Unauthorized` when an owner is configured and `caller` is
    /// not it. The registry is left as it is either way; on `Ok` the host
    /// performs the switch.
    pub fn set_code(&self, caller: AccountId, code_hash: ContentHash) -> (r: Result<(), Error>)
        ensures
            r is Err <==> (self@.owner.is_some() && self@.owner.unwrap() != caller@),
            r is Err ==> r == Err::<(), Error>(Error::Unauthorized),
    {
        match &self.contract_owner {
            Some(owner) => if owner.same_as(&caller) {
                Ok(())
            } else {
                Err(Error::Unauthorized)
            },
            None => Ok(()),
        }
    }


}

} // verus!
