use vstd::prelude::*;

verus! {

/// Record identifier. `0` is never allocated and serves as "not found".
pub type Id = u32;

/// An amount of currency.
pub type Balance = u128;

/// An account identity, compared byte for byte.
#[derive(Clone, Copy, Debug, PartialEq, Eq)]
pub struct AccountId(pub [u8; 32]);

/// A content hash; opaque to the registry.
#[derive(Clone, Copy, Debug, PartialEq, Eq)]
pub struct ContentHash(pub [u8; 32]);

impl View for AccountId {
    type V = Seq<u8>;

    open spec fn view(&self) -> Seq<u8> {
        self.0@
    }
}

impl View for ContentHash {
    type V = Seq<u8>;

    open spec fn view(&self) -> Seq<u8> {
        self.0@
    }
}

impl AccountId {
    /// Byte-wise equality of two identities.
    pub fn same_as(&self, other: &AccountId) -> (r: bool)
        ensures
            r == (self@ == other@),
    {
        let mut i: usize = 0;
        while i < 32
            invariant
                0 <= i <= 32,
                forall|j: int| 0 <= j < i ==> self.0@[j] == other.0@[j],
            decreases 32 - i,
        {
            if self.0[i] != other.0[i] {
                return false;
            }
            i = i + 1;
        }
        assert(self@ =~= other@);
        true
    }
}

/// Kind of a case. `All` is a filter wildcard and is never stored.
#[derive(Clone, Copy, Debug, PartialEq, Eq, Structural)]
pub enum Category {
    Scam,
    Web,
    Person,
    ConspiracyTheory,
    Others,
    All,
}

/// Lifecycle stage of a case. `All` is a filter wildcard and is never stored.
#[derive(Clone, Copy, Debug, PartialEq, Eq, Structural)]
pub enum Status {
    New,
    Evidence,
    Voting,
    Close,
    All,
}

/// Failures of the registry's operations.
#[derive(Clone, Copy, Debug, PartialEq, Eq, Structural)]
pub enum Error {
    /// The addressed record does not exist.
    CaseNotFound,
    /// The caller is not the registry's owner.
    Unauthorized,
}

/// One reported case.
#[derive(Debug)]
pub struct CaseNFT {
    pub title: String,
    pub description: String,
    pub category: Category,
    pub owner: AccountId,
    pub bounty: Balance,
    pub file: ContentHash,
    pub status: Status,
}

/// The mathematical value of a case: its fields, with text as character sequences.
pub struct CaseView {
    pub title: Seq<char>,
    pub description: Seq<char>,
    pub category: Category,
    pub owner: Seq<u8>,
    pub bounty: Balance,
    pub file: Seq<u8>,
    pub status: Status,
}

impl View for CaseNFT {
    type V = CaseView;

    open spec fn view(&self) -> CaseView {
        CaseView {
            title: self.title@,
            description: self.description@,
            category: self.category,
            owner: self.owner@,
            bounty: self.bounty,
            file: self.file@,
            status: self.status,
        }
    }
}

impl CaseView {
    /// A stored case never holds a wildcard.
    pub open spec fn is_storable(self) -> bool {
        self.category != Category::All && self.status != Status::All
    }
}

impl CaseNFT {
    /// Whether this case may be stored: neither its category nor its status is `All`.
    pub fn is_storable(&self) -> (r: bool)
        ensures
            r == self@.is_storable(),
    {
        !matches!(self.category, Category::All) && !matches!(self.status, Status::All)
    }
}

/// A case together with its identifier, as handed out by queries.
#[derive(Debug)]
pub struct CaseNFTOutput {
    pub case_id: Id,
    pub title: String,
    pub description: String,
    pub category: Category,
    pub owner: AccountId,
    pub bounty: Balance,
    pub file: ContentHash,
    pub status: Status,
}

impl View for CaseNFTOutput {
    type V = (Id, CaseView);

    open spec fn view(&self) -> (Id, CaseView) {
        (
            self.case_id,
            CaseView {
                title: self.title@,
                description: self.description@,
                category: self.category,
                owner: self.owner@,
                bounty: self.bounty,
                file: self.file@,
                status: self.status,
            },
        )
    }
}

impl CaseNFTOutput {
    /// Copies a stored case out, with its identifier attached.
    pub fn get_case(case_id: Id, case: &CaseNFT) -> (r: CaseNFTOutput)
        ensures
            r@ == (case_id, case@),
    {
        CaseNFTOutput {
            case_id,
            title: case.title.clone(),
            description: case.description.clone(),
            category: case.category,
            owner: case.owner,
            bounty: case.bounty,
            file: case.file,
            status: case.status,
        }
    }
}

} // verus!
