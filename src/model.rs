use vstd::prelude::*;
use crate::types::{CaseView, Id};

verus! {

/// The value of a registry: its records in ascending identifier order, the
/// last identifier it allocated, and the owner configured at construction.
pub struct RegistryView {
    pub entries: Seq<(Id, CaseView)>,
    pub last_id: nat,
    pub owner: Option<Seq<u8>>,
}

/// One mutating request to the registry.
pub enum Op {
    Create(CaseView),
    Update(Id, CaseView),
    Delete(Id),
}

impl RegistryView {
    /// Identifiers strictly increase along the entries, lie in `1..=last_id`,
    /// and no stored case holds a wildcard.
    pub open spec fn wf(self) -> bool {
        &&& self.last_id <= u32::MAX as nat
        &&& forall|i: int, j: int|
            0 <= i < j < self.entries.len() ==> (#[trigger] self.entries[i]).0 < (#[trigger] self.entries[j]).0
        &&& forall|i: int|
            0 <= i < self.entries.len() ==> 0 < (#[trigger] self.entries[i]).0 && self.entries[i].0 as nat <= self.last_id
        &&& forall|i: int| 0 <= i < self.entries.len() ==> (#[trigger] self.entries[i]).1.is_storable()
    }

    pub open spec fn has_id(self, id: Id) -> bool {
        exists|i: int| 0 <= i < self.entries.len() && (#[trigger] self.entries[i]).0 == id
    }

    /// Position of `id` among the entries; meaningful when `has_id(id)`.
    pub open spec fn index_of(self, id: Id) -> int {
        choose|i: int| 0 <= i < self.entries.len() && (#[trigger] self.entries[i]).0 == id
    }

    /// The record stored under `id`, if any.
    pub open spec fn read(self, id: Id) -> Option<CaseView> {
        if self.has_id(id) {
            Some(self.entries[self.index_of(id)].1)
        } else {
            None
        }
    }

    /// The identifier the next creation allocates.
    pub open spec fn next_id(self) -> Id {
        (self.last_id + 1) as Id
    }

    pub open spec fn create(self, c: CaseView) -> RegistryView {
        RegistryView {
            entries: self.entries.push((self.next_id(), c)),
            last_id: self.last_id + 1,
            owner: self.owner,
        }
    }

    pub open spec fn update(self, id: Id, c: CaseView) -> RegistryView {
        if self.has_id(id) {
            RegistryView {
                entries: self.entries.update(self.index_of(id), (id, c)),
                ..self
            }
        } else {
            self
        }
    }

    pub open spec fn delete(self, id: Id) -> RegistryView {
        if self.has_id(id) {
            RegistryView { entries: self.entries.remove(self.index_of(id)), ..self }
        } else {
            self
        }
    }

    /// Whether the library accepts `op` on this state: a creation needs an
    /// identifier left, and no stored case may hold a wildcard.
    pub open spec fn accepts(self, op: Op) -> bool {
        match op {
            Op::Create(c) => self.last_id < u32::MAX as nat && c.is_storable(),
            Op::Update(_, c) => c.is_storable(),
            Op::Delete(_) => true,
        }
    }

    /// The state after `op`; a request that is not accepted changes nothing.
    pub open spec fn apply(self, op: Op) -> RegistryView {
        if !self.accepts(op) {
            self
        } else {
            match op {
                Op::Create(c) => self.create(c),
                Op::Update(id, c) => self.update(id, c),
                Op::Delete(id) => self.delete(id),
            }
        }
    }
}

/// The state after applying `ops` in order.
pub open spec fn run(v: RegistryView, ops: Seq<Op>) -> RegistryView
    decreases ops.len(),
{
    if ops.len() == 0 {
        v
    } else {
        run(v, ops.drop_last()).apply(ops.last())
    }
}

/// The identifiers handed out by the creations among `ops`, in order.
pub open spec fn allocated(v: RegistryView, ops: Seq<Op>) -> Seq<Id>
    decreases ops.len(),
{
    if ops.len() == 0 {
        Seq::empty()
    } else {
        let before = run(v, ops.drop_last());
        let prev = allocated(v, ops.drop_last());
        match ops.last() {
            Op::Create(c) => if before.accepts(ops.last()) {
                prev.push(before.next_id())
            } else {
                prev
            },
            _ => prev,
        }
    }
}

} // verus!
