use vstd::prelude::*;
use crate::model::{allocated, run, Op, RegistryView};
use crate::query::{case_matches, is_substring, matching, page_of, window_start};
use crate::registry::lemma_index_unique;
use crate::types::{CaseView, Category, Id, Status};

verus! {

/// An accepted request keeps a well-formed state well-formed, never lowers the
/// high-water mark, and never introduces an identifier other than a fresh one.
pub proof fn lemma_apply_wf(v: RegistryView, op: Op)
    requires
        v.wf(),
    ensures
        v.apply(op).wf(),
        v.apply(op).last_id >= v.last_id,
        forall|id: Id| #[trigger] v.apply(op).has_id(id) ==> v.has_id(id) || id as nat == v.last_id + 1,
{
    let w = v.apply(op);
    if v.accepts(op) {
        match op {
            Op::Create(c) => {
                assert forall|id: Id| #[trigger] w.has_id(id) implies v.has_id(id) || id as nat == v.last_id + 1 by {
                    let k = choose|k: int| 0 <= k < w.entries.len() && (#[trigger] w.entries[k]).0 == id;
                    if k < v.entries.len() {
                        assert(v.entries[k] == w.entries[k]);
                    }
                }
            },
            Op::Update(id0, c) => {
                if v.has_id(id0) {
                    let k0 = v.index_of(id0);
                    assert forall|id: Id| #[trigger] w.has_id(id) implies v.has_id(id) by {
                        let k = choose|k: int| 0 <= k < w.entries.len() && (#[trigger] w.entries[k]).0 == id;
                        assert(v.entries[k].0 == id);
                    }
                    assert forall|i: int, j: int| 0 <= i < j < w.entries.len() implies (#[trigger] w.entries[i]).0
                        < (#[trigger] w.entries[j]).0 by {
                        assert(v.entries[i].0 < v.entries[j].0);
                    }
                }
            },
            Op::Delete(id0) => {
                if v.has_id(id0) {
                    let k0 = v.index_of(id0);
                    assert forall|id: Id| #[trigger] w.has_id(id) implies v.has_id(id) by {
                        let k = choose|k: int| 0 <= k < w.entries.len() && (#[trigger] w.entries[k]).0 == id;
                        if k < k0 {
                            assert(v.entries[k].0 == id);
                        } else {
                            assert(v.entries[k + 1].0 == id);
                        }
                    }
                    assert forall|i: int, j: int| 0 <= i < j < w.entries.len() implies (#[trigger] w.entries[i]).0
                        < (#[trigger] w.entries[j]).0 by {
                        let a = if i < k0 { i } else { i + 1 };
                        let b = if j < k0 { j } else { j + 1 };
                        assert(v.entries[a].0 < v.entries[b].0);
                    }
                    assert forall|i: int| 0 <= i < w.entries.len() implies 0 < (#[trigger] w.entries[i]).0
                        && w.entries[i].0 as nat <= w.last_id && w.entries[i].1.is_storable() by {
                        let a = if i < k0 { i } else { i + 1 };
                        assert(w.entries[i] == v.entries[a]);
                    }
                }
            },
        }
    }
}

/// Identifiers are unique and increasing: along any sequence of requests from
/// a well-formed state, the state stays well formed (so no two records share
/// an identifier), and the identifiers that creations hand out strictly
/// increase and all exceed every identifier allocated before, deletions
/// interleaved or not.
pub proof fn lemma_ids_unique_and_increasing(v: RegistryView, ops: Seq<Op>)
    requires
        v.wf(),
    ensures
        run(v, ops).wf(),
        forall|i: int, j: int|
            0 <= i < j < run(v, ops).entries.len() ==> (#[trigger] run(v, ops).entries[i]).0 != (#[trigger] run(
                v,
                ops,
            ).entries[j]).0,
        forall|i: int, j: int|
            0 <= i < j < allocated(v, ops).len() ==> (#[trigger] allocated(v, ops)[i]) < (#[trigger] allocated(
                v,
                ops,
            )[j]),
        forall|i: int|
            0 <= i < allocated(v, ops).len() ==> v.last_id < (#[trigger] allocated(v, ops)[i]) as nat
                && allocated(v, ops)[i] as nat <= run(v, ops).last_id,
        v.last_id <= run(v, ops).last_id,
    decreases ops.len(),
{
    if ops.len() > 0 {
        let rest = ops.drop_last();
        lemma_ids_unique_and_increasing(v, rest);
        let before = run(v, rest);
        lemma_apply_wf(before, ops.last());
        let a = allocated(v, ops);
        let p = allocated(v, rest);
        match ops.last() {
            Op::Create(c) => {
                if before.accepts(ops.last()) {
                    assert(a == p.push(before.next_id()));
                    assert forall|i: int, j: int| 0 <= i < j < a.len() implies (#[trigger] a[i]) < (#[trigger] a[j]) by {
                        if j == a.len() - 1 {
                            assert(p[i] as nat <= before.last_id);
                        } else {
                            assert(a[i] == p[i] && a[j] == p[j]);
                        }
                    }
                    assert forall|i: int| 0 <= i < a.len() implies v.last_id < (#[trigger] a[i]) as nat
                        && a[i] as nat <= run(v, ops).last_id by {
                        if i < p.len() {
                            assert(a[i] == p[i]);
                        }
                    }
                }
            },
            _ => {},
        }
    }
}

/// Never reuse: once a record is deleted, no later sequence of requests
/// allocates its identifier again, and it stays absent.
pub proof fn lemma_deleted_id_never_reused(v: RegistryView, id: Id, ops: Seq<Op>)
    requires
        v.wf(),
        v.has_id(id),
    ensures
        !allocated(v.apply(Op::Delete(id)), ops).contains(id),
        !run(v.apply(Op::Delete(id)), ops).has_id(id),
{
    let w = v.apply(Op::Delete(id));
    lemma_delete_is_permanent(v, id);
    let k = v.index_of(id);
    assert(v.entries[k].0 == id);
    lemma_apply_wf(v, Op::Delete(id));
    lemma_ids_unique_and_increasing(w, ops);
    lemma_absent_stays_absent(w, id, ops);
}

proof fn lemma_absent_stays_absent(w: RegistryView, id: Id, ops: Seq<Op>)
    requires
        w.wf(),
        !w.has_id(id),
        id as nat <= w.last_id,
    ensures
        !run(w, ops).has_id(id),
        id as nat <= run(w, ops).last_id,
    decreases ops.len(),
{
    if ops.len() > 0 {
        let rest = ops.drop_last();
        lemma_absent_stays_absent(w, id, rest);
        lemma_ids_unique_and_increasing(w, rest);
        lemma_apply_wf(run(w, rest), ops.last());
    }
}

/// Round trip: the record created is what a read of the new identifier returns.
pub proof fn lemma_create_then_read(v: RegistryView, c: CaseView)
    requires
        v.wf(),
        v.accepts(Op::Create(c)),
    ensures
        v.create(c).read(v.next_id()) == Some(c),
{
    let w = v.create(c);
    lemma_apply_wf(v, Op::Create(c));
    assert(w.entries[v.entries.len() as int].0 == v.next_id());
    lemma_index_unique(w, v.next_id(), v.entries.len() as int);
}

/// Update replaces the whole record: a read afterwards returns exactly the new one.
pub proof fn lemma_update_then_read(v: RegistryView, id: Id, c: CaseView)
    requires
        v.wf(),
        v.has_id(id),
        c.is_storable(),
    ensures
        v.update(id, c).read(id) == Some(c),
{
    let w = v.update(id, c);
    lemma_apply_wf(v, Op::Update(id, c));
    let k = v.index_of(id);
    assert(w.entries[k].0 == id);
    lemma_index_unique(w, id, k);
}

/// Delete is permanent: afterwards the record reads as absent, and a further
/// update or delete of it finds nothing and changes nothing.
pub proof fn lemma_delete_is_permanent(v: RegistryView, id: Id)
    requires
        v.wf(),
    ensures
        v.delete(id).read(id).is_none(),
        !v.delete(id).has_id(id),
        forall|c: CaseView| v.delete(id).update(id, c) == v.delete(id),
        v.delete(id).delete(id) == v.delete(id),
{
    if v.has_id(id) {
        let w = v.delete(id);
        let k0 = v.index_of(id);
        if w.has_id(id) {
            let k = choose|k: int| 0 <= k < w.entries.len() && (#[trigger] w.entries[k]).0 == id;
            if k < k0 {
                assert(v.entries[k].0 < v.entries[k0].0);
            } else {
                assert(v.entries[k0].0 < v.entries[k + 1].0);
            }
        }
    }
}

/// Pages `1..=n` of size `page_size`, one after the other.
pub open spec fn pages_concat<A>(m: Seq<A>, page_size: nat, n: nat) -> Seq<A>
    decreases n,
{
    if n == 0 {
        Seq::empty()
    } else {
        pages_concat(m, page_size, (n - 1) as nat) + page_of(m, n, page_size)
    }
}

proof fn lemma_pages_prefix<A>(m: Seq<A>, page_size: nat, n: nat)
    requires
        page_size > 0,
    ensures
        pages_concat(m, page_size, n) == m.subrange(0, if n * page_size <= m.len() { (n * page_size) as int } else { m.len() as int }),
    decreases n,
{
    if n == 0 {
        assert(pages_concat(m, page_size, n) =~= m.subrange(0, 0));
    } else {
        lemma_pages_prefix(m, page_size, (n - 1) as nat);
        assert(window_start(n, page_size) == (n - 1) * page_size);
        assert((n - 1) * page_size + page_size == n * page_size) by (nonlinear_arith);
        assert(pages_concat(m, page_size, n) =~= m.subrange(0, if n * page_size <= m.len() { (n * page_size) as int } else { m.len() as int }));
    }
}

/// Windowing: with a positive page size, pages `1, 2, ...` laid end to end,
/// without gap or overlap, give back the whole match sequence once enough
/// pages are taken.
pub proof fn lemma_pages_concatenate<A>(m: Seq<A>, page_size: nat, n: nat)
    requires
        page_size > 0,
        n * page_size >= m.len(),
    ensures
        pages_concat(m, page_size, n) == m,
{
    lemma_pages_prefix(m, page_size, n);
    assert(m.subrange(0, m.len() as int) =~= m);
}

/// Wildcards: an empty keyword with `All` for category and status matches
/// every record, and a large enough first page lists them all.
pub proof fn lemma_wildcards_match_all(s: Seq<(Id, CaseView)>, page_size: nat)
    ensures
        matching(s, Seq::empty(), Category::All, Status::All) == s,
        page_size >= s.len() ==> page_of(matching(s, Seq::empty(), Category::All, Status::All), 1, page_size) == s,
    decreases s.len(),
{
    if s.len() > 0 {
        lemma_wildcards_match_all(s.drop_last(), page_size);
        let c = s.last().1;
        let e = Seq::<char>::empty();
        assert(c.title.subrange(0int, 0int + e.len()) =~= e);
        assert(is_substring(e, c.title));
        assert(case_matches(c, Seq::empty(), Category::All, Status::All));
        assert(s.drop_last().push(s.last()) =~= s);
    }
    assert(s.subrange(0, s.len() as int) =~= s);
}

} // verus!
