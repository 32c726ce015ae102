//! The conflict-resolution engine: a pure last-write-wins merge keyed on the
//! logical modification timestamp.
//!
//! A remote snapshot is merged into the local record set one record at a
//! time, left to right.  A remote record whose id exists locally overwrites
//! the local record only when its timestamp is strictly greater; a tie or an
//! older timestamp leaves the local record untouched, so local state is never
//! regressed.  A remote record whose id is unknown locally is inserted with
//! its id preserved.  The merge never deletes: an id present locally but
//! absent from the remote snapshot is left alone (deletions are not
//! propagated; the store keeps no tombstones).

use vstd::prelude::*;

use crate::todo::{Todo, TodoView};

verus! {

/// Whether some record in `s` carries `id`.
pub open spec fn contains_id(s: Seq<TodoView>, id: u64) -> bool {
    exists|i: int| 0 <= i < s.len() && s[i].id == id
}

/// The index of the record carrying `id`; meaningful when `contains_id`
/// holds and the ids of `s` are unique.
pub open spec fn index_of_id(s: Seq<TodoView>, id: u64) -> int {
    choose|i: int| 0 <= i < s.len() && s[i].id == id
}

/// No two records of `s` share an id.
pub open spec fn unique_ids(s: Seq<TodoView>) -> bool {
    forall|i: int, j: int| #![trigger s[i].id, s[j].id] 0 <= i < j < s.len() ==> s[i].id != s[j].id
}

/// Every id of `s` is at most `bound`.
pub open spec fn ids_bounded(s: Seq<TodoView>, bound: u64) -> bool {
    forall|i: int| 0 <= i < s.len() ==> #[trigger] s[i].id <= bound
}

/// The local record `l` overwritten by the remote record `r` with the same
/// id: day, content and timestamp are taken from the remote record, the
/// local ordering rank is kept.
pub open spec fn overwrite(l: TodoView, r: TodoView) -> TodoView {
    TodoView {
        id: l.id,
        day: r.day,
        content: r.content,
        position: l.position,
        last_modified: r.last_modified,
    }
}

/// Whether the remote record `r` overwrites a record of the local set `s`:
/// its id is present locally and its timestamp is strictly greater.
pub open spec fn is_update(s: Seq<TodoView>, r: TodoView) -> bool {
    contains_id(s, r.id) && r.last_modified > s[index_of_id(s, r.id)].last_modified
}

/// Whether the remote record `r` is new to the local set `s`.
pub open spec fn is_insert(s: Seq<TodoView>, r: TodoView) -> bool {
    !contains_id(s, r.id)
}

/// One step of the merge: a single remote record applied to the local set.
pub open spec fn merge_one(s: Seq<TodoView>, r: TodoView) -> Seq<TodoView> {
    if contains_id(s, r.id) {
        let i = index_of_id(s, r.id);
        if r.last_modified > s[i].last_modified {
            s.update(i, overwrite(s[i], r))
        } else {
            s
        }
    } else {
        s.push(r)
    }
}

/// The merge of a whole remote snapshot into the local set, record by
/// record, left to right.
pub open spec fn merge_seq(s: Seq<TodoView>, remote: Seq<TodoView>) -> Seq<TodoView>
    decreases remote.len(),
{
    if remote.len() == 0 {
        s
    } else {
        merge_seq(merge_one(s, remote[0]), remote.skip(1))
    }
}

/// The remote records that would overwrite a local record of `s`, in
/// snapshot order.
pub open spec fn staged_updates(s: Seq<TodoView>, remote: Seq<TodoView>) -> Seq<TodoView>
    decreases remote.len(),
{
    if remote.len() == 0 {
        Seq::<TodoView>::empty()
    } else {
        let rest = staged_updates(s, remote.drop_last());
        if is_update(s, remote.last()) {
            rest.push(remote.last())
        } else {
            rest
        }
    }
}

/// The remote records whose id is absent from `s`, in snapshot order.
pub open spec fn staged_inserts(s: Seq<TodoView>, remote: Seq<TodoView>) -> Seq<TodoView>
    decreases remote.len(),
{
    if remote.len() == 0 {
        Seq::<TodoView>::empty()
    } else {
        let rest = staged_inserts(s, remote.drop_last());
        if is_insert(s, remote.last()) {
            rest.push(remote.last())
        } else {
            rest
        }
    }
}

/// An id is in the merged set exactly when it is local or carried by the
/// applied remote record: one step of the merge neither drops nor invents
/// ids.
pub proof fn lemma_merge_one_ids(s: Seq<TodoView>, r: TodoView)
    ensures
        forall|id: u64| contains_id(merge_one(s, r), id) <==> (contains_id(s, id) || id == r.id),
{
    let m = merge_one(s, r);
    if contains_id(s, r.id) {
        let i = index_of_id(s, r.id);
        assert(0 <= i < s.len() && s[i].id == r.id);
        assert(forall|k: int| 0 <= k < s.len() ==> #[trigger] m[k].id == s[k].id);
        assert(m[i].id == r.id);
        assert forall|id: u64| contains_id(m, id) implies (contains_id(s, id) || id == r.id) by {
            let k = choose|k: int| 0 <= k < m.len() && m[k].id == id;
            assert(s[k].id == id);
        }
        assert forall|id: u64| contains_id(s, id) implies contains_id(m, id) by {
            let k = choose|k: int| 0 <= k < s.len() && s[k].id == id;
            assert(m[k].id == id);
        }
    } else {
        assert(m == s.push(r));
        assert(m[s.len() as int].id == r.id);
        assert forall|id: u64| contains_id(m, id) implies (contains_id(s, id) || id == r.id) by {
            let k = choose|k: int| 0 <= k < m.len() && m[k].id == id;
            if k < s.len() {
                assert(s[k].id == id);
            }
        }
        assert forall|id: u64| contains_id(s, id) implies contains_id(m, id) by {
            let k = choose|k: int| 0 <= k < s.len() && s[k].id == id;
            assert(m[k].id == id);
        }
    }
}

/// One step of the merge keeps ids unique.
pub proof fn lemma_merge_one_unique(s: Seq<TodoView>, r: TodoView)
    requires
        unique_ids(s),
    ensures
        unique_ids(merge_one(s, r)),
{
    let m = merge_one(s, r);
    if contains_id(s, r.id) {
        let i = index_of_id(s, r.id);
        assert(0 <= i < s.len() && s[i].id == r.id);
        assert forall|p: int, q: int| #![trigger m[p].id, m[q].id] 0 <= p < q < m.len() implies m[p].id != m[q].id by {
            assert(m[p].id == s[p].id);
            assert(m[q].id == s[q].id);
        }
    } else {
        assert forall|p: int, q: int| #![trigger m[p].id, m[q].id] 0 <= p < q < m.len() implies m[p].id != m[q].id by {
            if q < s.len() {
                assert(s[p].id != s[q].id);
            } else {
                assert(m[q] == r);
                assert(m[p].id == s[p].id);
                assert(!contains_id(s, r.id));
                if s[p].id == r.id {
                    assert(contains_id(s, r.id));
                }
            }
        }
    }
}

/// One step of the merge keeps every id bound that also covers the applied
/// record.
pub proof fn lemma_merge_one_bounded(s: Seq<TodoView>, r: TodoView, bound: u64)
    requires
        ids_bounded(s, bound),
        r.id <= bound,
    ensures
        ids_bounded(merge_one(s, r), bound),
{
    let m = merge_one(s, r);
    assert forall|i: int| 0 <= i < m.len() implies #[trigger] m[i].id <= bound by {
        if i < s.len() {
            assert(s[i].id <= bound);
        } else {
            assert(m[i] == r);
        }
    }
}

/// No-delete guarantee: merging a remote snapshot never removes an id that
/// is present locally, whatever the snapshot holds.
pub proof fn lemma_merge_never_deletes(s: Seq<TodoView>, remote: Seq<TodoView>)
    ensures
        forall|id: u64| contains_id(s, id) ==> contains_id(merge_seq(s, remote), id),
    decreases remote.len(),
{
    if remote.len() > 0 {
        lemma_merge_one_ids(s, remote[0]);
        lemma_merge_never_deletes(merge_one(s, remote[0]), remote.skip(1));
    }
}

/// Idempotence: merging a snapshot made of records the local set already
/// holds changes nothing; in particular a set merged with its own export is
/// unchanged, every timestamp comparison being a tie.
pub proof fn lemma_merge_self_is_noop(s: Seq<TodoView>, remote: Seq<TodoView>)
    requires
        unique_ids(s),
        forall|k: int| 0 <= k < remote.len() ==> s.contains(#[trigger] remote[k]),
    ensures
        merge_seq(s, remote) == s,
    decreases remote.len(),
{
    if remote.len() > 0 {
        let r = remote[0];
        assert(s.contains(r));
        let j = choose|j: int| 0 <= j < s.len() && s[j] == r;
        assert(s[j].id == r.id);
        assert(contains_id(s, r.id));
        let i = index_of_id(s, r.id);
        assert(0 <= i < s.len() && s[i].id == r.id);
        if i != j {
            assert(s[i].id != s[j].id);
        }
        assert(s[i] == r);
        assert(merge_one(s, r) == s);
        assert forall|k: int| 0 <= k < remote.skip(1).len() implies s.contains(#[trigger] remote.skip(1)[k]) by {
            assert(remote.skip(1)[k] == remote[k + 1]);
            assert(s.contains(remote[k + 1]));
        }
        lemma_merge_self_is_noop(s, remote.skip(1));
    }
}

/// Idempotence at the snapshot level: a snapshot that holds exactly the
/// records of the local set, in any order, merges back to the local set
/// itself.  This is the shape in which a store's own export returns to it.
pub proof fn lemma_merge_own_snapshot_is_noop(s: Seq<TodoView>, snapshot: Seq<TodoView>)
    requires
        unique_ids(s),
        snapshot.to_multiset() == s.to_multiset(),
    ensures
        merge_seq(s, snapshot) == s,
{
    broadcast use vstd::seq_lib::group_to_multiset_ensures;

    assert forall|k: int| 0 <= k < snapshot.len() implies s.contains(#[trigger] snapshot[k]) by {
        assert(snapshot.contains(snapshot[k]));
        assert(snapshot.to_multiset().count(snapshot[k]) > 0);
    }
    lemma_merge_self_is_noop(s, snapshot);
}

/// Last-write-wins, stated for one remote record: the remote record
/// overwrites the matching local record exactly when its timestamp is
/// strictly greater; a tie or an older timestamp is a no-op.
pub proof fn lemma_merge_single_lww(s: Seq<TodoView>, r: TodoView)
    requires
        unique_ids(s),
        contains_id(s, r.id),
    ensures
        ({
            let i = index_of_id(s, r.id);
            &&& r.last_modified > s[i].last_modified ==> merge_seq(s, seq![r]) == s.update(
                i,
                overwrite(s[i], r),
            )
            &&& r.last_modified <= s[i].last_modified ==> merge_seq(s, seq![r]) == s
        }),
{
    let one = seq![r];
    assert(one[0] == r);
    assert(one.skip(1).len() == 0);
    assert(merge_seq(s, one) == merge_seq(merge_one(s, r), one.skip(1)));
    assert(merge_seq(merge_one(s, r), one.skip(1)) == merge_one(s, r));
}

/// A record whose id no remote record carries survives the merge untouched.
pub proof fn lemma_merge_preserves_record(s: Seq<TodoView>, remote: Seq<TodoView>, t: TodoView)
    requires
        s.contains(t),
        forall|j: int| 0 <= j < remote.len() ==> (#[trigger] remote[j]).id != t.id,
    ensures
        merge_seq(s, remote).contains(t),
    decreases remote.len(),
{
    if remote.len() > 0 {
        let r = remote[0];
        let m = merge_one(s, r);
        let it = choose|i: int| 0 <= i < s.len() && s[i] == t;
        assert(r.id != t.id);
        if contains_id(s, r.id) {
            let i = index_of_id(s, r.id);
            assert(0 <= i < s.len() && s[i].id == r.id);
            assert(i != it);
            assert(m[it] == t);
        } else {
            assert(m[it] == t);
        }
        assert(m.contains(t));
        assert forall|j: int| 0 <= j < remote.skip(1).len() implies (#[trigger] remote.skip(1)[j]).id != t.id by {
            assert(remote.skip(1)[j] == remote[j + 1]);
        }
        lemma_merge_preserves_record(m, remote.skip(1), t);
    }
}

/// Insert-only-new: a remote record whose id is absent locally, and which no
/// other remote record shares an id with, ends up in the merged set
/// unchanged.
pub proof fn lemma_merge_inserts_new(s: Seq<TodoView>, remote: Seq<TodoView>, k: int)
    requires
        0 <= k < remote.len(),
        !contains_id(s, remote[k].id),
        forall|j: int| 0 <= j < remote.len() && j != k ==> (#[trigger] remote[j]).id != remote[k].id,
    ensures
        merge_seq(s, remote).contains(remote[k]),
    decreases remote.len(),
{
    let r = remote[0];
    let m = merge_one(s, r);
    lemma_merge_one_ids(s, r);
    if k == 0 {
        assert(m == s.push(r));
        assert(m[s.len() as int] == r);
        assert(m.contains(r));
        assert forall|j: int| 0 <= j < remote.skip(1).len() implies (#[trigger] remote.skip(1)[j]).id != r.id by {
            assert(remote.skip(1)[j] == remote[j + 1]);
        }
        lemma_merge_preserves_record(m, remote.skip(1), r);
    } else {
        assert(remote.skip(1)[k - 1] == remote[k]);
        assert(r.id != remote[k].id);
        assert(!contains_id(m, remote[k].id));
        assert forall|j: int| 0 <= j < remote.skip(1).len() && j != k - 1 implies (#[trigger] remote.skip(1)[j]).id != remote.skip(1)[k - 1].id by {
            assert(remote.skip(1)[j] == remote[j + 1]);
        }
        lemma_merge_inserts_new(m, remote.skip(1), k - 1);
    }
}

/// Unrolling the merge at the right end: merging a snapshot extended by one
/// record is the merge of the snapshot followed by one more step.
pub proof fn lemma_merge_seq_snoc(s: Seq<TodoView>, remote: Seq<TodoView>, r: TodoView)
    ensures
        merge_seq(s, remote.push(r)) == merge_one(merge_seq(s, remote), r),
    decreases remote.len(),
{
    let ext = remote.push(r);
    if remote.len() == 0 {
        assert(ext[0] == r);
        assert(ext.skip(1) =~= Seq::<TodoView>::empty());
        assert(merge_seq(s, ext) == merge_seq(merge_one(s, r), ext.skip(1)));
        assert(merge_seq(merge_one(s, r), ext.skip(1)) == merge_one(s, r));
        assert(merge_seq(s, remote) == s);
    } else {
        assert(ext[0] == remote[0]);
        assert(ext.skip(1) =~= remote.skip(1).push(r));
        lemma_merge_seq_snoc(merge_one(s, remote[0]), remote.skip(1), r);
    }
}

/// The index of the record of `v` carrying `id`, if any.
pub fn find_by_id(v: &Vec<Todo>, id: u64) -> (r: Option<usize>)
    ensures
        match r {
            Some(j) => j < v.len() && v.deep_view()[j as int].id == id,
            None => !contains_id(v.deep_view(), id),
        },
{
    let n = v.len();
    for j in 0..n
        invariant
            n == v.len(),
            forall|i: int| 0 <= i < j ==> v.deep_view()[i].id != id,
    {
        if v[j].id == id {
            return Some(j);
        }
    }
    None
}

/// The staged form of the merge, as a pure function over two snapshots: the
/// remote records that would overwrite a local record (strictly newer
/// timestamp on an id present locally), and the remote records that would be
/// inserted (id absent locally).  Records discarded by the last-write-wins
/// rule appear in neither part; the local set itself is untouched.
pub fn merge(local: &Vec<Todo>, remote: &Vec<Todo>) -> (r: (Vec<Todo>, Vec<Todo>))
    requires
        unique_ids(local.deep_view()),
    ensures
        r.0.deep_view() == staged_updates(local.deep_view(), remote.deep_view()),
        r.1.deep_view() == staged_inserts(local.deep_view(), remote.deep_view()),
{
    let mut updates: Vec<Todo> = Vec::new();
    let mut inserts: Vec<Todo> = Vec::new();
    let ghost lv = local.deep_view();
    let n = remote.len();
    assert(remote.deep_view().take(0) =~= Seq::<TodoView>::empty());
    for idx in 0..n
        invariant
            n == remote.len(),
            unique_ids(lv),
            lv == local.deep_view(),
            updates.deep_view() == staged_updates(lv, remote.deep_view().take(idx as int)),
            inserts.deep_view() == staged_inserts(lv, remote.deep_view().take(idx as int)),
    {
        let r = &remote[idx];
        let ghost prefix = remote.deep_view().take(idx as int);
        let ghost extended = remote.deep_view().take(idx + 1);
        proof {
            assert(extended.drop_last() =~= prefix);
            assert(extended.last() == r@);
        }
        let found = find_by_id(local, r.id);
        match found {
            Some(j) => {
                proof {
                    assert(contains_id(lv, r@.id));
                    let i = index_of_id(lv, r@.id);
                    assert(0 <= i < lv.len() && lv[i].id == r@.id);
                    if i != j as int {
                        assert(lv[i].id != lv[j as int].id);
                    }
                    assert(lv[i] == lv[j as int]);
                }
                if r.last_modified > local[j].last_modified {
                    assert(is_update(lv, r@));
                    updates.push(r.duplicate());
                    assert(updates.deep_view() =~= staged_updates(lv, extended));
                } else {
                    assert(!is_update(lv, r@));
                    assert(updates.deep_view() =~= staged_updates(lv, extended));
                }
                assert(!is_insert(lv, r@));
                assert(inserts.deep_view() =~= staged_inserts(lv, extended));
            },
            None => {
                assert(is_insert(lv, r@));
                assert(!is_update(lv, r@));
                inserts.push(r.duplicate());
                assert(updates.deep_view() =~= staged_updates(lv, extended));
                assert(inserts.deep_view() =~= staged_inserts(lv, extended));
            },
        }
    }
    assert(remote.deep_view().take(n as int) =~= remote.deep_view());
    (updates, inserts)
}

} // verus!
