//! The todo store: keyed storage for task records, day-scoped ordering, and
//! the only writer of record state.
//!
//! The store holds the record set in memory; a persistence collaborator loads
//! it at startup and writes it back after each mutation.  Ids are assigned
//! from a counter that never decreases, so an id is never reused after a
//! deletion.  All mutating operations are applied one at a time under the
//! caller's lock; each either completes fully or leaves the store unchanged.

use vstd::prelude::*;

use crate::merge::{
    contains_id, ids_bounded, index_of_id, lemma_merge_one_bounded, lemma_merge_one_unique,
    lemma_merge_seq_snoc, merge_one, merge_seq, overwrite, unique_ids,
};
use crate::todo::{Day, EngineError, Todo, TodoView};

verus! {

/// The greatest ordering rank used in `day`, or -1 when the partition is
/// empty.
pub open spec fn max_pos_in_day(s: Seq<TodoView>, day: Day) -> int
    decreases s.len(),
{
    if s.len() == 0 {
        -1
    } else {
        let rest = max_pos_in_day(s.drop_last(), day);
        if s.last().day == day && s.last().position as int > rest {
            s.last().position as int
        } else {
            rest
        }
    }
}

/// The greatest id used in `s`, or -1 when `s` is empty.
pub open spec fn max_id_of(s: Seq<TodoView>) -> int
    decreases s.len(),
{
    if s.len() == 0 {
        -1
    } else {
        let rest = max_id_of(s.drop_last());
        if s.last().id as int > rest {
            s.last().id as int
        } else {
            rest
        }
    }
}

/// The records of `s` that belong to `day`, in store order.
pub open spec fn day_records(s: Seq<TodoView>, day: Day) -> Seq<TodoView>
    decreases s.len(),
{
    if s.len() == 0 {
        Seq::<TodoView>::empty()
    } else {
        let rest = day_records(s.drop_last(), day);
        if s.last().day == day {
            rest.push(s.last())
        } else {
            rest
        }
    }
}

/// The records of `s` that belong to any other day, in store order.
pub open spec fn other_day_records(s: Seq<TodoView>, day: Day) -> Seq<TodoView>
    decreases s.len(),
{
    if s.len() == 0 {
        Seq::<TodoView>::empty()
    } else {
        let rest = other_day_records(s.drop_last(), day);
        if s.last().day != day {
            rest.push(s.last())
        } else {
            rest
        }
    }
}

/// Ordering ranks never decrease along `s`.
pub open spec fn sorted_by_position(s: Seq<TodoView>) -> bool {
    forall|i: int, j: int| #![trigger s[i].position, s[j].position]
        0 <= i < j < s.len() ==> s[i].position <= s[j].position
}

/// Ids never decrease along `s`.
pub open spec fn sorted_by_id(s: Seq<TodoView>) -> bool {
    forall|i: int, j: int| #![trigger s[i].id, s[j].id]
        0 <= i < j < s.len() ==> s[i].id <= s[j].id
}

/// The fresh records that a full-partition replace inserts: the given
/// contents under `day`, ids assigned in sequence above `bound`, ranks
/// sequential from zero, all stamped `now`.
pub open spec fn replacement_records(
    contents: Seq<Seq<char>>,
    day: Day,
    bound: u64,
    now: u64,
) -> Seq<TodoView> {
    Seq::new(
        contents.len(),
        |i: int| TodoView {
            id: (bound + 1 + i) as u64,
            day,
            content: contents[i],
            position: i as u64,
            last_modified: now,
        },
    )
}

/// One position update: the record carrying `id`, if any, gets the ordering
/// rank `pos` and is stamped `now`; everything else is kept.
pub open spec fn apply_position(s: Seq<TodoView>, id: u64, pos: u64, now: u64) -> Seq<TodoView> {
    if contains_id(s, id) {
        let i = index_of_id(s, id);
        s.update(
            i,
            TodoView {
                id: s[i].id,
                day: s[i].day,
                content: s[i].content,
                position: pos,
                last_modified: now,
            },
        )
    } else {
        s
    }
}

/// A batch of position updates applied in order, left to right.
pub open spec fn apply_positions(s: Seq<TodoView>, us: Seq<(u64, u64)>, now: u64) -> Seq<TodoView>
    decreases us.len(),
{
    if us.len() == 0 {
        s
    } else {
        apply_positions(apply_position(s, us[0].0, us[0].1, now), us.skip(1), now)
    }
}

/// Unrolling a batch of position updates at the right end.
proof fn lemma_apply_positions_snoc(s: Seq<TodoView>, us: Seq<(u64, u64)>, u: (u64, u64), now: u64)
    ensures
        apply_positions(s, us.push(u), now) == apply_position(
            apply_positions(s, us, now),
            u.0,
            u.1,
            now,
        ),
    decreases us.len(),
{
    let ext = us.push(u);
    if us.len() == 0 {
        assert(ext[0] == u);
        assert(ext.skip(1) =~= Seq::<(u64, u64)>::empty());
        assert(apply_positions(s, ext, now) == apply_positions(
            apply_position(s, u.0, u.1, now),
            ext.skip(1),
            now,
        ));
        assert(apply_positions(apply_position(s, u.0, u.1, now), ext.skip(1), now)
            == apply_position(s, u.0, u.1, now));
    } else {
        assert(ext[0] == us[0]);
        assert(ext.skip(1) =~= us.skip(1).push(u));
        lemma_apply_positions_snoc(apply_position(s, us[0].0, us[0].1, now), us.skip(1), u, now);
    }
}

/// Every record of the complement of a day partition belongs to another day
/// and to the store, at a position that maps back into the store.
proof fn lemma_other_day_records_elems(s: Seq<TodoView>, day: Day)
    ensures
        forall|t: TodoView| #[trigger] other_day_records(s, day).contains(t) ==> t.day != day
            && s.contains(t),
    decreases s.len(),
{
    if s.len() > 0 {
        lemma_other_day_records_elems(s.drop_last(), day);
        let d = other_day_records(s, day);
        let rest = other_day_records(s.drop_last(), day);
        assert forall|t: TodoView| #[trigger] d.contains(t) implies t.day != day && s.contains(
            t,
        ) by {
            let k = choose|k: int| 0 <= k < d.len() && d[k] == t;
            if s.last().day != day && k == rest.len() {
                assert(t == s.last());
                assert(s[s.len() - 1] == t);
            } else {
                assert(rest[k] == t);
                assert(rest.contains(t));
                let m = choose|m: int| 0 <= m < s.drop_last().len() && s.drop_last()[m] == t;
                assert(s[m] == t);
            }
        }
    }
}

/// With unique ids in the store, the complement of a day partition also has
/// unique ids, each covered by any bound that covers the store.
proof fn lemma_other_day_records_unique(s: Seq<TodoView>, day: Day, bound: u64)
    requires
        unique_ids(s),
        ids_bounded(s, bound),
    ensures
        unique_ids(other_day_records(s, day)),
        ids_bounded(other_day_records(s, day), bound),
    decreases s.len(),
{
    lemma_other_day_records_elems(s, day);
    let d = other_day_records(s, day);
    if s.len() > 0 {
        assert forall|p: int, q: int| #![trigger s.drop_last()[p].id, s.drop_last()[q].id]
            0 <= p < q < s.drop_last().len() implies s.drop_last()[p].id != s.drop_last()[q].id by {
            assert(s[p].id != s[q].id);
        }
        assert forall|p: int| 0 <= p < s.drop_last().len() implies #[trigger] s.drop_last()[p].id
            <= bound by {
            assert(s[p].id <= bound);
        }
        lemma_other_day_records_unique(s.drop_last(), day, bound);
        let rest = other_day_records(s.drop_last(), day);
        lemma_other_day_records_elems(s.drop_last(), day);
        if s.last().day != day {
            assert(d == rest.push(s.last()));
            assert forall|p: int, q: int| #![trigger d[p].id, d[q].id] 0 <= p < q < d.len()
                implies d[p].id != d[q].id by {
                if q < rest.len() {
                    assert(rest[p].id != rest[q].id);
                } else {
                    assert(d[q] == s.last());
                    assert(rest.contains(rest[p]));
                    let m = choose|m: int| 0 <= m < s.drop_last().len() && s.drop_last()[m]
                        == rest[p];
                    assert(s[m] == rest[p]);
                    assert(s[m].id != s[s.len() - 1].id);
                }
            }
            assert forall|p: int| 0 <= p < d.len() implies #[trigger] d[p].id <= bound by {
                if p < rest.len() {
                    assert(rest[p].id <= bound);
                } else {
                    assert(d[p] == s.last());
                    assert(s[s.len() - 1].id <= bound);
                }
            }
        }
    }
}

/// Durable keyed storage for task records.  The abstract state is the
/// sequence of records in insertion order, read through `view`, together
/// with the id counter `id_bound`: every id in the store is at most
/// `id_bound`, and fresh ids are assigned strictly above it.
pub struct TodoStore {
    todos: Vec<Todo>,
    max_id: u64,
}

impl View for TodoStore {
    type V = Seq<TodoView>;

    closed spec fn view(&self) -> Seq<TodoView> {
        self.todos.deep_view()
    }
}

impl TodoStore {
    /// The id counter: an upper bound on every id the store ever held.
    pub closed spec fn id_bound(self) -> u64 {
        self.max_id
    }

    /// Well-formedness: no two records share an id, and every id is covered
    /// by the id counter.
    pub open spec fn wf(self) -> bool {
        unique_ids(self@) && ids_bounded(self@, self.id_bound())
    }

    /// An empty store.
    pub fn new() -> (s: TodoStore)
        ensures
            s@ == Seq::<TodoView>::empty(),
            s.id_bound() == 0,
            s.wf(),
    {
        let s = TodoStore { todos: Vec::new(), max_id: 0 };
        proof {
            assert(s@ =~= Seq::<TodoView>::empty());
        }
        s
    }

    /// A store rebuilt from a persisted record set and id counter, as the
    /// persistence collaborator hands them back.  The records are taken only
    /// when they are consistent (ids unique and covered by the counter);
    /// otherwise the load is rejected as a validation failure and an empty
    /// store is returned.
    pub fn from_records(todos: Vec<Todo>, max_id: u64) -> (r: Result<TodoStore, EngineError>)
        ensures
            unique_ids(todos.deep_view()) && ids_bounded(todos.deep_view(), max_id) ==> (
                r matches Ok(s) && s@ == todos.deep_view() && s.id_bound() == max_id && s.wf()
            ),
            !(unique_ids(todos.deep_view()) && ids_bounded(todos.deep_view(), max_id)) ==> (
                r matches Err(e) && e == EngineError::Validation
            ),
    {
        let n = todos.len();
        for i in 0..n
            invariant
                n == todos.len(),
                forall|p: int| 0 <= p < i ==> #[trigger] todos.deep_view()[p].id <= max_id,
                forall|p: int, q: int| #![trigger todos.deep_view()[p].id, todos.deep_view()[q].id]
                    0 <= p < q < todos.len() && p < i ==> todos.deep_view()[p].id != todos.deep_view()[q].id,
        {
            if todos[i].id > max_id {
                proof {
                    assert(todos.deep_view()[i as int].id > max_id);
                    assert(!ids_bounded(todos.deep_view(), max_id));
                }
                return Err(EngineError::Validation);
            }
            let m = todos.len();
            for j in (i + 1)..m
                invariant
                    m == todos.len(),
                    i < todos.len(),
                    forall|q: int| i < q < j ==> todos.deep_view()[q].id != todos.deep_view()[i as int].id,
            {
                if todos[j].id == todos[i].id {
                    proof {
                        assert(todos.deep_view()[j as int].id == todos.deep_view()[i as int].id);
                        assert(!unique_ids(todos.deep_view()));
                    }
                    return Err(EngineError::Validation);
                }
            }
        }
        Ok(TodoStore { todos, max_id })
    }

    /// Creates a new todo: assigns the next unused id, stamps it `now`, and
    /// appends it at the end of the day's order.  Fails only when the id
    /// space or the day's rank space is exhausted.
    pub fn add_todo(&mut self, day: Day, content: String, now: u64) -> (r: Result<
        u64,
        EngineError,
    >)
        requires
            old(self).wf(),
        ensures
            final(self).wf(),
            old(self).id_bound() < u64::MAX && max_pos_in_day(old(self)@, day) < u64::MAX as int
                ==> (r == Ok::<u64, EngineError>((old(self).id_bound() + 1) as u64)
                && final(self).id_bound() == old(self).id_bound() + 1
                && final(self)@ == old(self)@.push(
                TodoView {
                    id: (old(self).id_bound() + 1) as u64,
                    day,
                    content: content@,
                    position: (max_pos_in_day(old(self)@, day) + 1) as u64,
                    last_modified: now,
                },
            )),
            !(old(self).id_bound() < u64::MAX && max_pos_in_day(old(self)@, day) < u64::MAX as int)
                ==> (r == Err::<u64, EngineError>(EngineError::Storage)
                && final(self)@ == old(self)@
                && final(self).id_bound() == old(self).id_bound()),
    {
        let (found, maxp) = max_position(&self.todos, day);
        if self.max_id == u64::MAX || (found && maxp == u64::MAX) {
            return Err(EngineError::Storage);
        }
        let id = self.max_id + 1;
        let pos = if found {
            maxp + 1
        } else {
            0
        };
        let ghost prev = self@;
        let t = Todo { id, day, content, position: pos, last_modified: now };
        let ghost tv = t@;
        self.todos.push(t);
        self.max_id = id;
        proof {
            let mp = max_pos_in_day(prev, day);
            lemma_max_pos_range(prev, day);
            if found {
                assert(pos as int == mp + 1);
            } else {
                assert(mp == -1);
                assert(pos as int == mp + 1);
            }
            assert(tv == TodoView {
                id: (old(self).id_bound() + 1) as u64,
                day,
                content: content@,
                position: (mp + 1) as u64,
                last_modified: now,
            });
            assert(self@ =~= prev.push(tv));
            assert forall|p: int, q: int| #![trigger self@[p].id, self@[q].id]
                0 <= p < q < self@.len() implies self@[p].id != self@[q].id by {
                if q < prev.len() {
                    assert(prev[p].id != prev[q].id);
                } else {
                    assert(prev[p].id <= old(self).id_bound());
                }
            }
            assert forall|p: int| 0 <= p < self@.len() implies #[trigger] self@[p].id <= self.id_bound() by {
                if p < prev.len() {
                    assert(prev[p].id <= old(self).id_bound());
                }
            }
        }
        Ok(id)
    }

    /// Removes the record carrying `id`.  Deletion is idempotent: an unknown
    /// id is a no-op, not an error.  The id counter is not lowered, so a
    /// deleted id is never reassigned.
    pub fn delete_todo(&mut self, id: u64)
        requires
            old(self).wf(),
        ensures
            final(self).wf(),
            final(self).id_bound() == old(self).id_bound(),
            contains_id(old(self)@, id) ==> final(self)@ == old(self)@.remove(
                index_of_id(old(self)@, id),
            ),
            !contains_id(old(self)@, id) ==> final(self)@ == old(self)@,
    {
        match crate::merge::find_by_id(&self.todos, id) {
            Some(j) => {
                let ghost prev = self@;
                let _ = self.todos.remove(j);
                proof {
                    let i = index_of_id(prev, id);
                    assert(0 <= i < prev.len() && prev[i].id == id);
                    if i != j as int {
                        assert(prev[i].id != prev[j as int].id);
                    }
                    assert(self@ =~= prev.remove(j as int));
                    assert forall|p: int, q: int| #![trigger self@[p].id, self@[q].id]
                        0 <= p < q < self@.len() implies self@[p].id != self@[q].id by {
                        let p0: int = if p < j { p } else { p + 1 };
                        let q0: int = if q < j { q } else { q + 1 };
                        assert(prev[p0].id != prev[q0].id);
                    }
                    assert forall|p: int| 0 <= p < self@.len() implies #[trigger] self@[p].id
                        <= self.id_bound() by {
                        let p0: int = if p < j { p } else { p + 1 };
                        assert(prev[p0].id <= self.id_bound());
                    }
                }
            },
            None => {},
        }
    }

    /// Moves the record carrying `id` to another day partition and stamps it
    /// `now`; its content and ordering rank are kept.  Fails with a
    /// not-found error, leaving the store unchanged, when the id is unknown.
    pub fn move_todo_to_day(&mut self, id: u64, new_day: Day, now: u64) -> (r: Result<
        (),
        EngineError,
    >)
        requires
            old(self).wf(),
        ensures
            final(self).wf(),
            final(self).id_bound() == old(self).id_bound(),
            contains_id(old(self)@, id) ==> ({
                let i = index_of_id(old(self)@, id);
                r == Ok::<(), EngineError>(()) && final(self)@ == old(self)@.update(
                    i,
                    TodoView {
                        id: old(self)@[i].id,
                        day: new_day,
                        content: old(self)@[i].content,
                        position: old(self)@[i].position,
                        last_modified: now,
                    },
                )
            }),
            !contains_id(old(self)@, id) ==> (r == Err::<(), EngineError>(EngineError::NotFound)
                && final(self)@ == old(self)@),
    {
        match crate::merge::find_by_id(&self.todos, id) {
            Some(j) => {
                let ghost prev = self@;
                let nt = {
                    let t = &self.todos[j];
                    Todo {
                        id: t.id,
                        day: new_day,
                        content: t.content.clone(),
                        position: t.position,
                        last_modified: now,
                    }
                };
                let ghost ntv = nt@;
                self.todos[j] = nt;
                proof {
                    let i = index_of_id(prev, id);
                    assert(0 <= i < prev.len() && prev[i].id == id);
                    if i != j as int {
                        assert(prev[i].id != prev[j as int].id);
                    }
                    assert(self@ =~= prev.update(j as int, ntv));
                    assert forall|p: int, q: int| #![trigger self@[p].id, self@[q].id]
                        0 <= p < q < self@.len() implies self@[p].id != self@[q].id by {
                        assert(self@[p].id == prev[p].id);
                        assert(self@[q].id == prev[q].id);
                    }
                    assert forall|p: int| 0 <= p < self@.len() implies #[trigger] self@[p].id
                        <= self.id_bound() by {
                        assert(self@[p].id == prev[p].id);
                        assert(prev[p].id <= self.id_bound());
                    }
                }
                Ok(())
            },
            None => Err(EngineError::NotFound),
        }
    }

    /// The records of one day partition, sorted by ordering rank ascending.
    /// The store itself is unchanged; the result holds copies.
    pub fn get_todos(&self, day: Day) -> (r: Vec<Todo>)
        ensures
            r.deep_view().to_multiset() == day_records(self@, day).to_multiset(),
            sorted_by_position(r.deep_view()),
            forall|i: int| 0 <= i < r.deep_view().len() ==> (#[trigger] r.deep_view()[i]).day
                == day,
    {
        let mut pending: Vec<Todo> = collect_day(&self.todos, day);
        let mut out: Vec<Todo> = Vec::new();
        proof {
            broadcast use vstd::seq_lib::group_to_multiset_ensures;

            lemma_day_records_elems(self@, day);
            assert forall|i: int| 0 <= i < pending.deep_view().len()
                implies (#[trigger] pending.deep_view()[i]).day == day by {
                assert(day_records(self@, day).contains(day_records(self@, day)[i]));
            }
            assert(out.deep_view() =~= Seq::<TodoView>::empty());
            assert(out.deep_view().to_multiset().add(pending.deep_view().to_multiset())
                =~= day_records(self@, day).to_multiset());
        }
        while pending.len() > 0
            invariant
                out.deep_view().to_multiset().add(pending.deep_view().to_multiset())
                    == day_records(self@, day).to_multiset(),
                sorted_by_position(out.deep_view()),
                forall|a: int, b: int|
                    0 <= a < out.deep_view().len() && 0 <= b < pending.deep_view().len()
                        ==> (#[trigger] out.deep_view()[a]).position
                        <= (#[trigger] pending.deep_view()[b]).position,
                forall|i: int| 0 <= i < out.deep_view().len()
                    ==> (#[trigger] out.deep_view()[i]).day == day,
                forall|i: int| 0 <= i < pending.deep_view().len()
                    ==> (#[trigger] pending.deep_view()[i]).day == day,
            decreases pending.len(),
        {
            let j = min_pos_index(&pending);
            let ghost pdv = pending.deep_view();
            let ghost odv = out.deep_view();
            let t = pending.remove(j);
            proof {
                broadcast use vstd::seq_lib::group_to_multiset_ensures;

                assert(t@ == pdv[j as int]);
                assert(pending.deep_view() =~= pdv.remove(j as int));
                assert(pdv.contains(pdv[j as int]));
            }
            out.push(t);
            proof {
                broadcast use vstd::seq_lib::group_to_multiset_ensures;

                let x = pdv[j as int];
                assert(out.deep_view() =~= odv.push(x));
                assert(odv.to_multiset().insert(x).add(pdv.to_multiset().remove(x))
                    =~= odv.to_multiset().add(pdv.to_multiset()));
                assert forall|a: int, b: int|
                    0 <= a < out.deep_view().len() && 0 <= b < pending.deep_view().len()
                    implies (#[trigger] out.deep_view()[a]).position
                        <= (#[trigger] pending.deep_view()[b]).position by {
                    let b0: int = if b < j { b } else { b + 1 };
                    assert(pending.deep_view()[b] == pdv[b0]);
                    if a < odv.len() {
                        assert(odv[a].position <= pdv[b0].position);
                    } else {
                        assert(out.deep_view()[a] == x);
                        assert(x.position <= pdv[b0].position);
                    }
                }
                assert forall|p: int, q: int| #![trigger out.deep_view()[p].position, out.deep_view()[q].position]
                    0 <= p < q < out.deep_view().len()
                    implies out.deep_view()[p].position <= out.deep_view()[q].position by {
                    if q < odv.len() {
                        assert(odv[p].position <= odv[q].position);
                    } else {
                        assert(out.deep_view()[q] == x);
                        assert(odv[p].position <= pdv[j as int].position);
                    }
                }
            }
        }
        proof {
            broadcast use vstd::seq_lib::group_to_multiset_ensures;

            assert(pending.deep_view().len() == 0);
            assert(out.deep_view().to_multiset().add(pending.deep_view().to_multiset())
                =~= out.deep_view().to_multiset());
        }
        out
    }

    /// A full snapshot of the store, sorted by id ascending: the unit of
    /// exchange for backup and synchronization.  The store itself is
    /// unchanged; the result holds copies.
    pub fn export_all(&self) -> (r: Vec<Todo>)
        ensures
            r.deep_view().to_multiset() == self@.to_multiset(),
            sorted_by_id(r.deep_view()),
    {
        let mut pending: Vec<Todo> = collect_all(&self.todos);
        let mut out: Vec<Todo> = Vec::new();
        proof {
            broadcast use vstd::seq_lib::group_to_multiset_ensures;

            assert(out.deep_view() =~= Seq::<TodoView>::empty());
            assert(out.deep_view().to_multiset().add(pending.deep_view().to_multiset())
                =~= self@.to_multiset());
        }
        while pending.len() > 0
            invariant
                out.deep_view().to_multiset().add(pending.deep_view().to_multiset())
                    == self@.to_multiset(),
                sorted_by_id(out.deep_view()),
                forall|a: int, b: int|
                    0 <= a < out.deep_view().len() && 0 <= b < pending.deep_view().len()
                        ==> (#[trigger] out.deep_view()[a]).id
                        <= (#[trigger] pending.deep_view()[b]).id,
            decreases pending.len(),
        {
            let j = min_id_index(&pending);
            let ghost pdv = pending.deep_view();
            let ghost odv = out.deep_view();
            let t = pending.remove(j);
            proof {
                broadcast use vstd::seq_lib::group_to_multiset_ensures;

                assert(t@ == pdv[j as int]);
                assert(pending.deep_view() =~= pdv.remove(j as int));
                assert(pdv.contains(pdv[j as int]));
            }
            out.push(t);
            proof {
                broadcast use vstd::seq_lib::group_to_multiset_ensures;

                let x = pdv[j as int];
                assert(out.deep_view() =~= odv.push(x));
                assert(odv.to_multiset().insert(x).add(pdv.to_multiset().remove(x))
                    =~= odv.to_multiset().add(pdv.to_multiset()));
                assert forall|a: int, b: int|
                    0 <= a < out.deep_view().len() && 0 <= b < pending.deep_view().len()
                    implies (#[trigger] out.deep_view()[a]).id
                        <= (#[trigger] pending.deep_view()[b]).id by {
                    let b0: int = if b < j { b } else { b + 1 };
                    assert(pending.deep_view()[b] == pdv[b0]);
                    if a < odv.len() {
                        assert(odv[a].id <= pdv[b0].id);
                    } else {
                        assert(out.deep_view()[a] == x);
                        assert(x.id <= pdv[b0].id);
                    }
                }
                assert forall|p: int, q: int| #![trigger out.deep_view()[p].id, out.deep_view()[q].id]
                    0 <= p < q < out.deep_view().len()
                    implies out.deep_view()[p].id <= out.deep_view()[q].id by {
                    if q < odv.len() {
                        assert(odv[p].id <= odv[q].id);
                    } else {
                        assert(out.deep_view()[q] == x);
                        assert(odv[p].id <= pdv[j as int].id);
                    }
                }
            }
        }
        proof {
            broadcast use vstd::seq_lib::group_to_multiset_ensures;

            assert(pending.deep_view().len() == 0);
            assert(out.deep_view().to_multiset().add(pending.deep_view().to_multiset())
                =~= out.deep_view().to_multiset());
        }
        out
    }

    /// Imports a remote snapshot.  Conflict resolution is the last-write-wins
    /// merge of `crate::merge`, applied record by record, left to right: a
    /// strictly newer remote record overwrites the local one (the local rank
    /// is kept), an unknown remote id is inserted unchanged, and nothing is
    /// ever deleted.  The id counter is raised to cover every imported id, so
    /// ids created afterwards stay fresh.
    pub fn import_merge(&mut self, remote: &Vec<Todo>)
        requires
            old(self).wf(),
        ensures
            final(self).wf(),
            final(self)@ == merge_seq(old(self)@, remote.deep_view()),
            final(self).id_bound() as int == if max_id_of(remote.deep_view()) > old(
                self,
            ).id_bound() as int {
                max_id_of(remote.deep_view())
            } else {
                old(self).id_bound() as int
            },
    {
        let n = remote.len();
        let ghost rv = remote.deep_view();
        let ghost orig = self@;
        let ghost obound = self.max_id;
        proof {
            assert(rv.take(0) =~= Seq::<TodoView>::empty());
        }
        for idx in 0..n
            invariant
                n == remote.len(),
                rv == remote.deep_view(),
                self@ == merge_seq(orig, rv.take(idx as int)),
                unique_ids(self@),
                ids_bounded(self@, self.max_id),
                self.max_id as int == if max_id_of(rv.take(idx as int)) > obound as int {
                    max_id_of(rv.take(idx as int))
                } else {
                    obound as int
                },
        {
            let r = &remote[idx];
            proof {
                assert(rv.take(idx + 1).drop_last() =~= rv.take(idx as int));
                assert(rv.take(idx + 1).last() == rv[idx as int]);
            }
            let ghost cur = self@;
            let ghost curbound = self.max_id;
            if r.id > self.max_id {
                self.max_id = r.id;
            }
            proof {
                assert(r@.id <= self.max_id);
                assert forall|p: int| 0 <= p < cur.len() implies #[trigger] cur[p].id
                    <= self.max_id by {
                    assert(cur[p].id <= curbound);
                }
            }
            match crate::merge::find_by_id(&self.todos, r.id) {
                Some(j) => {
                    proof {
                        assert(contains_id(cur, r@.id));
                        let i = index_of_id(cur, r@.id);
                        assert(0 <= i < cur.len() && cur[i].id == r@.id);
                        if i != j as int {
                            assert(cur[i].id != cur[j as int].id);
                        }
                    }
                    if r.last_modified > self.todos[j].last_modified {
                        let nt = {
                            let t = &self.todos[j];
                            Todo {
                                id: t.id,
                                day: r.day,
                                content: r.content.clone(),
                                position: t.position,
                                last_modified: r.last_modified,
                            }
                        };
                        self.todos[j] = nt;
                        proof {
                            assert(self@ =~= cur.update(
                                j as int,
                                overwrite(cur[j as int], rv[idx as int]),
                            ));
                            assert(self@ == merge_one(cur, rv[idx as int]));
                        }
                    } else {
                        proof {
                            assert(self@ == merge_one(cur, rv[idx as int]));
                        }
                    }
                },
                None => {
                    self.todos.push(r.duplicate());
                    proof {
                        assert(self@ =~= cur.push(rv[idx as int]));
                        assert(self@ == merge_one(cur, rv[idx as int]));
                    }
                },
            }
            proof {
                lemma_merge_seq_snoc(orig, rv.take(idx as int), rv[idx as int]);
                assert(rv.take(idx + 1) =~= rv.take(idx as int).push(rv[idx as int]));
                lemma_merge_one_unique(cur, rv[idx as int]);
                lemma_merge_one_bounded(cur, rv[idx as int], self.max_id);
            }
        }
        proof {
            assert(rv.take(n as int) =~= rv);
        }
    }

    /// Applies a batch of position updates, in order: each names an id and
    /// its new ordering rank; the record, if present, is re-ranked and
    /// stamped `now`, and an unknown id is a no-op.
    pub fn update_positions(&mut self, updates: &Vec<(u64, u64)>, now: u64)
        requires
            old(self).wf(),
        ensures
            final(self).wf(),
            final(self).id_bound() == old(self).id_bound(),
            final(self)@ == apply_positions(old(self)@, updates@, now),
    {
        let n = updates.len();
        let ghost uv = updates@;
        let ghost orig = self@;
        proof {
            assert(uv.take(0) =~= Seq::<(u64, u64)>::empty());
        }
        for idx in 0..n
            invariant
                n == updates.len(),
                uv == updates@,
                self@ == apply_positions(orig, uv.take(idx as int), now),
                unique_ids(self@),
                ids_bounded(self@, self.max_id),
                self.max_id == old(self).id_bound(),
        {
            let (id, pos) = updates[idx];
            let ghost cur = self@;
            match crate::merge::find_by_id(&self.todos, id) {
                Some(j) => {
                    proof {
                        assert(contains_id(cur, id));
                        let i = index_of_id(cur, id);
                        assert(0 <= i < cur.len() && cur[i].id == id);
                        if i != j as int {
                            assert(cur[i].id != cur[j as int].id);
                        }
                    }
                    let nt = {
                        let t = &self.todos[j];
                        Todo {
                            id: t.id,
                            day: t.day,
                            content: t.content.clone(),
                            position: pos,
                            last_modified: now,
                        }
                    };
                    self.todos[j] = nt;
                    proof {
                        assert(self@ =~= cur.update(
                            j as int,
                            TodoView {
                                id: cur[j as int].id,
                                day: cur[j as int].day,
                                content: cur[j as int].content,
                                position: pos,
                                last_modified: now,
                            },
                        ));
                        assert(self@ == apply_position(cur, id, pos, now));
                        assert forall|p: int, q: int| #![trigger self@[p].id, self@[q].id]
                            0 <= p < q < self@.len() implies self@[p].id != self@[q].id by {
                            assert(self@[p].id == cur[p].id);
                            assert(self@[q].id == cur[q].id);
                        }
                        assert forall|p: int| 0 <= p < self@.len() implies #[trigger] self@[p].id
                            <= self.max_id by {
                            assert(self@[p].id == cur[p].id);
                            assert(cur[p].id <= self.max_id);
                        }
                    }
                },
                None => {
                    proof {
                        assert(self@ == apply_position(cur, id, pos, now));
                    }
                },
            }
            proof {
                lemma_apply_positions_snoc(orig, uv.take(idx as int), uv[idx as int], now);
                assert(uv.take(idx + 1) =~= uv.take(idx as int).push(uv[idx as int]));
                assert(uv[idx as int] == (id, pos));
            }
        }
        proof {
            assert(uv.take(n as int) =~= uv);
        }
    }

    /// Atomically replaces one day partition: every record currently under
    /// `day` is discarded and the given contents are re-inserted with fresh
    /// ids, sequential ranks from zero, and the timestamp `now`.  No other
    /// day's partition is touched.  This is a destructive snapshot replace,
    /// not a diff: callers pass the complete desired set for the day.  Fails
    /// only when the id space is exhausted.
    pub fn update_todo_order(&mut self, day: Day, contents: &Vec<String>, now: u64) -> (r: Result<
        (),
        EngineError,
    >)
        requires
            old(self).wf(),
        ensures
            final(self).wf(),
            old(self).id_bound() as int + contents.len() <= u64::MAX as int ==> (r == Ok::<
                (),
                EngineError,
            >(()) && final(self)@ == other_day_records(old(self)@, day) + replacement_records(
                contents.deep_view(),
                day,
                old(self).id_bound(),
                now,
            ) && final(self).id_bound() == (old(self).id_bound() + contents.len()) as u64),
            old(self).id_bound() as int + contents.len() > u64::MAX as int ==> (r == Err::<
                (),
                EngineError,
            >(EngineError::Storage) && final(self)@ == old(self)@ && final(self).id_bound() == old(
                self,
            ).id_bound()),
    {
        let n = contents.len();
        if n as u64 > u64::MAX - self.max_id {
            return Err(EngineError::Storage);
        }
        let ghost orig = self@;
        let ghost cv = contents.deep_view();
        let base = self.max_id;
        let mut kept = collect_other_day(&self.todos, day);
        let ghost other = other_day_records(orig, day);
        for i in 0..n
            invariant
                n == contents.len(),
                cv == contents.deep_view(),
                base as int + n <= u64::MAX as int,
                kept.deep_view() == other + replacement_records(cv, day, base, now).take(i as int),
        {
            let ghost before = kept.deep_view();
            let t = Todo {
                id: base + 1 + (i as u64),
                day,
                content: contents[i].clone(),
                position: i as u64,
                last_modified: now,
            };
            proof {
                assert(t@ == replacement_records(cv, day, base, now)[i as int]);
            }
            kept.push(t);
            proof {
                assert(kept.deep_view() =~= before.push(
                    replacement_records(cv, day, base, now)[i as int],
                ));
                assert(kept.deep_view() =~= other + replacement_records(cv, day, base, now).take(
                    i + 1,
                ));
            }
        }
        self.todos = kept;
        self.max_id = base + n as u64;
        proof {
            let repl = replacement_records(cv, day, base, now);
            assert(repl.take(n as int) =~= repl);
            assert(self@ == other + repl);
            lemma_other_day_records_unique(orig, day, base);
            assert forall|p: int, q: int| #![trigger self@[p].id, self@[q].id]
                0 <= p < q < self@.len() implies self@[p].id != self@[q].id by {
                if q < other.len() {
                    assert(other[p].id != other[q].id);
                } else if p >= other.len() {
                    assert(self@[p].id == base + 1 + (p - other.len()));
                    assert(self@[q].id == base + 1 + (q - other.len()));
                } else {
                    assert(other[p].id <= base);
                    assert(self@[q].id == base + 1 + (q - other.len()));
                }
            }
            assert forall|p: int| 0 <= p < self@.len() implies #[trigger] self@[p].id
                <= self.max_id by {
                if p < other.len() {
                    assert(other[p].id <= base);
                } else {
                    assert(self@[p].id == base + 1 + (p - other.len()));
                }
            }
        }
        Ok(())
    }
}

/// Copies of the records of `v` that belong to any day but `day`, in store
/// order.
fn collect_other_day(v: &Vec<Todo>, day: Day) -> (r: Vec<Todo>)
    ensures
        r.deep_view() == other_day_records(v.deep_view(), day),
{
    let mut r: Vec<Todo> = Vec::new();
    let n = v.len();
    assert(v.deep_view().take(0) =~= Seq::<TodoView>::empty());
    assert(r.deep_view() =~= Seq::<TodoView>::empty());
    for i in 0..n
        invariant
            n == v.len(),
            r.deep_view() == other_day_records(v.deep_view().take(i as int), day),
    {
        proof {
            assert(v.deep_view().take(i + 1).drop_last() =~= v.deep_view().take(i as int));
            assert(v.deep_view().take(i + 1).last() == v.deep_view()[i as int]);
        }
        let t = &v[i];
        if t.day != day {
            let ghost before = r.deep_view();
            r.push(t.duplicate());
            assert(r.deep_view() =~= before.push(v.deep_view()[i as int]));
        }
    }
    proof {
        assert(v.deep_view().take(n as int) =~= v.deep_view());
    }
    r
}

/// Every record of a day partition belongs to that day and to the store.
proof fn lemma_day_records_elems(s: Seq<TodoView>, day: Day)
    ensures
        forall|t: TodoView| #[trigger] day_records(s, day).contains(t) ==> t.day == day
            && s.contains(t),
    decreases s.len(),
{
    if s.len() > 0 {
        lemma_day_records_elems(s.drop_last(), day);
        let d = day_records(s, day);
        let rest = day_records(s.drop_last(), day);
        assert forall|t: TodoView| #[trigger] d.contains(t) implies t.day == day && s.contains(
            t,
        ) by {
            let k = choose|k: int| 0 <= k < d.len() && d[k] == t;
            if s.last().day == day {
                if k < rest.len() {
                    assert(rest[k] == t);
                    assert(rest.contains(t));
                    let m = choose|m: int| 0 <= m < s.drop_last().len() && s.drop_last()[m] == t;
                    assert(s[m] == t);
                } else {
                    assert(t == s.last());
                    assert(s[s.len() - 1] == t);
                }
            } else {
                assert(rest[k] == t);
                assert(rest.contains(t));
                let m = choose|m: int| 0 <= m < s.drop_last().len() && s.drop_last()[m] == t;
                assert(s[m] == t);
            }
        }
    }
}

/// Copies of the records of `v` that belong to `day`, in store order.
fn collect_day(v: &Vec<Todo>, day: Day) -> (r: Vec<Todo>)
    ensures
        r.deep_view() == day_records(v.deep_view(), day),
{
    let mut r: Vec<Todo> = Vec::new();
    let n = v.len();
    assert(v.deep_view().take(0) =~= Seq::<TodoView>::empty());
    assert(r.deep_view() =~= Seq::<TodoView>::empty());
    for i in 0..n
        invariant
            n == v.len(),
            r.deep_view() == day_records(v.deep_view().take(i as int), day),
    {
        proof {
            assert(v.deep_view().take(i + 1).drop_last() =~= v.deep_view().take(i as int));
            assert(v.deep_view().take(i + 1).last() == v.deep_view()[i as int]);
        }
        let t = &v[i];
        if t.day == day {
            let ghost before = r.deep_view();
            r.push(t.duplicate());
            assert(r.deep_view() =~= before.push(v.deep_view()[i as int]));
        }
    }
    proof {
        assert(v.deep_view().take(n as int) =~= v.deep_view());
    }
    r
}

/// Copies of all the records of `v`, in store order.
fn collect_all(v: &Vec<Todo>) -> (r: Vec<Todo>)
    ensures
        r.deep_view() == v.deep_view(),
{
    let mut r: Vec<Todo> = Vec::new();
    let n = v.len();
    assert(r.deep_view() =~= v.deep_view().take(0));
    for i in 0..n
        invariant
            n == v.len(),
            r.deep_view() == v.deep_view().take(i as int),
    {
        let ghost before = r.deep_view();
        r.push(v[i].duplicate());
        assert(r.deep_view() =~= before.push(v.deep_view()[i as int]));
        assert(r.deep_view() =~= v.deep_view().take(i + 1));
    }
    proof {
        assert(v.deep_view().take(n as int) =~= v.deep_view());
    }
    r
}

/// The index of a record of `v` with the least ordering rank.
fn min_pos_index(v: &Vec<Todo>) -> (j: usize)
    requires
        v.len() > 0,
    ensures
        j < v.len(),
        forall|i: int| 0 <= i < v.len() ==> v.deep_view()[j as int].position
            <= #[trigger] v.deep_view()[i].position,
{
    let mut j: usize = 0;
    let n = v.len();
    for i in 1..n
        invariant
            n == v.len(),
            j < i <= n,
            forall|p: int| 0 <= p < i ==> v.deep_view()[j as int].position
                <= #[trigger] v.deep_view()[p].position,
    {
        if v[i].position < v[j].position {
            j = i;
        }
    }
    j
}

/// The index of a record of `v` with the least id.
fn min_id_index(v: &Vec<Todo>) -> (j: usize)
    requires
        v.len() > 0,
    ensures
        j < v.len(),
        forall|i: int| 0 <= i < v.len() ==> v.deep_view()[j as int].id
            <= #[trigger] v.deep_view()[i].id,
{
    let mut j: usize = 0;
    let n = v.len();
    for i in 1..n
        invariant
            n == v.len(),
            j < i <= n,
            forall|p: int| 0 <= p < i ==> v.deep_view()[j as int].id
                <= #[trigger] v.deep_view()[p].id,
    {
        if v[i].id < v[j].id {
            j = i;
        }
    }
    j
}

/// The greatest rank in a day partition is never below -1.
proof fn lemma_max_pos_range(s: Seq<TodoView>, day: Day)
    ensures
        max_pos_in_day(s, day) >= -1,
    decreases s.len(),
{
    if s.len() > 0 {
        lemma_max_pos_range(s.drop_last(), day);
    }
}

/// The greatest ordering rank used in `day` among the records of `v`:
/// whether the partition is non-empty, and if so that rank.
fn max_position(v: &Vec<Todo>, day: Day) -> (r: (bool, u64))
    ensures
        r.0 == (max_pos_in_day(v.deep_view(), day) >= 0),
        r.0 ==> r.1 as int == max_pos_in_day(v.deep_view(), day),
{
    let n = v.len();
    let mut found: bool = false;
    let mut maxp: u64 = 0;
    assert(v.deep_view().take(0) =~= Seq::<TodoView>::empty());
    for i in 0..n
        invariant
            n == v.len(),
            found == (max_pos_in_day(v.deep_view().take(i as int), day) >= 0),
            found ==> maxp as int == max_pos_in_day(v.deep_view().take(i as int), day),
    {
        proof {
            assert(v.deep_view().take(i + 1).drop_last() =~= v.deep_view().take(i as int));
            assert(v.deep_view().take(i + 1).last() == v.deep_view()[i as int]);
        }
        let t = &v[i];
        if t.day == day {
            if !found {
                found = true;
                maxp = t.position;
            } else if t.position > maxp {
                maxp = t.position;
            }
        }
    }
    proof {
        assert(v.deep_view().take(n as int) =~= v.deep_view());
    }
    (found, maxp)
}

} // verus!
