//! The counter store, held in memory.
//!
//! The store is a table of counters in ascending order of `id`, the highest
//! `id` it has ever assigned, and the ledger of applied schema versions.  An
//! `id` is assigned once: the next counter gets the highest `id` so far plus
//! one, also after the counter that had it was deleted.
//!
//! The store has no clock.  `create` and `update` take the current instant
//! from the caller and write it into the row as it is.

use vstd::prelude::*;
use crate::counter::{
    Counter, CounterView, NewCounter, NewCounterView, UpdateCounter, UpdateCounterView,
};
use crate::error::StoreError;
use crate::migrate::{Ledger, blocked, lemma_apply_is_idempotent, migrated};
use crate::schema::Migration;

verus! {

/// What a store holds, mathematically.
pub struct StoreView {
    /// The counters, in ascending order of `id`.
    pub rows: Seq<CounterView>,
    /// The highest `id` assigned so far, 0 before the first.
    pub last_id: i64,
    /// The schema versions applied.
    pub applied: Set<i64>,
}

impl StoreView {
    /// A store to which nothing has happened yet.
    pub open spec fn empty() -> StoreView {
        StoreView { rows: Seq::empty(), last_id: 0, applied: Set::empty() }
    }

    /// What holds of every store: the rows stand in strictly ascending order
    /// of `id`, so no `id` occurs twice, and every `id` lies between 1 and
    /// the highest one assigned.
    pub open spec fn wf(self) -> bool {
        &&& 0 <= self.last_id
        &&& forall|i: int|
            0 <= i < self.rows.len() ==> 1 <= (#[trigger] self.rows[i]).id <= self.last_id
        &&& forall|i: int, j: int|
            0 <= i < j < self.rows.len() ==> (#[trigger] self.rows[i]).id < (
            #[trigger] self.rows[j]).id
    }

    /// The row at index `i` is the counter `id`.
    pub open spec fn holds_at(self, i: int, id: i64) -> bool {
        0 <= i < self.rows.len() && self.rows[i].id == id
    }

    /// The store holds a counter `id`.
    pub open spec fn holds(self, id: i64) -> bool {
        exists|i: int| self.holds_at(i, id)
    }

    /// The index of the counter `id`, where the store holds it.
    pub open spec fn position(self, id: i64) -> int {
        choose|i: int| self.holds_at(i, id)
    }

    /// The counter `id`, where the store holds it.
    pub open spec fn row(self, id: i64) -> CounterView {
        self.rows[self.position(id)]
    }

    /// No `id` is left to assign.
    pub open spec fn full(self) -> bool {
        self.last_id == i64::MAX
    }

    /// The counter that `req` creates at the instant `now`.
    pub open spec fn fresh(self, req: NewCounterView, now: Seq<char>) -> CounterView {
        CounterView {
            id: (self.last_id + 1) as i64,
            name: req.name,
            value: match req.value {
                Some(value) => value,
                None => 0,
            },
            created_at: now,
            updated_at: now,
        }
    }

    /// The store after `req` created a counter at the instant `now`.
    pub open spec fn with_created(self, req: NewCounterView, now: Seq<char>) -> StoreView {
        StoreView {
            rows: self.rows.push(self.fresh(req, now)),
            last_id: (self.last_id + 1) as i64,
            applied: self.applied,
        }
    }

    /// The counter `req.id` after `req` changed it at the instant `now`: the
    /// fields that `req` gives are replaced, `updated_at` becomes `now`, the
    /// rest stays.
    pub open spec fn changed(self, req: UpdateCounterView, now: Seq<char>) -> CounterView {
        let current = self.row(req.id);
        CounterView {
            id: current.id,
            name: match req.name {
                Some(name) => name,
                None => current.name,
            },
            value: match req.value {
                Some(value) => value,
                None => current.value,
            },
            created_at: current.created_at,
            updated_at: now,
        }
    }

    /// The store after `req` changed a counter at the instant `now`.
    pub open spec fn with_updated(self, req: UpdateCounterView, now: Seq<char>) -> StoreView {
        StoreView {
            rows: self.rows.update(self.position(req.id), self.changed(req, now)),
            last_id: self.last_id,
            applied: self.applied,
        }
    }

    /// The store after the counter `id` was deleted.
    pub open spec fn without(self, id: i64) -> StoreView {
        StoreView {
            rows: self.rows.remove(self.position(id)),
            last_id: self.last_id,
            applied: self.applied,
        }
    }

    /// The store after the migrations of `list` were applied.
    pub open spec fn with_applied(self, list: Seq<Migration>) -> StoreView {
        StoreView {
            rows: self.rows,
            last_id: self.last_id,
            applied: migrated(self.applied, list),
        }
    }
}

/// The order of the rows does not depend on the schema versions applied.
proof fn lemma_ledger_is_apart(store: StoreView, applied: Set<i64>)
    requires
        store.wf(),
    ensures
        (StoreView { rows: store.rows, last_id: store.last_id, applied }).wf(),
{
}

/// A counter stands at one index only: where the row at `i` is the counter
/// `id`, `i` is its position.
pub proof fn lemma_position(store: StoreView, i: int, id: i64)
    requires
        store.wf(),
        store.holds_at(i, id),
    ensures
        store.holds(id),
        store.position(id) == i,
        store.row(id) == store.rows[i],
{
    let k = store.position(id);
    assert(store.holds_at(k, id));
    if k < i {
        assert(store.rows[k].id < store.rows[i].id);
    } else if i < k {
        assert(store.rows[i].id < store.rows[k].id);
    }
}

/// Applying a list of migrations to a store a second time leaves the store as
/// the first time left it, and fails exactly if the first time failed.
pub proof fn lemma_initialize_is_idempotent(store: StoreView, list: Seq<Migration>)
    ensures
        store.with_applied(list).with_applied(list) == store.with_applied(list),
        blocked(store.with_applied(list).applied, list) == blocked(store.applied, list),
{
    lemma_apply_is_idempotent(store.applied, list);
}

/// Creating a counter keeps the store in order.  The new counter has an `id`
/// that the store did not hold, higher than every `id` in it; it can be read
/// back as it was created, and every other counter is as it was.
pub proof fn lemma_created(store: StoreView, req: NewCounterView, now: Seq<char>)
    requires
        store.wf(),
        !store.full(),
    ensures
        store.with_created(req, now).wf(),
        !store.holds(store.fresh(req, now).id),
        forall|i: int|
            0 <= i < store.rows.len() ==> (#[trigger] store.rows[i]).id < store.fresh(req, now).id,
        store.with_created(req, now).holds(store.fresh(req, now).id),
        store.with_created(req, now).row(store.fresh(req, now).id) == store.fresh(req, now),
        forall|id: i64|
            store.holds(id) ==> #[trigger] store.with_created(req, now).holds(id)
                && store.with_created(req, now).row(id) == store.row(id),
{
    let fresh = store.fresh(req, now);
    let after = store.with_created(req, now);
    assert forall|i: int, j: int| 0 <= i < j < after.rows.len() implies (
    #[trigger] after.rows[i]).id < (#[trigger] after.rows[j]).id by {
        assert(after.rows[i] == store.rows[i]);
        if j < store.rows.len() {
            assert(after.rows[j] == store.rows[j]);
        }
    }
    assert forall|i: int| 0 <= i < after.rows.len() implies 1 <= (#[trigger] after.rows[i]).id
        <= after.last_id by {
        if i < store.rows.len() {
            assert(after.rows[i] == store.rows[i]);
        }
    }
    if store.holds(fresh.id) {
        let k = store.position(fresh.id);
        assert(store.holds_at(k, fresh.id));
        assert(store.rows[k].id <= store.last_id);
    }
    assert(after.holds_at(store.rows.len() as int, fresh.id));
    lemma_position(after, store.rows.len() as int, fresh.id);
    assert forall|id: i64| store.holds(id) implies #[trigger] after.holds(id) && after.row(id)
        == store.row(id) by {
        let k = store.position(id);
        assert(store.holds_at(k, id));
        assert(after.rows[k] == store.rows[k]);
        assert(after.holds_at(k, id));
        lemma_position(after, k, id);
    }
}

/// Changing a counter keeps the store in order and keeps every `id`.  The
/// counter can be read back as it was changed, and every other counter is as
/// it was.
pub proof fn lemma_updated(store: StoreView, req: UpdateCounterView, now: Seq<char>)
    requires
        store.wf(),
        store.holds(req.id),
    ensures
        store.with_updated(req, now).wf(),
        store.changed(req, now).id == req.id,
        store.with_updated(req, now).row(req.id) == store.changed(req, now),
        forall|id: i64| store.holds(id) <==> #[trigger] store.with_updated(req, now).holds(id),
        forall|id: i64|
            store.holds(id) && id != req.id ==> #[trigger] store.with_updated(req, now).row(id)
                == store.row(id),
{
    let k = store.position(req.id);
    let after = store.with_updated(req, now);
    assert(store.holds_at(k, req.id));
    assert forall|i: int| 0 <= i < after.rows.len() implies (#[trigger] after.rows[i]).id
        == store.rows[i].id by {}
    assert(after.wf());
    assert(after.holds_at(k, req.id));
    lemma_position(after, k, req.id);
    assert forall|id: i64| store.holds(id) <==> #[trigger] after.holds(id) by {
        if store.holds(id) {
            let i = store.position(id);
            assert(store.holds_at(i, id));
            assert(after.holds_at(i, id));
        }
        if after.holds(id) {
            let i = after.position(id);
            assert(after.holds_at(i, id));
            assert(store.holds_at(i, id));
        }
    }
    assert forall|id: i64| store.holds(id) && id != req.id implies #[trigger] after.row(id)
        == store.row(id) by {
        let i = store.position(id);
        assert(store.holds_at(i, id));
        assert(after.holds_at(i, id));
        lemma_position(after, i, id);
    }
}

/// Deleting a counter keeps the store in order.  The counter is gone, every
/// other counter is as it was, and its `id` is not given out again: the next
/// counter gets a higher one.
pub proof fn lemma_deleted(store: StoreView, id: i64)
    requires
        store.wf(),
        store.holds(id),
    ensures
        store.without(id).wf(),
        !store.without(id).holds(id),
        store.without(id).rows.len() == store.rows.len() - 1,
        forall|other: i64|
            store.holds(other) && other != id ==> #[trigger] store.without(id).holds(other)
                && store.without(id).row(other) == store.row(other),
        forall|other: i64| #[trigger] store.without(id).holds(other) ==> store.holds(other),
        id <= store.without(id).last_id,
{
    let k = store.position(id);
    let after = store.without(id);
    assert(store.holds_at(k, id));
    assert forall|i: int| 0 <= i < after.rows.len() implies #[trigger] after.rows[i]
        == store.rows[if i < k { i } else { i + 1 }] by {}
    assert forall|i: int| 0 <= i < after.rows.len() implies 1 <= (#[trigger] after.rows[i]).id
        <= after.last_id by {
        assert(after.rows[i] == store.rows[if i < k { i } else { i + 1 }]);
    }
    assert forall|i: int, j: int| 0 <= i < j < after.rows.len() implies (
    #[trigger] after.rows[i]).id < (#[trigger] after.rows[j]).id by {
        assert(after.rows[i] == store.rows[if i < k { i } else { i + 1 }]);
        assert(after.rows[j] == store.rows[if j < k { j } else { j + 1 }]);
    }
    assert forall|other: i64| #[trigger] after.holds(other) implies store.holds(other) && other
        != id by {
        let i = after.position(other);
        assert(after.holds_at(i, other));
        let from = if i < k { i } else { i + 1 };
        assert(after.rows[i] == store.rows[from]);
        assert(store.holds_at(from, other));
        if from < k {
            assert(store.rows[from].id < store.rows[k].id);
        } else {
            assert(store.rows[k].id < store.rows[from].id);
        }
    }
    assert forall|other: i64| store.holds(other) && other != id implies #[trigger] after.holds(
        other,
    ) && after.row(other) == store.row(other) by {
        let from = store.position(other);
        assert(store.holds_at(from, other));
        let i = if from < k { from } else { from - 1 };
        assert(after.rows[i] == store.rows[if i < k { i } else { i + 1 }]);
        assert(after.holds_at(i, other));
        lemma_position(after, i, other);
    }
}

/// The store.
pub struct CounterStore {
    ledger: Ledger,
    rows: Vec<Counter>,
    last_id: i64,
}

impl View for CounterStore {
    type V = StoreView;

    closed spec fn view(&self) -> StoreView {
        StoreView { rows: self.rows.deep_view(), last_id: self.last_id, applied: self.ledger@ }
    }
}

impl CounterStore {
    #[verifier::type_invariant]
    spec fn inv(self) -> bool {
        self@.wf()
    }

    /// An empty store: no counter, no `id` assigned, no schema version
    /// applied.
    pub fn new() -> (store: CounterStore)
        ensures
            store@ == StoreView::empty(),
    {
        let store = CounterStore { ledger: Ledger::new(), rows: Vec::new(), last_id: 0 };
        assert(store@.rows =~= Seq::<CounterView>::empty());
        store
    }

    /// A store that takes up where an earlier one left off: it holds `rows`
    /// and has assigned the ids up to `last_id`.  No schema version is
    /// applied to it yet.
    ///
    /// Fails with [`StoreError::Storage`] exactly if the two do not describe
    /// a store: `last_id` is negative, an `id` lies outside `1..=last_id`, or
    /// the rows do not stand in strictly ascending order of `id`.
    pub fn restore(rows: Vec<Counter>, last_id: i64) -> (outcome: Result<CounterStore, StoreError>)
        ensures
            match outcome {
                Ok(store) => {
                    &&& store@ == (StoreView {
                        rows: rows.deep_view(),
                        last_id,
                        applied: Set::empty(),
                    })
                    &&& store@.wf()
                },
                Err(e) => {
                    &&& e == StoreError::Storage
                    &&& !(StoreView { rows: rows.deep_view(), last_id, applied: Set::empty() }).wf()
                },
            },
    {
        let ghost wanted = StoreView { rows: rows.deep_view(), last_id, applied: Set::empty() };
        if last_id < 0 {
            return Err(StoreError::Storage);
        }
        let mut i: usize = 0;
        while i < rows.len()
            invariant
                i <= rows.len(),
                0 <= last_id,
                wanted == (StoreView { rows: rows.deep_view(), last_id, applied: Set::empty() }),
                forall|k: int| 0 <= k < i ==> 1 <= (#[trigger] wanted.rows[k]).id <= last_id,
                forall|j: int, k: int|
                    0 <= j < k < i ==> (#[trigger] wanted.rows[j]).id < (
                    #[trigger] wanted.rows[k]).id,
            decreases rows.len() - i,
        {
            let id: i64 = rows[i].id;
            assert(wanted.rows[i as int].id == id);
            if id < 1 || id > last_id {
                return Err(StoreError::Storage);
            }
            if i > 0 && rows[i - 1].id >= id {
                assert(wanted.rows[i - 1].id == rows[i - 1].id);
                return Err(StoreError::Storage);
            }
            proof {
                if i > 0 {
                    assert(wanted.rows[i - 1].id == rows[i - 1].id);
                    assert forall|j: int| 0 <= j < i implies (#[trigger] wanted.rows[j]).id
                        < id by {
                        if j < i - 1 {
                            assert(wanted.rows[j].id < wanted.rows[i - 1].id);
                        }
                    }
                }
            }
            i += 1;
        }
        let store = CounterStore { ledger: Ledger::new(), rows, last_id };
        assert(store@ == wanted);
        Ok(store)
    }

    /// Creates a counter from `req` at the instant `now` and returns it.
    ///
    /// The counter gets the next `id`, the name as given, the value given or
    /// else 0, and `now` as both of its instants.  A request without a name
    /// is refused with [`StoreError::Validation`]; a named one is refused
    /// with [`StoreError::Storage`] where no `id` is left.  A refused request
    /// changes nothing.
    pub fn create(&mut self, req: NewCounter, now: String) -> (outcome: Result<Counter, StoreError>)
        ensures
            final(self)@.wf(),
            match outcome {
                Ok(counter) => {
                    &&& req.name@.len() > 0
                    &&& !old(self)@.full()
                    &&& counter@ == old(self)@.fresh(req@, now@)
                    &&& final(self)@ == old(self)@.with_created(req@, now@)
                },
                Err(e) => {
                    &&& final(self)@ == old(self)@
                    &&& e == if req.name@.len() == 0 {
                        StoreError::Validation
                    } else {
                        StoreError::Storage
                    }
                    &&& req.name@.len() == 0 || old(self)@.full()
                },
            },
    {
        proof {
            use_type_invariant(&*self);
        }
        if req.name.as_str().is_empty() {
            return Err(StoreError::Validation);
        }
        if self.last_id == i64::MAX {
            return Err(StoreError::Storage);
        }
        let id: i64 = self.last_id + 1;
        let value: i64 = match req.value {
            Some(value) => value,
            None => 0,
        };
        let counter = Counter {
            id,
            name: req.name,
            value,
            created_at: now.clone(),
            updated_at: now,
        };
        let copy = counter.clone();
        let mut rows: Vec<Counter> = Vec::new();
        core::mem::swap(&mut self.rows, &mut rows);
        rows.push(counter);
        self.last_id = id;
        proof {
            lemma_created(old(self)@, req@, now@);
            assert(rows.deep_view() =~= old(self)@.rows.push(copy@));
        }
        core::mem::swap(&mut self.rows, &mut rows);
        Ok(copy)
    }

    /// The index of the counter `id` among the rows.
    fn find(&self, id: i64) -> (found: Option<usize>)
        ensures
            self@.wf(),
            match found {
                Some(i) => self@.holds_at(i as int, id) && self@.position(id) == i,
                None => !self@.holds(id),
            },
    {
        proof {
            use_type_invariant(self);
        }
        let mut i: usize = 0;
        while i < self.rows.len()
            invariant
                self@.wf(),
                i <= self.rows.len(),
                forall|k: int| 0 <= k < i ==> !self@.holds_at(k, id),
            decreases self.rows.len() - i,
        {
            if self.rows[i].id == id {
                proof {
                    assert(self@.holds_at(i as int, id));
                    lemma_position(self@, i as int, id);
                }
                return Some(i);
            }
            i += 1;
        }
        None
    }

    /// Reads the counter `id`.  Fails with [`StoreError::NotFound`] exactly
    /// if the store holds no such counter.
    pub fn get(&self, id: i64) -> (outcome: Result<Counter, StoreError>)
        ensures
            self@.wf(),
            match outcome {
                Ok(counter) => self@.holds(id) && counter@ == self@.row(id),
                Err(e) => !self@.holds(id) && e == StoreError::NotFound,
            },
    {
        match self.find(id) {
            Some(i) => Ok(self.rows[i].clone()),
            None => Err(StoreError::NotFound),
        }
    }

    /// All counters, in ascending order of `id`.
    pub fn list(&self) -> (counters: Vec<Counter>)
        ensures
            self@.wf(),
            counters.len() == self@.rows.len(),
            counters.deep_view() == self@.rows,
            forall|i: int, j: int|
                0 <= i < j < counters.len() ==> (#[trigger] counters[i]).id < (
                #[trigger] counters[j]).id,
    {
        proof {
            use_type_invariant(self);
        }
        let mut counters: Vec<Counter> = Vec::new();
        let mut i: usize = 0;
        while i < self.rows.len()
            invariant
                i <= self.rows.len(),
                counters.len() == i,
                forall|k: int| 0 <= k < i ==> (#[trigger] counters[k])@ == self.rows[k]@,
            decreases self.rows.len() - i,
        {
            counters.push(self.rows[i].clone());
            i += 1;
        }
        proof {
            assert(counters.deep_view() =~= self@.rows);
            assert forall|i: int, j: int| 0 <= i < j < counters.len() implies (
            #[trigger] counters[i]).id < (#[trigger] counters[j]).id by {
                assert(counters[i]@ == self@.rows[i]);
                assert(counters[j]@ == self@.rows[j]);
            }
        }
        counters
    }

    /// The number of counters.
    pub fn len(&self) -> (count: usize)
        ensures
            count == self@.rows.len(),
    {
        self.rows.len()
    }

    /// Changes the counter `req.id` at the instant `now` and returns it as
    /// it then is.
    ///
    /// A field that `req` gives replaces the counter's; a field that it
    /// leaves out stays.  `updated_at` becomes `now`; `id` and `created_at`
    /// never change.  Fails with [`StoreError::NotFound`] exactly if the
    /// store holds no such counter, and then changes nothing.
    pub fn update(&mut self, req: UpdateCounter, now: String) -> (outcome: Result<
        Counter,
        StoreError,
    >)
        ensures
            final(self)@.wf(),
            match outcome {
                Ok(counter) => {
                    &&& old(self)@.holds(req.id)
                    &&& counter@ == old(self)@.changed(req@, now@)
                    &&& final(self)@ == old(self)@.with_updated(req@, now@)
                },
                Err(e) => {
                    &&& !old(self)@.holds(req.id)
                    &&& e == StoreError::NotFound
                    &&& final(self)@ == old(self)@
                },
            },
    {
        let i = match self.find(req.id) {
            Some(i) => i,
            None => {
                return Err(StoreError::NotFound);
            },
        };
        let ghost wanted = req@;
        let current = &self.rows[i];
        let counter = Counter {
            id: current.id,
            name: match req.name {
                Some(name) => name,
                None => current.name.clone(),
            },
            value: match req.value {
                Some(value) => value,
                None => current.value,
            },
            created_at: current.created_at.clone(),
            updated_at: now,
        };
        let copy = counter.clone();
        let mut rows: Vec<Counter> = Vec::new();
        core::mem::swap(&mut self.rows, &mut rows);
        rows.set(i, counter);
        proof {
            lemma_updated(old(self)@, wanted, now@);
            assert(rows.deep_view() =~= old(self)@.rows.update(i as int, copy@));
        }
        core::mem::swap(&mut self.rows, &mut rows);
        Ok(copy)
    }

    /// Deletes the counter `id`.  Its `id` is not assigned again.  Fails
    /// with [`StoreError::NotFound`] exactly if the store holds no such
    /// counter, and then changes nothing.
    pub fn delete(&mut self, id: i64) -> (outcome: Result<(), StoreError>)
        ensures
            final(self)@.wf(),
            match outcome {
                Ok(_) => old(self)@.holds(id) && final(self)@ == old(self)@.without(id),
                Err(e) => {
                    &&& !old(self)@.holds(id)
                    &&& e == StoreError::NotFound
                    &&& final(self)@ == old(self)@
                },
            },
    {
        let i = match self.find(id) {
            Some(i) => i,
            None => {
                return Err(StoreError::NotFound);
            },
        };
        let mut rows: Vec<Counter> = Vec::new();
        core::mem::swap(&mut self.rows, &mut rows);
        let _ = rows.remove(i);
        proof {
            lemma_deleted(old(self)@, id);
            assert(rows.deep_view() =~= old(self)@.rows.remove(i as int));
        }
        core::mem::swap(&mut self.rows, &mut rows);
        Ok(())
    }

    /// Applies the migrations of `list` that the store has not applied yet,
    /// in ascending order of version.
    ///
    /// Fails with [`StoreError::Migration`] exactly if a version that is
    /// still to be applied has an empty statement; the versions below the
    /// lowest such version are applied all the same.  The counters are not
    /// touched.
    pub fn initialize(&mut self, list: &Vec<Migration>) -> (outcome: Result<(), StoreError>)
        ensures
            final(self)@.wf(),
            final(self)@ == old(self)@.with_applied(list@),
            outcome is Ok <==> !blocked(old(self)@.applied, list@),
            outcome is Err ==> outcome == Err::<(), StoreError>(StoreError::Migration),
    {
        proof {
            use_type_invariant(&*self);
        }
        let mut ledger = Ledger::new();
        proof {
            lemma_ledger_is_apart(self@, ledger@);
        }
        core::mem::swap(&mut self.ledger, &mut ledger);
        let outcome = ledger.apply(list);
        proof {
            lemma_ledger_is_apart(self@, ledger@);
        }
        core::mem::swap(&mut self.ledger, &mut ledger);
        outcome
    }

    /// Whether the schema version `version` was applied.
    pub fn is_applied(&self, version: i64) -> (found: bool)
        ensures
            found == self@.applied.contains(version),
    {
        self.ledger.is_applied(version)
    }

    /// The schema version: the highest version applied, `None` before the
    /// first.
    pub fn schema_version(&self) -> (top: Option<i64>)
        ensures
            match top {
                Some(v) => self@.applied.contains(v) && forall|u: i64|
                    self@.applied.contains(u) ==> u <= v,
                None => self@.applied == Set::<i64>::empty(),
            },
    {
        self.ledger.latest()
    }
}

} // verus!
