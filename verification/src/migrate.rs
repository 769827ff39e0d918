//! How schema migrations are applied.
//!
//! A store keeps a ledger of the versions it has applied.  Handed a list of
//! migrations, it runs the forward ones whose version the ledger lacks, lowest
//! version first, and enters each version as soon as its statement has run.
//! A version that the ledger holds is never run again, so handing the same
//! list over a second time changes nothing.
//!
//! A statement is run only if it has text.  At the first version whose
//! statement is empty the run stops with [`StoreError::Migration`]: the
//! versions below it stay applied, that version and those above it do not.
//! Where two forward migrations of a list carry one version, the earlier one
//! stands for the version.  The order of the list is of no account.

use vstd::prelude::*;
use vstd::set_lib::lemma_len_subset;
use crate::error::StoreError;
use crate::schema::{Migration, MigrationKind, is_schema, CREATE_COUNTERS_SQL};

verus! {

/// The migration at index `i` of `list` moves the schema forward to `version`.
pub open spec fn offers_at(list: Seq<Migration>, i: int, version: i64) -> bool {
    &&& 0 <= i < list.len()
    &&& list[i].kind == MigrationKind::Up
    &&& list[i].version == version
}

/// `list` holds a forward migration to `version`.
pub open spec fn offers(list: Seq<Migration>, version: i64) -> bool {
    exists|i: int| offers_at(list, i, version)
}

/// `i` is the index of the earliest forward migration to `version` in `list`.
pub open spec fn is_first_offer(list: Seq<Migration>, i: int, version: i64) -> bool {
    &&& offers_at(list, i, version)
    &&& forall|j: int| 0 <= j < i ==> !offers_at(list, j, version)
}

/// The statement that stands for `version` in `list`: that of the earliest
/// forward migration to it.
pub open spec fn statement(list: Seq<Migration>, version: i64) -> Seq<char> {
    list[choose|i: int| is_first_offer(list, i, version)].sql@
}

/// The statement for `version` can be run: it has text.
pub open spec fn runnable(list: Seq<Migration>, version: i64) -> bool {
    statement(list, version).len() > 0
}

/// `list` offers `version`, and a store that has applied `applied` still
/// lacks it.
pub open spec fn pending(applied: Set<i64>, list: Seq<Migration>, version: i64) -> bool {
    offers(list, version) && !applied.contains(version)
}

/// `version` is pending and its statement cannot be run.
pub open spec fn stuck(applied: Set<i64>, list: Seq<Migration>, version: i64) -> bool {
    pending(applied, list, version) && !runnable(list, version)
}

/// Some pending version cannot be run, so applying `list` fails.
pub open spec fn blocked(applied: Set<i64>, list: Seq<Migration>) -> bool {
    exists|version: i64| stuck(applied, list, version)
}

/// `version` is the lowest version that is stuck.
pub open spec fn is_barrier(applied: Set<i64>, list: Seq<Migration>, version: i64) -> bool {
    &&& stuck(applied, list, version)
    &&& forall|other: i64| stuck(applied, list, other) ==> version <= other
}

/// The version at which applying `list` stops, where it is blocked.
pub open spec fn barrier(applied: Set<i64>, list: Seq<Migration>) -> i64 {
    choose|version: i64| is_barrier(applied, list, version)
}

/// The versions that a store holds after `list` was applied to one that held
/// `applied`: all that `list` offers where nothing is stuck, else those below
/// the barrier.
pub open spec fn migrated(applied: Set<i64>, list: Seq<Migration>) -> Set<i64> {
    if blocked(applied, list) {
        Set::new(
            |v: i64| applied.contains(v) || (offers(list, v) && v < barrier(applied, list)),
        )
    } else {
        Set::new(|v: i64| applied.contains(v) || offers(list, v))
    }
}

/// The versions that are pending, as a set.
pub open spec fn pending_set(applied: Set<i64>, list: Seq<Migration>) -> Set<i64> {
    Set::new(|v: i64| pending(applied, list, v))
}

/// The earliest forward migration to a version is the only one that is the
/// earliest.
proof fn lemma_first_offer_unique(list: Seq<Migration>, i: int, version: i64)
    requires
        is_first_offer(list, i, version),
    ensures
        (choose|k: int| is_first_offer(list, k, version)) == i,
        statement(list, version) == list[i].sql@,
{
    let k = choose|k: int| is_first_offer(list, k, version);
    assert(is_first_offer(list, k, version));
    if k < i {
        assert(!offers_at(list, k, version));
    } else if i < k {
        assert(!offers_at(list, i, version));
    }
}

/// The lowest stuck version is the only barrier.
proof fn lemma_barrier_unique(applied: Set<i64>, list: Seq<Migration>, version: i64)
    requires
        is_barrier(applied, list, version),
    ensures
        blocked(applied, list),
        barrier(applied, list) == version,
{
    let b = barrier(applied, list);
    assert(is_barrier(applied, list, b));
    assert(stuck(applied, list, b));
    assert(stuck(applied, list, version));
}

/// Where a version is stuck, a lowest stuck version exists.
proof fn lemma_barrier_exists(applied: Set<i64>, list: Seq<Migration>, version: i64)
    requires
        stuck(applied, list, version),
    ensures
        is_barrier(applied, list, barrier(applied, list)),
    decreases version - i64::MIN,
{
    if forall|other: i64| stuck(applied, list, other) ==> version <= other {
        assert(is_barrier(applied, list, version));
    } else {
        let lower = choose|other: i64| stuck(applied, list, other) && !(version <= other);
        lemma_barrier_exists(applied, list, lower);
    }
}

/// Only finitely many versions are pending.
proof fn lemma_pending_finite(applied: Set<i64>, list: Seq<Migration>)
    ensures
        pending_set(applied, list).finite(),
{
    let versions = list.map_values(|m: Migration| m.version);
    assert forall|v: i64| pending_set(applied, list).contains(v) implies versions.to_set().contains(
        v,
    ) by {
        let i = choose|i: int| offers_at(list, i, v);
        assert(versions[i] == v);
        assert(versions.contains(v));
    }
    vstd::seq_lib::seq_to_set_is_finite(versions);
    lemma_len_subset(pending_set(applied, list), versions.to_set());
}

/// Entering a pending version leaves one pending version fewer.
proof fn lemma_pending_shrinks(applied: Set<i64>, list: Seq<Migration>, version: i64)
    requires
        pending(applied, list, version),
    ensures
        pending_set(applied.insert(version), list).len() < pending_set(applied, list).len(),
{
    lemma_pending_finite(applied, list);
    assert(pending_set(applied, list).contains(version));
    assert(pending_set(applied.insert(version), list) =~= pending_set(applied, list).remove(
        version,
    ));
}

/// The versions that a store has applied.
pub struct Ledger {
    applied: Vec<i64>,
}

impl View for Ledger {
    type V = Set<i64>;

    closed spec fn view(&self) -> Set<i64> {
        self.applied@.to_set()
    }
}

impl Ledger {
    /// The ledger of a store to which nothing was applied yet.
    pub fn new() -> (ledger: Ledger)
        ensures
            ledger@ == Set::<i64>::empty(),
    {
        let ledger = Ledger { applied: Vec::new() };
        assert(ledger@ =~= Set::<i64>::empty());
        ledger
    }

    /// Whether `version` was applied.
    pub fn is_applied(&self, version: i64) -> (found: bool)
        ensures
            found == self@.contains(version),
    {
        let mut i: usize = 0;
        while i < self.applied.len()
            invariant
                i <= self.applied.len(),
                forall|k: int| 0 <= k < i ==> self.applied@[k] != version,
            decreases self.applied.len() - i,
        {
            if self.applied[i] == version {
                assert(self.applied@.contains(version));
                return true;
            }
            i += 1;
        }
        false
    }

    /// The schema version: the highest version applied, `None` before the
    /// first.
    pub fn latest(&self) -> (top: Option<i64>)
        ensures
            match top {
                Some(v) => self@.contains(v) && forall|u: i64| self@.contains(u) ==> u <= v,
                None => self@ == Set::<i64>::empty(),
            },
    {
        if self.applied.len() == 0 {
            assert(self@ =~= Set::<i64>::empty());
            return None;
        }
        let mut top: i64 = self.applied[0];
        let mut i: usize = 1;
        while i < self.applied.len()
            invariant
                1 <= i <= self.applied.len(),
                exists|k: int| 0 <= k < i && self.applied@[k] == top,
                forall|k: int| 0 <= k < i ==> self.applied@[k] <= top,
            decreases self.applied.len() - i,
        {
            if self.applied[i] > top {
                top = self.applied[i];
            }
            i += 1;
        }
        assert(self.applied@.contains(top));
        Some(top)
    }

    /// The index of the migration to run next: the earliest forward migration
    /// to the lowest pending version.
    fn next_pending(&self, list: &Vec<Migration>) -> (next: Option<usize>)
        ensures
            match next {
                Some(i) => {
                    &&& is_first_offer(list@, i as int, list@[i as int].version)
                    &&& pending(self@, list@, list@[i as int].version)
                    &&& forall|v: i64| pending(self@, list@, v) ==> list@[i as int].version <= v
                },
                None => forall|v: i64| !pending(self@, list@, v),
            },
    {
        let mut best: Option<usize> = None;
        let mut j: usize = 0;
        while j < list.len()
            invariant
                j <= list.len(),
                match best {
                    Some(i) => {
                        &&& i < j
                        &&& list@[i as int].kind == MigrationKind::Up
                        &&& !self@.contains(list@[i as int].version)
                        &&& forall|k: int|
                            0 <= k < j && #[trigger] offers_at(list@, k, list@[k].version)
                                && !self@.contains(list@[k].version) ==> list@[i as int].version
                                <= list@[k].version
                        &&& forall|k: int|
                            0 <= k < i && #[trigger] offers_at(list@, k, list@[k].version)
                                && !self@.contains(list@[k].version) ==> list@[i as int].version
                                < list@[k].version
                    },
                    None => forall|k: int|
                        0 <= k < j && #[trigger] offers_at(list@, k, list@[k].version)
                            ==> self@.contains(list@[k].version),
                },
            decreases list.len() - j,
        {
            let m = &list[j];
            if m.kind == MigrationKind::Up && !self.is_applied(m.version) {
                let lower = match best {
                    Some(i) => m.version < list[i].version,
                    None => true,
                };
                if lower {
                    best = Some(j);
                }
            }
            j += 1;
        }
        proof {
            match best {
                Some(i) => {
                    let b = list@[i as int].version;
                    assert(offers_at(list@, i as int, b));
                    assert forall|k: int| 0 <= k < i implies !offers_at(list@, k, b) by {
                        if offers_at(list@, k, b) {
                            assert(offers_at(list@, k, list@[k].version));
                        }
                    }
                    assert forall|v: i64| pending(self@, list@, v) implies b <= v by {
                        let k = choose|k: int| offers_at(list@, k, v);
                        assert(offers_at(list@, k, list@[k].version));
                    }
                },
                None => {
                    assert forall|v: i64| !pending(self@, list@, v) by {
                        if pending(self@, list@, v) {
                            let k = choose|k: int| offers_at(list@, k, v);
                            assert(offers_at(list@, k, list@[k].version));
                        }
                    }
                },
            }
        }
        best
    }

    /// Applies `list`: runs the pending versions from the lowest up and
    /// enters each in the ledger, until none is left or one cannot be run.
    ///
    /// Afterwards the ledger holds `migrated(..)` of what it held.  The call
    /// fails, with [`StoreError::Migration`], exactly if a pending version is
    /// stuck.  No version ever leaves the ledger.
    pub fn apply(&mut self, list: &Vec<Migration>) -> (outcome: Result<(), StoreError>)
        ensures
            final(self)@ == migrated(old(self)@, list@),
            outcome is Ok <==> !blocked(old(self)@, list@),
            outcome is Err ==> outcome == Err::<(), StoreError>(StoreError::Migration),
            old(self)@.subset_of(final(self)@),
    {
        let ghost before = self@;
        loop
            invariant
                before == old(self)@,
                before.subset_of(self@),
                forall|v: i64|
                    self@.contains(v) && !before.contains(v) ==> #[trigger] pending(
                        before,
                        list@,
                        v,
                    ) && runnable(list@, v),
                forall|u: i64, v: i64|
                    #[trigger] pending(before, list@, u) && #[trigger] pending(before, list@, v)
                        && self@.contains(u) && !self@.contains(v) ==> u < v,
            decreases pending_set(self@, list@).len(),
        {
            match self.next_pending(list) {
                None => {
                    proof {
                        assert forall|u: i64| !stuck(before, list@, u) by {
                            if stuck(before, list@, u) {
                                assert(!pending(self@, list@, u));
                            }
                        }
                        assert(!blocked(before, list@));
                        assert forall|v: i64|
                            self@.contains(v) <==> before.contains(v) || offers(list@, v) by {
                            assert(!pending(self@, list@, v));
                            if self@.contains(v) && !before.contains(v) {
                                assert(pending(before, list@, v));
                            }
                        }
                        assert(self@ =~= migrated(before, list@));
                    }
                    return Ok(());
                },
                Some(i) => {
                    let m = &list[i];
                    proof {
                        lemma_first_offer_unique(list@, i as int, m.version);
                    }
                    if m.sql.is_empty() {
                        proof {
                            let b = m.version;
                            assert(pending(before, list@, b));
                            assert(stuck(before, list@, b));
                            assert forall|u: i64| stuck(before, list@, u) implies b <= u by {
                                assert(pending(self@, list@, u));
                            }
                            lemma_barrier_unique(before, list@, b);
                            assert forall|v: i64|
                                self@.contains(v) <==> before.contains(v) || (offers(list@, v) && v
                                    < b) by {
                                if self@.contains(v) && !before.contains(v) {
                                    assert(pending(before, list@, v));
                                }
                                if offers(list@, v) && v < b && !self@.contains(v) {
                                    assert(pending(self@, list@, v));
                                }
                            }
                            assert(self@ =~= migrated(before, list@));
                        }
                        return Err(StoreError::Migration);
                    }
                    proof {
                        self.applied@.lemma_push_to_set_commute(m.version);
                        lemma_pending_shrinks(self@, list@, m.version);
                        assert(pending(before, list@, m.version));
                        assert forall|v: i64|
                            pending(before, list@, v) && !self@.contains(v) implies m.version
                            <= v by {
                            assert(pending(self@, list@, v));
                        }
                    }
                    self.applied.push(m.version);
                },
            }
        }
    }
}

/// Applying a list of migrations a second time changes nothing: no version is
/// run twice, and the second run fails exactly if the first one did.
pub proof fn lemma_apply_is_idempotent(applied: Set<i64>, list: Seq<Migration>)
    ensures
        migrated(migrated(applied, list), list) == migrated(applied, list),
        blocked(migrated(applied, list), list) == blocked(applied, list),
{
    let once = migrated(applied, list);
    if blocked(applied, list) {
        let v = choose|v: i64| stuck(applied, list, v);
        lemma_barrier_exists(applied, list, v);
        let b = barrier(applied, list);
        assert(stuck(once, list, b));
        assert forall|u: i64| stuck(once, list, u) implies b <= u by {
            assert(stuck(applied, list, u));
        }
        lemma_barrier_unique(once, list, b);
        assert(migrated(once, list) =~= once);
    } else {
        assert forall|u: i64| !stuck(once, list, u) by {
            assert(!pending(once, list, u));
        }
        assert(migrated(once, list) =~= once);
    }
}

/// Applying migrations never takes a version out of the ledger, so the schema
/// version never falls.
pub proof fn lemma_apply_keeps_versions(applied: Set<i64>, list: Seq<Migration>)
    ensures
        applied.subset_of(migrated(applied, list)),
{
}

/// The schema of this store can be applied to every store, and adds
/// version 1 to what the store held.
pub proof fn lemma_schema_applies(applied: Set<i64>, list: Seq<Migration>)
    requires
        is_schema(list),
    ensures
        !blocked(applied, list),
        migrated(applied, list) == applied.insert(1i64),
{
    reveal_strlit("CREATE TABLE counters (
                id INTEGER PRIMARY KEY AUTOINCREMENT,
                name TEXT NOT NULL,
                value INTEGER NOT NULL DEFAULT 0,
                created_at DATETIME DEFAULT CURRENT_TIMESTAMP,
                updated_at DATETIME DEFAULT CURRENT_TIMESTAMP
            );");
    assert(CREATE_COUNTERS_SQL@.len() > 0);
    assert(is_first_offer(list, 0, 1i64));
    lemma_first_offer_unique(list, 0, 1i64);
    assert forall|v: i64| offers(list, v) implies v == 1 by {
        let i = choose|i: int| offers_at(list, i, v);
        assert(offers_at(list, i, v));
    }
    assert(offers(list, 1i64));
    assert forall|u: i64| !stuck(applied, list, u) by {}
    assert(migrated(applied, list) =~= applied.insert(1i64));
}

} // verus!
