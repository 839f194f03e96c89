//! The idempotent persistence step.
//!
//! Each reading is stored by one upsert keyed on date, hour and kind: it
//! inserts a missing row, updates a row whose stored value differs, and
//! touches nothing otherwise, so re-running a batch never duplicates data.
//! [`MemStore`] is the verified model of that store surface; a live database
//! offers the same operation, and the batch summaries are folded by the same
//! verified accounting either way. A failing row is skipped and counted,
//! never fatal for the batch.

use crate::date::Date;
use crate::decimal::Decimal;
use crate::reading::{Entry, EnergyKind};
use vstd::prelude::*;

verus! {

/// The upsert key: one reading slot per date, hour and kind.
#[derive(Clone, Copy, PartialEq, Eq, Structural, Debug)]
pub struct StoreKey {
    pub date: Date,
    pub hour: u8,
    pub kind: EnergyKind,
}

/// The slot an entry is stored under.
pub open spec fn spec_key_of(e: Entry) -> StoreKey {
    StoreKey { date: e.date_time.date, hour: e.date_time.hour, kind: e.kind }
}

pub fn key_of(e: &Entry) -> (k: StoreKey)
    ensures
        k == spec_key_of(*e),
{
    StoreKey { date: e.date_time.date, hour: e.date_time.hour, kind: e.kind }
}

/// What one upsert did.
#[derive(Clone, Copy, PartialEq, Eq, Structural, Debug)]
pub enum UpsertEffect {
    Inserted,
    Updated,
    Unchanged,
}

/// What an upsert does to a keyed store.
pub open spec fn spec_upsert_effect(m: Map<StoreKey, Decimal>, k: StoreKey, v: Decimal) -> UpsertEffect {
    if !m.contains_key(k) {
        UpsertEffect::Inserted
    } else if m[k] != v {
        UpsertEffect::Updated
    } else {
        UpsertEffect::Unchanged
    }
}

/// The store contents after upserting each entry in order.
pub open spec fn spec_store_after(m: Map<StoreKey, Decimal>, rows: Seq<Entry>) -> Map<
    StoreKey,
    Decimal,
>
    decreases rows.len(),
{
    if rows.len() == 0 {
        m
    } else {
        spec_store_after(m, rows.drop_last()).insert(spec_key_of(rows.last()), rows.last().kwh_value)
    }
}

/// How many of the upserts insert a new row.
pub open spec fn spec_inserted(m: Map<StoreKey, Decimal>, rows: Seq<Entry>) -> nat
    decreases rows.len(),
{
    if rows.len() == 0 {
        0
    } else {
        spec_inserted(m, rows.drop_last()) + if spec_upsert_effect(
            spec_store_after(m, rows.drop_last()),
            spec_key_of(rows.last()),
            rows.last().kwh_value,
        ) == UpsertEffect::Inserted {
            1nat
        } else {
            0nat
        }
    }
}

/// How many of the upserts update a differing row.
pub open spec fn spec_updated(m: Map<StoreKey, Decimal>, rows: Seq<Entry>) -> nat
    decreases rows.len(),
{
    if rows.len() == 0 {
        0
    } else {
        spec_updated(m, rows.drop_last()) + if spec_upsert_effect(
            spec_store_after(m, rows.drop_last()),
            spec_key_of(rows.last()),
            rows.last().kwh_value,
        ) == UpsertEffect::Updated {
            1nat
        } else {
            0nat
        }
    }
}

/// The entries whose store call goes through: row `i` is dropped when
/// `failed[i]` marks its upsert as failing.
pub open spec fn spec_kept(rows: Seq<Entry>, failed: Seq<bool>) -> Seq<Entry>
    decreases rows.len(),
{
    if rows.len() == 0 {
        Seq::<Entry>::empty()
    } else {
        spec_kept(rows.drop_last(), failed.drop_last()) + if failed.len() == rows.len()
            && failed.last() {
            Seq::<Entry>::empty()
        } else {
            seq![rows.last()]
        }
    }
}

/// An in-memory keyed store: the model of the persistence surface.
pub struct MemStore {
    pub rows: Vec<(StoreKey, Decimal)>,
}

/// A keyed store holds each key at most once.
pub open spec fn unique_keys(rows: Seq<(StoreKey, Decimal)>) -> bool {
    forall|i: int, j: int| 0 <= i < j < rows.len() ==> (#[trigger] rows[i]).0 != (#[trigger] rows[j]).0
}

/// The map a row list denotes.
pub open spec fn map_of(rows: Seq<(StoreKey, Decimal)>) -> Map<StoreKey, Decimal>
    decreases rows.len(),
{
    if rows.len() == 0 {
        Map::<StoreKey, Decimal>::empty()
    } else {
        map_of(rows.drop_last()).insert(rows.last().0, rows.last().1)
    }
}

/// A key is stored exactly when some row holds it.
pub proof fn lemma_map_of_contains(rows: Seq<(StoreKey, Decimal)>, k: StoreKey)
    ensures
        map_of(rows).contains_key(k) <==> exists|i: int| 0 <= i < rows.len() && (#[trigger] rows[i]).0 == k,
    decreases rows.len(),
{
    if rows.len() > 0 {
        lemma_map_of_contains(rows.drop_last(), k);
        if map_of(rows).contains_key(k) {
            if rows.last().0 == k {
                assert(rows[rows.len() - 1].0 == k);
            } else {
                let i = choose|i: int| 0 <= i < rows.drop_last().len() && (#[trigger] rows.drop_last()[i]).0 == k;
                assert(rows[i].0 == k);
            }
        }
        if exists|i: int| 0 <= i < rows.len() && (#[trigger] rows[i]).0 == k {
            let i = choose|i: int| 0 <= i < rows.len() && (#[trigger] rows[i]).0 == k;
            if i < rows.len() - 1 {
                assert(rows.drop_last()[i].0 == k);
            }
        }
    }
}

/// In a unique-key store, the row holding a key gives its stored value.
pub proof fn lemma_map_of_index(rows: Seq<(StoreKey, Decimal)>, i: int)
    requires
        unique_keys(rows),
        0 <= i < rows.len(),
    ensures
        map_of(rows).contains_key(rows[i].0),
        map_of(rows)[rows[i].0] == rows[i].1,
    decreases rows.len(),
{
    lemma_map_of_contains(rows, rows[i].0);
    if i < rows.len() - 1 {
        assert(forall|a: int, b: int|
            0 <= a < b < rows.drop_last().len() ==> (#[trigger] rows.drop_last()[a]).0 != (
            #[trigger] rows.drop_last()[b]).0);
        lemma_map_of_index(rows.drop_last(), i);
        assert(rows[rows.len() - 1].0 != rows[i].0);
    }
}

/// Updating the row that holds a key is inserting over it.
pub proof fn lemma_map_of_update(rows: Seq<(StoreKey, Decimal)>, i: int, v: Decimal)
    requires
        unique_keys(rows),
        0 <= i < rows.len(),
    ensures
        map_of(rows.update(i, (rows[i].0, v))) == map_of(rows).insert(rows[i].0, v),
    decreases rows.len(),
{
    let updated = rows.update(i, (rows[i].0, v));
    if i == rows.len() - 1 {
        assert(updated.drop_last() =~= rows.drop_last());
        assert(updated.last() == (rows[i].0, v));
        assert(map_of(updated) == map_of(rows.drop_last()).insert(rows[i].0, v));
        assert(map_of(rows.drop_last()).insert(rows[i].0, v) =~= map_of(rows).insert(rows[i].0, v));
    } else {
        assert(forall|a: int, b: int|
            0 <= a < b < rows.drop_last().len() ==> (#[trigger] rows.drop_last()[a]).0 != (
            #[trigger] rows.drop_last()[b]).0);
        lemma_map_of_update(rows.drop_last(), i, v);
        assert(updated.drop_last() =~= rows.drop_last().update(i, (rows[i].0, v)));
        assert(rows.drop_last()[i] == rows[i]);
        assert(updated.last() == rows.last());
        assert(map_of(updated) == map_of(rows).insert(rows[i].0, v).insert(rows.last().0, rows.last().1));
        assert(rows.last().0 != rows[i].0);
        assert(map_of(rows).insert(rows[i].0, v).insert(rows.last().0, rows.last().1) =~= map_of(
            rows,
        ).insert(rows.last().0, rows.last().1).insert(rows[i].0, v));
        assert(map_of(rows).insert(rows.last().0, rows.last().1) =~= map_of(rows)) by {
            lemma_map_of_index(rows, rows.len() - 1);
        }
    }
}

impl MemStore {
    pub open spec fn wf(self) -> bool {
        unique_keys(self.rows@)
    }

    /// The stored contents, as a map from slot to value.
    pub open spec fn as_map(self) -> Map<StoreKey, Decimal> {
        map_of(self.rows@)
    }

    pub fn new() -> (r: MemStore)
        ensures
            r.wf(),
            r.as_map() == Map::<StoreKey, Decimal>::empty(),
    {
        MemStore { rows: Vec::new() }
    }

    /// How many rows are stored.
    pub fn row_count(&self) -> (n: usize)
        ensures
            n == self.rows@.len(),
    {
        self.rows.len()
    }

    fn find(&self, k: StoreKey) -> (r: Option<usize>)
        ensures
            match r {
                Some(i) => i < self.rows@.len() && self.rows@[i as int].0 == k,
                None => forall|i: int| 0 <= i < self.rows@.len() ==> (#[trigger] self.rows@[i]).0 != k,
            },
    {
        let mut i: usize = 0;
        while i < self.rows.len()
            invariant
                0 <= i <= self.rows@.len(),
                forall|j: int| 0 <= j < i ==> (#[trigger] self.rows@[j]).0 != k,
            decreases self.rows@.len() - i,
        {
            if self.rows[i].0 == k {
                return Some(i);
            }
            i = i + 1;
        }
        None
    }

    /// Store `v` under `k`: insert a missing slot, update a differing one,
    /// touch nothing otherwise.
    pub fn upsert(&mut self, k: StoreKey, v: Decimal) -> (eff: UpsertEffect)
        requires
            old(self).wf(),
        ensures
            final(self).wf(),
            final(self).as_map() == old(self).as_map().insert(k, v),
            eff == spec_upsert_effect(old(self).as_map(), k, v),
    {
        proof {
            lemma_map_of_contains(self.rows@, k);
        }
        match self.find(k) {
            None => {
                let ghost old_rows = self.rows@;
                self.rows.push((k, v));
                proof {
                    assert(self.rows@.drop_last() =~= old_rows);
                    assert(forall|a: int, b: int|
                        0 <= a < b < self.rows@.len() ==> (#[trigger] self.rows@[a]).0 != (
                        #[trigger] self.rows@[b]).0) by {
                        assert(forall|a: int|
                            0 <= a < old_rows.len() ==> #[trigger] self.rows@[a] == old_rows[a]);
                    }
                }
                UpsertEffect::Inserted
            },
            Some(i) => {
                proof {
                    lemma_map_of_index(self.rows@, i as int);
                }
                if self.rows[i].1 == v {
                    proof {
                        assert(old(self).as_map().insert(k, v) =~= old(self).as_map());
                    }
                    UpsertEffect::Unchanged
                } else {
                    let ghost old_rows = self.rows@;
                    self.rows[i] = (k, v);
                    proof {
                        assert(self.rows@ =~= old_rows.update(i as int, (k, v)));
                        lemma_map_of_update(old_rows, i as int, v);
                        assert(forall|a: int, b: int|
                            0 <= a < b < self.rows@.len() ==> (#[trigger] self.rows@[a]).0 != (
                            #[trigger] self.rows@[b]).0) by {
                            assert(forall|a: int|
                                0 <= a < old_rows.len() && a != i ==> #[trigger] self.rows@[a]
                                    == old_rows[a]);
                            assert(self.rows@[i as int].0 == old_rows[i as int].0);
                        }
                    }
                    UpsertEffect::Updated
                }
            },
        }
    }
}

/// Totals the writer reports for one batch.
#[derive(Clone, Copy, PartialEq, Eq, Structural, Debug)]
pub struct WriteSummary {
    pub processed: u64,
    pub inserted: u64,
    pub updated: u64,
    pub unchanged: u64,
    pub failed: u64,
}

impl WriteSummary {
    pub fn new() -> (r: WriteSummary)
        ensures
            r == (WriteSummary { processed: 0u64, inserted: 0u64, updated: 0u64, unchanged: 0u64, failed: 0u64 }),
    {
        WriteSummary { processed: 0, inserted: 0, updated: 0, unchanged: 0, failed: 0 }
    }
}

impl MemStore {
    /// Store a batch, one upsert per entry; entry `i` is skipped and counted
    /// as failed when `failed[i]` marks its store call as failing.
    ///
    /// The totals are exactly the totals of the rows whose call went through:
    /// one bad row never aborts the batch, and the rest of the batch lands as
    /// if the bad row had not been there.
    pub fn apply_batch(&mut self, entries: &Vec<Entry>, failed: &Vec<bool>) -> (s: WriteSummary)
        requires
            old(self).wf(),
            failed@.len() == entries@.len(),
        ensures
            final(self).wf(),
            final(self).as_map() == spec_store_after(
                old(self).as_map(),
                spec_kept(entries@, failed@),
            ),
            s.processed == entries@.len(),
            s.failed == entries@.len() - spec_kept(entries@, failed@).len(),
            s.inserted == spec_inserted(old(self).as_map(), spec_kept(entries@, failed@)),
            s.updated == spec_updated(old(self).as_map(), spec_kept(entries@, failed@)),
            s.unchanged + s.inserted + s.updated + s.failed == s.processed,
    {
        let ghost m0 = old(self).as_map();
        let mut s = WriteSummary::new();
        let mut i: usize = 0;
        proof {
            assert(spec_kept(entries@.take(0), failed@.take(0)) =~= Seq::<Entry>::empty());
        }
        while i < entries.len()
            invariant
                0 <= i <= entries@.len(),
                failed@.len() == entries@.len(),
                self.wf(),
                self.as_map() == spec_store_after(m0, spec_kept(entries@.take(i as int), failed@.take(i as int))),
                s.processed == i,
                s.failed == i - spec_kept(entries@.take(i as int), failed@.take(i as int)).len(),
                s.inserted == spec_inserted(m0, spec_kept(entries@.take(i as int), failed@.take(i as int))),
                s.updated == spec_updated(m0, spec_kept(entries@.take(i as int), failed@.take(i as int))),
                s.unchanged + s.inserted + s.updated + s.failed == s.processed,
                spec_kept(entries@.take(i as int), failed@.take(i as int)).len() <= i,
            decreases entries@.len() - i,
        {
            let ghost kept_before = spec_kept(entries@.take(i as int), failed@.take(i as int));
            proof {
                assert(entries@.take(i + 1).drop_last() =~= entries@.take(i as int));
                assert(failed@.take(i + 1).drop_last() =~= failed@.take(i as int));
                assert(entries@.take(i + 1).last() == entries@[i as int]);
                assert(failed@.take(i + 1).last() == failed@[i as int]);
            }
            if failed[i] {
                s.failed = s.failed + 1;
                proof {
                    assert(spec_kept(entries@.take(i + 1), failed@.take(i + 1)) =~= kept_before);
                }
            } else {
                let ghost kept_after = spec_kept(entries@.take(i + 1), failed@.take(i + 1));
                proof {
                    assert(kept_after =~= kept_before.push(entries@[i as int]));
                    assert(kept_after.drop_last() =~= kept_before);
                    assert(kept_after.last() == entries@[i as int]);
                }
                let e = &entries[i];
                let k = key_of(e);
                let eff = self.upsert(k, e.kwh_value);
                match eff {
                    UpsertEffect::Inserted => {
                        s.inserted = s.inserted + 1;
                    },
                    UpsertEffect::Updated => {
                        s.updated = s.updated + 1;
                    },
                    UpsertEffect::Unchanged => {
                        s.unchanged = s.unchanged + 1;
                    },
                }
            }
            s.processed = s.processed + 1;
            i = i + 1;
        }
        proof {
            assert(entries@.take(entries@.len() as int) =~= entries@);
            assert(failed@.take(failed@.len() as int) =~= failed@);
        }
        s
    }
}

/// Upserting never removes a stored key.
pub proof fn lemma_store_after_monotonic(m: Map<StoreKey, Decimal>, rows: Seq<Entry>, k: StoreKey)
    requires
        m.contains_key(k),
    ensures
        spec_store_after(m, rows).contains_key(k),
    decreases rows.len(),
{
    if rows.len() > 0 {
        lemma_store_after_monotonic(m, rows.drop_last(), k);
    }
}

/// After a batch lands, every key of the batch is stored.
pub proof fn lemma_store_after_covers(m: Map<StoreKey, Decimal>, rows: Seq<Entry>, i: int)
    requires
        0 <= i < rows.len(),
    ensures
        spec_store_after(m, rows).contains_key(spec_key_of(rows[i])),
    decreases rows.len(),
{
    if i < rows.len() - 1 {
        lemma_store_after_covers(m, rows.drop_last(), i);
        assert(rows.drop_last()[i] == rows[i]);
    }
}

/// A batch whose keys are all stored already inserts nothing.
pub proof fn lemma_no_insert_when_covered(m: Map<StoreKey, Decimal>, rows: Seq<Entry>)
    requires
        forall|i: int| 0 <= i < rows.len() ==> m.contains_key(spec_key_of(#[trigger] rows[i])),
    ensures
        spec_inserted(m, rows) == 0,
    decreases rows.len(),
{
    if rows.len() > 0 {
        assert(forall|i: int|
            0 <= i < rows.drop_last().len() ==> m.contains_key(
                spec_key_of(#[trigger] rows.drop_last()[i]),
            ));
        lemma_no_insert_when_covered(m, rows.drop_last());
        assert(m.contains_key(spec_key_of(rows[rows.len() - 1])));
        lemma_store_after_monotonic(m, rows.drop_last(), spec_key_of(rows.last()));
    }
}

/// Idempotence: storing the same batch a second time inserts no row. An
/// upsert can still report an update then, but only where the stored value
/// legitimately differs, never an insert.
pub proof fn lemma_second_pass_inserts_nothing(m: Map<StoreKey, Decimal>, rows: Seq<Entry>)
    ensures
        spec_inserted(spec_store_after(m, rows), rows) == 0,
{
    let m1 = spec_store_after(m, rows);
    assert forall|i: int| 0 <= i < rows.len() implies m1.contains_key(
        spec_key_of(#[trigger] rows[i]),
    ) by {
        lemma_store_after_covers(m, rows, i);
    }
    lemma_no_insert_when_covered(m1, rows);
}

/// Storing an unchanged batch twice reports no update on the second pass
/// either: the store then already holds exactly the batch's values.
pub proof fn lemma_second_pass_updates_nothing_when_unique(
    m: Map<StoreKey, Decimal>,
    rows: Seq<Entry>,
)
    requires
        forall|i: int, j: int|
            0 <= i < j < rows.len() ==> spec_key_of(#[trigger] rows[i]) != spec_key_of(
                #[trigger] rows[j],
            ),
    ensures
        spec_updated(spec_store_after(m, rows), rows) == 0,
    decreases rows.len(),
{
    if rows.len() > 0 {
        let m1 = spec_store_after(m, rows);
        assert(forall|i: int, j: int|
            0 <= i < j < rows.drop_last().len() ==> spec_key_of(#[trigger] rows.drop_last()[i])
                != spec_key_of(#[trigger] rows.drop_last()[j]));
        lemma_values_land(m, rows);
        assert forall|i: int| 0 <= i < rows.len() implies spec_updated_at_zero(m1, rows, i) by {
            lemma_values_land(m, rows);
        }
        lemma_no_update_when_landed(m1, rows);
    }
}

/// Helper shape for [`lemma_second_pass_updates_nothing_when_unique`]: the
/// upsert at position `i` of a second pass finds the value already stored.
pub open spec fn spec_updated_at_zero(m1: Map<StoreKey, Decimal>, rows: Seq<Entry>, i: int) -> bool {
    m1.contains_key(spec_key_of(rows[i])) && m1[spec_key_of(rows[i])] == rows[i].kwh_value
}

/// With unique keys, each entry's value is what the batch leaves stored.
pub proof fn lemma_values_land(m: Map<StoreKey, Decimal>, rows: Seq<Entry>)
    requires
        forall|i: int, j: int|
            0 <= i < j < rows.len() ==> spec_key_of(#[trigger] rows[i]) != spec_key_of(
                #[trigger] rows[j],
            ),
    ensures
        forall|i: int| 0 <= i < rows.len() ==> spec_updated_at_zero(spec_store_after(m, rows), rows, i),
    decreases rows.len(),
{
    if rows.len() > 0 {
        assert(forall|i: int, j: int|
            0 <= i < j < rows.drop_last().len() ==> spec_key_of(#[trigger] rows.drop_last()[i])
                != spec_key_of(#[trigger] rows.drop_last()[j]));
        lemma_values_land(m, rows.drop_last());
        let m1 = spec_store_after(m, rows);
        let mprev = spec_store_after(m, rows.drop_last());
        assert forall|i: int| 0 <= i < rows.len() implies spec_updated_at_zero(m1, rows, i) by {
            if i < rows.len() - 1 {
                assert(rows.drop_last()[i] == rows[i]);
                assert(spec_updated_at_zero(mprev, rows.drop_last(), i));
                assert(spec_key_of(rows[i]) != spec_key_of(rows.last()));
            }
        }
    }
}

/// A batch that finds all its values stored reports no update.
pub proof fn lemma_no_update_when_landed(m1: Map<StoreKey, Decimal>, rows: Seq<Entry>)
    requires
        forall|i: int| 0 <= i < rows.len() ==> #[trigger] spec_updated_at_zero(m1, rows, i),
    ensures
        spec_updated(m1, rows) == 0,
    decreases rows.len(),
{
    if rows.len() > 0 {
        assert forall|i: int| 0 <= i < rows.drop_last().len() implies #[trigger] spec_updated_at_zero(
            m1,
            rows.drop_last(),
            i,
        ) by {
            assert(spec_updated_at_zero(m1, rows, i));
            assert(rows.drop_last()[i] == rows[i]);
        }
        lemma_no_update_when_landed(m1, rows.drop_last());
        assert(spec_updated_at_zero(m1, rows, rows.len() - 1));
        let k = spec_key_of(rows.last());
        let v = rows.last().kwh_value;
        assert forall|i: int|
            0 <= i < rows.drop_last().len() implies (spec_key_of(#[trigger] rows.drop_last()[i])
            != k || rows.drop_last()[i].kwh_value == v) by {
            assert(spec_updated_at_zero(m1, rows, i));
            assert(rows.drop_last()[i] == rows[i]);
            if spec_key_of(rows[i]) == k {
                assert(m1[k] == rows[i].kwh_value);
                assert(m1[k] == v);
            }
        }
        lemma_landed_stays(m1, rows.drop_last(), k, v);
    }
}

/// A stored value survives upserts of other entries or of the same value.
pub proof fn lemma_landed_stays(
    m1: Map<StoreKey, Decimal>,
    rows: Seq<Entry>,
    k: StoreKey,
    v: Decimal,
)
    requires
        m1.contains_key(k),
        m1[k] == v,
        forall|i: int|
            0 <= i < rows.len() ==> (spec_key_of(#[trigger] rows[i]) != k || rows[i].kwh_value == v),
    ensures
        spec_store_after(m1, rows).contains_key(k),
        spec_store_after(m1, rows)[k] == v,
    decreases rows.len(),
{
    if rows.len() > 0 {
        assert(forall|i: int|
            0 <= i < rows.drop_last().len() ==> (spec_key_of(#[trigger] rows.drop_last()[i]) != k
                || rows.drop_last()[i].kwh_value == v));
        lemma_landed_stays(m1, rows.drop_last(), k, v);
        assert(rows[rows.len() - 1] == rows.last());
    }
}

/// What one store call against a live database reported: the rows it
/// inserted and updated, or that the call failed.
#[derive(Clone, Copy, PartialEq, Eq, Structural, Debug)]
pub enum RowOutcome {
    Applied { inserted: u64, updated: u64 },
    Failed,
}

/// Addition that stops at the counter's ceiling instead of wrapping.
pub open spec fn spec_sat_add(a: u64, b: u64) -> u64 {
    if a + b > u64::MAX {
        u64::MAX
    } else {
        (a + b) as u64
    }
}

fn sat_add(a: u64, b: u64) -> (r: u64)
    ensures
        r == spec_sat_add(a, b),
{
    match a.checked_add(b) {
        Some(x) => x,
        None => u64::MAX,
    }
}

/// A summary after absorbing one more call's outcome.
pub open spec fn spec_absorb(s: WriteSummary, o: RowOutcome) -> WriteSummary {
    match o {
        RowOutcome::Applied { inserted, updated } => WriteSummary {
            processed: spec_sat_add(s.processed, 1),
            inserted: spec_sat_add(s.inserted, inserted),
            updated: spec_sat_add(s.updated, updated),
            unchanged: s.unchanged,
            failed: s.failed,
        },
        RowOutcome::Failed => WriteSummary {
            processed: spec_sat_add(s.processed, 1),
            inserted: s.inserted,
            updated: s.updated,
            unchanged: s.unchanged,
            failed: spec_sat_add(s.failed, 1),
        },
    }
}

/// The summary of a whole run of store calls.
pub open spec fn spec_summary(outcomes: Seq<RowOutcome>) -> WriteSummary
    decreases outcomes.len(),
{
    if outcomes.len() == 0 {
        WriteSummary { processed: 0u64, inserted: 0u64, updated: 0u64, unchanged: 0u64, failed: 0u64 }
    } else {
        spec_absorb(spec_summary(outcomes.drop_last()), outcomes.last())
    }
}

impl WriteSummary {
    /// Fold one more call's outcome into the running totals.
    pub fn absorb(&mut self, o: &RowOutcome)
        ensures
            *final(self) == spec_absorb(*old(self), *o),
    {
        match o {
            RowOutcome::Applied { inserted, updated } => {
                self.processed = sat_add(self.processed, 1);
                self.inserted = sat_add(self.inserted, *inserted);
                self.updated = sat_add(self.updated, *updated);
            },
            RowOutcome::Failed => {
                self.processed = sat_add(self.processed, 1);
                self.failed = sat_add(self.failed, 1);
            },
        }
    }
}

/// The totals a batch of store-call outcomes adds up to. The loop a live
/// writer runs hands each call's outcome in; a failed call only raises the
/// failure count and never stops the fold.
pub fn summarize(outcomes: &Vec<RowOutcome>) -> (s: WriteSummary)
    ensures
        s == spec_summary(outcomes@),
{
    let mut s = WriteSummary::new();
    let mut i: usize = 0;
    proof {
        assert(outcomes@.take(0) =~= Seq::<RowOutcome>::empty());
    }
    while i < outcomes.len()
        invariant
            0 <= i <= outcomes@.len(),
            s == spec_summary(outcomes@.take(i as int)),
        decreases outcomes@.len() - i,
    {
        proof {
            assert(outcomes@.take(i + 1).drop_last() =~= outcomes@.take(i as int));
            assert(outcomes@.take(i + 1).last() == outcomes@[i as int]);
        }
        s.absorb(&outcomes[i]);
        i = i + 1;
    }
    proof {
        assert(outcomes@.take(outcomes@.len() as int) =~= outcomes@);
    }
    s
}

/// With no failing call, every row of the batch lands.
pub proof fn lemma_kept_all(rows: Seq<Entry>, failed: Seq<bool>)
    requires
        failed.len() == rows.len(),
        forall|i: int| 0 <= i < failed.len() ==> !failed[i],
    ensures
        spec_kept(rows, failed) == rows,
    decreases rows.len(),
{
    if rows.len() > 0 {
        lemma_kept_all(rows.drop_last(), failed.drop_last());
        assert(!failed[rows.len() - 1]);
        assert(spec_kept(rows, failed) =~= rows.drop_last().push(rows.last()));
        assert(rows.drop_last().push(rows.last()) =~= rows);
    } else {
        assert(spec_kept(rows, failed) =~= rows);
    }
}

/// Partial-failure isolation: when exactly one row's store call fails, the
/// batch lands exactly as if that row had not been there, so the reported
/// inserted and updated totals are the correct totals of the remaining rows.
pub proof fn lemma_single_failure_isolated(rows: Seq<Entry>, failed: Seq<bool>, j: int)
    requires
        failed.len() == rows.len(),
        0 <= j < rows.len(),
        forall|i: int| 0 <= i < failed.len() ==> (failed[i] <==> i == j),
    ensures
        spec_kept(rows, failed) == rows.remove(j),
    decreases rows.len(),
{
    if j == rows.len() - 1 {
        assert(failed[j]);
        assert(forall|i: int| 0 <= i < failed.drop_last().len() ==> !failed.drop_last()[i]);
        lemma_kept_all(rows.drop_last(), failed.drop_last());
        assert(spec_kept(rows, failed) =~= rows.drop_last());
        assert(rows.remove(j) =~= rows.drop_last());
    } else {
        assert(!failed[rows.len() - 1]);
        assert(forall|i: int|
            0 <= i < failed.drop_last().len() ==> (failed.drop_last()[i] <==> i == j));
        lemma_single_failure_isolated(rows.drop_last(), failed.drop_last(), j);
        assert(spec_kept(rows, failed) =~= rows.drop_last().remove(j).push(rows.last()));
        assert(rows.remove(j) =~= rows.drop_last().remove(j).push(rows.last()));
    }
}

} // verus!
