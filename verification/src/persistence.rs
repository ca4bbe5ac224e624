//! The pluggable persistence backend consumed by the attendance store and
//! the identity mapping.
//!
//! A backend's observable history is the log of records it was handed to
//! save, oldest first.  The trait contracts speak only of that log, so the
//! store's durability accounting — in particular that a day rollover hands
//! the outgoing record to the backend exactly once — is proved for every
//! implementation.  The in-memory backend here is the reference
//! implementation and the test double; real file or block-device backends
//! live with the runtime around the library.

use vstd::prelude::*;

use crate::day::Day;
use crate::errors::TallyError;
use crate::id_mapping::{IDMapping, NameView};
use crate::id_store::AttendanceDay;
use crate::id_store::DayRecord;

verus! {

/// The latest record saved for a date, if any.
pub open spec fn last_save_for(saves: Seq<DayRecord>, date: u32) -> Option<DayRecord>
    decreases saves.len(),
{
    if saves.len() == 0 {
        None
    } else if saves.last().date == date {
        Some(saves.last())
    } else {
        last_save_for(saves.drop_last(), date)
    }
}

/// Whether some record was ever saved for the date.
pub open spec fn has_save_for(saves: Seq<DayRecord>, date: u32) -> bool {
    exists|i: int| 0 <= i < saves.len() && (#[trigger] saves[i]).date == date
}

/// Every mapping state in the log is well-formed.  The trait only accepts
/// well-formed mappings, so any history produced through it satisfies this.
pub open spec fn all_mappings_wf(ms: Seq<Seq<(Seq<char>, NameView)>>) -> bool {
    forall|i: int| 0 <= i < ms.len() ==> crate::id_mapping::mapping_view_wf(#[trigger] ms[i])
}

/// Loads and saves attendance-by-day records and the identity mapping.
///
/// `save_day` and `save_mapping` may fail; a failed save leaves the log
/// unchanged and is reported as a persistence error.  A backend that is
/// `reliable` never fails.
pub trait Persistence: Sized {
    /// The log of successfully saved day records, oldest first.
    spec fn day_saves(&self) -> Seq<DayRecord>;

    /// The log of successfully saved mapping states, oldest first.
    spec fn mapping_saves(&self) -> Seq<Seq<(Seq<char>, NameView)>>;

    /// Whether saves on this backend always succeed.
    spec fn reliable(&self) -> bool;

    /// Stores the record for a day.
    fn save_day(&mut self, day: Day, data: &AttendanceDay) -> (r: Result<(), TallyError>)
        requires
            data@.date == day.0,
        ensures
            final(self).reliable() == old(self).reliable(),
            final(self).mapping_saves() == old(self).mapping_saves(),
            old(self).reliable() ==> r is Ok,
            r is Ok ==> final(self).day_saves() == old(self).day_saves().push(
                DayRecord { date: day.0, ids: data@.ids },
            ),
            r matches Err(e) ==> final(self).day_saves() == old(self).day_saves()
                && e is PersistenceError;

    /// Retrieves the most recently saved record for a day.
    fn load_day(&mut self, day: Day) -> (r: Option<AttendanceDay>)
        ensures
            final(self).reliable() == old(self).reliable(),
            final(self).day_saves() == old(self).day_saves(),
            final(self).mapping_saves() == old(self).mapping_saves(),
            r is Some <==> has_save_for(old(self).day_saves(), day.0),
            r matches Some(rec) ==> Some(rec@) == last_save_for(old(self).day_saves(), day.0);

    /// Enumerates the days that have a saved record, without duplicates.
    fn list_days(&mut self) -> (r: Vec<Day>)
        ensures
            final(self).reliable() == old(self).reliable(),
            final(self).day_saves() == old(self).day_saves(),
            final(self).mapping_saves() == old(self).mapping_saves(),
            forall|i: int|
                0 <= i < r@.len() ==> has_save_for(old(self).day_saves(), (#[trigger] r@[i]).0),
            forall|d: u32|
                has_save_for(old(self).day_saves(), d) ==> exists|i: int|
                    0 <= i < r@.len() && (#[trigger] r@[i]).0 == d,
            forall|i: int, j: int| 0 <= i < j < r@.len() ==> r@[i] != r@[j];

    /// Stores the identity mapping.
    fn save_mapping(&mut self, data: &IDMapping) -> (r: Result<(), TallyError>)
        requires
            data.wf(),
        ensures
            final(self).reliable() == old(self).reliable(),
            final(self).day_saves() == old(self).day_saves(),
            old(self).reliable() ==> r is Ok,
            r is Ok ==> final(self).mapping_saves() == old(self).mapping_saves().push(data@),
            r matches Err(e) ==> final(self).mapping_saves() == old(self).mapping_saves()
                && e is PersistenceError;

    /// Retrieves the most recently saved identity mapping.
    fn load_mapping(&mut self) -> (r: Option<IDMapping>)
        ensures
            final(self).reliable() == old(self).reliable(),
            final(self).day_saves() == old(self).day_saves(),
            final(self).mapping_saves() == old(self).mapping_saves(),
            r is Some <==> old(self).mapping_saves().len() > 0,
            r matches Some(m) ==> m@ == old(self).mapping_saves().last();
}

/// An in-memory backend: the reference implementation of [`Persistence`]
/// and the stand-in used by tests.  Optionally constructed unwritable, to
/// exercise the store's behaviour under persistence failure.
pub struct MemoryPersistence {
    day_log: Vec<(Day, AttendanceDay)>,
    mapping_log: Vec<IDMapping>,
    fail_writes: bool,
}

impl MemoryPersistence {
    /// A fresh, empty, reliable backend.
    pub fn new() -> (r: Self)
        ensures
            r.day_saves() == Seq::<DayRecord>::empty(),
            r.mapping_saves() == Seq::<Seq<(Seq<char>, NameView)>>::empty(),
            r.reliable(),
    {
        MemoryPersistence { day_log: Vec::new(), mapping_log: Vec::new(), fail_writes: false }
    }

    /// A backend whose writes always fail, for exercising the durability
    /// policy.
    pub fn new_unwritable() -> (r: Self)
        ensures
            r.day_saves() == Seq::<DayRecord>::empty(),
            r.mapping_saves() == Seq::<Seq<(Seq<char>, NameView)>>::empty(),
            !r.reliable(),
    {
        MemoryPersistence { day_log: Vec::new(), mapping_log: Vec::new(), fail_writes: true }
    }
}

impl Persistence for MemoryPersistence {
    closed spec fn day_saves(&self) -> Seq<DayRecord> {
        self.day_log@.map_values(|e: (Day, AttendanceDay)| DayRecord { date: e.0.0, ids: e.1@.ids })
    }

    closed spec fn mapping_saves(&self) -> Seq<Seq<(Seq<char>, NameView)>> {
        self.mapping_log@.map_values(|m: IDMapping| m@)
    }

    closed spec fn reliable(&self) -> bool {
        !self.fail_writes
    }

    fn save_day(&mut self, day: Day, data: &AttendanceDay) -> (r: Result<(), TallyError>) {
        if self.fail_writes {
            return Err(TallyError::PersistenceError);
        }
        let copy: AttendanceDay = data.clone();
        self.day_log.push((day, copy));
        proof {
            assert(self.day_saves() =~= old(self).day_saves().push(
                DayRecord { date: day.0, ids: data@.ids },
            ));
        }
        Ok(())
    }

    fn load_day(&mut self, day: Day) -> (r: Option<AttendanceDay>) {
        let n: usize = self.day_log.len();
        let mut i: usize = n;
        while i > 0
            invariant
                0 <= i <= n,
                n == self.day_log@.len(),
                forall|j: int| i <= j < n ==> (#[trigger] self.day_saves()[j]).date != day.0,
            decreases i,
        {
            i = i - 1;
            proof {
                assert(self.day_saves()[i as int].date == self.day_log@[i as int].0.0);
            }
            if self.day_log[i].0.0 == day.0 {
                let rec: AttendanceDay = self.day_log[i].1.with_date(self.day_log[i].0);
                proof {
                    lemma_last_save_is_last_match(self.day_saves(), day.0, i as int);
                    assert(rec@ =~= self.day_saves()[i as int]);
                }
                return Some(rec);
            }
        }
        proof {
            lemma_no_match_no_save(self.day_saves(), day.0);
        }
        None
    }

    fn list_days(&mut self) -> (r: Vec<Day>) {
        let n: usize = self.day_log.len();
        let mut out: Vec<Day> = Vec::new();
        let mut i: usize = 0;
        while i < n
            invariant
                0 <= i <= n,
                n == self.day_log@.len(),
                forall|k: int|
                    0 <= k < out@.len() ==> has_save_for(self.day_saves(), (#[trigger] out@[k]).0),
                forall|j: int|
                    0 <= j < i ==> exists|k: int|
                        0 <= k < out@.len() && (#[trigger] out@[k]).0 == (
                        #[trigger] self.day_saves()[j]).date,
                forall|k: int, l: int| 0 <= k < l < out@.len() ==> out@[k] != out@[l],
            decreases n - i,
        {
            let d: Day = self.day_log[i].0;
            proof {
                assert(self.day_saves()[i as int].date == d.0);
            }
            let mut seen: bool = false;
            let m: usize = out.len();
            let mut k: usize = 0;
            while k < m
                invariant
                    0 <= k <= m,
                    m == out@.len(),
                    seen ==> exists|l: int| 0 <= l < out@.len() && (#[trigger] out@[l]).0 == d.0,
                    !seen ==> forall|l: int| 0 <= l < k ==> (#[trigger] out@[l]).0 != d.0,
                decreases m - k,
            {
                if out[k].0 == d.0 {
                    seen = true;
                }
                k = k + 1;
            }
            let ghost out_before = out@;
            if !seen {
                out.push(d);
            }
            proof {
                assert forall|j: int|
                    0 <= j < i + 1 implies exists|k2: int|
                        0 <= k2 < out@.len() && (#[trigger] out@[k2]).0 == (
                        #[trigger] self.day_saves()[j]).date by {
                    if j < i as int {
                        let k0 = choose|k2: int|
                            0 <= k2 < out_before.len() && (#[trigger] out_before[k2]).0
                                == self.day_saves()[j].date;
                        assert(out@[k0] == out_before[k0]);
                        assert((out@[k0]).0 == self.day_saves()[j].date);
                    } else {
                        if seen {
                            let l = choose|l: int|
                                0 <= l < out_before.len() && (#[trigger] out_before[l]).0 == d.0;
                            assert(out@[l] == out_before[l]);
                            assert((out@[l]).0 == self.day_saves()[j].date);
                        } else {
                            assert((out@[out_before.len() as int]).0 == self.day_saves()[j].date);
                        }
                    }
                }
            }
            i = i + 1;
        }
        out
    }

    fn save_mapping(&mut self, data: &IDMapping) -> (r: Result<(), TallyError>) {
        if self.fail_writes {
            return Err(TallyError::PersistenceError);
        }
        let copy: IDMapping = data.clone();
        self.mapping_log.push(copy);
        proof {
            assert(self.mapping_saves() =~~= old(self).mapping_saves().push(data@));
        }
        Ok(())
    }

    fn load_mapping(&mut self) -> (r: Option<IDMapping>) {
        let n: usize = self.mapping_log.len();
        if n == 0 {
            return None;
        }
        let m: IDMapping = self.mapping_log[n - 1].clone();
        proof {
            assert(m@ == self.mapping_saves().last());
        }
        Some(m)
    }
}

/// If every save after position `i` is for another date and position `i`
/// matches, then position `i` holds the latest save for the date.
proof fn lemma_last_save_is_last_match(saves: Seq<DayRecord>, date: u32, i: int)
    requires
        0 <= i < saves.len(),
        saves[i].date == date,
        forall|j: int| i < j < saves.len() ==> (#[trigger] saves[j]).date != date,
    ensures
        last_save_for(saves, date) == Some(saves[i]),
    decreases saves.len(),
{
    if i == saves.len() - 1 {
    } else {
        assert(saves.last().date != date);
        assert(saves.drop_last()[i] == saves[i]);
        lemma_last_save_is_last_match(saves.drop_last(), date, i);
    }
}

/// The latest save for a date, when there is one, is keyed by that date.
pub proof fn lemma_last_save_date(saves: Seq<DayRecord>, date: u32)
    ensures
        last_save_for(saves, date) matches Some(sv) ==> sv.date == date,
    decreases saves.len(),
{
    if saves.len() > 0 && saves.last().date != date {
        lemma_last_save_date(saves.drop_last(), date);
    }
}

/// With no save for the date there is no latest one.
proof fn lemma_no_match_no_save(saves: Seq<DayRecord>, date: u32)
    requires
        forall|j: int| 0 <= j < saves.len() ==> (#[trigger] saves[j]).date != date,
    ensures
        last_save_for(saves, date) is None,
        !has_save_for(saves, date),
    decreases saves.len(),
{
    if saves.len() > 0 {
        assert(forall|j: int|
            0 <= j < saves.drop_last().len() ==> (#[trigger] saves.drop_last()[j]).date != date);
        lemma_no_match_no_save(saves.drop_last(), date);
    }
}

} // verus!
