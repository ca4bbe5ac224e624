use tally_terminal::day::Day;
use tally_terminal::errors::TallyError;
use tally_terminal::id_mapping::Name;
use tally_terminal::id_store::{AttendanceDay, IDStore, IngestOutcome};
use tally_terminal::persistence::{MemoryPersistence, Persistence};
use tally_terminal::tally_id::TallyID;

#[test]
fn day_record_holds_each_id_once() {
    let mut day = AttendanceDay::new(Day::new(1));
    assert!(day.add_id(TallyID("A2FB44".to_owned())));
    assert!(!day.add_id(TallyID("A2FB44".to_owned())));
    assert!(!day.add_id(TallyID("a2fb44".to_owned())));
    assert!(day.add_id(TallyID("7D3DF5B5".to_owned())));
    assert_eq!(day.ids().len(), 2);
    assert!(day.has_id(&TallyID("a2Fb44".to_owned())));
    assert!(!day.has_id(&TallyID("000000".to_owned())));
}

#[test]
fn add_id_true_only_on_first_occurrence() {
    let mut store = IDStore::new();
    let today = Day::new(10);
    assert!(store.add_id(TallyID("A2FB44".to_owned()), today));
    assert!(!store.add_id(TallyID("A2FB44".to_owned()), today));
    assert!(!store.add_id(TallyID("a2fb44".to_owned()), today));
    assert!(store.add_id(TallyID("7D3DF5B5".to_owned()), today));
    assert!(!store.add_id(TallyID("7d3df5b5".to_owned()), today));
}

#[test]
fn ingest_outcomes() {
    let mut store = IDStore::new();
    let today = Day::new(10);
    assert_eq!(
        store.ingest(TallyID("A2FB44".to_owned()), today),
        IngestOutcome::Accepted
    );
    assert_eq!(
        store.ingest(TallyID("A2FB44".to_owned()), today),
        IngestOutcome::Duplicate
    );
}

#[test]
fn accepted_despite_persistence_failure() {
    let mut store = IDStore::new_with_backend(MemoryPersistence::new_unwritable());
    let today = Day::new(10);
    assert_eq!(
        store.ingest(TallyID("A2FB44".to_owned()), today),
        IngestOutcome::PersistFailed
    );
    // the tag counted regardless: a second read is a duplicate
    assert_eq!(
        store.ingest(TallyID("A2FB44".to_owned()), today),
        IngestOutcome::Duplicate
    );
    // and add_id reports it as accepted
    let mut store2 = IDStore::new_with_backend(MemoryPersistence::new_unwritable());
    assert!(store2.add_id(TallyID("A2FB44".to_owned()), today));
}

#[test]
fn rollover_persists_outgoing_day_and_starts_fresh() {
    let mut store = IDStore::new();
    let day1 = Day::new(10);
    let day2 = Day::new(11);
    assert!(store.add_id(TallyID("A2FB44".to_owned()), day1));
    // the rollover: a read on the next day
    assert!(store.add_id(TallyID("A2FB44".to_owned()), day2));
    // the prior day's record is untouched by the post-rollover read
    let rec1 = store.get_day(day1).unwrap();
    assert_eq!(rec1.ids().len(), 1);
    let rec2 = store.get_day(day2).unwrap();
    assert_eq!(rec2.ids().len(), 1);

    // both days reached the backend
    let mut backend = store.into_backend();
    let days = backend.list_days();
    assert!(days.contains(&day1));
    assert!(days.contains(&day2));
    let loaded = backend.load_day(day1).unwrap();
    assert!(loaded.has_id(&TallyID("A2FB44".to_owned())));
}

#[test]
fn duplicate_reads_write_nothing() {
    let mut store = IDStore::new();
    let today = Day::new(10);
    assert!(store.add_id(TallyID("A2FB44".to_owned()), today));
    assert!(!store.add_id(TallyID("A2FB44".to_owned()), today));
    let rec = store.get_day(today).unwrap();
    assert_eq!(rec.ids().len(), 1);
}

#[test]
fn mapping_is_written_through() {
    let mut store = IDStore::new();
    store
        .add_mapping(
            TallyID("A2FB44".to_owned()),
            Name {
                first: "Max".to_owned(),
                last: "Mustermann".to_owned(),
            },
        )
        .unwrap();
    let mut backend = store.into_backend();
    let mapping = backend.load_mapping().unwrap();
    let name = mapping.map(&TallyID("a2fb44".to_owned())).unwrap();
    assert_eq!(name.first, "Max");
}

#[test]
fn mapping_write_failure_is_reported() {
    let mut store = IDStore::new_with_backend(MemoryPersistence::new_unwritable());
    let r = store.add_mapping(
        TallyID("A2FB44".to_owned()),
        Name {
            first: "Max".to_owned(),
            last: "Mustermann".to_owned(),
        },
    );
    assert!(matches!(r, Err(TallyError::PersistenceError)));
    // the in-memory mapping keeps the entry regardless
    assert!(store.mapping.map(&TallyID("A2FB44".to_owned())).is_some());
}

#[test]
fn store_rebuilds_from_storage() {
    let mut store = IDStore::new();
    let day1 = Day::new(10);
    let day2 = Day::new(11);
    store.add_id(TallyID("A2FB44".to_owned()), day1);
    store.add_id(TallyID("7D3DF5B5".to_owned()), day1);
    store.add_id(TallyID("A2FB44".to_owned()), day2);
    store
        .add_mapping(
            TallyID("A2FB44".to_owned()),
            Name {
                first: "Max".to_owned(),
                last: "Mustermann".to_owned(),
            },
        )
        .unwrap();

    let backend = store.into_backend();
    let rebuilt = IDStore::new_from_storage(backend);
    let rec1 = rebuilt.get_day(day1).unwrap();
    assert!(rec1.has_id(&TallyID("A2FB44".to_owned())));
    assert!(rec1.has_id(&TallyID("7D3DF5B5".to_owned())));
    let rec2 = rebuilt.get_day(day2).unwrap();
    assert!(rec2.has_id(&TallyID("A2FB44".to_owned())));
    assert!(!rec2.has_id(&TallyID("7D3DF5B5".to_owned())));
    assert!(rebuilt
        .mapping
        .map(&TallyID("a2fb44".to_owned()))
        .is_some());
}

#[test]
fn persistence_backend_round_trip() {
    let mut backend = MemoryPersistence::new();
    assert!(backend.load_day(Day::new(1)).is_none());
    assert!(backend.load_mapping().is_none());
    assert!(backend.list_days().is_empty());

    let mut rec = AttendanceDay::new(Day::new(1));
    rec.add_id(TallyID("A2FB44".to_owned()));
    backend.save_day(Day::new(1), &rec).unwrap();
    let loaded = backend.load_day(Day::new(1)).unwrap();
    assert!(loaded.has_id(&TallyID("A2FB44".to_owned())));
    assert_eq!(backend.list_days(), vec![Day::new(1)]);
}

#[test]
fn unwritable_backend_fails_saves() {
    let mut backend = MemoryPersistence::new_unwritable();
    let rec = AttendanceDay::new(Day::new(1));
    assert!(matches!(
        backend.save_day(Day::new(1), &rec),
        Err(TallyError::PersistenceError)
    ));
    assert!(backend.load_day(Day::new(1)).is_none());
}
