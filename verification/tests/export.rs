use tally_terminal::day::Day;
use tally_terminal::id_mapping::Name;
use tally_terminal::id_store::IDStore;
use tally_terminal::tally_id::TallyID;

#[test]
fn export_renders_expected_matrix() {
    let mut store = IDStore::new();
    let day1 = Day::new(1);
    let day2 = Day::new(2);
    store.add_id(TallyID("bb".to_owned()), day1);
    store.add_id(TallyID("AA".to_owned()), day1);
    store.add_id(TallyID("AA".to_owned()), day2);
    store
        .add_mapping(
            TallyID("aa".to_owned()),
            Name {
                first: "Max".to_owned(),
                last: "Mustermann".to_owned(),
            },
        )
        .unwrap();

    let csv = store.export_csv();
    assert_eq!(
        csv,
        "ID;Last;First;00000001;00000002\nAA;Mustermann;Max;x;x\nBB;;;x;\n"
    );
}

#[test]
fn export_is_reproducible() {
    let mut store = IDStore::new();
    store.add_id(TallyID("7d3df5b5".to_owned()), Day::new(3));
    store.add_id(TallyID("A2FB44".to_owned()), Day::new(3));
    let first = store.export_csv();
    let second = store.export_csv();
    assert_eq!(first, second);
}

#[test]
fn export_does_not_depend_on_letter_case_of_reads() {
    let mut one = IDStore::new();
    one.add_id(TallyID("bb".to_owned()), Day::new(1));
    let mut other = IDStore::new();
    other.add_id(TallyID("BB".to_owned()), Day::new(1));
    assert_eq!(one.export_csv(), other.export_csv());
}

#[test]
fn export_of_empty_store() {
    let store = IDStore::new();
    assert_eq!(store.export_csv(), "ID;Last;First\n");
}

#[test]
fn rows_are_sorted_and_unique() {
    let mut store = IDStore::new();
    store.add_id(TallyID("CC".to_owned()), Day::new(1));
    store.add_id(TallyID("aa".to_owned()), Day::new(1));
    store.add_id(TallyID("BB".to_owned()), Day::new(2));
    store.add_id(TallyID("AA".to_owned()), Day::new(2));

    let csv = store.export_csv();
    assert_eq!(
        csv,
        "ID;Last;First;00000001;00000002\nAA;;;x;x\nBB;;;;x\nCC;;;x;\n"
    );
}
