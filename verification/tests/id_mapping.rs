use tally_terminal::id_mapping::{IDMapping, Name};
use tally_terminal::tally_id::TallyID;

#[test]
fn basic() {
    let mut map = IDMapping::new();
    let id1 = TallyID("A2Fb44".to_owned());
    let name1 = Name {
        first: "Max".to_owned(),
        last: "Mustermann".to_owned(),
    };

    map.add_mapping(id1.clone(), name1.clone());

    let res = map.map(&id1);

    assert_eq!(res, Some(&name1));
}

#[test]
fn multiple() {
    let mut map = IDMapping::new();
    let id1 = TallyID("A2Fb44".to_owned());
    let name1 = Name {
        first: "Max".to_owned(),
        last: "Mustermann".to_owned(),
    };

    let id2 = TallyID("7D3DF5B5".to_owned());
    let name2 = Name {
        first: "First".to_owned(),
        last: "Last".to_owned(),
    };

    map.add_mapping(id1.clone(), name1.clone());
    map.add_mapping(id2.clone(), name2.clone());

    let res = map.map(&id1);
    assert_eq!(res, Some(&name1));

    let res = map.map(&id2);
    assert_eq!(res, Some(&name2));
}

#[test]
fn lookup_is_case_insensitive() {
    let mut map = IDMapping::new();
    map.add_mapping(
        TallyID("a2fb44".to_owned()),
        Name {
            first: "Max".to_owned(),
            last: "Mustermann".to_owned(),
        },
    );

    let res = map.map(&TallyID("A2FB44".to_owned()));
    assert!(res.is_some());
    assert_eq!(res.unwrap().first, "Max");
}

#[test]
fn last_write_wins() {
    let mut map = IDMapping::new();
    let id = TallyID("A2FB44".to_owned());
    map.add_mapping(
        id.clone(),
        Name {
            first: "Max".to_owned(),
            last: "Mustermann".to_owned(),
        },
    );
    map.add_mapping(
        id.clone(),
        Name {
            first: "Erika".to_owned(),
            last: "Musterfrau".to_owned(),
        },
    );

    let res = map.map(&id).unwrap();
    assert_eq!(res.first, "Erika");
    assert_eq!(res.last, "Musterfrau");
}

#[test]
fn missing_id_unmapped() {
    let map = IDMapping::new();
    assert!(map.map(&TallyID("A2FB44".to_owned())).is_none());
}
