use kon_rs::players::{IClient, Member, MemberList, SampleClient};
use kon_rs::{
    InstrumentType, INSTRUMENT_DRUMS, INSTRUMENT_ELECTRIC_GUITAR, INSTRUMENT_KEYBOARD,
    INSTRUMENT_VOCAL,
};

const ROSTER: &str = "name,property_name,value\n\
alice,instrument,Vocal\n\
alice,instrument,Drums\n\
bob,instrument,Keyboard\n\
carol,part,lead\n";

#[test]
fn roster_from_csv() {
    let list = MemberList::try_from_csv(ROSTER).unwrap();
    let members = list.members();
    assert_eq!(members.len(), 3);

    let find = |name: &str| -> &Member {
        members
            .iter()
            .find(|m| m.name() == name)
            .expect("missing member")
    };
    assert_eq!(find("alice").instruments().0, INSTRUMENT_VOCAL | INSTRUMENT_DRUMS);
    assert_eq!(find("bob").instruments().0, INSTRUMENT_KEYBOARD);
    assert_eq!(find("carol").instruments().0, 0);
}

#[test]
fn malformed_csv_refused() {
    // the second record drops a column
    let broken = "name,property_name,value\nalice,instrument\n";
    assert!(MemberList::try_from_csv(broken).is_none());
}

#[test]
fn instrument_filter_ops() {
    let mut list = MemberList::try_from_csv(ROSTER).unwrap();
    assert_eq!(list.filter().0, 0);
    list.add_filter(InstrumentType(INSTRUMENT_VOCAL));
    list.add_filter(InstrumentType(INSTRUMENT_DRUMS));
    assert_eq!(list.filter().0, INSTRUMENT_VOCAL | INSTRUMENT_DRUMS);
    list.remove_filter(InstrumentType(INSTRUMENT_VOCAL));
    assert_eq!(list.filter().0, INSTRUMENT_DRUMS);
    list.clear_instrument_filter();
    assert_eq!(list.filter().0, 0);
}

#[test]
fn member_new_keeps_fields() {
    let m = Member::new("dave", InstrumentType(INSTRUMENT_KEYBOARD));
    assert_eq!(m.name(), "dave");
    assert_eq!(m.instruments().0, INSTRUMENT_KEYBOARD);
}

#[test]
fn sample_client_roster_parses() {
    let mut client = SampleClient::default();
    let data = client.fetch().unwrap();
    let list = MemberList::try_from_csv(&data).expect("canned roster parses");
    let members = list.members();
    assert_eq!(members.len(), 3);
    let find = |name: &str| -> &Member {
        members
            .iter()
            .find(|m| m.name() == name)
            .expect("missing member")
    };
    assert_eq!(find("edogawa_conan").instruments().0, INSTRUMENT_VOCAL);
    assert_eq!(find("akai_shuichi").instruments().0, INSTRUMENT_ELECTRIC_GUITAR);
}
