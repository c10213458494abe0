use claimdag::handles::Handles;
use claimdag::WorkId;

#[test]
fn an_unknown_id_draws_as_hex() {
    let id = WorkId::from_hex("0123456789abcdef0123456789abcdef").unwrap();
    assert_eq!(Handles::default().name_for(id), "01234567");
}

#[test]
fn a_name_is_trimmed_and_a_blank_one_or_a_bad_key_is_left_out() {
    let hex = "0123456789abcdef0123456789abcdef";
    let id = WorkId::from_hex(hex).unwrap();
    let mut handles = Handles::default();
    handles.add_entry(hex, "   ");
    assert_eq!(handles.name_for(id), "01234567");
    handles.add_entry("not an id", "someone");
    assert_eq!(handles.name_for(id), "01234567");
    handles.add_entry(hex, "  planner \n");
    assert_eq!(handles.name_for(id), "planner");
    handles.add_entry(hex, "author");
    assert_eq!(handles.name_for(id), "author", "a later entry replaces the name");
}
