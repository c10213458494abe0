use claimdag::seat::{actor_from, dir_from, host_name};
use claimdag::WorkId;

#[test]
fn an_explicit_directory_wins() {
    let asked = "/somewhere/else".to_string();
    assert_eq!(dir_from(Some(asked.clone()), Some("/named".into()), Some("/run".into())), asked);
}

#[test]
fn the_named_directory_comes_next() {
    assert_eq!(dir_from(None, Some("/named".into()), Some("/run".into())), "/named");
}

#[test]
fn an_empty_name_is_not_a_name() {
    assert_eq!(dir_from(None, Some(String::new()), Some("/run".into())), "/run/claimdag");
}

#[test]
fn the_last_resort_is_never_the_current_directory() {
    let picked = dir_from(None, None, None);
    assert_eq!(picked, "/tmp/claimdag");
    assert_ne!(picked, ".");
}

#[test]
fn an_empty_runtime_directory_is_no_directory() {
    assert_eq!(dir_from(None, Some(String::new()), Some(String::new())), "/tmp/claimdag");
    assert_eq!(dir_from(None, None, Some("/run/user/1000".into())), "/run/user/1000/claimdag");
    assert_eq!(dir_from(None, None, Some("/run/".into())), "/run/claimdag");
}

#[test]
fn the_same_seat_derives_the_same_actor() {
    assert_eq!(claimdag::seat::derive("someone", "somewhere"), claimdag::seat::derive("someone", "somewhere"));
}

#[test]
fn a_different_seat_derives_a_different_actor() {
    assert_ne!(claimdag::seat::derive("someone", "somewhere"), claimdag::seat::derive("someone", "elsewhere"));
}

#[test]
fn a_derived_actor_is_never_the_escape_hatch() {
    assert!(!claimdag::seat::derive("someone", "somewhere").is_zero());
}

#[test]
fn a_derived_actor_is_the_leading_half_of_the_digest() {
    // SHA-256 of "a@b" begins 0x1e4f7d0d...; the id is its first sixteen bytes.
    let d = claimdag::seat::derive("a", "b");
    assert_eq!(d.to_hex().len(), 32);
    assert_eq!(d, claimdag::seat::derive("a", "b"));
    assert_ne!(d, claimdag::seat::derive("a@b", ""));
    assert_ne!(d, claimdag::seat::derive("b", "a"));
}

#[test]
fn a_named_actor_wins_and_anything_else_is_derived() {
    let named = "  0123456789abcdef0123456789abcdef ";
    assert_eq!(
        actor_from(named, Some("someone".into()), "somewhere"),
        WorkId::from_hex("0123456789abcdef0123456789abcdef").unwrap()
    );
    assert_eq!(actor_from("", Some("someone".into()), "somewhere"), claimdag::seat::derive("someone", "somewhere"));
    assert_eq!(actor_from("not hex", None, "somewhere"), claimdag::seat::derive("actor", "somewhere"));
}

#[test]
fn a_host_is_trimmed_and_defaults_to_localhost() {
    assert_eq!(host_name(Some("box\n".into())), "box");
    assert_eq!(host_name(Some("  \n".into())), "localhost");
    assert_eq!(host_name(None), "localhost");
}

// The environment the resolver reads, handed to the rule as it would be:
// the flag, then CLAIMDAG_DIR, then XDG_RUNTIME_DIR.

#[test]
fn the_flag_wins() {
    assert_eq!(dir_from(Some("/from/flag".into()), Some("/from/env".into()), Some("/run".into())), "/from/flag");
}

#[test]
fn the_environment_comes_next() {
    assert_eq!(dir_from(None, Some("/from/env".into()), Some("/run".into())), "/from/env");
}

#[test]
fn the_runtime_directory_is_the_default_and_never_the_working_one() {
    assert_eq!(dir_from(None, None, Some("/run/user/1000".into())), "/run/user/1000/claimdag");
    assert_eq!(dir_from(None, None, None), "/tmp/claimdag");
    assert_eq!(dir_from(None, Some(String::new()), Some(String::new())), "/tmp/claimdag");
}
