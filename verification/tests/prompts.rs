use claimdag::prompts::{sweep_stale_claims_prompt, take_the_next_node_prompt, SweepArgs, TakeArgs};
use claimdag::DEFAULT_LEASE_SECS as DEFAULT_LEASE;

#[test]
fn every_prompt_renders_from_what_it_declares() {
    let said = take_the_next_node_prompt(&TakeArgs { actor: Some("reader".into()), lease_seconds: Some(60) });
    assert!(said.contains("actor reader"), "{said}");
    assert!(said.contains("60 second lease"), "{said}");
    assert!(said.contains("generation"), "{said}");

    let said = take_the_next_node_prompt(&TakeArgs { actor: None, lease_seconds: None });
    assert!(said.contains("the seat's own identity"), "{said}");
    assert!(said.contains(&format!("{DEFAULT_LEASE} second lease")), "{said}");

    let said = sweep_stale_claims_prompt(&SweepArgs { lease_seconds: None });
    assert!(said.contains(&format!("{DEFAULT_LEASE} seconds")), "{said}");
    assert!(said.contains("quiet is not the same as"), "{said}");
}

#[test]
fn a_blank_actor_is_the_seat() {
    let said = take_the_next_node_prompt(&TakeArgs { actor: Some("  \t".into()), lease_seconds: Some(5) });
    assert!(said.starts_with("Take the next claimable node as the seat's own identity, on a 5 second lease.\n\n"), "{said}");
    assert!(said.ends_with("tracker, cited to what it produced."), "{said}");
    let said = take_the_next_node_prompt(&TakeArgs { actor: Some(" x ".into()), lease_seconds: Some(5) });
    assert!(said.starts_with("Take the next claimable node as actor  x , on a 5 second lease."), "{said}");
    let swept = sweep_stale_claims_prompt(&SweepArgs { lease_seconds: Some(0) });
    assert!(swept.starts_with("Take back the claims that have been quiet longer than 0 seconds.\n"), "{swept}");
}
