use okf::date::DateTime;
use okf::trust::{is_stale_at, latest_verification, Generated, Status, TrustTier, Verification};

#[test]
fn status_defaults_to_stable_and_keeps_unknown_values() {
    assert_eq!(Status::parse(None), Status::Stable);
    assert_eq!(Status::parse(Some("draft")), Status::Draft);
    assert_eq!(Status::parse(Some("deprecated")), Status::Deprecated);
    let other = Status::parse(Some("experimental"));
    assert!(!other.is_known());
    assert_eq!(other.to_string(), "experimental");
}

#[test]
fn staleness_is_an_instant_comparison() {
    let stale_after = DateTime::parse("2026-09-23T00:00:00Z");
    assert!(!is_stale_at(
        stale_after,
        DateTime::parse("2026-09-22T23:59:59Z").unwrap()
    ));
    assert!(is_stale_at(
        stale_after,
        DateTime::parse("2026-09-23T00:00:00Z").unwrap()
    ));
    assert!(is_stale_at(
        stale_after,
        DateTime::parse("2026-09-24T12:00:00Z").unwrap()
    ));
    assert!(!is_stale_at(
        None,
        DateTime::parse("2099-01-01T00:00:00Z").unwrap()
    ));
    // Date-only or offset-less values are ignored
    assert!(!is_stale_at(
        DateTime::parse("2026-09-23"),
        DateTime::parse("2026-09-24T00:00:00Z").unwrap()
    ));
    assert!(!is_stale_at(
        DateTime::parse("2026-09-23T00:00:00"),
        DateTime::parse("2026-09-24T00:00:00Z").unwrap()
    ));
}

#[test]
fn offsets_are_compared_as_instants() {
    let stale_after = DateTime::parse("2026-09-23T02:00:00+02:00");
    assert!(is_stale_at(stale_after, DateTime::parse("2026-09-23T00:00:00Z").unwrap()));
    assert!(!is_stale_at(stale_after, DateTime::parse("2026-09-22T23:59:59Z").unwrap()));
}

fn yaml(text: &str) -> okf::yaml::Value {
    okf::yaml::Value::parse(text).unwrap()
}

#[test]
fn bare_verified_mapping_is_a_one_element_list() {
    let bare = Verification::list_from_value(&yaml("{ by: human:walter, at: 2026-06-25T09:00:00Z }"));
    assert_eq!(bare.len(), 1);
    assert!(bare[0].by.as_ref().unwrap().is_human());
    assert_eq!(TrustTier::derive(&bare), TrustTier::HumanReviewed);
}

#[test]
fn trust_tiers_key_off_the_human_prefix() {
    assert_eq!(TrustTier::derive(&[]), TrustTier::Unverified);
    let machine = Verification::list_from_value(&yaml("- { by: process:finance-nightly, at: 2026-06-26T02:00:00Z }"));
    assert_eq!(TrustTier::derive(&machine), TrustTier::MachineConfirmed);
    let both = Verification::list_from_value(&yaml(
        "- { by: human:walter, at: 2026-06-25T09:00:00Z }\n- { by: process:finance-nightly, at: 2026-06-26T02:00:00Z }",
    ));
    assert_eq!(both.len(), 2);
    assert_eq!(TrustTier::derive(&both), TrustTier::HumanReviewed);
    assert!(TrustTier::HumanReviewed > TrustTier::MachineConfirmed);
    let latest = &both[latest_verification(&both).unwrap()];
    assert_eq!(latest.at.as_ref().unwrap().raw, "2026-06-26T02:00:00Z");
}

#[test]
fn malformed_verification_events_do_not_raise_trust() {
    let malformed = Verification::list_from_value(&yaml(
        "- { by: human:walter, at: yesterday }\n- { by: human:other, at: 2026-06-26 }\n- { by: human:third }",
    ));
    assert_eq!(malformed.len(), 3);
    assert!(malformed.iter().all(|event| !event.is_valid()));
    assert_eq!(TrustTier::derive(&malformed), TrustTier::Unverified);
    assert_eq!(latest_verification(&malformed), None);
}

#[test]
fn generated_reads_actor_and_datetime() {
    let g = Generated::from_value(&yaml("{ by: reference_agent/gemini-2.5-pro, at: 2026-06-20T22:53:05Z }")).unwrap();
    assert_eq!(g.by.as_ref().unwrap().producer(), Some("reference_agent"));
    assert!(g.at.as_ref().unwrap().is_valid());
    assert!(Generated::from_value(&yaml("just a string")).is_none());
}
