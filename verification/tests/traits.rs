use okf::graph::LayoutMode;
use okf::theme::{status_glyph, tier_glyph};
use okf::severity::{ParseSeverityError, Severity};
use okf::syntax::Language;
use okf::concept_id::ConceptId;
use okf::links::{Link, LinkKind, ParseLinkKindError};
use okf::trust::{Actor, ActorKind, ParseActorKindError, ParseTrustTierError, Status, TrustTier};

#[test]
fn test_status_traits() {
    assert_eq!(Status::default(), Status::Stable);
    assert_eq!(Status::Stable.as_str(), "stable");
    assert_eq!(Status::Draft.as_str(), "draft");
    assert_eq!(Status::Deprecated.to_string(), "deprecated");
    assert_eq!(Status::Other("custom".into()).as_str(), "custom");

    let parsed: Status = "draft".parse().unwrap();
    assert_eq!(parsed, Status::Draft);
    let custom_parsed: Status = "experimental".parse().unwrap();
    assert_eq!(custom_parsed, Status::Other("experimental".into()));
}

#[test]
fn test_trust_tier_traits() {
    assert_eq!(TrustTier::default(), TrustTier::Unverified);
    assert_eq!(TrustTier::Unverified.as_str(), "unverified");
    assert_eq!(TrustTier::MachineConfirmed.as_str(), "machine-confirmed");
    assert_eq!(TrustTier::HumanReviewed.to_string(), "human-reviewed");

    assert_eq!("unverified".parse::<TrustTier>(), Ok(TrustTier::Unverified));
    assert_eq!(
        "machine-confirmed".parse::<TrustTier>(),
        Ok(TrustTier::MachineConfirmed)
    );
    assert_eq!(
        "machine_confirmed".parse::<TrustTier>(),
        Ok(TrustTier::MachineConfirmed)
    );
    assert_eq!(
        "human-reviewed".parse::<TrustTier>(),
        Ok(TrustTier::HumanReviewed)
    );
    assert_eq!(
        "human_reviewed".parse::<TrustTier>(),
        Ok(TrustTier::HumanReviewed)
    );
    assert_eq!(
        "invalid".parse::<TrustTier>(),
        Err(ParseTrustTierError("invalid".into()))
    );
}

#[test]
fn test_actor_and_actor_kind_traits() {
    let actor = Actor::from("human:walter".to_string());
    assert_eq!(actor.as_str(), "human:walter");
    assert_eq!(actor.kind(), ActorKind::Human);

    let parsed: Actor = "process:nightly".parse().unwrap();
    assert_eq!(parsed.kind(), ActorKind::Process);

    assert_eq!(ActorKind::Human.as_str(), "human");
    assert_eq!(ActorKind::Process.as_str(), "process");
    assert_eq!(ActorKind::Agent.to_string(), "agent");
    assert_eq!("human".parse::<ActorKind>(), Ok(ActorKind::Human));
    assert_eq!("process".parse::<ActorKind>(), Ok(ActorKind::Process));
    assert_eq!("agent".parse::<ActorKind>(), Ok(ActorKind::Agent));
    assert_eq!("other".parse::<ActorKind>(), Ok(ActorKind::Other));
    assert_eq!(
        "invalid".parse::<ActorKind>(),
        Err(ParseActorKindError("invalid".into()))
    );
}

#[test]
fn test_link_kind_traits() {
    assert_eq!(LinkKind::Absolute.as_str(), "absolute");
    assert_eq!(LinkKind::Relative.as_str(), "relative");
    assert_eq!(LinkKind::External.to_string(), "external");

    assert_eq!("absolute".parse::<LinkKind>(), Ok(LinkKind::Absolute));
    assert_eq!("relative".parse::<LinkKind>(), Ok(LinkKind::Relative));
    assert_eq!("external".parse::<LinkKind>(), Ok(LinkKind::External));
    assert_eq!("anchor".parse::<LinkKind>(), Ok(LinkKind::Anchor));
    assert_eq!("other".parse::<LinkKind>(), Ok(LinkKind::Other));
    assert_eq!(
        "invalid".parse::<LinkKind>(),
        Err(ParseLinkKindError("invalid".into()))
    );
}

#[test]
fn link_targets_are_classified() {
    assert_eq!(Link::classify("#top"), LinkKind::Anchor);
    assert_eq!(Link::classify("mailto:a@b.c"), LinkKind::External);
    assert_eq!(Link::classify("/tables/users.md"), LinkKind::Absolute);
    assert_eq!(Link::classify("../users.md"), LinkKind::Relative);
    assert_eq!(Link::classify(""), LinkKind::Other);
}

#[test]
fn test_concept_id_traits() {
    let id: ConceptId = "tables/orders".parse().unwrap();
    assert_eq!(id.as_ref(), &["tables".to_string(), "orders".to_string()]);
    assert_eq!(id.segments().as_slice(), &["tables".to_string(), "orders".to_string()]);

    let string_id: String = id.clone().into();
    assert_eq!(string_id, "tables/orders");

    let try_from_str = ConceptId::try_from("tables/users").unwrap();
    assert_eq!(try_from_str.to_string(), "tables/users");

    let try_from_string = ConceptId::try_from("metrics/revenue".to_string()).unwrap();
    assert_eq!(try_from_string.to_string(), "metrics/revenue");
}

#[test]
fn test_severity_traits() {
    assert_eq!(Severity::Info.as_str(), "info");
    assert_eq!(Severity::Warning.as_ref(), "warning");
    assert_eq!(Severity::Error.to_string(), "error");

    assert_eq!("info".parse::<Severity>(), Ok(Severity::Info));
    assert_eq!("warning".parse::<Severity>(), Ok(Severity::Warning));
    assert_eq!("warn".parse::<Severity>(), Ok(Severity::Warning));
    assert_eq!("error".parse::<Severity>(), Ok(Severity::Error));
    assert_eq!(
        "invalid".parse::<Severity>(),
        Err(ParseSeverityError("invalid".into()))
    );

    assert!(Severity::Info < Severity::Warning);
    assert!(Severity::Warning < Severity::Error);
    assert!(Severity::Error >= Severity::Warning);
    assert!(Severity::Error.at_least(&Severity::Warning));
    assert!(!Severity::Info.at_least(&Severity::Warning));
}

#[test]
fn test_language_traits() {
    assert_eq!(Language::Python.as_str(), "python");
    assert_eq!(Language::JavaScript.as_ref(), "javascript");
    assert_eq!(Language::TypeScript.to_string(), "typescript");

    let parsed: Language = "python".parse().unwrap();
    assert_eq!(parsed, Language::Python);
    let parsed_rs: Language = "rust".parse().unwrap();
    assert_eq!(parsed_rs, Language::Rust);
    let parsed_unknown: Language = "nonexistent_lang".parse().unwrap();
    assert_eq!(parsed_unknown, Language::Unknown);
}

#[test]
fn layout_modes_cycle_and_glyphs_name_tiers_and_statuses() {
    assert_eq!(LayoutMode::default(), LayoutMode::Force);
    assert_eq!(LayoutMode::Force.next(), LayoutMode::Radial);
    assert_eq!(LayoutMode::Radial.next(), LayoutMode::Force);
    assert_eq!(LayoutMode::Force.name(), "force");
    assert_eq!(LayoutMode::Radial.name(), "radial");
    assert_eq!(tier_glyph(TrustTier::HumanReviewed), "◆");
    assert_eq!(tier_glyph(TrustTier::MachineConfirmed), "●");
    assert_eq!(tier_glyph(TrustTier::Unverified), "○");
    assert_eq!(status_glyph(&Status::Draft), "◐");
    assert_eq!(status_glyph(&Status::Deprecated), "◌");
    assert_eq!(status_glyph(&Status::Stable), "●");
    assert_eq!(status_glyph(&Status::Other("x".to_string())), "●");
}
