use hyperscale::bridge::artifact::{
    attach_metadata, extract_metadata, read_uleb128, write_uleb128, CUSTOM_SECTION_ID,
};
use hyperscale::bridge::error::{FramingFault, VmStaticsError};
use hyperscale::bridge::package::{
    admit_package, component_func_exports, outermost_funcs, PART_BROKEN, PART_ENTER, PART_FAULT, PART_FUNC,
    PART_LEAVE, PART_OTHER,
};
use hyperscale::bridge::checks::MetadataLimits;
use hyperscale::bridge::expr::{Expr, RoleId};
use hyperscale::bridge::metadata::PackageMetadata;
use hyperscale::bridge::signature::{
    AbiParam, Accessibility, Clause, MethodSignature, ModeExpr, ParamType, TargetExpr,
};
use hyperscale::bridge::value::Value;
use wat::parse_str;

const LIMITS: MetadataLimits = MetadataLimits {
    max_bytes: 65_536,
    max_event_types: 64,
    max_clause_depth: 4,
    max_expr_depth: 8,
    max_value_depth: 8,
    max_effects: 128,
};

const VAULT: RoleId = RoleId(1);

fn vault_of(owner: Expr, resource: Expr) -> Expr {
    Expr::ChildKey { owner: Box::new(owner), role: VAULT, material: vec![resource] }
}

/// An account: it pays out of a vault, and is paid into one.
fn account_metadata() -> PackageMetadata {
    let mut metadata = PackageMetadata::default();
    metadata.insert_method(
        "withdraw".into(),
        MethodSignature {
            accessibility: Accessibility::RequiresTargetAuth,
            params: vec![ParamType::Address, ParamType::U128],
            abi: vec![AbiParam::Handle(0), AbiParam::Derived(Expr::Arg(1))],
            outputs: vec![Expr::Arg(0)],
            effects: vec![Clause::Effect {
                target: TargetExpr::Point(vault_of(Expr::SelfAddr, Expr::Arg(0))),
                mode: ModeExpr::Reserve(Expr::Arg(1)),
            }],
            calls: vec![],
        },
    );
    metadata.insert_method(
        "deposit".into(),
        MethodSignature {
            params: vec![ParamType::Bucket],
            abi: vec![AbiParam::Handle(0), AbiParam::Bucket(0)],
            effects: vec![Clause::Effect {
                target: TargetExpr::Point(vault_of(
                    Expr::SelfAddr,
                    Expr::ResourceOf(Box::new(Expr::Arg(0))),
                )),
                mode: ModeExpr::Delta,
            }],
            ..MethodSignature::default()
        },
    );
    metadata.events = vec!["withdrawn".into(), "deposited".into()];
    metadata
}

/// A book: it places entries in order, and sweeps a range of them.
fn book_metadata() -> PackageMetadata {
    let mut metadata = PackageMetadata::default();
    metadata.insert_method(
        "place".into(),
        MethodSignature {
            params: vec![ParamType::U64],
            effects: vec![Clause::Effect {
                target: TargetExpr::Entry {
                    owner: Expr::SelfAddr,
                    collection: RoleId(9),
                    order: Expr::Pack {
                        hi: Box::new(Expr::Arg(0)),
                        lo: Box::new(Expr::FreshId { slot: 0 }),
                    },
                },
                mode: ModeExpr::Write,
            }],
            ..MethodSignature::default()
        },
    );
    metadata.insert_method(
        "sweep".into(),
        MethodSignature {
            params: vec![ParamType::U128],
            effects: vec![Clause::Effect {
                target: TargetExpr::Range {
                    owner: Expr::SelfAddr,
                    collection: RoleId(9),
                    lo: Expr::Literal(Value::U128(0)),
                    hi: Expr::Arg(0),
                    cap: 16,
                },
                mode: ModeExpr::Locked,
            }],
            ..MethodSignature::default()
        },
    );
    metadata
}

/// A component exporting one no-argument function per name.
fn component_exporting(names: &[&str]) -> Vec<u8> {
    let mut source = String::from("(component\n  (core module $m\n");
    for index in 0..names.len() {
        source.push_str(&format!("    (func (export \"f{index}\"))\n"));
    }
    source.push_str("  )\n  (core instance $i (instantiate $m))\n");
    for (index, name) in names.iter().enumerate() {
        source.push_str(&format!(
            "  (func (export \"{name}\") (canon lift (core func $i \"f{index}\")))\n"
        ));
    }
    source.push(')');
    parse_str(&source).expect("the component assembles")
}

/// Metadata declaring one empty signature per method name.
fn declaring(methods: &[&str]) -> PackageMetadata {
    let mut metadata = PackageMetadata::default();
    for method in methods {
        metadata.insert_method((*method).into(), MethodSignature::default());
    }
    metadata
}

/// The smallest well-formed artifact shape the walk accepts: a
/// preamble and nothing else.
fn bare() -> Vec<u8> {
    let mut out = b"\0asm".to_vec();
    out.extend_from_slice(&[0x0d, 0x00, 0x01, 0x00]);
    out
}

/// A preamble followed by one non-custom section carrying `body`.
fn with_section(id: u8, body: &[u8]) -> Vec<u8> {
    let mut out = bare();
    out.push(id);
    write_uleb128(body.len(), &mut out);
    out.extend_from_slice(body);
    out
}

#[test]
fn an_artifact_declares_the_metadata_it_was_attached() {
    for metadata in [account_metadata, book_metadata] {
        let plain = with_section(1, b"code goes here");
        assert_eq!(extract_metadata(&plain, &LIMITS).expect("walks"), None);

        let artifact = attach_metadata(&plain, &metadata(), &LIMITS).expect("attaches");
        assert_eq!(
            extract_metadata(&artifact, &LIMITS).expect("walks"),
            Some(metadata())
        );
        // The code is untouched and the artifact is a different one.
        assert!(artifact.starts_with(&plain));
        assert_ne!(artifact, plain);
    }
}

#[test]
fn different_metadata_makes_a_different_artifact() {
    // What content addressing over the whole artifact buys: the
    // declared effects cannot drift from the code under one address.
    let plain = with_section(1, b"code");
    let one = attach_metadata(&plain, &account_metadata(), &LIMITS).expect("attaches");
    let other = attach_metadata(&plain, &book_metadata(), &LIMITS).expect("attaches");
    assert_ne!(one, other);
}

#[test]
fn the_section_is_found_past_other_custom_sections() {
    // A real component carries name and producers sections; the walk
    // has to skip custom sections it does not know, and must not
    // match on a prefix of the name either.
    let mut plain = with_section(1, b"code");
    for name in ["name", "producers", "hyperscale:effect-metadata-x"] {
        let mut content = Vec::new();
        write_uleb128(name.len(), &mut content);
        content.extend_from_slice(name.as_bytes());
        content.extend_from_slice(b"payload");
        plain.push(CUSTOM_SECTION_ID);
        write_uleb128(content.len(), &mut plain);
        plain.extend_from_slice(&content);
    }
    assert_eq!(extract_metadata(&plain, &LIMITS).expect("walks"), None);

    let artifact = attach_metadata(&plain, &account_metadata(), &LIMITS).expect("attaches");
    assert_eq!(
        extract_metadata(&artifact, &LIMITS).expect("walks"),
        Some(account_metadata())
    );
}

#[test]
fn a_second_metadata_section_is_refused() {
    let artifact =
        attach_metadata(&with_section(1, b"code"), &account_metadata(), &LIMITS).expect("attaches");
    // Attaching again is refused rather than producing an artifact
    // whose metadata is ambiguous.
    assert!(attach_metadata(&artifact, &book_metadata(), &LIMITS).is_err());

    // And an artifact assembled with two anyway does not extract.
    let mut doubled = artifact.clone();
    doubled.extend_from_slice(&artifact[with_section(1, b"code").len()..]);
    assert!(extract_metadata(&doubled, &LIMITS).is_err());
}

#[test]
fn malformed_framing_is_refused_rather_than_walked() {
    let artifact =
        attach_metadata(&with_section(1, b"code"), &account_metadata(), &LIMITS).expect("attaches");

    // No preamble at all, and a preamble that is not wasm's.
    assert!(extract_metadata(b"", &LIMITS).is_err());
    assert!(extract_metadata(&artifact[..4], &LIMITS).is_err());
    assert!(extract_metadata(&[0u8; 16], &LIMITS).is_err());

    // A section claiming more bytes than the artifact holds.
    let mut overrun = bare();
    overrun.push(1);
    write_uleb128(64, &mut overrun);
    overrun.extend_from_slice(b"short");
    assert!(extract_metadata(&overrun, &LIMITS).is_err());

    // A length that never terminates, and one padded past 32 bits.
    let mut truncated = bare();
    truncated.extend_from_slice(&[1, 0x80]);
    assert!(extract_metadata(&truncated, &LIMITS).is_err());
    let mut oversized = bare();
    oversized.extend_from_slice(&[1, 0x80, 0x80, 0x80, 0x80, 0x80, 0x00]);
    assert!(extract_metadata(&oversized, &LIMITS).is_err());

    // A custom section with no room for its own name.
    let mut nameless = bare();
    nameless.push(CUSTOM_SECTION_ID);
    write_uleb128(0, &mut nameless);
    assert!(extract_metadata(&nameless, &LIMITS).is_err());

    // A name longer than the section that carries it.
    let mut overlong = bare();
    let mut content = Vec::new();
    write_uleb128(64, &mut content);
    content.extend_from_slice(b"name");
    overlong.push(CUSTOM_SECTION_ID);
    write_uleb128(content.len(), &mut overlong);
    overlong.extend_from_slice(&content);
    assert!(extract_metadata(&overlong, &LIMITS).is_err());

    // Truncating the payload leaves the framing intact and the
    // metadata undecodable, which is a refusal and not a None.
    let mut clipped = artifact.clone();
    clipped.truncate(artifact.len() - 1);
    assert!(extract_metadata(&clipped, &LIMITS).is_err());
}

#[test]
fn a_corrupt_payload_is_refused_rather_than_read() {
    let plain = with_section(1, b"code");
    let artifact = attach_metadata(&plain, &account_metadata(), &LIMITS).expect("attaches");
    // Every byte the section's payload occupies: a change either
    // fails to decode or names different metadata, never silently
    // the same.
    for index in plain.len()..artifact.len() {
        let mut mutated = artifact.clone();
        mutated[index] ^= 0xFF;
        if let Ok(Some(metadata)) = extract_metadata(&mutated, &LIMITS) {
            assert_ne!(metadata, account_metadata());
        }
    }
}

#[test]
fn a_publish_admits_metadata_the_component_backs() {
    let component = component_exporting(&["deposit", "withdraw"]);
    let metadata = declaring(&["deposit", "withdraw"]);
    let artifact = attach_metadata(&component, &metadata, &LIMITS).expect("attaches");
    assert_eq!(admit_package(&artifact, &LIMITS).expect("admits"), metadata);

    // Declaring fewer methods than the component exports is fine:
    // an export nothing declares is an export nothing can call.
    let partial = attach_metadata(&component, &declaring(&["deposit"]), &LIMITS).expect("attaches");
    assert!(admit_package(&partial, &LIMITS).is_ok());
}

#[test]
fn a_publish_refuses_a_method_the_component_does_not_export() {
    let component = component_exporting(&["deposit"]);
    let artifact =
        attach_metadata(&component, &declaring(&["deposit", "withdraw"]), &LIMITS).expect("attaches");
    let refused = admit_package(&artifact, &LIMITS).expect_err("refuses");
    assert!(matches!(&refused, VmStaticsError::Unexported { method } if method.contains("withdraw")), "{refused:?}");

    // The name has to match exactly — a component export is looked
    // up by the name a manifest node writes.
    let renamed = attach_metadata(
        &component_exporting(&["deposit2"]),
        &declaring(&["deposit"]), &LIMITS)
    .expect("attaches");
    assert!(admit_package(&renamed, &LIMITS).is_err());
}

#[test]
fn a_publish_refuses_an_artifact_that_declares_nothing() {
    // No signatures, no deploy: an artifact without the section is
    // refused rather than published with an empty table.
    let component = component_exporting(&["deposit"]);
    assert!(admit_package(&component, &LIMITS).is_err());
    // And one whose section is not parseable as an artifact at all.
    assert!(admit_package(&with_section(1, b"code"), &LIMITS).is_err());
}

#[test]
fn only_the_outermost_components_exports_count() {
    // A nested component's exports are its own; nothing a manifest
    // names can reach them, so they cannot back a declaration.
    let inner = "(component (core module $m (func (export \"f\"))) \
         (core instance $i (instantiate $m)) \
         (func (export \"hidden\") (canon lift (core func $i \"f\"))))";
    let outer = parse_str(format!(
        "(component (core module $m (func (export \"f\"))) \
         (core instance $i (instantiate $m)) \
         (func (export \"shown\") (canon lift (core func $i \"f\"))) \
         {inner})"
    ))
    .expect("the component assembles");

    assert_eq!(
        component_func_exports(&outer).expect("parses"),
        vec!["shown".to_owned()]
    );
    let artifact = attach_metadata(&outer, &declaring(&["hidden"]), &LIMITS).expect("attaches");
    assert!(admit_package(&artifact, &LIMITS).is_err());
}

#[test]
fn every_refusal_of_an_artifact_names_its_reason() {
    let framing = |bytes: &[u8]| extract_metadata(bytes, &LIMITS).unwrap_err();
    assert_eq!(framing(b"\0as"), VmStaticsError::Framing(FramingFault::Preamble));
    let mut open = bare();
    open.extend_from_slice(&[1, 0x80]);
    assert_eq!(framing(&open), VmStaticsError::Framing(FramingFault::LengthTruncated));
    let mut wide = bare();
    wide.extend_from_slice(&[1, 0x80, 0x80, 0x80, 0x80, 0x80, 0x00]);
    assert_eq!(framing(&wide), VmStaticsError::Framing(FramingFault::LengthRange));
    let mut over = bare();
    over.extend_from_slice(&[1, 9, 0]);
    assert_eq!(framing(&over), VmStaticsError::Framing(FramingFault::SectionOverrun));
    let mut name = bare();
    name.extend_from_slice(&[0, 1, 9]);
    assert_eq!(framing(&name), VmStaticsError::Framing(FramingFault::NameOverrun));

    let plain = component_exporting(&["deposit"]);
    assert_eq!(admit_package(&plain, &LIMITS), Err(VmStaticsError::Undeclared));
    let artifact = attach_metadata(&plain, &declaring(&["deposit"]), &LIMITS).unwrap();
    assert_eq!(
        attach_metadata(&artifact, &declaring(&[]), &LIMITS),
        Err(VmStaticsError::AlreadyDeclared)
    );
    let mut doubled = artifact.clone();
    doubled.extend_from_slice(&artifact[plain.len()..]);
    assert_eq!(framing(&doubled), VmStaticsError::Framing(FramingFault::Duplicate));

    let mut junk = with_section(1, b"code");
    let attached = attach_metadata(&junk, &declaring(&["deposit"]), &LIMITS).unwrap();
    let refused = admit_package(&attached, &LIMITS).unwrap_err();
    assert!(matches!(&refused, VmStaticsError::Unparseable { reason } if !reason.is_empty()));
    assert!(refused.text(&LIMITS).starts_with("artifact does not parse: "));
    junk.push(7);
    assert!(attach_metadata(&junk, &declaring(&[]), &LIMITS).is_err());
}

#[test]
fn lengths_read_back_as_they_were_written() {
    for value in [0usize, 1, 127, 128, 624_485, u32::MAX as usize] {
        let mut out = vec![0xAA];
        write_uleb128(value, &mut out);
        assert_eq!(read_uleb128(&out, 1), Ok((value, out.len())));
    }
    let mut out = Vec::new();
    write_uleb128(624_485, &mut out);
    assert_eq!(out, vec![0xE5, 0x8E, 0x26]);
}

#[test]
fn a_components_functions_come_as_it_exports_them() {
    let names = component_func_exports(&component_exporting(&["b", "a"])).unwrap();
    assert_eq!(names, vec!["b".to_owned(), "a".to_owned()]);
    assert!(matches!(
        component_func_exports(b"nothing"),
        Err(VmStaticsError::Unparseable { reason }) if reason.contains("magic")
    ));
    let parts = vec![
        (PART_ENTER, String::new()),
        (PART_FUNC, "inner".to_owned()),
        (PART_LEAVE, String::new()),
        (PART_FUNC, "outer".to_owned()),
        (PART_OTHER, "type".to_owned()),
    ];
    assert_eq!(outermost_funcs(&parts), Ok(vec!["outer".to_owned()]));
    let failing = vec![
        (PART_ENTER, String::new()),
        (PART_FAULT, "inner".to_owned()),
        (PART_LEAVE, String::new()),
        (PART_FAULT, "first".to_owned()),
        (PART_BROKEN, "second".to_owned()),
    ];
    assert_eq!(outermost_funcs(&failing), Err("first".to_owned()));
    let broken = vec![(PART_ENTER, String::new()), (PART_BROKEN, "cut off".to_owned())];
    assert_eq!(outermost_funcs(&broken), Err("cut off".to_owned()));
}
