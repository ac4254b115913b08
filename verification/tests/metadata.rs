use hyperscale::bridge::codec::{decode, encode};
use hyperscale::bridge::error::{SignatureFault, VmStaticsError};
use hyperscale::bridge::checks::MetadataLimits;
use hyperscale::bridge::expr::{Expr, RoleId};
use hyperscale::bridge::metadata::{decode_metadata, encode_metadata, PackageMetadata};
use hyperscale::bridge::signature::{
    AbiParam, Accessibility, CallSite, Clause, MethodEntry, MethodSignature, ModeExpr, ParamType,
    TargetExpr,
};
use hyperscale::bridge::value::Value;
use hyperscale::types::SubstateKey;

const LIMITS: MetadataLimits = MetadataLimits {
    max_bytes: 65_536,
    max_event_types: 64,
    max_clause_depth: 4,
    max_expr_depth: 8,
    max_value_depth: 8,
    max_effects: 128,
};

const VAULT: RoleId = RoleId(1);

fn vault_of(owner: Expr, resource: Expr) -> Expr {
    Expr::ChildKey { owner: Box::new(owner), role: VAULT, material: vec![resource] }
}

/// An account: it pays out of a vault, and is paid into one.
fn account_metadata() -> PackageMetadata {
    let mut metadata = PackageMetadata::default();
    metadata.insert_method(
        "withdraw".into(),
        MethodSignature {
            accessibility: Accessibility::RequiresTargetAuth,
            params: vec![ParamType::Address, ParamType::U128],
            abi: vec![AbiParam::Handle(0), AbiParam::Derived(Expr::Arg(1))],
            outputs: vec![Expr::Arg(0)],
            effects: vec![Clause::Effect {
                target: TargetExpr::Point(vault_of(Expr::SelfAddr, Expr::Arg(0))),
                mode: ModeExpr::Reserve(Expr::Arg(1)),
            }],
            calls: vec![],
        },
    );
    metadata.insert_method(
        "deposit".into(),
        MethodSignature {
            params: vec![ParamType::Bucket],
            abi: vec![AbiParam::Handle(0), AbiParam::Bucket(0)],
            effects: vec![Clause::Effect {
                target: TargetExpr::Point(vault_of(
                    Expr::SelfAddr,
                    Expr::ResourceOf(Box::new(Expr::Arg(0))),
                )),
                mode: ModeExpr::Delta,
            }],
            ..MethodSignature::default()
        },
    );
    metadata.events = vec!["withdrawn".into(), "deposited".into()];
    metadata
}

/// A book: it places entries in order, and sweeps a range of them.
fn book_metadata() -> PackageMetadata {
    let mut metadata = PackageMetadata::default();
    metadata.insert_method(
        "place".into(),
        MethodSignature {
            params: vec![ParamType::U64],
            effects: vec![Clause::Effect {
                target: TargetExpr::Entry {
                    owner: Expr::SelfAddr,
                    collection: RoleId(9),
                    order: Expr::Pack {
                        hi: Box::new(Expr::Arg(0)),
                        lo: Box::new(Expr::FreshId { slot: 0 }),
                    },
                },
                mode: ModeExpr::Write,
            }],
            ..MethodSignature::default()
        },
    );
    metadata.insert_method(
        "sweep".into(),
        MethodSignature {
            params: vec![ParamType::U128],
            effects: vec![Clause::Effect {
                target: TargetExpr::Range {
                    owner: Expr::SelfAddr,
                    collection: RoleId(9),
                    lo: Expr::Literal(Value::U128(0)),
                    hi: Expr::Arg(0),
                    cap: 16,
                },
                mode: ModeExpr::Locked,
            }],
            ..MethodSignature::default()
        },
    );
    metadata
}

fn stdlib() -> Vec<(&'static str, PackageMetadata)> {
    vec![("account", account_metadata()), ("book", book_metadata())]
}

/// A signature whose only effect points at `expr`.
fn signature_over(expr: Expr) -> MethodSignature {
    MethodSignature {
        effects: vec![Clause::Effect {
            target: TargetExpr::Point(expr),
            mode: ModeExpr::Write,
        }],
        ..MethodSignature::default()
    }
}

fn one_method(signature: MethodSignature) -> PackageMetadata {
    let mut metadata = PackageMetadata::default();
    metadata.insert_method("m".into(), signature);
    metadata
}

/// The section bytes for metadata the bound checks would refuse —
/// what a hostile publisher writes, and the only input that puts the
/// decode-side bounds under test.
fn encode_unchecked(metadata: &PackageMetadata) -> Vec<u8> {
    encode(metadata, LIMITS.depth_limit())
        .expect("the wire mirror encodes within the codec's own nesting limit")
}

/// Both sides of a bound: the admitted structure round trips, and the
/// one past it is refused by encode and by decode alike.
fn assert_bounded(admitted: &PackageMetadata, refused: &PackageMetadata) {
    let bytes = encode_metadata(admitted, &LIMITS).expect("the admitted structure encodes");
    assert_eq!(&decode_metadata(&bytes, &LIMITS).expect("decodes"), admitted);
    assert!(
        encode_metadata(refused, &LIMITS).is_err(),
        "encode accepted a structure past the bound"
    );
    assert!(
        decode_metadata(&encode_unchecked(refused), &LIMITS).is_err(),
        "decode accepted a structure past the bound"
    );
}

/// A left-nested projection chain, the shape the evaluator's own depth
/// test uses.
fn nested_projection(depth: usize) -> Expr {
    let mut expr = Expr::Arg(0);
    for _ in 0..depth {
        expr = Expr::Field(Box::new(expr), 0);
    }
    expr
}

fn nested_foreach(depth: usize) -> Clause {
    let mut clause = Clause::Effect {
        target: TargetExpr::Point(Expr::SelfAddr),
        mode: ModeExpr::Read,
    };
    for _ in 0..depth {
        clause = Clause::ForEach {
            list: Expr::Arg(0),
            body: vec![clause],
        };
    }
    clause
}

#[test]
fn the_stdlib_metadata_round_trips() {
    for (package, metadata) in stdlib() {
        let bytes = encode_metadata(&metadata, &LIMITS).expect("encodes");
        let decoded = decode_metadata(&bytes, &LIMITS).expect("decodes");
        assert_eq!(decoded, metadata, "{package} metadata round trip");
        assert_eq!(
            encode_metadata(&decoded, &LIMITS).expect("re-encodes"),
            bytes,
            "{package} metadata re-encodes identically"
        );
    }
}

#[test]
fn every_authored_shape_survives_the_codec() {
    // The stdlib does not author every variant, so the coverage the
    // round-trip test cannot give comes from one method that does:
    // each expression form, each target form, each mode, a nested
    // for-each body, a call site, and a deep literal.
    let signature = MethodSignature {
        accessibility: Accessibility::RequiresTargetAuth,
        abi: Vec::new(),
        params: vec![
            ParamType::U64,
            ParamType::U128,
            ParamType::Bytes,
            ParamType::Address,
            ParamType::Bucket,
        ],
        outputs: vec![
            Expr::Config(2),
            Expr::ResourceOf(Box::new(Expr::Arg(4))),
            Expr::Literal(Value::Tuple(vec![
                Value::U64(1),
                Value::List(vec![Value::Bytes(vec![7, 8, 9])]),
                Value::Key(SubstateKey {
                    owner: [3; 16],
                    local: [4; 16],
                }),
                Value::Bucket {
                    resource: [5; 16],
                },
                Value::U128(u128::MAX),
                Value::Address([6; 16]),
            ])),
        ],
        effects: vec![
            Clause::Effect {
                target: TargetExpr::Point(Expr::ChildKey {
                    owner: Box::new(Expr::SelfAddr),
                    role: VAULT,
                    material: vec![Expr::Arg(3), Expr::FreshKey { slot: 1 }],
                }),
                mode: ModeExpr::Reserve(Expr::Arg(1)),
            },
            Clause::Effect {
                target: TargetExpr::Entry {
                    owner: Expr::Field(Box::new(Expr::Config(0)), 2),
                    collection: RoleId(9),
                    order: Expr::Pack {
                        hi: Box::new(Expr::Arg(0)),
                        lo: Box::new(Expr::FreshId { slot: 3 }),
                    },
                },
                mode: ModeExpr::Locked,
            },
            Clause::Effect {
                target: TargetExpr::Range {
                    owner: Expr::SelfAddr,
                    collection: RoleId(4),
                    lo: Expr::Literal(Value::U128(0)),
                    hi: Expr::Literal(Value::U128(u128::MAX)),
                    cap: 64,
                },
                mode: ModeExpr::Locked,
            },
            Clause::ForEach {
                list: Expr::Arg(2),
                body: vec![Clause::ForEach {
                    list: Expr::Binding(0),
                    body: vec![Clause::Effect {
                        target: TargetExpr::Point(Expr::Lookup {
                            map: Box::new(Expr::Binding(1)),
                            key: Box::new(Expr::Binding(0)),
                        }),
                        mode: ModeExpr::Delta,
                    }],
                }],
            },
            Clause::Effect {
                target: TargetExpr::Point(Expr::SelfAddr),
                mode: ModeExpr::Read,
            },
        ],
        calls: vec![CallSite {
            target: Expr::Config(1),
            method: "deposit".into(),
            args: vec![Expr::Arg(4), Expr::Literal(Value::U64(11))],
        }],
    };
    let mut metadata = one_method(signature);
    metadata.insert_method("another".into(), MethodSignature::default());
    metadata.events = vec!["withdrawn".into(), "deposited".into()];

    let bytes = encode_metadata(&metadata, &LIMITS).expect("encodes");
    assert_eq!(decode_metadata(&bytes, &LIMITS).expect("decodes"), metadata);
}

#[test]
fn any_byte_change_fails_or_changes_the_value() {
    for (package, metadata) in stdlib() {
        let bytes = encode_metadata(&metadata, &LIMITS).expect("encodes");
        for index in 0..bytes.len() {
            for mask in [0x01u8, 0x40, 0x80, 0xFF] {
                let mut mutated = bytes.clone();
                mutated[index] ^= mask;
                if let Ok(decoded) = decode_metadata(&mutated, &LIMITS) {
                    assert_ne!(
                        decoded, metadata,
                        "{package}: byte {index} ^ {mask:#04x} decoded to the same value"
                    );
                }
            }
        }
    }
}

#[test]
fn truncated_and_extended_payloads_are_refused() {
    let bytes = encode_metadata(&account_metadata(), &LIMITS).expect("encodes");
    for cut in 0..bytes.len() {
        assert!(
            decode_metadata(&bytes[..cut], &LIMITS).is_err(),
            "a payload truncated to {cut} bytes decoded"
        );
    }
    let mut trailing = bytes;
    trailing.push(0);
    assert!(
        decode_metadata(&trailing, &LIMITS).is_err(),
        "trailing byte accepted"
    );
    assert!(decode_metadata(&[], &LIMITS).is_err());
    assert!(decode_metadata(&[0xFF, 0x00], &LIMITS).is_err());
}

#[test]
fn the_method_table_decodes_only_in_ascending_name_order() {
    // The table travels as a vector, so permuting it or repeating a
    // name is a distinct byte string that must not decode to a value
    // the map would silently normalise.
    let mut metadata = PackageMetadata::default();
    for name in ["a", "b"] {
        metadata.insert_method(name.into(), MethodSignature::default());
    }
    let bytes = encode_metadata(&metadata, &LIMITS).expect("encodes");

    let rewrite = |methods: Vec<MethodEntry>| {
        encode(&PackageMetadata { methods, events: Vec::new() }, LIMITS.depth_limit())
            .expect("wire encodes")
    };
    let entry =
        |name: &str| MethodEntry { name: name.into(), signature: MethodSignature::default() };
    assert_eq!(rewrite(vec![entry("a"), entry("b")]), bytes);
    assert!(decode_metadata(&rewrite(vec![entry("b"), entry("a")]), &LIMITS).is_err());
    assert!(decode_metadata(&rewrite(vec![entry("a"), entry("a")]), &LIMITS).is_err());
}

#[test]
fn the_deepest_admissible_metadata_still_encodes() {
    // Every nesting bound at its limit at once, along the costliest
    // path: clause bodies, child-key material, and a tuple literal
    // each cost two SBOR levels a layer. If the codec's own nesting
    // limit ever stops covering the bounds it is derived from, this
    // is what says so — the checks would accept a structure the
    // encoder could not write.
    let deepest = || {
        let mut literal = Value::U64(0);
        for _ in 1..LIMITS.max_value_depth {
            literal = Value::Tuple(vec![literal]);
        }
        let mut deepest = Expr::Literal(literal);
        for _ in 0..LIMITS.max_expr_depth {
            deepest = Expr::ChildKey {
                owner: Box::new(Expr::SelfAddr),
                role: VAULT,
                material: vec![deepest],
            };
        }
        deepest
    };
    let mut clause = Clause::Effect {
        target: TargetExpr::Range {
            owner: Expr::SelfAddr,
            collection: RoleId(4),
            lo: deepest(),
            hi: deepest(),
            cap: 1,
        },
        mode: ModeExpr::Locked,
    };
    for _ in 0..LIMITS.max_clause_depth {
        clause = Clause::ForEach {
            list: Expr::Arg(0),
            body: vec![clause],
        };
    }
    let metadata = one_method(MethodSignature {
        effects: vec![clause],
        ..MethodSignature::default()
    });

    let bytes = encode_metadata(&metadata, &LIMITS).expect("the deepest admissible metadata encodes");
    assert_eq!(decode_metadata(&bytes, &LIMITS).expect("decodes"), metadata);
}

#[test]
fn expression_nesting_is_bounded_where_the_evaluator_bounds_it() {
    assert_bounded(
        &one_method(signature_over(nested_projection(LIMITS.max_expr_depth))),
        &one_method(signature_over(nested_projection(LIMITS.max_expr_depth + 1))),
    );
}

#[test]
fn clause_nesting_is_bounded_where_the_evaluator_bounds_it() {
    assert_bounded(
        &one_method(MethodSignature {
            effects: vec![nested_foreach(LIMITS.max_clause_depth)],
            ..MethodSignature::default()
        }),
        &one_method(MethodSignature {
            effects: vec![nested_foreach(LIMITS.max_clause_depth + 1)],
            ..MethodSignature::default()
        }),
    );
}

#[test]
fn a_clause_tree_wider_than_a_signature_can_declare_is_refused() {
    let effect = || Clause::Effect {
        target: TargetExpr::Point(Expr::SelfAddr),
        mode: ModeExpr::Read,
    };
    let with = |count: usize| {
        one_method(MethodSignature {
            effects: (0..count).map(|_| effect()).collect(),
            ..MethodSignature::default()
        })
    };
    assert_bounded(
        &with(LIMITS.max_effects),
        &with(LIMITS.max_effects + 1),
    );
}

#[test]
fn literal_nesting_is_bounded_where_admission_bounds_it() {
    let literal = |depth: usize| {
        let mut value = Value::U64(0);
        for _ in 1..depth {
            value = Value::Tuple(vec![value]);
        }
        Expr::Literal(value)
    };
    assert_bounded(
        &one_method(signature_over(literal(LIMITS.max_value_depth))),
        &one_method(signature_over(literal(LIMITS.max_value_depth + 1))),
    );
}

#[test]
fn an_event_table_past_the_index_the_kernel_accepts_is_refused() {
    let table = |len: usize| PackageMetadata {
        methods: Vec::new(),
        events: vec![String::new(); len],
    };
    assert_bounded(
        &table(LIMITS.max_event_types),
        &table(LIMITS.max_event_types + 1),
    );
}

#[test]
fn an_oversized_section_is_refused_before_it_is_parsed() {
    // Well formed but past the cap: an event table spending more
    // than the section budget, refused on length before the decoder
    // reads a byte of it.
    let over = PackageMetadata {
        methods: Vec::new(),
        events: vec!["e".repeat(1024); LIMITS.max_event_types],
    };
    let bytes = encode_unchecked(&over);
    assert!(bytes.len() > LIMITS.max_bytes);
    assert!(decode_metadata(&bytes, &LIMITS).is_err());
    assert!(encode_metadata(&over, &LIMITS).is_err());

    assert!(decode_metadata(&vec![0u8; LIMITS.max_bytes + 1], &LIMITS).is_err());
}

#[test]
fn every_refusal_of_metadata_names_its_reason() {
    let fault = |signature: MethodSignature| {
        encode_metadata(&one_method(signature), &LIMITS).unwrap_err()
    };
    let named = |fault: SignatureFault| VmStaticsError::Method { method: "m".into(), fault };
    assert_eq!(
        fault(signature_over(nested_projection(LIMITS.max_expr_depth + 1))),
        named(SignatureFault::ExprDepth)
    );
    let mut deep = Value::U64(0);
    for _ in 0..LIMITS.max_value_depth {
        deep = Value::List(vec![deep]);
    }
    assert_eq!(
        fault(signature_over(Expr::Literal(deep))),
        named(SignatureFault::LiteralDepth)
    );
    assert_eq!(
        fault(MethodSignature {
            effects: vec![nested_foreach(LIMITS.max_clause_depth + 1)],
            ..MethodSignature::default()
        }),
        named(SignatureFault::ClauseDepth)
    );
    assert_eq!(
        fault(MethodSignature {
            effects: (0..=LIMITS.max_effects).map(|_| nested_foreach(0)).collect(),
            ..MethodSignature::default()
        }),
        named(SignatureFault::Effects)
    );
    assert_eq!(
        encode_metadata(
            &PackageMetadata { methods: vec![], events: vec![String::new(); 65] },
            &LIMITS
        ),
        Err(VmStaticsError::EventTable { types: 65 })
    );
    let unordered = PackageMetadata {
        methods: ["b", "a"]
            .iter()
            .map(|name| MethodEntry {
                name: (*name).into(),
                signature: MethodSignature::default(),
            })
            .collect(),
        events: vec![],
    };
    let bytes = encode(&unordered, LIMITS.depth_limit()).unwrap();
    assert_eq!(
        decode_metadata(&bytes, &LIMITS),
        Err(VmStaticsError::MethodOrder { method: "a".into() })
    );
    assert_eq!(
        decode_metadata(&[1], &LIMITS).unwrap_err().text(&LIMITS),
        "metadata decode: UnexpectedPayloadPrefix { expected: 91, actual: 1 }"
    );
    let names: Vec<String> = vec![];
    assert_eq!(
        decode_metadata(&encode(&names, 8).unwrap(), &LIMITS).unwrap_err().text(&LIMITS),
        "metadata decode: a value of another form"
    );
    assert_eq!(
        decode_metadata(&vec![0; LIMITS.max_bytes + 1], &LIMITS),
        Err(VmStaticsError::SectionOversized { bytes: LIMITS.max_bytes + 1 })
    );
}

#[test]
fn a_sequence_of_names_has_its_exact_bytes() {
    let names: Vec<String> = vec!["ab".into()];
    assert_eq!(encode(&names, 8).unwrap(), vec![0x5b, 0x20, 0x0c, 1, 2, b'a', b'b']);
    assert_eq!(decode::<Vec<String>>(&[0x5b, 0x20, 0x0c, 1, 2, b'a', b'b'], 8), Some(names));
    assert_eq!(encode(&vec![vec![vec![String::new()]]], 3), None);
}

#[test]
fn a_nested_value_is_deep_past_its_levels() {
    let pair = Value::Tuple(vec![Value::U64(1), Value::List(vec![Value::U64(2)])]);
    assert!(pair.deeper_than(2));
    assert!(!pair.deeper_than(3));
}

#[test]
fn a_derived_parameter_is_bounded_like_any_expression() {
    let derived = |depth: usize| {
        one_method(MethodSignature {
            abi: vec![AbiParam::Handle(0), AbiParam::Derived(nested_projection(depth))],
            ..MethodSignature::default()
        })
    };
    assert_bounded(&derived(LIMITS.max_expr_depth), &derived(LIMITS.max_expr_depth + 1));
    assert!(matches!(
        encode_metadata(&derived(LIMITS.max_expr_depth + 1), &LIMITS),
        Err(VmStaticsError::Method { method, fault: SignatureFault::ExprDepth }) if method == "m"
    ));
}

#[test]
fn limits_past_the_ceiling_are_unsound() {
    assert!(LIMITS.is_sound());
    assert!(!MetadataLimits { max_expr_depth: 1_000, ..LIMITS }.is_sound());
    assert!(!MetadataLimits { max_value_depth: usize::MAX, ..LIMITS }.is_sound());
    assert!(!MetadataLimits { max_bytes: u32::MAX as usize - 26, ..LIMITS }.is_sound());
    assert!(MetadataLimits { max_bytes: u32::MAX as usize - 27, ..LIMITS }.is_sound());
}
