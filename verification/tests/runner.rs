use hyperscale::bridge::roles::CellRole;
use hyperscale::bridge::value::Value;
use hyperscale::engine::runner::{
    fuel_consumed, guest_result, kind_of, rep_of, unprepared, CallKind, Capability, GuestArg,
    GuestValue, Invocation, ManifestNode, ManifestRunner, NodeCall, NodeInput, ResourceKind,
    RunEnd, RunOutcome, RunStep, FUEL,
};
use hyperscale::types::SubstateKey;

const ALICE: [u8; 16] = [0x11; 16];
const BOB: [u8; 16] = [0x22; 16];
const XRD: [u8; 16] = [0x58; 16];

fn cell_key(role: CellRole) -> SubstateKey {
    match role {
        CellRole::Vault { owner, resource } => SubstateKey { owner, local: resource },
        CellRole::Entropy { owner } => SubstateKey { owner, local: [1; 16] },
        CellRole::Validator { owner, .. } => SubstateKey { owner, local: [2; 16] },
        CellRole::Package { owner, .. } => SubstateKey { owner, local: [3; 16] },
    }
}

fn vault(owner: [u8; 16]) -> SubstateKey {
    cell_key(CellRole::Vault { owner, resource: XRD })
}

fn node(target: [u8; 16], method: &str, inputs: Vec<NodeInput>) -> ManifestNode {
    ManifestNode { target, method: method.into(), inputs }
}

fn withdraw(amount: u128) -> ManifestNode {
    node(
        ALICE,
        "withdraw",
        vec![
            NodeInput::Literal(Value::Address(XRD)),
            NodeInput::Literal(Value::U128(amount)),
        ],
    )
}

fn deposit(source: u32) -> ManifestNode {
    node(BOB, "deposit", vec![NodeInput::Edge { source, resource: XRD }])
}

fn failed(step: RunStep) -> String {
    match step {
        RunStep::End(RunEnd { outcome: RunOutcome::UserError { reason }, .. }) => reason,
        other => panic!("the run must end in an error: {other:?}"),
    }
}

#[test]
fn a_transfer_runs_its_nodes_in_order() {
    let nodes = vec![withdraw(100), deposit(0)];
    let capabilities =
        vec![Capability::Other, Capability::Reserve(vault(ALICE)), Capability::Delta(vault(BOB))];
    let mut run = ManifestRunner::new();

    let RunStep::Invoke(call) = run.step(&nodes, &capabilities, &cell_key) else {
        panic!("the withdrawal is invoked");
    };
    assert_eq!(
        call,
        NodeCall { kind: CallKind::Withdraw, rep: 1, bytes: 100u128.to_le_bytes().to_vec() }
    );
    let bucket = 100u128.to_le_bytes().to_vec();
    assert_eq!(run.absorb(CallKind::Withdraw, 7, Ok(Some(bucket.clone()))), None);

    let RunStep::Invoke(call) = run.step(&nodes, &capabilities, &cell_key) else {
        panic!("the deposit is invoked");
    };
    assert_eq!(call, NodeCall { kind: CallKind::Deposit, rep: 2, bytes: bucket });
    assert_eq!(run.absorb(CallKind::Deposit, 5, Ok(None)), None);

    assert_eq!(
        run.step(&nodes, &capabilities, &cell_key),
        RunStep::End(RunEnd { outcome: RunOutcome::Completed, fuel: 12 })
    );
}

#[test]
fn every_refusal_of_a_node_names_its_reason() {
    let none: Vec<Capability> = vec![];
    let step = |nodes: Vec<ManifestNode>| {
        failed(ManifestRunner::new().step(&nodes, &none, &cell_key))
    };
    assert_eq!(step(vec![withdraw(1)]), "missing reserve capability");
    assert_eq!(step(vec![deposit(0)]), "dangling edge");
    assert_eq!(
        step(vec![node(ALICE, "stamp-entropy", vec![])]),
        "missing write capability"
    );
    let amount = || NodeInput::Literal(Value::U128(1));
    let address = || NodeInput::Literal(Value::Address(XRD));
    assert_eq!(
        step(vec![node(
            ALICE,
            "assert-balance",
            vec![address(), amount(), NodeInput::Literal(Value::U64(1))]
        )]),
        "missing snapshot capability"
    );
    assert_eq!(
        step(vec![node(ALICE, "assert-balance", vec![address(), amount(), amount()])]),
        "assert-balance argument shape"
    );
    assert_eq!(
        step(vec![node(ALICE, "withdraw", vec![amount(), amount()])]),
        "withdraw argument shape"
    );
    assert_eq!(step(vec![node(ALICE, "deposit", vec![amount()])]), "deposit argument shape");
    assert_eq!(step(vec![node(ALICE, "mint", vec![])]), "unsupported method: mint");

    let mut run = ManifestRunner::new();
    let bucket = vec![0; 16];
    run.absorb(CallKind::Withdraw, 1, Ok(Some(bucket)));
    let nodes = vec![withdraw(1), deposit(0)];
    assert_eq!(failed(run.step(&nodes, &none, &cell_key)), "missing delta capability");
}

#[test]
fn a_failed_call_ends_the_run_with_its_fuel() {
    let mut run = ManifestRunner::new();
    assert_eq!(
        run.absorb(CallKind::Withdraw, 9, Err("trap".into())),
        Some(RunEnd { outcome: RunOutcome::UserError { reason: "trap".into() }, fuel: 9 })
    );
    let mut run = ManifestRunner::new();
    assert_eq!(
        run.absorb(CallKind::Withdraw, 9, Ok(None)),
        Some(RunEnd {
            outcome: RunOutcome::UserError { reason: "withdraw returned nothing".into() },
            fuel: 9
        })
    );
    assert_eq!(
        unprepared(),
        RunEnd {
            outcome: RunOutcome::UserError { reason: "unprepared transaction".into() },
            fuel: 0
        }
    );
}

#[test]
fn guest_calls_borrow_the_cell_they_are_granted() {
    let amount = 7u128.to_le_bytes();
    let call = Invocation::Withdraw { vault_rep: 3, amount: &amount }.guest_call();
    assert_eq!(call.export, "withdraw");
    assert!(matches!(call.cell, GuestArg::Borrow(3, ResourceKind::ReserveCell)));
    assert!(matches!(call.bytes, Some(GuestArg::Bytes(b)) if b == amount));
    assert!(call.has_output);
    let call = Invocation::Deposit { vault_rep: 4, bucket: &amount }.guest_call();
    assert!(matches!(call.cell, GuestArg::Borrow(4, ResourceKind::DeltaCell)));
    assert!(!call.has_output);
    let call = Invocation::AssertBalance { vault_rep: 5, min: &amount }.guest_call();
    assert_eq!(call.export, "assert-balance");
    assert!(matches!(call.cell, GuestArg::Borrow(5, ResourceKind::SnapCell)));
    let call = Invocation::StampEntropy { leaf_rep: 6 }.guest_call();
    assert!(matches!(call.cell, GuestArg::Borrow(6, ResourceKind::WriteCell)));
    assert!(call.bytes.is_none());
}

#[test]
fn a_guests_result_is_bytes_or_nothing_as_declared() {
    assert_eq!(guest_result(true, &vec![GuestValue::Bytes(vec![1])]), Some(Some(vec![1])));
    assert_eq!(guest_result(true, &vec![GuestValue::Other]), None);
    assert_eq!(guest_result(false, &vec![]), Some(None));
    assert_eq!(fuel_consumed(FUEL - 5), 5);
    assert_eq!(kind_of(&"deposit".to_owned()), Some(CallKind::Deposit));
    assert_eq!(kind_of(&"mint".to_owned()), None);
    let held = vec![Capability::Other, Capability::Delta(vault(BOB))];
    assert_eq!(rep_of(&held, &Capability::Delta(vault(BOB))), Some(1));
    assert_eq!(rep_of(&held, &Capability::Write(vault(BOB))), None);
}
