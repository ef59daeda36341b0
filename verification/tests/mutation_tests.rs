use qcli::builder::{run_builder, BuilderError, MutationRequest};
use qcli::codec::{decode, encode};
use qcli::model::{
    BlockDate, NetworkParams, Transaction, ValidationError, ValidityWindow, PROTOCOL_VERSION,
};

fn params() -> NetworkParams {
    NetworkParams { slots_per_epoch: 100, max_amount: 1_000_000 }
}

#[test]
fn fresh_document_is_empty() {
    let t = Transaction::new();
    assert_eq!(t.version, PROTOCOL_VERSION);
    assert!(t.inputs.is_empty());
    assert!(t.outputs.is_empty());
    assert!(t.certificates.is_empty());
    assert!(t.witnesses.is_empty());
    assert_eq!(t.validity, ValidityWindow { lower: None, upper: None });
}

#[test]
fn set_expiry_date_replaces_upper_bound() {
    // A fresh document receiving (epoch 3, slot 14), then (epoch 4, slot 0):
    // the second date replaces the first, it does not accumulate.
    let mut t = Transaction::new();
    assert_eq!(t.set_expiry_date(BlockDate { epoch: 3, slot: 14 }, &params()), Ok(()));
    assert_eq!(
        t.validity,
        ValidityWindow { lower: None, upper: Some(BlockDate { epoch: 3, slot: 14 }) }
    );
    assert!(t.inputs.is_empty());
    assert!(t.outputs.is_empty());
    assert_eq!(t.set_expiry_date(BlockDate { epoch: 4, slot: 0 }, &params()), Ok(()));
    assert_eq!(
        t.validity,
        ValidityWindow { lower: None, upper: Some(BlockDate { epoch: 4, slot: 0 }) }
    );
}

#[test]
fn set_expiry_date_keeps_lower_bound() {
    let mut t = Transaction::new();
    t.validity.lower = Some(BlockDate { epoch: 1, slot: 1 });
    assert_eq!(t.set_expiry_date(BlockDate { epoch: 5, slot: 6 }, &params()), Ok(()));
    assert_eq!(t.validity.lower, Some(BlockDate { epoch: 1, slot: 1 }));
    assert_eq!(t.validity.upper, Some(BlockDate { epoch: 5, slot: 6 }));
}

#[test]
fn set_expiry_date_rejects_out_of_range_slot() {
    let mut t = Transaction::new();
    let before = t.clone();
    assert_eq!(
        t.set_expiry_date(BlockDate { epoch: 3, slot: 100 }, &params()),
        Err(ValidationError::InvalidDate)
    );
    assert_eq!(t, before);
}

#[test]
fn sealed_document_rejects_every_mutation() {
    let mut t = Transaction::new();
    t.add_witness(vec![1, 2, 3]);
    let before = t.clone();
    assert_eq!(
        t.set_expiry_date(BlockDate { epoch: 0, slot: 0 }, &params()),
        Err(ValidationError::AlreadySealed)
    );
    assert_eq!(t.add_input(1, 10, &params()), Err(ValidationError::AlreadySealed));
    assert_eq!(t.add_output(vec![5], 10, &params()), Err(ValidationError::AlreadySealed));
    assert_eq!(t.add_certificate(vec![7]), Err(ValidationError::AlreadySealed));
    assert_eq!(t, before);
}

#[test]
fn sealed_check_comes_before_date_check() {
    // Sealed documents fail with AlreadySealed even when the date is also
    // out of range.
    let mut t = Transaction::new();
    t.add_witness(vec![0]);
    assert_eq!(
        t.set_expiry_date(BlockDate { epoch: 0, slot: 100 }, &params()),
        Err(ValidationError::AlreadySealed)
    );
}

#[test]
fn negative_amounts_are_out_of_range() {
    let mut t = Transaction::new();
    let before = t.clone();
    assert_eq!(t.add_input(1, -1, &params()), Err(ValidationError::OutOfRange));
    assert_eq!(t.add_output(vec![1], -5, &params()), Err(ValidationError::OutOfRange));
    assert_eq!(t, before);
}

#[test]
fn amounts_above_network_maximum_are_out_of_range() {
    let mut t = Transaction::new();
    assert_eq!(t.add_input(1, 1_000_001, &params()), Err(ValidationError::OutOfRange));
    assert_eq!(t.add_output(vec![1], 1_000_001, &params()), Err(ValidationError::OutOfRange));
    assert_eq!(t.add_input(1, 1_000_000, &params()), Ok(()));
}

#[test]
fn add_preserves_order_across_reload() {
    // Inputs and outputs keep exactly their insertion order across a
    // store-and-reload cycle.
    let mut t = Transaction::new();
    assert_eq!(t.add_input(11, 1, &params()), Ok(()));
    assert_eq!(t.add_input(22, 2, &params()), Ok(()));
    assert_eq!(t.add_output(vec![0xa1], 3, &params()), Ok(()));
    assert_eq!(t.add_output(vec![0xb2], 4, &params()), Ok(()));
    let reloaded = decode(&encode(&t)).expect("must reload");
    assert_eq!(reloaded.inputs.len(), 2);
    assert_eq!(reloaded.inputs[0].output_ref, 11);
    assert_eq!(reloaded.inputs[1].output_ref, 22);
    assert_eq!(reloaded.outputs.len(), 2);
    assert_eq!(reloaded.outputs[0].address, vec![0xa1]);
    assert_eq!(reloaded.outputs[1].address, vec![0xb2]);
    assert_eq!(reloaded, t);
}

#[test]
fn run_builder_applies_one_mutation() {
    let stored = encode(&Transaction::new());
    let new_bytes = run_builder(
        &stored,
        MutationRequest::SetExpiryDate(BlockDate { epoch: 3, slot: 14 }),
        &params(),
    )
    .expect("the cycle must succeed");
    let reloaded = decode(&new_bytes).expect("must decode");
    assert_eq!(reloaded.validity.upper, Some(BlockDate { epoch: 3, slot: 14 }));
}

#[test]
fn run_builder_atomic_failure_leaves_document_unchanged() {
    // A negative output amount aborts the cycle before anything is
    // written: no new bytes come back, and the stored bytes still decode
    // to the untouched document.
    let original = Transaction::new();
    let stored = encode(&original);
    let before = stored.clone();
    let r = run_builder(
        &stored,
        MutationRequest::AddOutput { address: vec![1], amount: -7 },
        &params(),
    );
    assert_eq!(r, Err(BuilderError::Validation(ValidationError::OutOfRange)));
    assert_eq!(stored, before);
    assert_eq!(decode(&stored).expect("must still decode"), original);
}

#[test]
fn run_builder_surfaces_decode_errors() {
    let garbage: Vec<u8> = vec![0xff, 0x00];
    let r = run_builder(&garbage, MutationRequest::AddCertificate(vec![1]), &params());
    assert!(matches!(r, Err(BuilderError::Decode(_))));
}
