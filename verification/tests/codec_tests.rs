use qcli::codec::{decode, encode, DecodeError};
use qcli::model::{
    BlockDate, Certificate, Input, Output, Transaction, ValidityWindow, Witness, PROTOCOL_VERSION,
};

fn sample_transaction() -> Transaction {
    Transaction {
        version: PROTOCOL_VERSION,
        inputs: vec![
            Input { output_ref: 7, amount: 100 },
            Input { output_ref: 9, amount: 250 },
        ],
        outputs: vec![
            Output { address: vec![0xaa, 0xbb, 0xcc], amount: 300 },
            Output { address: vec![], amount: 50 },
        ],
        certificates: vec![Certificate { payload: vec![1, 2, 3, 4] }],
        validity: ValidityWindow {
            lower: Some(BlockDate { epoch: 1, slot: 2 }),
            upper: Some(BlockDate { epoch: 3, slot: 14 }),
        },
        witnesses: vec![Witness { payload: vec![9, 9] }],
    }
}

#[test]
fn round_trip_full_document() {
    let t = sample_transaction();
    let bytes = encode(&t);
    let back = decode(&bytes).expect("a freshly encoded document must decode");
    assert_eq!(back, t);
}

#[test]
fn round_trip_empty_document() {
    let t = Transaction::new();
    let bytes = encode(&t);
    let back = decode(&bytes).expect("an empty document must decode");
    assert_eq!(back, t);
}

#[test]
fn encode_is_deterministic() {
    let t = sample_transaction();
    assert_eq!(encode(&t), encode(&t));
}

#[test]
fn no_op_load_store_is_byte_identical() {
    let original = encode(&sample_transaction());
    let loaded = decode(&original).expect("must decode");
    let stored = encode(&loaded);
    assert_eq!(stored, original);
}

#[test]
fn decode_empty_stream_is_malformed() {
    let bytes: Vec<u8> = vec![];
    assert_eq!(decode(&bytes), Err(DecodeError::Malformed));
}

#[test]
fn decode_unknown_version_is_version_mismatch() {
    let mut bytes = encode(&Transaction::new());
    bytes[0] = PROTOCOL_VERSION + 1;
    assert_eq!(decode(&bytes), Err(DecodeError::VersionMismatch));
}

#[test]
fn decode_truncated_stream_is_malformed() {
    let bytes = encode(&sample_transaction());
    let truncated: Vec<u8> = bytes[..bytes.len() - 1].to_vec();
    assert_eq!(decode(&truncated), Err(DecodeError::Malformed));
}

#[test]
fn decode_trailing_bytes_are_malformed() {
    let mut bytes = encode(&sample_transaction());
    bytes.push(0);
    assert_eq!(decode(&bytes), Err(DecodeError::Malformed));
}

#[test]
fn decode_bad_presence_flag_is_malformed() {
    let t = Transaction::new();
    let bytes = encode(&t);
    // The empty document is: version byte, three zero counts, two flag
    // bytes, one zero count.  The first flag byte sits after 1 + 3 * 8
    // bytes; any flag other than 0 or 1 must be rejected.
    let mut bad = bytes.clone();
    bad[1 + 24] = 2;
    assert_eq!(decode(&bad), Err(DecodeError::Malformed));
}
