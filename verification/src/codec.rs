//! The document codec: the stable on-disk representation of a staged
//! transaction.
//!
//! The encoding is a deterministic binary layout: a one-byte protocol
//! version tag, then the inputs, outputs, certificates, the two optional
//! bounds of the validity window, and the witnesses.  Every integer is a
//! little-endian `u64`, every list is preceded by its length, every opaque
//! payload by its byte count, and every optional date by a presence flag.
//! The decoder is strict: a flag other than 0 or 1, a truncated stream or
//! trailing bytes are malformed.  Strictness makes the encoding canonical:
//! decoding and re-encoding reproduces the original bytes exactly, which is
//! what keeps a load that is stored back without mutation byte-identical.

use vstd::bytes::*;
use vstd::prelude::*;
use vstd::slice::{slice_subrange, slice_to_vec};

use crate::model::{
    BlockDate, Certificate, Input, Output, OutputView, Transaction, TransactionView,
    ValidityWindow, Witness, PROTOCOL_VERSION,
};

verus! {

broadcast use vstd::seq_lib::group_seq_properties;

/// Why a byte stream could not be interpreted as a transaction document.
#[derive(Clone, Copy, PartialEq, Eq, Structural, Debug)]
pub enum DecodeError {
    /// The stream does not match the structural schema: truncated data, a
    /// bad flag, a wrong count, or trailing bytes.
    Malformed,
    /// The document declares a protocol version this builder does not
    /// understand.
    VersionMismatch,
}

// ---------------------------------------------------------------------------
// The encoding, as a mathematical function of the document value.
// ---------------------------------------------------------------------------
/// A `u64` as its eight little-endian bytes.
pub open spec fn enc_u64(v: u64) -> Seq<u8> {
    spec_u64_to_le_bytes(v)
}

/// An opaque payload: its byte count, then its bytes.
pub open spec fn enc_bytes(b: Seq<u8>) -> Seq<u8> {
    enc_u64(b.len() as u64) + b
}

/// One input: the reference to the spent output, then the amount.
pub open spec fn enc_input(i: Input) -> Seq<u8> {
    enc_u64(i.output_ref) + enc_u64(i.amount)
}

/// The inputs in document order.
pub open spec fn enc_inputs(s: Seq<Input>) -> Seq<u8>
    decreases s.len(),
{
    if s.len() == 0 {
        Seq::empty()
    } else {
        enc_input(s[0]) + enc_inputs(s.drop_first())
    }
}

/// One output: the destination address, then the amount.
pub open spec fn enc_output(o: OutputView) -> Seq<u8> {
    enc_bytes(o.address) + enc_u64(o.amount)
}

/// The outputs in document order.
pub open spec fn enc_outputs(s: Seq<OutputView>) -> Seq<u8>
    decreases s.len(),
{
    if s.len() == 0 {
        Seq::empty()
    } else {
        enc_output(s[0]) + enc_outputs(s.drop_first())
    }
}

/// A list of opaque payloads (certificates or witnesses) in document order.
pub open spec fn enc_payloads(s: Seq<Seq<u8>>) -> Seq<u8>
    decreases s.len(),
{
    if s.len() == 0 {
        Seq::empty()
    } else {
        enc_bytes(s[0]) + enc_payloads(s.drop_first())
    }
}

/// An optional chain date: an absence flag, or a presence flag followed by
/// epoch and slot.
pub open spec fn enc_opt_date(d: Option<BlockDate>) -> Seq<u8> {
    match d {
        None => seq![0u8],
        Some(bd) => seq![1u8] + enc_u64(bd.epoch) + enc_u64(bd.slot),
    }
}

/// The whole document: version tag, inputs, outputs, certificates, the two
/// validity bounds, witnesses.  Deterministic by construction: the same
/// document value always yields the same bytes.
pub open spec fn spec_encode(v: TransactionView) -> Seq<u8> {
    seq![v.version] + enc_u64(v.inputs.len() as u64) + enc_inputs(v.inputs) + enc_u64(
        v.outputs.len() as u64,
    ) + enc_outputs(v.outputs) + enc_u64(v.certificates.len() as u64) + enc_payloads(
        v.certificates,
    ) + enc_opt_date(v.validity.lower) + enc_opt_date(v.validity.upper) + enc_u64(
        v.witnesses.len() as u64,
    ) + enc_payloads(v.witnesses)
}

// ---------------------------------------------------------------------------
// The parser, as a mathematical function of the byte stream and a cursor.
// Each step yields the parsed value and the cursor past it, or nothing.
// ---------------------------------------------------------------------------
/// Eight little-endian bytes as a `u64`.
pub open spec fn parse_u64(b: Seq<u8>, p: int) -> Option<(u64, int)> {
    if 0 <= p && p + 8 <= b.len() {
        Some((spec_u64_from_le_bytes(b.subrange(p, p + 8)), p + 8))
    } else {
        None
    }
}

/// One raw byte.
pub open spec fn parse_byte(b: Seq<u8>, p: int) -> Option<(u8, int)> {
    if 0 <= p && p + 1 <= b.len() {
        Some((b[p], p + 1))
    } else {
        None
    }
}

/// A counted payload: its byte count, then that many bytes.
pub open spec fn parse_bytes(b: Seq<u8>, p: int) -> Option<(Seq<u8>, int)> {
    match parse_u64(b, p) {
        None => None,
        Some((n, q)) => if q + n <= b.len() {
            Some((b.subrange(q, q + n), q + n))
        } else {
            None
        },
    }
}

/// One input.
pub open spec fn parse_input(b: Seq<u8>, p: int) -> Option<(Input, int)> {
    match parse_u64(b, p) {
        None => None,
        Some((r, q)) => match parse_u64(b, q) {
            None => None,
            Some((a, q2)) => Some((Input { output_ref: r, amount: a }, q2)),
        },
    }
}

/// Exactly `n` inputs.
pub open spec fn parse_inputs(b: Seq<u8>, p: int, n: nat) -> Option<(Seq<Input>, int)>
    decreases n,
{
    if n == 0 {
        Some((Seq::empty(), p))
    } else {
        match parse_input(b, p) {
            None => None,
            Some((x, q)) => match parse_inputs(b, q, (n - 1) as nat) {
                None => None,
                Some((s, e)) => Some((seq![x] + s, e)),
            },
        }
    }
}

/// One output.
pub open spec fn parse_output(b: Seq<u8>, p: int) -> Option<(OutputView, int)> {
    match parse_bytes(b, p) {
        None => None,
        Some((addr, q)) => match parse_u64(b, q) {
            None => None,
            Some((a, q2)) => Some((OutputView { address: addr, amount: a }, q2)),
        },
    }
}

/// Exactly `n` outputs.
pub open spec fn parse_outputs(b: Seq<u8>, p: int, n: nat) -> Option<(Seq<OutputView>, int)>
    decreases n,
{
    if n == 0 {
        Some((Seq::empty(), p))
    } else {
        match parse_output(b, p) {
            None => None,
            Some((x, q)) => match parse_outputs(b, q, (n - 1) as nat) {
                None => None,
                Some((s, e)) => Some((seq![x] + s, e)),
            },
        }
    }
}

/// Exactly `n` counted payloads.
pub open spec fn parse_payloads(b: Seq<u8>, p: int, n: nat) -> Option<(Seq<Seq<u8>>, int)>
    decreases n,
{
    if n == 0 {
        Some((Seq::empty(), p))
    } else {
        match parse_bytes(b, p) {
            None => None,
            Some((x, q)) => match parse_payloads(b, q, (n - 1) as nat) {
                None => None,
                Some((s, e)) => Some((seq![x] + s, e)),
            },
        }
    }
}

/// An optional chain date.  Only the flags 0 and 1 are accepted, so each
/// optional date has exactly one encoding.
pub open spec fn parse_opt_date(b: Seq<u8>, p: int) -> Option<(Option<BlockDate>, int)> {
    match parse_byte(b, p) {
        None => None,
        Some((f, q)) => if f == 0 {
            Some((None, q))
        } else if f == 1 {
            match parse_u64(b, q) {
                None => None,
                Some((e, q1)) => match parse_u64(b, q1) {
                    None => None,
                    Some((s, q2)) => Some((Some(BlockDate { epoch: e, slot: s }), q2)),
                },
            }
        } else {
            None
        },
    }
}

/// The document body after the version tag: every section in order.
pub open spec fn parse_body(b: Seq<u8>, p: int) -> Option<(TransactionView, int)> {
    match parse_u64(b, p) {
        None => None,
        Some((n_in, p1)) => match parse_inputs(b, p1, n_in as nat) {
            None => None,
            Some((inputs, p2)) => match parse_u64(b, p2) {
                None => None,
                Some((n_out, p3)) => match parse_outputs(b, p3, n_out as nat) {
                    None => None,
                    Some((outputs, p4)) => match parse_u64(b, p4) {
                        None => None,
                        Some((n_cert, p5)) => match parse_payloads(b, p5, n_cert as nat) {
                            None => None,
                            Some((certificates, p6)) => match parse_opt_date(b, p6) {
                                None => None,
                                Some((lower, p7)) => match parse_opt_date(b, p7) {
                                    None => None,
                                    Some((upper, p8)) => match parse_u64(b, p8) {
                                        None => None,
                                        Some((n_wit, p9)) => match parse_payloads(
                                            b,
                                            p9,
                                            n_wit as nat,
                                        ) {
                                            None => None,
                                            Some((witnesses, p10)) => Some(
                                                (
                                                    TransactionView {
                                                        version: PROTOCOL_VERSION,
                                                        inputs,
                                                        outputs,
                                                        certificates,
                                                        validity: ValidityWindow { lower, upper },
                                                        witnesses,
                                                    },
                                                    p10,
                                                ),
                                            ),
                                        },
                                    },
                                },
                            },
                        },
                    },
                },
            },
        },
    }
}

/// What decoding a byte stream yields: the document value on success, and
/// the reason otherwise.  The whole stream must be consumed.
pub open spec fn spec_decode(b: Seq<u8>) -> Result<TransactionView, DecodeError> {
    if b.len() < 1 {
        Err(DecodeError::Malformed)
    } else if b[0] != PROTOCOL_VERSION {
        Err(DecodeError::VersionMismatch)
    } else {
        match parse_body(b, 1) {
            None => Err(DecodeError::Malformed),
            Some((v, e)) => if e == b.len() {
                Ok(v)
            } else {
                Err(DecodeError::Malformed)
            },
        }
    }
}

// ---------------------------------------------------------------------------
// Lengths and stepwise unrolling of the list encodings.
// ---------------------------------------------------------------------------
/// Every `u64` encodes to eight bytes.
pub proof fn lemma_enc_u64_len(v: u64)
    ensures
        enc_u64(v).len() == 8,
{
    lemma_auto_spec_u64_to_from_le_bytes();
}

/// Appending one more input to a prefix extends its encoding on the right.
pub proof fn lemma_enc_inputs_step(s: Seq<Input>, i: int)
    requires
        0 <= i < s.len(),
    ensures
        enc_inputs(s.take(i + 1)) == enc_inputs(s.take(i)) + enc_input(s[i]),
    decreases i,
{
    if i == 0 {
        assert(s.take(1) =~= seq![s[0]]);
        assert(seq![s[0]].drop_first() =~= Seq::<Input>::empty());
        assert(enc_inputs(s.take(0)) =~= Seq::<u8>::empty());
        assert(enc_inputs(s.take(1)) =~= enc_inputs(s.take(0)) + enc_input(s[0]));
    } else {
        let d = s.drop_first();
        lemma_enc_inputs_step(d, i - 1);
        assert(s.take(i + 1).drop_first() =~= d.take(i));
        assert(s.take(i).drop_first() =~= d.take(i - 1));
        assert(enc_inputs(s.take(i + 1)) == enc_input(s[0]) + enc_inputs(d.take(i)));
        assert(enc_inputs(s.take(i)) == enc_input(s[0]) + enc_inputs(d.take(i - 1)));
        assert(enc_input(s[0]) + (enc_inputs(d.take(i - 1)) + enc_input(d[i - 1])) =~= (enc_input(
            s[0],
        ) + enc_inputs(d.take(i - 1))) + enc_input(d[i - 1]));
    }
}

/// Appending one more output to a prefix extends its encoding on the right.
pub proof fn lemma_enc_outputs_step(s: Seq<OutputView>, i: int)
    requires
        0 <= i < s.len(),
    ensures
        enc_outputs(s.take(i + 1)) == enc_outputs(s.take(i)) + enc_output(s[i]),
    decreases i,
{
    if i == 0 {
        assert(s.take(1) =~= seq![s[0]]);
        assert(seq![s[0]].drop_first() =~= Seq::<OutputView>::empty());
        assert(enc_outputs(s.take(0)) =~= Seq::<u8>::empty());
        assert(enc_outputs(s.take(1)) =~= enc_outputs(s.take(0)) + enc_output(s[0]));
    } else {
        let d = s.drop_first();
        lemma_enc_outputs_step(d, i - 1);
        assert(s.take(i + 1).drop_first() =~= d.take(i));
        assert(s.take(i).drop_first() =~= d.take(i - 1));
        assert(enc_outputs(s.take(i + 1)) == enc_output(s[0]) + enc_outputs(d.take(i)));
        assert(enc_outputs(s.take(i)) == enc_output(s[0]) + enc_outputs(d.take(i - 1)));
        assert(enc_output(s[0]) + (enc_outputs(d.take(i - 1)) + enc_output(d[i - 1])) =~= (
        enc_output(s[0]) + enc_outputs(d.take(i - 1))) + enc_output(d[i - 1]));
    }
}

/// Appending one more payload to a prefix extends its encoding on the right.
pub proof fn lemma_enc_payloads_step(s: Seq<Seq<u8>>, i: int)
    requires
        0 <= i < s.len(),
    ensures
        enc_payloads(s.take(i + 1)) == enc_payloads(s.take(i)) + enc_bytes(s[i]),
    decreases i,
{
    if i == 0 {
        assert(s.take(1) =~= seq![s[0]]);
        assert(seq![s[0]].drop_first() =~= Seq::<Seq<u8>>::empty());
        assert(enc_payloads(s.take(0)) =~= Seq::<u8>::empty());
        assert(enc_payloads(s.take(1)) =~= enc_payloads(s.take(0)) + enc_bytes(s[0]));
    } else {
        let d = s.drop_first();
        lemma_enc_payloads_step(d, i - 1);
        assert(s.take(i + 1).drop_first() =~= d.take(i));
        assert(s.take(i).drop_first() =~= d.take(i - 1));
        assert(enc_payloads(s.take(i + 1)) == enc_bytes(s[0]) + enc_payloads(d.take(i)));
        assert(enc_payloads(s.take(i)) == enc_bytes(s[0]) + enc_payloads(d.take(i - 1)));
        assert(enc_bytes(s[0]) + (enc_payloads(d.take(i - 1)) + enc_bytes(d[i - 1])) =~= (enc_bytes(
            s[0],
        ) + enc_payloads(d.take(i - 1))) + enc_bytes(d[i - 1]));
    }
}

// ---------------------------------------------------------------------------
// The executable encoder.
// ---------------------------------------------------------------------------
/// Append a `u64` in little-endian order.
fn push_u64(out: &mut Vec<u8>, v: u64)
    ensures
        final(out)@ == old(out)@ + enc_u64(v),
{
    let mut b = u64_to_le_bytes(v);
    out.append(&mut b);
}

/// Append a counted payload.
fn push_bytes(out: &mut Vec<u8>, b: &Vec<u8>)
    ensures
        final(out)@ == old(out)@ + enc_bytes(b@),
{
    push_u64(out, b.len() as u64);
    let ghost mid = out@;
    let mut i: usize = 0;
    while i < b.len()
        invariant
            i <= b@.len(),
            out@ == mid + b@.take(i as int),
        decreases b@.len() - i,
    {
        out.push(b[i]);
        proof {
            assert(mid + b@.take(i as int) + seq![b@[i as int]] =~= mid + b@.take(i + 1));
        }
        i = i + 1;
    }
    proof {
        assert(b@.take(b@.len() as int) =~= b@);
        assert(mid + b@ =~= old(out)@ + enc_bytes(b@));
    }
}

/// Append the input section: count, then each input in order.
fn push_inputs(out: &mut Vec<u8>, inputs: &Vec<Input>)
    ensures
        final(out)@ == old(out)@ + enc_u64(inputs@.len() as u64) + enc_inputs(inputs@),
{
    push_u64(out, inputs.len() as u64);
    let ghost mid = out@;
    let mut i: usize = 0;
    while i < inputs.len()
        invariant
            i <= inputs@.len(),
            out@ == mid + enc_inputs(inputs@.take(i as int)),
        decreases inputs@.len() - i,
    {
        proof {
            assert(enc_inputs(inputs@.take(0)) =~= Seq::<u8>::empty());
        }
        let ghost before = out@;
        push_u64(out, inputs[i].output_ref);
        push_u64(out, inputs[i].amount);
        proof {
            lemma_enc_inputs_step(inputs@, i as int);
            assert(before + enc_u64(inputs@[i as int].output_ref) + enc_u64(
                inputs@[i as int].amount,
            ) =~= before + enc_input(inputs@[i as int]));
            assert(mid + enc_inputs(inputs@.take(i as int)) + enc_input(inputs@[i as int]) =~= mid
                + enc_inputs(inputs@.take(i + 1)));
        }
        i = i + 1;
    }
    proof {
        assert(enc_inputs(inputs@.take(0)) =~= Seq::<u8>::empty());
        assert(mid + enc_inputs(inputs@.take(0)) =~= mid);
        assert(inputs@.take(inputs@.len() as int) =~= inputs@);
    }
}

/// Append the output section: count, then each output in order.
fn push_outputs(out: &mut Vec<u8>, outputs: &Vec<Output>)
    ensures
        final(out)@ == old(out)@ + enc_u64(outputs@.len() as u64) + enc_outputs(
            outputs@.map_values(|o: Output| o@),
        ),
{
    let ghost s = outputs@.map_values(|o: Output| o@);
    push_u64(out, outputs.len() as u64);
    let ghost mid = out@;
    let mut i: usize = 0;
    while i < outputs.len()
        invariant
            i <= outputs@.len(),
            s == outputs@.map_values(|o: Output| o@),
            out@ == mid + enc_outputs(s.take(i as int)),
        decreases outputs@.len() - i,
    {
        proof {
            assert(enc_outputs(s.take(0)) =~= Seq::<u8>::empty());
        }
        let ghost before = out@;
        push_bytes(out, &outputs[i].address);
        push_u64(out, outputs[i].amount);
        proof {
            lemma_enc_outputs_step(s, i as int);
            assert(before + enc_bytes(s[i as int].address) + enc_u64(s[i as int].amount) =~= before
                + enc_output(s[i as int]));
            assert(mid + enc_outputs(s.take(i as int)) + enc_output(s[i as int]) =~= mid
                + enc_outputs(s.take(i + 1)));
        }
        i = i + 1;
    }
    proof {
        assert(enc_outputs(s.take(0)) =~= Seq::<u8>::empty());
        assert(mid + enc_outputs(s.take(0)) =~= mid);
        assert(s.take(s.len() as int) =~= s);
    }
}

/// Append the certificate section: count, then each counted payload.
fn push_certificates(out: &mut Vec<u8>, certs: &Vec<Certificate>)
    ensures
        final(out)@ == old(out)@ + enc_u64(certs@.len() as u64) + enc_payloads(
            certs@.map_values(|c: Certificate| c.payload@),
        ),
{
    let ghost s = certs@.map_values(|c: Certificate| c.payload@);
    push_u64(out, certs.len() as u64);
    let ghost mid = out@;
    let mut i: usize = 0;
    while i < certs.len()
        invariant
            i <= certs@.len(),
            s == certs@.map_values(|c: Certificate| c.payload@),
            out@ == mid + enc_payloads(s.take(i as int)),
        decreases certs@.len() - i,
    {
        proof {
            assert(enc_payloads(s.take(0)) =~= Seq::<u8>::empty());
        }
        push_bytes(out, &certs[i].payload);
        proof {
            lemma_enc_payloads_step(s, i as int);
            assert(mid + enc_payloads(s.take(i as int)) + enc_bytes(s[i as int]) =~= mid
                + enc_payloads(s.take(i + 1)));
        }
        i = i + 1;
    }
    proof {
        assert(enc_payloads(s.take(0)) =~= Seq::<u8>::empty());
        assert(mid + enc_payloads(s.take(0)) =~= mid);
        assert(s.take(s.len() as int) =~= s);
    }
}

/// Append the witness section: count, then each counted payload.
fn push_witnesses(out: &mut Vec<u8>, wits: &Vec<Witness>)
    ensures
        final(out)@ == old(out)@ + enc_u64(wits@.len() as u64) + enc_payloads(
            wits@.map_values(|w: Witness| w.payload@),
        ),
{
    let ghost s = wits@.map_values(|w: Witness| w.payload@);
    push_u64(out, wits.len() as u64);
    let ghost mid = out@;
    let mut i: usize = 0;
    while i < wits.len()
        invariant
            i <= wits@.len(),
            s == wits@.map_values(|w: Witness| w.payload@),
            out@ == mid + enc_payloads(s.take(i as int)),
        decreases wits@.len() - i,
    {
        proof {
            assert(enc_payloads(s.take(0)) =~= Seq::<u8>::empty());
        }
        push_bytes(out, &wits[i].payload);
        proof {
            lemma_enc_payloads_step(s, i as int);
            assert(mid + enc_payloads(s.take(i as int)) + enc_bytes(s[i as int]) =~= mid
                + enc_payloads(s.take(i + 1)));
        }
        i = i + 1;
    }
    proof {
        assert(enc_payloads(s.take(0)) =~= Seq::<u8>::empty());
        assert(mid + enc_payloads(s.take(0)) =~= mid);
        assert(s.take(s.len() as int) =~= s);
    }
}

/// Append an optional chain date: flag, then epoch and slot if present.
fn push_opt_date(out: &mut Vec<u8>, d: &Option<BlockDate>)
    ensures
        final(out)@ == old(out)@ + enc_opt_date(*d),
{
    match d {
        None => {
            out.push(0u8);
            proof {
                assert(old(out)@.push(0u8) =~= old(out)@ + seq![0u8]);
            }
        },
        Some(bd) => {
            out.push(1u8);
            let ghost after_flag = out@;
            push_u64(out, bd.epoch);
            push_u64(out, bd.slot);
            proof {
                assert(after_flag =~= old(out)@ + seq![1u8]);
                assert(old(out)@ + seq![1u8] + enc_u64(bd.epoch) + enc_u64(bd.slot) =~= old(out)@
                    + (seq![1u8] + enc_u64(bd.epoch) + enc_u64(bd.slot)));
            }
        },
    }
}

/// Encode a document into its on-disk bytes.  Deterministic: the bytes are
/// a function of the document value alone, so re-encoding an unchanged
/// document reproduces the identical bytes.
pub fn encode(t: &Transaction) -> (r: Vec<u8>)
    ensures
        r@ == spec_encode(t@),
{
    let mut out: Vec<u8> = Vec::new();
    out.push(t.version);
    proof {
        assert(out@ =~= Seq::<u8>::empty() + seq![t@.version]);
        assert(Seq::<u8>::empty() + seq![t@.version] =~= seq![t@.version]);
    }
    push_inputs(&mut out, &t.inputs);
    push_outputs(&mut out, &t.outputs);
    push_certificates(&mut out, &t.certificates);
    push_opt_date(&mut out, &t.validity.lower);
    push_opt_date(&mut out, &t.validity.upper);
    push_witnesses(&mut out, &t.witnesses);
    out
}

// ---------------------------------------------------------------------------
// Windows into a byte stream.
// ---------------------------------------------------------------------------
/// If a window of `b` holds `s`, every subwindow holds the matching part of
/// `s`.
proof fn lemma_window(b: Seq<u8>, p: int, s: Seq<u8>, i: int, j: int)
    requires
        0 <= p,
        p + s.len() <= b.len(),
        b.subrange(p, p + s.len()) == s,
        0 <= i <= j <= s.len(),
    ensures
        b.subrange(p + i, p + j) == s.subrange(i, j),
{
    assert forall|k: int| 0 <= k < j - i implies b.subrange(p + i, p + j)[k] == s.subrange(i, j)[k]
        by {
        assert(b.subrange(p, p + s.len())[i + k] == s[i + k]);
    }
    assert(b.subrange(p + i, p + j) =~= s.subrange(i, j));
}

/// Two adjacent windows of `b` concatenate to the enclosing window.
proof fn lemma_subrange_concat(b: Seq<u8>, p: int, m: int, e: int)
    requires
        0 <= p <= m <= e <= b.len(),
    ensures
        b.subrange(p, m) + b.subrange(m, e) == b.subrange(p, e),
{
    assert(b.subrange(p, m) + b.subrange(m, e) =~= b.subrange(p, e));
}

// ---------------------------------------------------------------------------
// Parsing inverts encoding.
// ---------------------------------------------------------------------------
/// A `u64` encoding found at the cursor parses back to the same value.
proof fn lemma_parse_u64_at(b: Seq<u8>, p: int, v: u64)
    requires
        0 <= p,
        p + 8 <= b.len(),
        b.subrange(p, p + 8) == enc_u64(v),
    ensures
        parse_u64(b, p) == Some((v, p + 8)),
{
    lemma_auto_spec_u64_to_from_le_bytes();
}

/// A counted payload encoding found at the cursor parses back to the same
/// payload.
proof fn lemma_parse_bytes_at(b: Seq<u8>, p: int, x: Seq<u8>)
    requires
        0 <= p,
        x.len() <= u64::MAX,
        p + 8 + x.len() <= b.len(),
        b.subrange(p, p + 8 + x.len()) == enc_bytes(x),
    ensures
        parse_bytes(b, p) == Some((x, p + 8 + x.len())),
{
    lemma_enc_u64_len(x.len() as u64);
    lemma_window(b, p, enc_bytes(x), 0, 8);
    assert(enc_bytes(x).subrange(0, 8) =~= enc_u64(x.len() as u64));
    lemma_parse_u64_at(b, p, x.len() as u64);
    lemma_window(b, p, enc_bytes(x), 8, 8 + x.len() as int);
    assert(enc_bytes(x).subrange(8, 8 + x.len() as int) =~= x);
}

/// An input encoding found at the cursor parses back to the same input.
proof fn lemma_parse_input_at(b: Seq<u8>, p: int, x: Input)
    requires
        0 <= p,
        p + 16 <= b.len(),
        b.subrange(p, p + 16) == enc_input(x),
    ensures
        parse_input(b, p) == Some((x, p + 16)),
{
    lemma_enc_u64_len(x.output_ref);
    lemma_enc_u64_len(x.amount);
    lemma_window(b, p, enc_input(x), 0, 8);
    assert(enc_input(x).subrange(0, 8) =~= enc_u64(x.output_ref));
    lemma_window(b, p, enc_input(x), 8, 16);
    assert(enc_input(x).subrange(8, 16) =~= enc_u64(x.amount));
    lemma_parse_u64_at(b, p, x.output_ref);
    lemma_parse_u64_at(b, p + 8, x.amount);
}

/// An input-list encoding found at the cursor parses back to the same list.
proof fn lemma_parse_inputs_at(b: Seq<u8>, p: int, s: Seq<Input>)
    requires
        0 <= p,
        p + enc_inputs(s).len() <= b.len(),
        b.subrange(p, p + enc_inputs(s).len()) == enc_inputs(s),
    ensures
        parse_inputs(b, p, s.len()) == Some((s, p + enc_inputs(s).len())),
    decreases s.len(),
{
    if s.len() == 0 {
        assert(s =~= Seq::<Input>::empty());
    } else {
        let x = s[0];
        let rest = s.drop_first();
        lemma_enc_u64_len(x.output_ref);
        lemma_enc_u64_len(x.amount);
        let tot = enc_inputs(s).len() as int;
        lemma_window(b, p, enc_inputs(s), 0, 16);
        assert(enc_inputs(s).subrange(0, 16) =~= enc_input(x));
        lemma_parse_input_at(b, p, x);
        lemma_window(b, p, enc_inputs(s), 16, tot);
        assert(enc_inputs(s).subrange(16, tot) =~= enc_inputs(rest));
        lemma_parse_inputs_at(b, p + 16, rest);
        assert(seq![x] + rest =~= s);
    }
}

/// An output encoding found at the cursor parses back to the same output.
proof fn lemma_parse_output_at(b: Seq<u8>, p: int, o: OutputView)
    requires
        0 <= p,
        o.address.len() <= u64::MAX,
        p + enc_output(o).len() <= b.len(),
        b.subrange(p, p + enc_output(o).len()) == enc_output(o),
    ensures
        parse_output(b, p) == Some((o, p + enc_output(o).len())),
{
    lemma_enc_u64_len(o.address.len() as u64);
    lemma_enc_u64_len(o.amount);
    let m = 8 + o.address.len() as int;
    lemma_window(b, p, enc_output(o), 0, m);
    assert(enc_output(o).subrange(0, m) =~= enc_bytes(o.address));
    lemma_parse_bytes_at(b, p, o.address);
    lemma_window(b, p, enc_output(o), m, m + 8);
    assert(enc_output(o).subrange(m, m + 8) =~= enc_u64(o.amount));
    lemma_parse_u64_at(b, p + m, o.amount);
}

/// An output-list encoding found at the cursor parses back to the same list.
proof fn lemma_parse_outputs_at(b: Seq<u8>, p: int, s: Seq<OutputView>)
    requires
        0 <= p,
        p + enc_outputs(s).len() <= b.len(),
        b.subrange(p, p + enc_outputs(s).len()) == enc_outputs(s),
        forall|i: int| 0 <= i < s.len() ==> (#[trigger] s[i]).address.len() <= u64::MAX,
    ensures
        parse_outputs(b, p, s.len()) == Some((s, p + enc_outputs(s).len())),
    decreases s.len(),
{
    if s.len() == 0 {
        assert(s =~= Seq::<OutputView>::empty());
    } else {
        let x = s[0];
        let rest = s.drop_first();
        lemma_enc_u64_len(x.address.len() as u64);
        lemma_enc_u64_len(x.amount);
        let m = enc_output(x).len() as int;
        let tot = enc_outputs(s).len() as int;
        lemma_window(b, p, enc_outputs(s), 0, m);
        assert(enc_outputs(s).subrange(0, m) =~= enc_output(x));
        lemma_parse_output_at(b, p, x);
        lemma_window(b, p, enc_outputs(s), m, tot);
        assert(enc_outputs(s).subrange(m, tot) =~= enc_outputs(rest));
        assert(forall|i: int|
            0 <= i < rest.len() ==> (#[trigger] rest[i]).address.len() <= u64::MAX);
        lemma_parse_outputs_at(b, p + m, rest);
        assert(seq![x] + rest =~= s);
    }
}

/// A payload-list encoding found at the cursor parses back to the same list.
proof fn lemma_parse_payloads_at(b: Seq<u8>, p: int, s: Seq<Seq<u8>>)
    requires
        0 <= p,
        p + enc_payloads(s).len() <= b.len(),
        b.subrange(p, p + enc_payloads(s).len()) == enc_payloads(s),
        forall|i: int| 0 <= i < s.len() ==> (#[trigger] s[i]).len() <= u64::MAX,
    ensures
        parse_payloads(b, p, s.len()) == Some((s, p + enc_payloads(s).len())),
    decreases s.len(),
{
    if s.len() == 0 {
        assert(s =~= Seq::<Seq<u8>>::empty());
    } else {
        let x = s[0];
        let rest = s.drop_first();
        lemma_enc_u64_len(x.len() as u64);
        let m = enc_bytes(x).len() as int;
        let tot = enc_payloads(s).len() as int;
        lemma_window(b, p, enc_payloads(s), 0, m);
        assert(enc_payloads(s).subrange(0, m) =~= enc_bytes(x));
        lemma_parse_bytes_at(b, p, x);
        lemma_window(b, p, enc_payloads(s), m, tot);
        assert(enc_payloads(s).subrange(m, tot) =~= enc_payloads(rest));
        assert(forall|i: int| 0 <= i < rest.len() ==> (#[trigger] rest[i]).len() <= u64::MAX);
        lemma_parse_payloads_at(b, p + m, rest);
        assert(seq![x] + rest =~= s);
    }
}

/// An optional-date encoding found at the cursor parses back to the same
/// optional date.
proof fn lemma_parse_opt_date_at(b: Seq<u8>, p: int, d: Option<BlockDate>)
    requires
        0 <= p,
        p + enc_opt_date(d).len() <= b.len(),
        b.subrange(p, p + enc_opt_date(d).len()) == enc_opt_date(d),
    ensures
        parse_opt_date(b, p) == Some((d, p + enc_opt_date(d).len())),
{
    match d {
        None => {
            assert(b[p] == b.subrange(p, p + 1)[0]);
            assert(b[p] == enc_opt_date(d)[0]);
        },
        Some(bd) => {
            lemma_enc_u64_len(bd.epoch);
            lemma_enc_u64_len(bd.slot);
            assert(b[p] == b.subrange(p, p + 17)[0]);
            assert(b[p] == enc_opt_date(d)[0]);
            lemma_window(b, p, enc_opt_date(d), 1, 9);
            assert(enc_opt_date(d).subrange(1, 9) =~= enc_u64(bd.epoch));
            lemma_window(b, p, enc_opt_date(d), 9, 17);
            assert(enc_opt_date(d).subrange(9, 17) =~= enc_u64(bd.slot));
            lemma_parse_u64_at(b, p + 1, bd.epoch);
            lemma_parse_u64_at(b, p + 9, bd.slot);
        },
    }
}

/// The round-trip law: every well-formed document value decodes from its
/// own encoding, structurally unchanged.
#[verifier::rlimit(80)]
pub proof fn lemma_round_trip(v: TransactionView)
    requires
        v.wf(),
    ensures
        spec_decode(spec_encode(v)) == Ok::<TransactionView, DecodeError>(v),
{
    let b = spec_encode(v);
    let c_in = enc_u64(v.inputs.len() as u64);
    let e_in = enc_inputs(v.inputs);
    let c_out = enc_u64(v.outputs.len() as u64);
    let e_out = enc_outputs(v.outputs);
    let c_cert = enc_u64(v.certificates.len() as u64);
    let e_cert = enc_payloads(v.certificates);
    let e_low = enc_opt_date(v.validity.lower);
    let e_up = enc_opt_date(v.validity.upper);
    let c_wit = enc_u64(v.witnesses.len() as u64);
    let e_wit = enc_payloads(v.witnesses);
    lemma_enc_u64_len(v.inputs.len() as u64);
    lemma_enc_u64_len(v.outputs.len() as u64);
    lemma_enc_u64_len(v.certificates.len() as u64);
    lemma_enc_u64_len(v.witnesses.len() as u64);
    let l1 = 1 + 8;
    let l2 = l1 + e_in.len();
    let l3 = l2 + 8;
    let l4 = l3 + e_out.len();
    let l5 = l4 + 8;
    let l6 = l5 + e_cert.len();
    let l7 = l6 + e_low.len();
    let l8 = l7 + e_up.len();
    let l9 = l8 + 8;
    let l10 = l9 + e_wit.len();
    assert(b.len() == l10);
    assert(b[0] == v.version);
    assert(b.subrange(1, l1 as int) =~= c_in);
    lemma_parse_u64_at(b, 1, v.inputs.len() as u64);
    assert(b.subrange(l1 as int, l2 as int) =~= e_in);
    lemma_parse_inputs_at(b, l1 as int, v.inputs);
    assert(b.subrange(l2 as int, l3 as int) =~= c_out);
    lemma_parse_u64_at(b, l2 as int, v.outputs.len() as u64);
    assert(b.subrange(l3 as int, l4 as int) =~= e_out);
    lemma_parse_outputs_at(b, l3 as int, v.outputs);
    assert(b.subrange(l4 as int, l5 as int) =~= c_cert);
    lemma_parse_u64_at(b, l4 as int, v.certificates.len() as u64);
    assert(b.subrange(l5 as int, l6 as int) =~= e_cert);
    lemma_parse_payloads_at(b, l5 as int, v.certificates);
    assert(b.subrange(l6 as int, l7 as int) =~= e_low);
    lemma_parse_opt_date_at(b, l6 as int, v.validity.lower);
    assert(b.subrange(l7 as int, l8 as int) =~= e_up);
    lemma_parse_opt_date_at(b, l7 as int, v.validity.upper);
    assert(b.subrange(l8 as int, l9 as int) =~= c_wit);
    lemma_parse_u64_at(b, l8 as int, v.witnesses.len() as u64);
    assert(b.subrange(l9 as int, l10 as int) =~= e_wit);
    lemma_parse_payloads_at(b, l9 as int, v.witnesses);
    assert((v.inputs.len() as u64) as nat == v.inputs.len());
    assert((v.outputs.len() as u64) as nat == v.outputs.len());
    assert((v.certificates.len() as u64) as nat == v.certificates.len());
    assert((v.witnesses.len() as u64) as nat == v.witnesses.len());
    let parsed = parse_body(b, 1);
    assert(parsed is Some);
    let (pv, e) = parsed.unwrap();
    assert(pv =~= v);
    assert(e == b.len());
}

// ---------------------------------------------------------------------------
// Encoding inverts parsing: the encoding is canonical.
// ---------------------------------------------------------------------------
/// What a `u64` parse consumed is exactly the encoding of its value.
proof fn lemma_u64_canonical(b: Seq<u8>, p: int)
    requires
        parse_u64(b, p) is Some,
    ensures
        parse_u64(b, p).unwrap().1 == p + 8,
        p + 8 <= b.len(),
        0 <= p,
        enc_u64(parse_u64(b, p).unwrap().0) == b.subrange(p, p + 8),
{
    lemma_auto_spec_u64_to_from_le_bytes();
    assert(b.subrange(p, p + 8).len() == 8);
}

/// What a counted-payload parse consumed is exactly the encoding of its
/// payload.
proof fn lemma_bytes_canonical(b: Seq<u8>, p: int)
    requires
        parse_bytes(b, p) is Some,
    ensures
        ({
            let (x, e) = parse_bytes(b, p).unwrap();
            &&& 0 <= p
            &&& x.len() <= u64::MAX
            &&& e == p + 8 + x.len()
            &&& e <= b.len()
            &&& enc_bytes(x) == b.subrange(p, e)
        }),
{
    lemma_u64_canonical(b, p);
    let (n, q) = parse_u64(b, p).unwrap();
    let (x, e) = parse_bytes(b, p).unwrap();
    lemma_enc_u64_len(x.len() as u64);
    assert(x.len() as u64 == n);
    assert(x == b.subrange(p + 8, e));
    lemma_subrange_concat(b, p, p + 8, e);
    assert(enc_bytes(x) == b.subrange(p, p + 8) + b.subrange(p + 8, e));
}

/// What an input parse consumed is exactly the encoding of its input.
proof fn lemma_input_canonical(b: Seq<u8>, p: int)
    requires
        parse_input(b, p) is Some,
    ensures
        ({
            let (x, e) = parse_input(b, p).unwrap();
            &&& 0 <= p
            &&& e == p + 16
            &&& e <= b.len()
            &&& enc_input(x) == b.subrange(p, e)
        }),
{
    lemma_u64_canonical(b, p);
    lemma_u64_canonical(b, p + 8);
    let (x, e) = parse_input(b, p).unwrap();
    lemma_enc_u64_len(x.output_ref);
    lemma_subrange_concat(b, p, p + 8, p + 16);
    assert(enc_input(x) == b.subrange(p, p + 8) + b.subrange(p + 8, p + 16));
}

/// What an input-list parse consumed is exactly the encoding of its list.
proof fn lemma_inputs_canonical(b: Seq<u8>, p: int, n: nat)
    requires
        parse_inputs(b, p, n) is Some,
        0 <= p <= b.len(),
    ensures
        ({
            let (s, e) = parse_inputs(b, p, n).unwrap();
            &&& s.len() == n
            &&& p <= e <= b.len()
            &&& e - p == enc_inputs(s).len()
            &&& enc_inputs(s) == b.subrange(p, e)
        }),
    decreases n,
{
    let (s, e) = parse_inputs(b, p, n).unwrap();
    if n == 0 {
        assert(enc_inputs(s) =~= b.subrange(p, e));
    } else {
        lemma_input_canonical(b, p);
        let (x, q) = parse_input(b, p).unwrap();
        lemma_inputs_canonical(b, q, (n - 1) as nat);
        let (s1, e1) = parse_inputs(b, q, (n - 1) as nat).unwrap();
        assert((seq![x] + s1).drop_first() =~= s1);
        assert((seq![x] + s1)[0] == x);
        assert(enc_inputs(s) == enc_input(x) + enc_inputs(s1));
        lemma_subrange_concat(b, p, q, e);
        assert(enc_inputs(s) == b.subrange(p, q) + b.subrange(q, e));
    }
}

/// What an output parse consumed is exactly the encoding of its output.
proof fn lemma_output_canonical(b: Seq<u8>, p: int)
    requires
        parse_output(b, p) is Some,
    ensures
        ({
            let (o, e) = parse_output(b, p).unwrap();
            &&& 0 <= p
            &&& o.address.len() <= u64::MAX
            &&& e == p + enc_output(o).len()
            &&& e <= b.len()
            &&& enc_output(o) == b.subrange(p, e)
        }),
{
    lemma_bytes_canonical(b, p);
    let (addr, q) = parse_bytes(b, p).unwrap();
    lemma_u64_canonical(b, q);
    let (o, e) = parse_output(b, p).unwrap();
    lemma_enc_u64_len(o.address.len() as u64);
    lemma_subrange_concat(b, p, q, e);
    assert(enc_output(o) == b.subrange(p, q) + b.subrange(q, e));
}

/// What an output-list parse consumed is exactly the encoding of its list.
proof fn lemma_outputs_canonical(b: Seq<u8>, p: int, n: nat)
    requires
        parse_outputs(b, p, n) is Some,
        0 <= p <= b.len(),
    ensures
        ({
            let (s, e) = parse_outputs(b, p, n).unwrap();
            &&& s.len() == n
            &&& p <= e <= b.len()
            &&& e - p == enc_outputs(s).len()
            &&& enc_outputs(s) == b.subrange(p, e)
        }),
    decreases n,
{
    let (s, e) = parse_outputs(b, p, n).unwrap();
    if n == 0 {
        assert(enc_outputs(s) =~= b.subrange(p, e));
    } else {
        lemma_output_canonical(b, p);
        let (x, q) = parse_output(b, p).unwrap();
        lemma_outputs_canonical(b, q, (n - 1) as nat);
        let (s1, e1) = parse_outputs(b, q, (n - 1) as nat).unwrap();
        assert((seq![x] + s1).drop_first() =~= s1);
        assert((seq![x] + s1)[0] == x);
        assert(enc_outputs(s) == enc_output(x) + enc_outputs(s1));
        lemma_subrange_concat(b, p, q, e);
        assert(enc_outputs(s) == b.subrange(p, q) + b.subrange(q, e));
    }
}

/// What a payload-list parse consumed is exactly the encoding of its list.
proof fn lemma_payloads_canonical(b: Seq<u8>, p: int, n: nat)
    requires
        parse_payloads(b, p, n) is Some,
        0 <= p <= b.len(),
    ensures
        ({
            let (s, e) = parse_payloads(b, p, n).unwrap();
            &&& s.len() == n
            &&& p <= e <= b.len()
            &&& e - p == enc_payloads(s).len()
            &&& enc_payloads(s) == b.subrange(p, e)
        }),
    decreases n,
{
    let (s, e) = parse_payloads(b, p, n).unwrap();
    if n == 0 {
        assert(enc_payloads(s) =~= b.subrange(p, e));
    } else {
        lemma_bytes_canonical(b, p);
        let (x, q) = parse_bytes(b, p).unwrap();
        lemma_payloads_canonical(b, q, (n - 1) as nat);
        let (s1, e1) = parse_payloads(b, q, (n - 1) as nat).unwrap();
        assert((seq![x] + s1).drop_first() =~= s1);
        assert((seq![x] + s1)[0] == x);
        assert(enc_payloads(s) == enc_bytes(x) + enc_payloads(s1));
        lemma_subrange_concat(b, p, q, e);
        assert(enc_payloads(s) == b.subrange(p, q) + b.subrange(q, e));
    }
}

/// What an optional-date parse consumed is exactly the encoding of its
/// optional date: only the two flag values are accepted, so each optional
/// date has one encoding.
proof fn lemma_opt_date_canonical(b: Seq<u8>, p: int)
    requires
        parse_opt_date(b, p) is Some,
    ensures
        ({
            let (d, e) = parse_opt_date(b, p).unwrap();
            &&& 0 <= p
            &&& e == p + enc_opt_date(d).len()
            &&& e <= b.len()
            &&& enc_opt_date(d) == b.subrange(p, e)
        }),
{
    let (d, e) = parse_opt_date(b, p).unwrap();
    match d {
        None => {
            assert(seq![0u8] =~= b.subrange(p, p + 1));
        },
        Some(bd) => {
            lemma_u64_canonical(b, p + 1);
            lemma_u64_canonical(b, p + 9);
            lemma_enc_u64_len(bd.epoch);
            assert(seq![1u8] =~= b.subrange(p, p + 1));
            lemma_subrange_concat(b, p, p + 1, p + 9);
            lemma_subrange_concat(b, p, p + 9, p + 17);
            assert(enc_opt_date(d) == (b.subrange(p, p + 1) + b.subrange(p + 1, p + 9))
                + b.subrange(p + 9, p + 17));
        },
    }
}

/// The canonicity law: decoding is injective into the encoder's image, so
/// re-encoding a decoded document reproduces the original bytes exactly.
/// This is what keeps a load that is stored back unchanged byte-identical
/// on disk.
#[verifier::rlimit(80)]
pub proof fn lemma_decode_canonical(bts: Seq<u8>, v: TransactionView)
    requires
        spec_decode(bts) == Ok::<TransactionView, DecodeError>(v),
    ensures
        spec_encode(v) == bts,
        v.wf(),
{
    lemma_parse_body_wf(bts, 1);
    let (n_in, p1) = parse_u64(bts, 1).unwrap();
    let (inputs, p2) = parse_inputs(bts, p1, n_in as nat).unwrap();
    let (n_out, p3) = parse_u64(bts, p2).unwrap();
    let (outputs, p4) = parse_outputs(bts, p3, n_out as nat).unwrap();
    let (n_cert, p5) = parse_u64(bts, p4).unwrap();
    let (certificates, p6) = parse_payloads(bts, p5, n_cert as nat).unwrap();
    let (lower, p7) = parse_opt_date(bts, p6).unwrap();
    let (upper, p8) = parse_opt_date(bts, p7).unwrap();
    let (n_wit, p9) = parse_u64(bts, p8).unwrap();
    let (witnesses, p10) = parse_payloads(bts, p9, n_wit as nat).unwrap();
    lemma_u64_canonical(bts, 1);
    lemma_inputs_canonical(bts, p1, n_in as nat);
    lemma_u64_canonical(bts, p2);
    lemma_outputs_canonical(bts, p3, n_out as nat);
    lemma_u64_canonical(bts, p4);
    lemma_payloads_canonical(bts, p5, n_cert as nat);
    lemma_opt_date_canonical(bts, p6);
    lemma_opt_date_canonical(bts, p7);
    lemma_u64_canonical(bts, p8);
    lemma_payloads_canonical(bts, p9, n_wit as nat);
    assert(inputs.len() as u64 == n_in);
    assert(outputs.len() as u64 == n_out);
    assert(certificates.len() as u64 == n_cert);
    assert(witnesses.len() as u64 == n_wit);
    assert(bts.subrange(0, 1) =~= seq![v.version]);
    assert(bts.subrange(0, p1) + bts.subrange(p1, p2) =~= bts.subrange(0, p2));
    assert(bts.subrange(0, p2) + bts.subrange(p2, p3) =~= bts.subrange(0, p3));
    assert(bts.subrange(0, p3) + bts.subrange(p3, p4) =~= bts.subrange(0, p4));
    assert(bts.subrange(0, p4) + bts.subrange(p4, p5) =~= bts.subrange(0, p5));
    assert(bts.subrange(0, p5) + bts.subrange(p5, p6) =~= bts.subrange(0, p6));
    assert(bts.subrange(0, p6) + bts.subrange(p6, p7) =~= bts.subrange(0, p7));
    assert(bts.subrange(0, p7) + bts.subrange(p7, p8) =~= bts.subrange(0, p8));
    assert(bts.subrange(0, p8) + bts.subrange(p8, p9) =~= bts.subrange(0, p9));
    assert(bts.subrange(0, p9) + bts.subrange(p9, p10) =~= bts.subrange(0, p10));
    assert(bts.subrange(0, p10) =~= bts);
    assert(spec_encode(v) == bts.subrange(0, 1) + bts.subrange(1, p1) + bts.subrange(p1, p2)
        + bts.subrange(p2, p3) + bts.subrange(p3, p4) + bts.subrange(p4, p5) + bts.subrange(
        p5,
        p6,
    ) + bts.subrange(p6, p7) + bts.subrange(p7, p8) + bts.subrange(p8, p9) + bts.subrange(
        p9,
        p10,
    ));
    assert(bts.subrange(0, 1) + bts.subrange(1, p1) =~= bts.subrange(0, p1));
    assert(spec_encode(v) == bts);
}

// ---------------------------------------------------------------------------
// Structural facts about successful parses.
// ---------------------------------------------------------------------------
/// A successful input-list parse yields exactly `n` inputs.
pub proof fn lemma_parse_inputs_props(b: Seq<u8>, p: int, n: nat)
    requires
        parse_inputs(b, p, n) is Some,
    ensures
        parse_inputs(b, p, n).unwrap().0.len() == n,
    decreases n,
{
    if n > 0 {
        let (x, q) = parse_input(b, p).unwrap();
        lemma_parse_inputs_props(b, q, (n - 1) as nat);
    }
}

/// A successful output-list parse yields exactly `n` outputs, each with an
/// address short enough for its length to be written down again.
pub proof fn lemma_parse_outputs_props(b: Seq<u8>, p: int, n: nat)
    requires
        parse_outputs(b, p, n) is Some,
    ensures
        parse_outputs(b, p, n).unwrap().0.len() == n,
        forall|i: int|
            0 <= i < n ==> (#[trigger] parse_outputs(b, p, n).unwrap().0[i]).address.len()
                <= u64::MAX,
    decreases n,
{
    if n > 0 {
        let (x, q) = parse_output(b, p).unwrap();
        lemma_parse_outputs_props(b, q, (n - 1) as nat);
        let s = parse_outputs(b, p, n).unwrap().0;
        let s1 = parse_outputs(b, q, (n - 1) as nat).unwrap().0;
        assert forall|i: int| 0 <= i < n implies (#[trigger] s[i]).address.len() <= u64::MAX by {
            if i > 0 {
                assert(s[i] == s1[i - 1]);
            }
        }
    }
}

/// A successful payload-list parse yields exactly `n` payloads, each short
/// enough for its byte count to be written down again.
pub proof fn lemma_parse_payloads_props(b: Seq<u8>, p: int, n: nat)
    requires
        parse_payloads(b, p, n) is Some,
    ensures
        parse_payloads(b, p, n).unwrap().0.len() == n,
        forall|i: int|
            0 <= i < n ==> (#[trigger] parse_payloads(b, p, n).unwrap().0[i]).len() <= u64::MAX,
    decreases n,
{
    if n > 0 {
        let (x, q) = parse_bytes(b, p).unwrap();
        lemma_parse_payloads_props(b, q, (n - 1) as nat);
        let s = parse_payloads(b, p, n).unwrap().0;
        let s1 = parse_payloads(b, q, (n - 1) as nat).unwrap().0;
        assert forall|i: int| 0 <= i < n implies (#[trigger] s[i]).len() <= u64::MAX by {
            if i > 0 {
                assert(s[i] == s1[i - 1]);
            }
        }
    }
}

/// Every document value a successful parse yields is well formed.
pub proof fn lemma_parse_body_wf(b: Seq<u8>, p: int)
    requires
        parse_body(b, p) is Some,
    ensures
        parse_body(b, p).unwrap().0.wf(),
{
    let (n_in, p1) = parse_u64(b, p).unwrap();
    lemma_parse_inputs_props(b, p1, n_in as nat);
    let (inputs, p2) = parse_inputs(b, p1, n_in as nat).unwrap();
    let (n_out, p3) = parse_u64(b, p2).unwrap();
    lemma_parse_outputs_props(b, p3, n_out as nat);
    let (outputs, p4) = parse_outputs(b, p3, n_out as nat).unwrap();
    let (n_cert, p5) = parse_u64(b, p4).unwrap();
    lemma_parse_payloads_props(b, p5, n_cert as nat);
    let (certificates, p6) = parse_payloads(b, p5, n_cert as nat).unwrap();
    let (lower, p7) = parse_opt_date(b, p6).unwrap();
    let (upper, p8) = parse_opt_date(b, p7).unwrap();
    let (n_wit, p9) = parse_u64(b, p8).unwrap();
    lemma_parse_payloads_props(b, p9, n_wit as nat);
}

// ---------------------------------------------------------------------------
// The executable decoder.
// ---------------------------------------------------------------------------
/// Read a little-endian `u64` at the cursor.
fn read_u64(b: &Vec<u8>, p: usize) -> (r: Option<(u64, usize)>)
    ensures
        match r {
            Some((v, q)) => parse_u64(b@, p as int) == Some((v, q as int)) && q <= b@.len(),
            None => parse_u64(b@, p as int) is None,
        },
{
    if p <= b.len() && b.len() - p >= 8 {
        let s = slice_subrange(b.as_slice(), p, p + 8);
        let v = u64_from_le_bytes(s);
        Some((v, p + 8))
    } else {
        None
    }
}

/// Read a counted payload at the cursor.
fn read_bytes(b: &Vec<u8>, p: usize) -> (r: Option<(Vec<u8>, usize)>)
    ensures
        match r {
            Some((v, q)) => parse_bytes(b@, p as int) == Some((v@, q as int)) && q <= b@.len(),
            None => parse_bytes(b@, p as int) is None,
        },
{
    match read_u64(b, p) {
        None => None,
        Some((n, q)) => {
            if n <= (b.len() - q) as u64 {
                let nn = n as usize;
                let v = slice_to_vec(slice_subrange(b.as_slice(), q, q + nn));
                Some((v, q + nn))
            } else {
                None
            }
        },
    }
}

/// Read one input at the cursor.
fn read_input(b: &Vec<u8>, p: usize) -> (r: Option<(Input, usize)>)
    ensures
        match r {
            Some((x, q)) => parse_input(b@, p as int) == Some((x, q as int)) && q <= b@.len(),
            None => parse_input(b@, p as int) is None,
        },
{
    match read_u64(b, p) {
        None => None,
        Some((output_ref, q)) => match read_u64(b, q) {
            None => None,
            Some((amount, q2)) => Some((Input { output_ref, amount }, q2)),
        },
    }
}

/// Read one output at the cursor.
fn read_output(b: &Vec<u8>, p: usize) -> (r: Option<(Output, usize)>)
    ensures
        match r {
            Some((o, q)) => parse_output(b@, p as int) == Some((o@, q as int)) && q <= b@.len(),
            None => parse_output(b@, p as int) is None,
        },
{
    match read_bytes(b, p) {
        None => None,
        Some((address, q)) => match read_u64(b, q) {
            None => None,
            Some((amount, q2)) => Some((Output { address, amount }, q2)),
        },
    }
}

/// Read an optional chain date at the cursor.
fn read_opt_date(b: &Vec<u8>, p: usize) -> (r: Option<(Option<BlockDate>, usize)>)
    ensures
        match r {
            Some((d, q)) => parse_opt_date(b@, p as int) == Some((d, q as int)) && q <= b@.len(),
            None => parse_opt_date(b@, p as int) is None,
        },
{
    if p < b.len() {
        let f = b[p];
        if f == 0 {
            Some((None, p + 1))
        } else if f == 1 {
            match read_u64(b, p + 1) {
                None => None,
                Some((epoch, q1)) => match read_u64(b, q1) {
                    None => None,
                    Some((slot, q2)) => Some((Some(BlockDate { epoch, slot }), q2)),
                },
            }
        } else {
            None
        }
    } else {
        None
    }
}

/// Read exactly `n` inputs at the cursor.
fn read_inputs(b: &Vec<u8>, p: usize, n: u64) -> (r: Option<(Vec<Input>, usize)>)
    requires
        p <= b@.len(),
    ensures
        match r {
            Some((v, q)) => parse_inputs(b@, p as int, n as nat) == Some((v@, q as int)) && q
                <= b@.len() && v@.len() == n,
            None => parse_inputs(b@, p as int, n as nat) is None,
        },
{
    let mut acc: Vec<Input> = Vec::new();
    let mut pos: usize = p;
    let mut i: u64 = 0;
    while i < n
        invariant
            i <= n,
            pos <= b@.len(),
            acc@.len() == i,
            match parse_inputs(b@, pos as int, (n - i) as nat) {
                Some((s, e)) => parse_inputs(b@, p as int, n as nat) == Some((acc@ + s, e)),
                None => parse_inputs(b@, p as int, n as nat) is None,
            },
        decreases n - i,
    {
        match read_input(b, pos) {
            None => {
                proof {
                    assert(parse_inputs(b@, pos as int, (n - i) as nat) is None);
                }
                return None;
            },
            Some((x, q)) => {
                proof {
                    let rest = parse_inputs(b@, q as int, (n - i - 1) as nat);
                    if rest is Some {
                        let (s1, e) = rest.unwrap();
                        assert(parse_inputs(b@, pos as int, (n - i) as nat) == Some(
                            (seq![x] + s1, e),
                        ));
                        assert(acc@ + (seq![x] + s1) =~= acc@.push(x) + s1);
                    }
                }
                acc.push(x);
                pos = q;
                i = i + 1;
            },
        }
    }
    proof {
        assert(parse_inputs(b@, pos as int, 0) == Some((Seq::<Input>::empty(), pos as int)));
        assert(acc@ + Seq::<Input>::empty() =~= acc@);
    }
    Some((acc, pos))
}

/// Read exactly `n` outputs at the cursor.
fn read_outputs(b: &Vec<u8>, p: usize, n: u64) -> (r: Option<(Vec<Output>, usize)>)
    requires
        p <= b@.len(),
    ensures
        match r {
            Some((v, q)) => parse_outputs(b@, p as int, n as nat) == Some(
                (v@.map_values(|o: Output| o@), q as int),
            ) && q <= b@.len() && v@.len() == n,
            None => parse_outputs(b@, p as int, n as nat) is None,
        },
{
    let mut acc: Vec<Output> = Vec::new();
    let mut pos: usize = p;
    let mut i: u64 = 0;
    while i < n
        invariant
            i <= n,
            pos <= b@.len(),
            acc@.len() == i,
            match parse_outputs(b@, pos as int, (n - i) as nat) {
                Some((s, e)) => parse_outputs(b@, p as int, n as nat) == Some(
                    (acc@.map_values(|o: Output| o@) + s, e),
                ),
                None => parse_outputs(b@, p as int, n as nat) is None,
            },
        decreases n - i,
    {
        match read_output(b, pos) {
            None => {
                proof {
                    assert(parse_outputs(b@, pos as int, (n - i) as nat) is None);
                }
                return None;
            },
            Some((x, q)) => {
                proof {
                    let rest = parse_outputs(b@, q as int, (n - i - 1) as nat);
                    if rest is Some {
                        let (s1, e) = rest.unwrap();
                        assert(parse_outputs(b@, pos as int, (n - i) as nat) == Some(
                            (seq![x@] + s1, e),
                        ));
                        assert(acc@.map_values(|o: Output| o@) + (seq![x@] + s1) =~= acc@.push(
                            x,
                        ).map_values(|o: Output| o@) + s1);
                    }
                }
                acc.push(x);
                pos = q;
                i = i + 1;
            },
        }
    }
    proof {
        assert(parse_outputs(b@, pos as int, 0) == Some((Seq::<OutputView>::empty(), pos as int)));
        assert(acc@.map_values(|o: Output| o@) + Seq::<OutputView>::empty() =~= acc@.map_values(
            |o: Output| o@,
        ));
    }
    Some((acc, pos))
}

/// Read exactly `n` certificates at the cursor.
fn read_certificates(b: &Vec<u8>, p: usize, n: u64) -> (r: Option<(Vec<Certificate>, usize)>)
    requires
        p <= b@.len(),
    ensures
        match r {
            Some((v, q)) => parse_payloads(b@, p as int, n as nat) == Some(
                (v@.map_values(|c: Certificate| c.payload@), q as int),
            ) && q <= b@.len() && v@.len() == n,
            None => parse_payloads(b@, p as int, n as nat) is None,
        },
{
    let mut acc: Vec<Certificate> = Vec::new();
    let mut pos: usize = p;
    let mut i: u64 = 0;
    while i < n
        invariant
            i <= n,
            pos <= b@.len(),
            acc@.len() == i,
            match parse_payloads(b@, pos as int, (n - i) as nat) {
                Some((s, e)) => parse_payloads(b@, p as int, n as nat) == Some(
                    (acc@.map_values(|c: Certificate| c.payload@) + s, e),
                ),
                None => parse_payloads(b@, p as int, n as nat) is None,
            },
        decreases n - i,
    {
        match read_bytes(b, pos) {
            None => {
                proof {
                    assert(parse_payloads(b@, pos as int, (n - i) as nat) is None);
                }
                return None;
            },
            Some((x, q)) => {
                proof {
                    let rest = parse_payloads(b@, q as int, (n - i - 1) as nat);
                    if rest is Some {
                        let (s1, e) = rest.unwrap();
                        assert(parse_payloads(b@, pos as int, (n - i) as nat) == Some(
                            (seq![x@] + s1, e),
                        ));
                        assert(acc@.map_values(|c: Certificate| c.payload@) + (seq![x@] + s1)
                            =~= acc@.push(Certificate { payload: x }).map_values(
                            |c: Certificate| c.payload@,
                        ) + s1);
                    }
                }
                acc.push(Certificate { payload: x });
                pos = q;
                i = i + 1;
            },
        }
    }
    proof {
        assert(parse_payloads(b@, pos as int, 0) == Some((Seq::<Seq<u8>>::empty(), pos as int)));
        assert(acc@.map_values(|c: Certificate| c.payload@) + Seq::<Seq<u8>>::empty()
            =~= acc@.map_values(|c: Certificate| c.payload@));
    }
    Some((acc, pos))
}

/// Read exactly `n` witnesses at the cursor.
fn read_witnesses(b: &Vec<u8>, p: usize, n: u64) -> (r: Option<(Vec<Witness>, usize)>)
    requires
        p <= b@.len(),
    ensures
        match r {
            Some((v, q)) => parse_payloads(b@, p as int, n as nat) == Some(
                (v@.map_values(|w: Witness| w.payload@), q as int),
            ) && q <= b@.len() && v@.len() == n,
            None => parse_payloads(b@, p as int, n as nat) is None,
        },
{
    let mut acc: Vec<Witness> = Vec::new();
    let mut pos: usize = p;
    let mut i: u64 = 0;
    while i < n
        invariant
            i <= n,
            pos <= b@.len(),
            acc@.len() == i,
            match parse_payloads(b@, pos as int, (n - i) as nat) {
                Some((s, e)) => parse_payloads(b@, p as int, n as nat) == Some(
                    (acc@.map_values(|w: Witness| w.payload@) + s, e),
                ),
                None => parse_payloads(b@, p as int, n as nat) is None,
            },
        decreases n - i,
    {
        match read_bytes(b, pos) {
            None => {
                proof {
                    assert(parse_payloads(b@, pos as int, (n - i) as nat) is None);
                }
                return None;
            },
            Some((x, q)) => {
                proof {
                    let rest = parse_payloads(b@, q as int, (n - i - 1) as nat);
                    if rest is Some {
                        let (s1, e) = rest.unwrap();
                        assert(parse_payloads(b@, pos as int, (n - i) as nat) == Some(
                            (seq![x@] + s1, e),
                        ));
                        assert(acc@.map_values(|w: Witness| w.payload@) + (seq![x@] + s1)
                            =~= acc@.push(Witness { payload: x }).map_values(
                            |w: Witness| w.payload@,
                        ) + s1);
                    }
                }
                acc.push(Witness { payload: x });
                pos = q;
                i = i + 1;
            },
        }
    }
    proof {
        assert(parse_payloads(b@, pos as int, 0) == Some((Seq::<Seq<u8>>::empty(), pos as int)));
        assert(acc@.map_values(|w: Witness| w.payload@) + Seq::<Seq<u8>>::empty()
            =~= acc@.map_values(|w: Witness| w.payload@));
    }
    Some((acc, pos))
}

/// Decode on-disk bytes into a transaction document.  The decoder is
/// strict: it fails with `Malformed` on any structural fault, with
/// `VersionMismatch` on an unknown version tag, and never yields a document
/// on a stream the encoder could not have produced.
pub fn decode(bytes: &Vec<u8>) -> (r: Result<Transaction, DecodeError>)
    ensures
        match r {
            Ok(t) => spec_decode(bytes@) == Ok::<TransactionView, DecodeError>(t@) && t@.wf(),
            Err(e) => spec_decode(bytes@) == Err::<TransactionView, DecodeError>(e),
        },
{
    if bytes.len() < 1 {
        return Err(DecodeError::Malformed);
    }
    if bytes[0] != PROTOCOL_VERSION {
        return Err(DecodeError::VersionMismatch);
    }
    let (n_in, p1) = match read_u64(bytes, 1) {
        Some(v) => v,
        None => {
            return Err(DecodeError::Malformed);
        },
    };
    let (inputs, p2) = match read_inputs(bytes, p1, n_in) {
        Some(v) => v,
        None => {
            return Err(DecodeError::Malformed);
        },
    };
    let (n_out, p3) = match read_u64(bytes, p2) {
        Some(v) => v,
        None => {
            return Err(DecodeError::Malformed);
        },
    };
    let (outputs, p4) = match read_outputs(bytes, p3, n_out) {
        Some(v) => v,
        None => {
            return Err(DecodeError::Malformed);
        },
    };
    let (n_cert, p5) = match read_u64(bytes, p4) {
        Some(v) => v,
        None => {
            return Err(DecodeError::Malformed);
        },
    };
    let (certificates, p6) = match read_certificates(bytes, p5, n_cert) {
        Some(v) => v,
        None => {
            return Err(DecodeError::Malformed);
        },
    };
    let (lower, p7) = match read_opt_date(bytes, p6) {
        Some(v) => v,
        None => {
            return Err(DecodeError::Malformed);
        },
    };
    let (upper, p8) = match read_opt_date(bytes, p7) {
        Some(v) => v,
        None => {
            return Err(DecodeError::Malformed);
        },
    };
    let (n_wit, p9) = match read_u64(bytes, p8) {
        Some(v) => v,
        None => {
            return Err(DecodeError::Malformed);
        },
    };
    let (witnesses, p10) = match read_witnesses(bytes, p9, n_wit) {
        Some(v) => v,
        None => {
            return Err(DecodeError::Malformed);
        },
    };
    if p10 != bytes.len() {
        return Err(DecodeError::Malformed);
    }
    let t = Transaction {
        version: PROTOCOL_VERSION,
        inputs,
        outputs,
        certificates,
        validity: ValidityWindow { lower, upper },
        witnesses,
    };
    proof {
        let parsed = parse_body(bytes@, 1);
        assert(parsed is Some);
        let (v, e) = parsed.unwrap();
        assert(t@ =~= v);
        lemma_parse_body_wf(bytes@, 1);
    }
    Ok(t)
}

} // verus!
