//! The pure core of the builder controller: one complete load-mutate-store
//! cycle over document bytes.
//!
//! Each CLI invocation decodes the on-disk document, applies exactly one
//! validated mutation, and re-encodes the result.  Dispatch over the
//! requested mutation is a total, side-effect-free function; all file
//! handling happens outside the library, which only ever hands back new
//! bytes on success.  On any failure no bytes are produced, so the caller
//! has nothing to write and the on-disk document stays untouched.

use vstd::prelude::*;

use crate::codec::{decode, encode, spec_decode, spec_encode, DecodeError};
use crate::model::{
    spec_add_certificate, spec_add_input, spec_add_output, spec_set_expiry_date, BlockDate,
    NetworkParams, Transaction, TransactionView, ValidationError,
};

verus! {

/// A single-field edit requested by one CLI invocation.  Amounts arrive as
/// signed numbers, exactly as they were parsed from the command line; the
/// validation step rejects the negative ones.
pub enum MutationRequest {
    /// Replace the upper bound of the validity window.
    SetExpiryDate(BlockDate),
    /// Append an input spending `amount` from a prior output.
    AddInput { output_ref: u64, amount: i64 },
    /// Append an output paying `amount` to an address.
    AddOutput { address: Vec<u8>, amount: i64 },
    /// Append a certificate payload.
    AddCertificate(Vec<u8>),
}

/// Mathematical value of a [`MutationRequest`].
pub ghost enum MutationRequestView {
    SetExpiryDate(BlockDate),
    AddInput { output_ref: u64, amount: i64 },
    AddOutput { address: Seq<u8>, amount: i64 },
    AddCertificate(Seq<u8>),
}

impl View for MutationRequest {
    type V = MutationRequestView;

    open spec fn view(&self) -> MutationRequestView {
        match self {
            MutationRequest::SetExpiryDate(d) => MutationRequestView::SetExpiryDate(*d),
            MutationRequest::AddInput { output_ref, amount } => MutationRequestView::AddInput {
                output_ref: *output_ref,
                amount: *amount,
            },
            MutationRequest::AddOutput { address, amount } => MutationRequestView::AddOutput {
                address: address@,
                amount: *amount,
            },
            MutationRequest::AddCertificate(p) => MutationRequestView::AddCertificate(p@),
        }
    }
}

/// Why a load-mutate-store cycle was aborted.
#[derive(Clone, Copy, PartialEq, Eq, Structural, Debug)]
pub enum BuilderError {
    /// The document on disk could not be interpreted; surfaced verbatim.
    Decode(DecodeError),
    /// The requested mutation conflicts with the current document state.
    Validation(ValidationError),
}

/// What one mutation does to a document value: the total, pure dispatch
/// over the request kinds.
pub open spec fn spec_apply(
    v: TransactionView,
    req: MutationRequestView,
    params: NetworkParams,
) -> Result<TransactionView, ValidationError> {
    match req {
        MutationRequestView::SetExpiryDate(d) => spec_set_expiry_date(v, d, params),
        MutationRequestView::AddInput { output_ref, amount } => spec_add_input(
            v,
            output_ref,
            amount,
            params,
        ),
        MutationRequestView::AddOutput { address, amount } => spec_add_output(
            v,
            address,
            amount,
            params,
        ),
        MutationRequestView::AddCertificate(p) => spec_add_certificate(v, p),
    }
}

/// Apply one mutation to a document after validation: the executable form
/// of [`spec_apply`].  On rejection the document comes back unchanged
/// inside the error path, since no field was touched.
pub fn apply(t: Transaction, req: MutationRequest, params: &NetworkParams) -> (r: Result<
    Transaction,
    ValidationError,
>)
    ensures
        match r {
            Ok(t2) => spec_apply(t@, req@, *params) == Ok::<TransactionView, ValidationError>(t2@),
            Err(e) => spec_apply(t@, req@, *params) == Err::<TransactionView, ValidationError>(e),
        },
{
    let mut t = t;
    let res = match req {
        MutationRequest::SetExpiryDate(d) => t.set_expiry_date(d, params),
        MutationRequest::AddInput { output_ref, amount } => t.add_input(output_ref, amount, params),
        MutationRequest::AddOutput { address, amount } => t.add_output(address, amount, params),
        MutationRequest::AddCertificate(p) => t.add_certificate(p),
    };
    match res {
        Ok(()) => Ok(t),
        Err(e) => Err(e),
    }
}

/// What one complete cycle yields from the on-disk bytes: the new bytes to
/// store, or the error that aborted the cycle before anything was written.
pub open spec fn spec_run_builder(
    b: Seq<u8>,
    req: MutationRequestView,
    params: NetworkParams,
) -> Result<Seq<u8>, BuilderError> {
    match spec_decode(b) {
        Err(e) => Err(BuilderError::Decode(e)),
        Ok(v) => match spec_apply(v, req, params) {
            Err(e) => Err(BuilderError::Validation(e)),
            Ok(v2) => Ok(spec_encode(v2)),
        },
    }
}

/// One complete load-mutate-store cycle over document bytes: decode,
/// validate and apply the single requested mutation, re-encode.  The
/// caller overwrites the document only with a returned `Ok`; on `Err`
/// nothing is handed back, so the document is left byte-for-byte as it
/// was.
pub fn run_builder(bytes: &Vec<u8>, req: MutationRequest, params: &NetworkParams) -> (r: Result<
    Vec<u8>,
    BuilderError,
>)
    ensures
        match r {
            Ok(out) => spec_run_builder(bytes@, req@, *params) == Ok::<Seq<u8>, BuilderError>(out@),
            Err(e) => spec_run_builder(bytes@, req@, *params) == Err::<Seq<u8>, BuilderError>(e),
        },
{
    let t = match decode(bytes) {
        Ok(t) => t,
        Err(e) => {
            return Err(BuilderError::Decode(e));
        },
    };
    let t2 = match apply(t, req, params) {
        Ok(t2) => t2,
        Err(e) => {
            return Err(BuilderError::Validation(e));
        },
    };
    Ok(encode(&t2))
}

/// Monotonic validity: once any witness is present, setting the expiry
/// date is rejected with `AlreadySealed`, whatever the rest of the prior
/// document state.
pub proof fn lemma_sealed_rejects_expiry_date(
    v: TransactionView,
    date: BlockDate,
    params: NetworkParams,
)
    requires
        v.sealed(),
    ensures
        spec_apply(v, MutationRequestView::SetExpiryDate(date), params) == Err::<
            TransactionView,
            ValidationError,
        >(ValidationError::AlreadySealed),
{
}

/// Ordering preservation: adding an input, then an output, then storing
/// and re-loading the document succeeds and keeps every entry exactly in
/// insertion order: the old entries unchanged, the new ones appended.
pub proof fn lemma_add_order_preserved(
    v: TransactionView,
    output_ref: u64,
    in_amount: i64,
    address: Seq<u8>,
    out_amount: i64,
    params: NetworkParams,
)
    requires
        v.wf(),
        !v.sealed(),
        crate::model::spec_valid_amount(in_amount, params),
        crate::model::spec_valid_amount(out_amount, params),
        address.len() <= u64::MAX,
        v.inputs.len() < u64::MAX,
        v.outputs.len() < u64::MAX,
    ensures
        ({
            let step1 = spec_apply(
                v,
                MutationRequestView::AddInput { output_ref, amount: in_amount },
                params,
            );
            &&& step1 is Ok
            &&& {
                let v1 = step1.unwrap();
                let step2 = spec_apply(
                    v1,
                    MutationRequestView::AddOutput { address, amount: out_amount },
                    params,
                );
                &&& step2 is Ok
                &&& {
                    let v2 = step2.unwrap();
                    &&& spec_decode(spec_encode(v2)) == Ok::<TransactionView, DecodeError>(v2)
                    &&& v2.inputs == v.inputs.push(
                        crate::model::Input { output_ref, amount: in_amount as u64 },
                    )
                    &&& v2.outputs == v.outputs.push(
                        crate::model::OutputView { address, amount: out_amount as u64 },
                    )
                    &&& v2.certificates == v.certificates
                    &&& v2.witnesses == v.witnesses
                    &&& v2.validity == v.validity
                }
            }
        }),
{
    let v1 = spec_apply(
        v,
        MutationRequestView::AddInput { output_ref, amount: in_amount },
        params,
    ).unwrap();
    let v2 = spec_apply(
        v1,
        MutationRequestView::AddOutput { address, amount: out_amount },
        params,
    ).unwrap();
    assert(v2.wf()) by {
        assert(forall|i: int|
            0 <= i < v2.outputs.len() ==> (#[trigger] v2.outputs[i]).address.len() <= u64::MAX)
            by {
            assert(forall|i: int|
                0 <= i < v.outputs.len() ==> v2.outputs[i] == #[trigger] v.outputs[i]);
        }
    }
    crate::codec::lemma_round_trip(v2);
}

/// Atomic failure: a mutation request carrying a negative amount never
/// yields new document bytes, whatever is on disk; the cycle aborts and
/// the stored document stays as it was.
pub proof fn lemma_negative_amount_rejected(
    b: Seq<u8>,
    req: MutationRequestView,
    params: NetworkParams,
)
    requires
        (match req {
            MutationRequestView::AddInput { amount, .. } => amount < 0,
            MutationRequestView::AddOutput { amount, .. } => amount < 0,
            _ => false,
        }),
    ensures
        spec_run_builder(b, req, params) is Err,
{
}

} // verus!
