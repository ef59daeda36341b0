//! The in-memory representation of a staged transaction and the validated
//! mutation primitives that edit it.
//!
//! A document is built up field by field: inputs, outputs and certificates
//! are strictly appended, while the bounds of the validity window are
//! replaced in place.  Once any witness is present the document is sealed:
//! every structural mutation is rejected, since changing a model already
//! referenced by a witness would invalidate prior signatures.

use vstd::prelude::*;

verus! {

/// The protocol version tag this builder understands.
pub const PROTOCOL_VERSION: u8 = 1;

/// A point in chain time: an epoch and a slot within that epoch.
#[derive(Clone, Copy, PartialEq, Eq, Structural, Debug)]
pub struct BlockDate {
    pub epoch: u64,
    pub slot: u64,
}

/// A transaction input: a reference to a prior output and the amount spent
/// from it.
#[derive(Clone, Copy, PartialEq, Eq, Structural, Debug)]
pub struct Input {
    pub output_ref: u64,
    pub amount: u64,
}

/// A transaction output: a destination address and the amount it receives.
#[derive(Clone, PartialEq, Eq, Debug)]
pub struct Output {
    pub address: Vec<u8>,
    pub amount: u64,
}

/// A certificate: structured metadata for a stake or delegation action,
/// carried opaquely by the builder.
#[derive(Clone, PartialEq, Eq, Debug)]
pub struct Certificate {
    pub payload: Vec<u8>,
}

/// A witness: a proof of authorization attached after signing.  The builder
/// never alters one; the presence of any witness seals the document.
#[derive(Clone, PartialEq, Eq, Debug)]
pub struct Witness {
    pub payload: Vec<u8>,
}

/// The window of chain time within which the transaction may be accepted:
/// an optional earliest date and an optional expiry date.
#[derive(Clone, Copy, PartialEq, Eq, Debug)]
pub struct ValidityWindow {
    pub lower: Option<BlockDate>,
    pub upper: Option<BlockDate>,
}

/// Consensus parameters of the target network that mutations are validated
/// against; they are supplied externally, never hard-coded.
#[derive(Clone, Copy, PartialEq, Eq, Structural, Debug)]
pub struct NetworkParams {
    /// Number of slots in one epoch; a date's slot must lie below it.
    pub slots_per_epoch: u64,
    /// Largest amount an input may spend or an output may receive.
    pub max_amount: u64,
}

/// Why a requested mutation was rejected.  The document is never changed by
/// a rejected mutation.
#[derive(Clone, Copy, PartialEq, Eq, Structural, Debug)]
pub enum ValidationError {
    /// A witness is already present; the structure must not change any more.
    AlreadySealed,
    /// The date's slot does not exist in its epoch on the target network.
    InvalidDate,
    /// An amount is negative or exceeds the network's largest amount.
    OutOfRange,
}

/// The staged transaction document: the not-yet-signed transaction under
/// incremental construction.
#[derive(Clone, PartialEq, Eq, Debug)]
pub struct Transaction {
    pub version: u8,
    pub inputs: Vec<Input>,
    pub outputs: Vec<Output>,
    pub certificates: Vec<Certificate>,
    pub validity: ValidityWindow,
    pub witnesses: Vec<Witness>,
}

/// Mathematical value of an [`Output`].
#[verifier::ext_equal]
pub ghost struct OutputView {
    pub address: Seq<u8>,
    pub amount: u64,
}

/// Mathematical value of a [`Transaction`]: every list a sequence, every
/// opaque payload a byte sequence.
#[verifier::ext_equal]
pub ghost struct TransactionView {
    pub version: u8,
    pub inputs: Seq<Input>,
    pub outputs: Seq<OutputView>,
    pub certificates: Seq<Seq<u8>>,
    pub validity: ValidityWindow,
    pub witnesses: Seq<Seq<u8>>,
}

impl View for Output {
    type V = OutputView;

    open spec fn view(&self) -> OutputView {
        OutputView { address: self.address@, amount: self.amount }
    }
}

impl View for Transaction {
    type V = TransactionView;

    open spec fn view(&self) -> TransactionView {
        TransactionView {
            version: self.version,
            inputs: self.inputs@,
            outputs: self.outputs@.map_values(|o: Output| o@),
            certificates: self.certificates@.map_values(|c: Certificate| c.payload@),
            validity: self.validity,
            witnesses: self.witnesses@.map_values(|w: Witness| w.payload@),
        }
    }
}

impl TransactionView {
    /// A document is sealed once any witness is present.
    pub open spec fn sealed(self) -> bool {
        self.witnesses.len() > 0
    }

    /// Well-formedness of a document value: its version is one the builder
    /// understands, and every list and payload is small enough for its
    /// length to be written down in the document encoding.
    pub open spec fn wf(self) -> bool {
        &&& self.version == PROTOCOL_VERSION
        &&& self.inputs.len() <= u64::MAX
        &&& self.outputs.len() <= u64::MAX
        &&& self.certificates.len() <= u64::MAX
        &&& self.witnesses.len() <= u64::MAX
        &&& forall|i: int|
            0 <= i < self.outputs.len() ==> (#[trigger] self.outputs[i]).address.len() <= u64::MAX
        &&& forall|i: int|
            0 <= i < self.certificates.len() ==> (#[trigger] self.certificates[i]).len()
                <= u64::MAX
        &&& forall|i: int|
            0 <= i < self.witnesses.len() ==> (#[trigger] self.witnesses[i]).len() <= u64::MAX
    }
}

/// The value of a fresh, empty document.
pub open spec fn spec_empty_transaction() -> TransactionView {
    TransactionView {
        version: PROTOCOL_VERSION,
        inputs: Seq::empty(),
        outputs: Seq::empty(),
        certificates: Seq::empty(),
        validity: ValidityWindow { lower: None, upper: None },
        witnesses: Seq::empty(),
    }
}

/// Whether a requested amount is acceptable on the network: non-negative
/// and no larger than the network's largest amount.
pub open spec fn spec_valid_amount(amount: i64, params: NetworkParams) -> bool {
    0 <= amount as int <= params.max_amount as int
}

/// What setting the expiry date does to a document value: rejected when the
/// document is sealed or the date's slot is out of range, otherwise the
/// upper bound of the validity window is replaced, the lower bound kept.
pub open spec fn spec_set_expiry_date(
    v: TransactionView,
    date: BlockDate,
    params: NetworkParams,
) -> Result<TransactionView, ValidationError> {
    if v.sealed() {
        Err(ValidationError::AlreadySealed)
    } else if date.slot >= params.slots_per_epoch {
        Err(ValidationError::InvalidDate)
    } else {
        Ok(
            TransactionView {
                validity: ValidityWindow { lower: v.validity.lower, upper: Some(date) },
                ..v
            },
        )
    }
}

/// What adding an input does to a document value: rejected when sealed or
/// the amount is out of range, otherwise the input is appended.
pub open spec fn spec_add_input(
    v: TransactionView,
    output_ref: u64,
    amount: i64,
    params: NetworkParams,
) -> Result<TransactionView, ValidationError> {
    if v.sealed() {
        Err(ValidationError::AlreadySealed)
    } else if !spec_valid_amount(amount, params) {
        Err(ValidationError::OutOfRange)
    } else {
        Ok(TransactionView { inputs: v.inputs.push(Input { output_ref, amount: amount as u64 }), ..v })
    }
}

/// What adding an output does to a document value: rejected when sealed or
/// the amount is out of range, otherwise the output is appended.
pub open spec fn spec_add_output(
    v: TransactionView,
    address: Seq<u8>,
    amount: i64,
    params: NetworkParams,
) -> Result<TransactionView, ValidationError> {
    if v.sealed() {
        Err(ValidationError::AlreadySealed)
    } else if !spec_valid_amount(amount, params) {
        Err(ValidationError::OutOfRange)
    } else {
        Ok(TransactionView { outputs: v.outputs.push(OutputView { address, amount: amount as u64 }), ..v })
    }
}

/// What adding a certificate does to a document value: rejected when
/// sealed, otherwise the certificate is appended.
pub open spec fn spec_add_certificate(
    v: TransactionView,
    payload: Seq<u8>,
) -> Result<TransactionView, ValidationError> {
    if v.sealed() {
        Err(ValidationError::AlreadySealed)
    } else {
        Ok(TransactionView { certificates: v.certificates.push(payload), ..v })
    }
}

impl Transaction {
    /// A fresh, empty document: current version, no entries, an unset
    /// validity window.
    pub fn new() -> (r: Transaction)
        ensures
            r@ == spec_empty_transaction(),
    {
        let r = Transaction {
            version: PROTOCOL_VERSION,
            inputs: Vec::new(),
            outputs: Vec::new(),
            certificates: Vec::new(),
            validity: ValidityWindow { lower: None, upper: None },
            witnesses: Vec::new(),
        };
        proof {
            assert(r@ =~= spec_empty_transaction());
        }
        r
    }

    /// Replace the expiry date (the upper bound of the validity window)
    /// after validation.  A sealed document always rejects the change with
    /// `AlreadySealed`, whatever its other state; a slot that does not
    /// exist on the network rejects it with `InvalidDate`.  On rejection
    /// the document is unchanged.
    pub fn set_expiry_date(&mut self, date: BlockDate, params: &NetworkParams) -> (r: Result<
        (),
        ValidationError,
    >)
        ensures
            match r {
                Ok(()) => spec_set_expiry_date(old(self)@, date, *params) == Ok::<
                    TransactionView,
                    ValidationError,
                >(final(self)@),
                Err(e) => final(self)@ == old(self)@ && spec_set_expiry_date(
                    old(self)@,
                    date,
                    *params,
                ) == Err::<TransactionView, ValidationError>(e),
            },
            old(self)@.sealed() ==> r == Err::<(), ValidationError>(ValidationError::AlreadySealed),
    {
        if self.witnesses.len() > 0 {
            return Err(ValidationError::AlreadySealed);
        }
        if date.slot >= params.slots_per_epoch {
            return Err(ValidationError::InvalidDate);
        }
        self.validity.upper = Some(date);
        proof {
            assert(self@ =~= spec_set_expiry_date(old(self)@, date, *params).unwrap());
        }
        Ok(())
    }

    /// Append an input after validation.  A sealed document rejects the
    /// change with `AlreadySealed`; a negative or too large amount with
    /// `OutOfRange`.  On rejection the document is unchanged; on success
    /// nothing but the appended input changes, so existing entries keep
    /// their order.
    pub fn add_input(&mut self, output_ref: u64, amount: i64, params: &NetworkParams) -> (r:
        Result<(), ValidationError>)
        ensures
            match r {
                Ok(()) => spec_add_input(old(self)@, output_ref, amount, *params) == Ok::<
                    TransactionView,
                    ValidationError,
                >(final(self)@),
                Err(e) => final(self)@ == old(self)@ && spec_add_input(
                    old(self)@,
                    output_ref,
                    amount,
                    *params,
                ) == Err::<TransactionView, ValidationError>(e),
            },
            old(self)@.sealed() ==> r == Err::<(), ValidationError>(ValidationError::AlreadySealed),
    {
        if self.witnesses.len() > 0 {
            return Err(ValidationError::AlreadySealed);
        }
        if amount < 0 || amount as u64 > params.max_amount {
            return Err(ValidationError::OutOfRange);
        }
        self.inputs.push(Input { output_ref, amount: amount as u64 });
        proof {
            assert(self@ =~= spec_add_input(old(self)@, output_ref, amount, *params).unwrap());
        }
        Ok(())
    }

    /// Append an output after validation.  A sealed document rejects the
    /// change with `AlreadySealed`; a negative or too large amount with
    /// `OutOfRange`.  On rejection the document is unchanged; on success
    /// nothing but the appended output changes, so existing entries keep
    /// their order.
    pub fn add_output(&mut self, address: Vec<u8>, amount: i64, params: &NetworkParams) -> (r:
        Result<(), ValidationError>)
        ensures
            match r {
                Ok(()) => spec_add_output(old(self)@, address@, amount, *params) == Ok::<
                    TransactionView,
                    ValidationError,
                >(final(self)@),
                Err(e) => final(self)@ == old(self)@ && spec_add_output(
                    old(self)@,
                    address@,
                    amount,
                    *params,
                ) == Err::<TransactionView, ValidationError>(e),
            },
            old(self)@.sealed() ==> r == Err::<(), ValidationError>(ValidationError::AlreadySealed),
    {
        if self.witnesses.len() > 0 {
            return Err(ValidationError::AlreadySealed);
        }
        if amount < 0 || amount as u64 > params.max_amount {
            return Err(ValidationError::OutOfRange);
        }
        let ghost a = address@;
        self.outputs.push(Output { address, amount: amount as u64 });
        proof {
            assert(self@.outputs =~= old(self)@.outputs.push(OutputView { address: a, amount: amount as u64 }));
            assert(self@ =~= spec_add_output(old(self)@, a, amount, *params).unwrap());
        }
        Ok(())
    }

    /// Append a certificate after validation.  A sealed document rejects
    /// the change with `AlreadySealed`.  On rejection the document is
    /// unchanged; on success nothing but the appended certificate changes.
    pub fn add_certificate(&mut self, payload: Vec<u8>) -> (r: Result<(), ValidationError>)
        ensures
            match r {
                Ok(()) => spec_add_certificate(old(self)@, payload@) == Ok::<
                    TransactionView,
                    ValidationError,
                >(final(self)@),
                Err(e) => final(self)@ == old(self)@ && spec_add_certificate(old(self)@, payload@)
                    == Err::<TransactionView, ValidationError>(e),
            },
            old(self)@.sealed() ==> r == Err::<(), ValidationError>(ValidationError::AlreadySealed),
    {
        if self.witnesses.len() > 0 {
            return Err(ValidationError::AlreadySealed);
        }
        let ghost p = payload@;
        self.certificates.push(Certificate { payload });
        proof {
            assert(self@.certificates =~= old(self)@.certificates.push(p));
            assert(self@ =~= spec_add_certificate(old(self)@, p).unwrap());
        }
        Ok(())
    }

    /// Attach a witness.  Witnesses come from the signing stage, outside
    /// the builder; attaching one seals the document against every further
    /// structural mutation.
    pub fn add_witness(&mut self, payload: Vec<u8>)
        ensures
            final(self)@ == (TransactionView {
                witnesses: old(self)@.witnesses.push(payload@),
                ..old(self)@
            }),
            final(self)@.sealed(),
    {
        let ghost p = payload@;
        self.witnesses.push(Witness { payload });
        proof {
            assert(self@.witnesses =~= old(self)@.witnesses.push(p));
            assert(self@ =~= (TransactionView { witnesses: old(self)@.witnesses.push(p), ..old(self)@ }));
        }
    }
}

} // verus!

