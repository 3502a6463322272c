//! Wire codec for the WMVBA finalization message family: finalization
//! messages and their headers, WMVBA payload variants, finalization records
//! and proofs. All integers travel big-endian; every decoder consumes its
//! whole input, so re-encoding a decoded value yields the original bytes.

use vstd::prelude::*;
use crate::wire::{
    u32_be, u32_of_be, u64_be, u64_of_be, read_u32_be, read_u64_be, read_exact, write_u32_be,
    write_u64_be, write_all, copy_bytes, lemma_u32_of_be_of, lemma_u64_of_be_of, lemma_u32_be_of_be,
    lemma_u64_be_of_be,
};

verus! {

/// Width of a block hash on the wire.
pub const VAL_LEN: usize = 32;

/// Width of a serialized session identifier.
pub const SESSION_ID_LEN: usize = 32;

/// Width of a finalization message header: session id, index, delta, sender.
pub const HEADER_LEN: usize = 52;

/// Width of a signature, including its redundant 8-byte length prefix, which
/// is carried byte-for-byte for compatibility.
pub const SIGNATURE_LEN: usize = 72;

/// Width of an ABBA ticket.
pub const TICKET_LEN: usize = 80;

/// How a byte string can fail to decode.
#[derive(Clone, Copy, Debug, PartialEq, Eq, Structural)]
pub enum CodecError {
    /// The input ends before the field being read does.
    ShortRead,
    /// The input goes on after the frame it encodes has ended.
    TrailingBytes,
    /// The discriminant byte names no known variant.
    UnsupportedVariant,
    /// The input is too short to even split into the fields whose widths the
    /// outer frame implies.
    MalformedFrame,
}

/// Mathematical model of a finalization message header.
pub struct FinalizationMessageHeaderV {
    pub session_id: Seq<u8>,
    pub index: u64,
    pub delta: u64,
    pub sender: u32,
}

/// Mathematical model of an ABBA input payload.
pub struct AbbaInputV {
    pub phase: u32,
    pub ticket: Seq<u8>,
    pub justified: bool,
}

/// Mathematical model of a CSS "seen" payload.
pub struct CssSeenV {
    pub phase: u32,
    pub party: u32,
    pub saw: bool,
}

/// Mathematical model of a CSS "done reporting" payload.
pub struct CssDoneReportingV {
    pub phase: u32,
    pub chose_false: Seq<u32>,
    pub chose_true: Seq<u32>,
}

/// Mathematical model of a WMVBA message.
pub enum WmvbaMessageV {
    Proposal(Seq<u8>),
    Vote(Option<Seq<u8>>),
    AbbaInput(AbbaInputV),
    CssSeen(CssSeenV),
    CssDoneReporting(CssDoneReportingV),
    AreWeDone(bool),
    WitnessCreator(Seq<u8>),
}

/// Mathematical model of a finalization message.
pub struct FinalizationMessageV {
    pub header: FinalizationMessageHeaderV,
    pub message: WmvbaMessageV,
    pub signature: Seq<u8>,
}

/// Mathematical model of a finalization record.
pub struct FinalizationRecordV {
    pub index: u64,
    pub block_pointer: Seq<u8>,
    pub proof: Seq<(u32, Seq<u8>)>,
    pub delay: u64,
}

impl FinalizationMessageHeaderV {
    pub open spec fn wf(self) -> bool {
        self.session_id.len() == SESSION_ID_LEN
    }

    pub open spec fn spec_serialize(self) -> Seq<u8> {
        self.session_id + u64_be(self.index) + u64_be(self.delta) + u32_be(self.sender)
    }
}

impl AbbaInputV {
    pub open spec fn wf(self) -> bool {
        self.ticket.len() == TICKET_LEN
    }
}

impl CssDoneReportingV {
    pub open spec fn wf(self) -> bool {
        self.chose_false.len() <= u64::MAX && self.chose_true.len() <= u64::MAX
    }
}

/// The concatenated big-endian encodings of a run of party indices.
pub open spec fn spec_parties(list: Seq<u32>) -> Seq<u8>
    decreases list.len(),
{
    if list.len() == 0 {
        Seq::empty()
    } else {
        u32_be(list[0]) + spec_parties(list.drop_first())
    }
}

/// The concatenated encodings of a run of (party, signature) pairs.
pub open spec fn spec_sig_pairs(list: Seq<(u32, Seq<u8>)>) -> Seq<u8>
    decreases list.len(),
{
    if list.len() == 0 {
        Seq::empty()
    } else {
        u32_be(list[0].0) + list[0].1 + spec_sig_pairs(list.drop_first())
    }
}

/// Whether a finalization proof model is well formed: its length fits the
/// wire count field and every signature has the fixed width.
pub open spec fn proof_wf(list: Seq<(u32, Seq<u8>)>) -> bool {
    list.len() <= u64::MAX && forall|i: int|
        0 <= i < list.len() ==> (#[trigger] list[i]).1.len() == SIGNATURE_LEN
}

/// The encoding of a finalization proof: a count, then that many pairs.
pub open spec fn spec_serialize_proof(list: Seq<(u32, Seq<u8>)>) -> Seq<u8> {
    u64_be(list.len() as u64) + spec_sig_pairs(list)
}

impl WmvbaMessageV {
    pub open spec fn wf(self) -> bool {
        match self {
            WmvbaMessageV::Proposal(v) => v.len() == VAL_LEN,
            WmvbaMessageV::Vote(o) => match o {
                Option::None => true,
                Option::Some(v) => v.len() == VAL_LEN,
            },
            WmvbaMessageV::AbbaInput(a) => a.wf(),
            WmvbaMessageV::CssSeen(_) => true,
            WmvbaMessageV::CssDoneReporting(c) => c.wf(),
            WmvbaMessageV::AreWeDone(_) => true,
            WmvbaMessageV::WitnessCreator(v) => v.len() == VAL_LEN,
        }
    }

    pub open spec fn spec_serialize(self) -> Seq<u8> {
        match self {
            WmvbaMessageV::Proposal(v) => seq![0u8] + v,
            WmvbaMessageV::Vote(o) => match o {
                Option::None => seq![1u8],
                Option::Some(v) => seq![2u8] + v,
            },
            WmvbaMessageV::AbbaInput(a) => seq![
                if a.justified {
                    4u8
                } else {
                    3u8
                },
            ] + u32_be(a.phase) + a.ticket,
            WmvbaMessageV::CssSeen(c) => seq![
                if c.saw {
                    6u8
                } else {
                    5u8
                },
            ] + u32_be(c.phase) + u32_be(c.party),
            WmvbaMessageV::CssDoneReporting(c) => seq![7u8] + u32_be(c.phase) + u64_be(
                c.chose_false.len() as u64,
            ) + spec_parties(c.chose_false) + u64_be(c.chose_true.len() as u64) + spec_parties(
                c.chose_true,
            ),
            WmvbaMessageV::AreWeDone(b) => if b {
                seq![9u8]
            } else {
                seq![8u8]
            },
            WmvbaMessageV::WitnessCreator(v) => seq![10u8] + v,
        }
    }
}

impl FinalizationMessageV {
    pub open spec fn wf(self) -> bool {
        self.header.wf() && self.message.wf() && self.signature.len() == SIGNATURE_LEN
    }

    pub open spec fn spec_serialize(self) -> Seq<u8> {
        self.header.spec_serialize() + self.message.spec_serialize() + self.signature
    }
}

impl FinalizationRecordV {
    pub open spec fn wf(self) -> bool {
        self.block_pointer.len() == VAL_LEN && proof_wf(self.proof)
    }

    pub open spec fn spec_serialize(self) -> Seq<u8> {
        u64_be(self.index) + self.block_pointer + spec_serialize_proof(self.proof) + u64_be(
            self.delay,
        )
    }
}

/// Reads exactly `n` party indices off the front of `b`; `None` when `b` is
/// too short, otherwise the indices and the unread remainder.
pub open spec fn parse_parties(b: Seq<u8>, n: nat) -> Option<(Seq<u32>, Seq<u8>)>
    decreases n,
{
    if n == 0 {
        Some((Seq::empty(), b))
    } else if b.len() < 4 {
        None
    } else {
        match parse_parties(b.skip(4), (n - 1) as nat) {
            Some(tail) => Some((seq![u32_of_be(b.subrange(0, 4))] + tail.0, tail.1)),
            None => None,
        }
    }
}

/// Reads exactly `n` (party, signature) pairs off the front of `b`.
pub open spec fn parse_sig_pairs(b: Seq<u8>, n: nat) -> Option<(Seq<(u32, Seq<u8>)>, Seq<u8>)>
    decreases n,
{
    if n == 0 {
        Some((Seq::empty(), b))
    } else if b.len() < 76 {
        None
    } else {
        match parse_sig_pairs(b.skip(76), (n - 1) as nat) {
            Some(tail) => Some(
                (seq![(u32_of_be(b.subrange(0, 4)), b.subrange(4, 76))] + tail.0, tail.1),
            ),
            None => None,
        }
    }
}

/// The value a CSS "done reporting" payload (after the tag byte) denotes.
pub open spec fn parse_cdr(rest: Seq<u8>) -> Result<WmvbaMessageV, CodecError> {
    if rest.len() < 12 {
        Err(CodecError::ShortRead)
    } else {
        let phase = u32_of_be(rest.subrange(0, 4));
        let n1 = u64_of_be(rest.subrange(4, 12));
        match parse_parties(rest.skip(12), n1 as nat) {
            None => Err(CodecError::ShortRead),
            Some(first) => if first.1.len() < 8 {
                Err(CodecError::ShortRead)
            } else {
                let n2 = u64_of_be(first.1.subrange(0, 8));
                match parse_parties(first.1.skip(8), n2 as nat) {
                    None => Err(CodecError::ShortRead),
                    Some(second) => if second.1.len() == 0 {
                        Ok(
                            WmvbaMessageV::CssDoneReporting(
                                CssDoneReportingV {
                                    phase,
                                    chose_false: first.0,
                                    chose_true: second.0,
                                },
                            ),
                        )
                    } else {
                        Err(CodecError::TrailingBytes)
                    },
                }
            },
        }
    }
}

/// The WMVBA message a byte string denotes, when it consumes the whole
/// string; the error that stops the decoder otherwise.
pub open spec fn parse_wmvba(b: Seq<u8>) -> Result<WmvbaMessageV, CodecError> {
    if b.len() == 0 {
        Err(CodecError::ShortRead)
    } else {
        let tag = b[0];
        let rest = b.skip(1);
        if tag == 0 || tag == 2 || tag == 10 {
            if rest.len() < VAL_LEN {
                Err(CodecError::ShortRead)
            } else if rest.len() > VAL_LEN {
                Err(CodecError::TrailingBytes)
            } else if tag == 0 {
                Ok(WmvbaMessageV::Proposal(rest))
            } else if tag == 2 {
                Ok(WmvbaMessageV::Vote(Some(rest)))
            } else {
                Ok(WmvbaMessageV::WitnessCreator(rest))
            }
        } else if tag == 1 || tag == 8 || tag == 9 {
            if rest.len() > 0 {
                Err(CodecError::TrailingBytes)
            } else if tag == 1 {
                Ok(WmvbaMessageV::Vote(None))
            } else {
                Ok(WmvbaMessageV::AreWeDone(tag == 9))
            }
        } else if tag == 3 || tag == 4 {
            if rest.len() < 4 + TICKET_LEN {
                Err(CodecError::ShortRead)
            } else if rest.len() > 4 + TICKET_LEN {
                Err(CodecError::TrailingBytes)
            } else {
                Ok(
                    WmvbaMessageV::AbbaInput(
                        AbbaInputV {
                            phase: u32_of_be(rest.subrange(0, 4)),
                            ticket: rest.skip(4),
                            justified: tag == 4,
                        },
                    ),
                )
            }
        } else if tag == 5 || tag == 6 {
            if rest.len() < 8 {
                Err(CodecError::ShortRead)
            } else if rest.len() > 8 {
                Err(CodecError::TrailingBytes)
            } else {
                Ok(
                    WmvbaMessageV::CssSeen(
                        CssSeenV {
                            phase: u32_of_be(rest.subrange(0, 4)),
                            party: u32_of_be(rest.subrange(4, 8)),
                            saw: tag == 6,
                        },
                    ),
                )
            }
        } else if tag == 7 {
            parse_cdr(rest)
        } else {
            Err(CodecError::UnsupportedVariant)
        }
    }
}

/// The header a byte string denotes.
pub open spec fn parse_header(b: Seq<u8>) -> Result<FinalizationMessageHeaderV, CodecError> {
    if b.len() < HEADER_LEN {
        Err(CodecError::ShortRead)
    } else if b.len() > HEADER_LEN {
        Err(CodecError::TrailingBytes)
    } else {
        Ok(
            FinalizationMessageHeaderV {
                session_id: b.subrange(0, 32),
                index: u64_of_be(b.subrange(32, 40)),
                delta: u64_of_be(b.subrange(40, 48)),
                sender: u32_of_be(b.subrange(48, 52)),
            },
        )
    }
}

/// The finalization message a byte string denotes. The WMVBA slice width is
/// inferred from the outer frame: total minus header minus signature.
pub open spec fn parse_message(b: Seq<u8>) -> Result<FinalizationMessageV, CodecError> {
    if b.len() < HEADER_LEN + SIGNATURE_LEN + 1 {
        Err(CodecError::MalformedFrame)
    } else {
        match parse_header(b.subrange(0, HEADER_LEN as int)) {
            Err(e) => Err(e),
            Ok(h) => match parse_wmvba(b.subrange(HEADER_LEN as int, b.len() - SIGNATURE_LEN)) {
                Err(e) => Err(e),
                Ok(m) => Ok(
                    FinalizationMessageV {
                        header: h,
                        message: m,
                        signature: b.skip(b.len() - SIGNATURE_LEN),
                    },
                ),
            },
        }
    }
}

/// The finalization proof a byte string denotes: a count, then exactly that
/// many (party, signature) pairs, and nothing after them.
pub open spec fn parse_proof(b: Seq<u8>) -> Result<Seq<(u32, Seq<u8>)>, CodecError> {
    if b.len() < 8 {
        Err(CodecError::ShortRead)
    } else {
        let n = u64_of_be(b.subrange(0, 8));
        match parse_sig_pairs(b.skip(8), n as nat) {
            None => Err(CodecError::ShortRead),
            Some(pair) => if pair.1.len() == 0 {
                Ok(pair.0)
            } else {
                Err(CodecError::TrailingBytes)
            },
        }
    }
}

/// The finalization record a byte string denotes. The proof slice width is
/// inferred from the outer frame: total minus index, hash and delay.
pub open spec fn parse_record(b: Seq<u8>) -> Result<FinalizationRecordV, CodecError> {
    if b.len() < 8 + VAL_LEN + 8 + 8 {
        Err(CodecError::MalformedFrame)
    } else {
        match parse_proof(b.subrange(40, b.len() - 8)) {
            Err(e) => Err(e),
            Ok(p) => Ok(
                FinalizationRecordV {
                    index: u64_of_be(b.subrange(0, 8)),
                    block_pointer: b.subrange(8, 40),
                    proof: p,
                    delay: u64_of_be(b.skip(b.len() - 8)),
                },
            ),
        }
    }
}

} // verus!

// ---------------------------------------------------------------------------
// Executable types and their views
// ---------------------------------------------------------------------------

verus! {

/// A finalization message header: session, index, delta, sender.
pub struct FinalizationMessageHeader {
    pub session_id: Vec<u8>,
    pub index: u64,
    pub delta: u64,
    pub sender: u32,
}

impl View for FinalizationMessageHeader {
    type V = FinalizationMessageHeaderV;

    open spec fn view(&self) -> FinalizationMessageHeaderV {
        FinalizationMessageHeaderV {
            session_id: self.session_id@,
            index: self.index,
            delta: self.delta,
            sender: self.sender,
        }
    }
}

/// An ABBA input payload: phase and ticket; whether it is justified travels
/// in the discriminant byte.
pub struct AbbaInput {
    pub phase: u32,
    pub ticket: Vec<u8>,
    pub justified: bool,
}

impl View for AbbaInput {
    type V = AbbaInputV;

    open spec fn view(&self) -> AbbaInputV {
        AbbaInputV { phase: self.phase, ticket: self.ticket@, justified: self.justified }
    }
}

/// A CSS "seen" payload.
pub struct CssSeen {
    pub phase: u32,
    pub party: u32,
    pub saw: bool,
}

impl View for CssSeen {
    type V = CssSeenV;

    open spec fn view(&self) -> CssSeenV {
        CssSeenV { phase: self.phase, party: self.party, saw: self.saw }
    }
}

/// A CSS "done reporting" payload: the parties that chose false and the
/// parties that chose true.
pub struct CssDoneReporting {
    pub phase: u32,
    pub chose_false: Vec<u32>,
    pub chose_true: Vec<u32>,
}

impl View for CssDoneReporting {
    type V = CssDoneReportingV;

    open spec fn view(&self) -> CssDoneReportingV {
        CssDoneReportingV {
            phase: self.phase,
            chose_false: self.chose_false@,
            chose_true: self.chose_true@,
        }
    }
}

/// A WMVBA byzantine-agreement message.
pub enum WmvbaMessage {
    Proposal(Vec<u8>),
    Vote(Option<Vec<u8>>),
    AbbaInput(AbbaInput),
    CssSeen(CssSeen),
    CssDoneReporting(CssDoneReporting),
    AreWeDone(bool),
    WitnessCreator(Vec<u8>),
}

impl View for WmvbaMessage {
    type V = WmvbaMessageV;

    open spec fn view(&self) -> WmvbaMessageV {
        match self {
            WmvbaMessage::Proposal(v) => WmvbaMessageV::Proposal(v@),
            WmvbaMessage::Vote(o) => WmvbaMessageV::Vote(
                match o {
                    Option::None => Option::None,
                    Option::Some(v) => Option::Some(v@),
                },
            ),
            WmvbaMessage::AbbaInput(a) => WmvbaMessageV::AbbaInput(a@),
            WmvbaMessage::CssSeen(c) => WmvbaMessageV::CssSeen(c@),
            WmvbaMessage::CssDoneReporting(c) => WmvbaMessageV::CssDoneReporting(c@),
            WmvbaMessage::AreWeDone(b) => WmvbaMessageV::AreWeDone(*b),
            WmvbaMessage::WitnessCreator(v) => WmvbaMessageV::WitnessCreator(v@),
        }
    }
}

/// A finalization message: header, WMVBA payload, signature.
pub struct FinalizationMessage {
    pub header: FinalizationMessageHeader,
    pub message: WmvbaMessage,
    pub signature: Vec<u8>,
}

impl View for FinalizationMessage {
    type V = FinalizationMessageV;

    open spec fn view(&self) -> FinalizationMessageV {
        FinalizationMessageV {
            header: self.header@,
            message: self.message@,
            signature: self.signature@,
        }
    }
}

/// A finalization proof: (party, signature) pairs.
pub struct FinalizationProof(pub Vec<(u32, Vec<u8>)>);

impl View for FinalizationProof {
    type V = Seq<(u32, Seq<u8>)>;

    open spec fn view(&self) -> Seq<(u32, Seq<u8>)> {
        Seq::new(self.0@.len(), |i: int| (self.0@[i].0, self.0@[i].1@))
    }
}

/// A finalization record: the proof that a block was finalized at an index.
pub struct FinalizationRecord {
    pub index: u64,
    pub block_pointer: Vec<u8>,
    pub proof: FinalizationProof,
    pub delay: u64,
}

impl View for FinalizationRecord {
    type V = FinalizationRecordV;

    open spec fn view(&self) -> FinalizationRecordV {
        FinalizationRecordV {
            index: self.index,
            block_pointer: self.block_pointer@,
            proof: self.proof@,
            delay: self.delay,
        }
    }
}

// ---------------------------------------------------------------------------
// Lemmas on the run helpers
// ---------------------------------------------------------------------------

/// A run of party encodings is four bytes per party.
pub proof fn lemma_spec_parties_len(list: Seq<u32>)
    ensures
        spec_parties(list).len() == 4 * list.len(),
    decreases list.len(),
{
    if list.len() > 0 {
        lemma_spec_parties_len(list.drop_first());
    }
}

/// Appending one party appends its four bytes.
pub proof fn lemma_spec_parties_snoc(list: Seq<u32>, x: u32)
    ensures
        spec_parties(list.push(x)) == spec_parties(list) + u32_be(x),
    decreases list.len(),
{
    if list.len() == 0 {
        assert(list.push(x).drop_first() =~= Seq::<u32>::empty());
        assert(list.push(x)[0] == x);
        assert(spec_parties(Seq::<u32>::empty()) == Seq::<u8>::empty());
        assert(spec_parties(list.push(x)) == u32_be(x) + Seq::<u8>::empty());
        assert(spec_parties(list.push(x)) =~= spec_parties(list) + u32_be(x));
    } else {
        lemma_spec_parties_snoc(list.drop_first(), x);
        assert(list.push(x).drop_first() =~= list.drop_first().push(x));
        assert(list.push(x)[0] == list[0]);
        assert(spec_parties(list.push(x)) == u32_be(list[0]) + (spec_parties(list.drop_first())
            + u32_be(x)));
        assert(spec_parties(list) == u32_be(list[0]) + spec_parties(list.drop_first()));
        assert(spec_parties(list.push(x)) =~= spec_parties(list) + u32_be(x));
    }
}

/// A run of proof pairs is 76 bytes per pair.
pub proof fn lemma_spec_sig_pairs_len(list: Seq<(u32, Seq<u8>)>)
    requires
        proof_wf(list),
    ensures
        spec_sig_pairs(list).len() == 76 * list.len(),
    decreases list.len(),
{
    if list.len() > 0 {
        assert(proof_wf(list.drop_first())) by {
            assert(forall|i: int|
                0 <= i < list.drop_first().len() ==> #[trigger] list.drop_first()[i] == list[i
                    + 1]);
        }
        lemma_spec_sig_pairs_len(list.drop_first());
    }
}

/// Appending one pair appends its 76 bytes.
pub proof fn lemma_spec_sig_pairs_snoc(list: Seq<(u32, Seq<u8>)>, x: (u32, Seq<u8>))
    ensures
        spec_sig_pairs(list.push(x)) == spec_sig_pairs(list) + u32_be(x.0) + x.1,
    decreases list.len(),
{
    if list.len() == 0 {
        assert(list.push(x).drop_first() =~= Seq::<(u32, Seq<u8>)>::empty());
        assert(list.push(x)[0] == x);
        assert(spec_sig_pairs(Seq::<(u32, Seq<u8>)>::empty()) == Seq::<u8>::empty());
        assert(spec_sig_pairs(list.push(x)) == u32_be(x.0) + x.1 + Seq::<u8>::empty());
        assert(spec_sig_pairs(list.push(x)) =~= spec_sig_pairs(list) + u32_be(x.0) + x.1);
    } else {
        lemma_spec_sig_pairs_snoc(list.drop_first(), x);
        assert(list.push(x).drop_first() =~= list.drop_first().push(x));
        assert(list.push(x)[0] == list[0]);
        assert(spec_sig_pairs(list.push(x)) == u32_be(list[0].0) + list[0].1 + (spec_sig_pairs(
            list.drop_first(),
        ) + u32_be(x.0) + x.1));
        assert(spec_sig_pairs(list) == u32_be(list[0].0) + list[0].1 + spec_sig_pairs(
            list.drop_first(),
        ));
        assert(spec_sig_pairs(list.push(x)) =~= spec_sig_pairs(list) + u32_be(x.0) + x.1);
    }
}

/// What `parse_parties` returns: it succeeds exactly when the input holds the
/// four bytes of every party, reads them in order, and leaves the rest.
pub proof fn lemma_parse_parties_char(b: Seq<u8>, n: nat)
    ensures
        parse_parties(b, n) is Some <==> b.len() >= 4 * n,
        parse_parties(b, n) matches Some(p) ==> p.0.len() == n && p.1 == b.skip(4 * n as int) && forall|
            i: int,
        |
            0 <= i < n ==> p.0[i] == u32_of_be(#[trigger] b.subrange(4 * i, 4 * i + 4)),
    decreases n,
{
    if n == 0 {
        assert(b.skip(0) =~= b);
    } else if b.len() >= 4 {
        lemma_parse_parties_char(b.skip(4), (n - 1) as nat);
        if b.len() >= 4 * n {
            let tail = parse_parties(b.skip(4), (n - 1) as nat)->Some_0;
            let p = parse_parties(b, n)->Some_0;
            assert(b.skip(4).skip(4 * (n as int - 1)) =~= b.skip(4 * n as int));
            assert forall|i: int| 0 <= i < n implies p.0[i] == u32_of_be(
                #[trigger] b.subrange(4 * i, 4 * i + 4),
            ) by {
                if i == 0 {
                    assert(p.0[0] == u32_of_be(b.subrange(0, 4)));
                } else {
                    assert(p.0[i] == tail.0[i - 1]);
                    assert(b.skip(4).subrange(4 * (i - 1), 4 * (i - 1) + 4) =~= b.subrange(
                        4 * i,
                        4 * i + 4,
                    ));
                }
            }
        }
    }
}

/// What `parse_sig_pairs` returns, in the same shape.
pub proof fn lemma_parse_sig_pairs_char(b: Seq<u8>, n: nat)
    ensures
        parse_sig_pairs(b, n) is Some <==> b.len() >= 76 * n,
        parse_sig_pairs(b, n) matches Some(p) ==> p.0.len() == n && p.1 == b.skip(76 * n as int)
            && forall|i: int|
            0 <= i < n ==> #[trigger] p.0[i] == (
                u32_of_be(b.subrange(76 * i, 76 * i + 4)),
                b.subrange(76 * i + 4, 76 * i + 76),
            ),
    decreases n,
{
    if n == 0 {
        assert(b.skip(0) =~= b);
    } else if b.len() >= 76 {
        lemma_parse_sig_pairs_char(b.skip(76), (n - 1) as nat);
        if b.len() >= 76 * n {
            let tail = parse_sig_pairs(b.skip(76), (n - 1) as nat)->Some_0;
            let p = parse_sig_pairs(b, n)->Some_0;
            assert(b.skip(76).skip(76 * (n as int - 1)) =~= b.skip(76 * n as int));
            assert forall|i: int| 0 <= i < n implies #[trigger] p.0[i] == (
                u32_of_be(b.subrange(76 * i, 76 * i + 4)),
                b.subrange(76 * i + 4, 76 * i + 76),
            ) by {
                if i == 0 {
                    assert(p.0[0] == (u32_of_be(b.subrange(0, 4)), b.subrange(4, 76)));
                } else {
                    assert(p.0[i] == tail.0[i - 1]);
                    assert(b.skip(76).subrange(76 * (i - 1), 76 * (i - 1) + 4) =~= b.subrange(
                        76 * i,
                        76 * i + 4,
                    ));
                    assert(b.skip(76).subrange(76 * (i - 1) + 4, 76 * (i - 1) + 76) =~= b.subrange(
                        76 * i + 4,
                        76 * i + 76,
                    ));
                }
            }
        }
    }
}

/// Reading a serialized run of parties yields the run and the remainder.
pub proof fn lemma_parse_of_spec_parties(list: Seq<u32>, rest: Seq<u8>)
    ensures
        parse_parties(spec_parties(list) + rest, list.len()) == Some((list, rest)),
    decreases list.len(),
{
    if list.len() == 0 {
        assert(spec_parties(list) + rest =~= rest);
    } else {
        lemma_parse_of_spec_parties(list.drop_first(), rest);
        let b = spec_parties(list) + rest;
        lemma_spec_parties_len(list.drop_first());
        assert(b.skip(4) =~= spec_parties(list.drop_first()) + rest);
        assert(b.subrange(0, 4) =~= u32_be(list[0]));
        lemma_u32_of_be_of(list[0]);
        let tail = parse_parties(b.skip(4), (list.len() - 1) as nat)->Some_0;
        assert(seq![list[0]] + tail.0 =~= list);
    }
}

/// Reading a serialized run of pairs yields the run and the remainder.
#[verifier::rlimit(60)]
pub proof fn lemma_parse_of_spec_sig_pairs(list: Seq<(u32, Seq<u8>)>, rest: Seq<u8>)
    requires
        proof_wf(list),
    ensures
        parse_sig_pairs(spec_sig_pairs(list) + rest, list.len()) == Some((list, rest)),
    decreases list.len(),
{
    if list.len() == 0 {
        assert(spec_sig_pairs(list) + rest =~= rest);
    } else {
        assert(proof_wf(list.drop_first())) by {
            assert(forall|i: int|
                0 <= i < list.drop_first().len() ==> #[trigger] list.drop_first()[i] == list[i
                    + 1]);
        }
        lemma_parse_of_spec_sig_pairs(list.drop_first(), rest);
        let b = spec_sig_pairs(list) + rest;
        lemma_spec_sig_pairs_len(list.drop_first());
        assert(list[0].1.len() == 76 - 4);
        assert(b.skip(76) =~= spec_sig_pairs(list.drop_first()) + rest);
        assert(b.subrange(0, 4) =~= u32_be(list[0].0));
        assert(b.subrange(4, 76) =~= list[0].1);
        lemma_u32_of_be_of(list[0].0);
        let tail = parse_sig_pairs(b.skip(76), (list.len() - 1) as nat)->Some_0;
        assert(seq![(list[0].0, list[0].1)] + tail.0 =~= list);
    }
}

/// A successfully read run of parties, re-encoded, is the bytes it was read
/// from (up to the remainder).
pub proof fn lemma_parse_parties_reconstruct(b: Seq<u8>, n: nat)
    ensures
        parse_parties(b, n) matches Some(p) ==> spec_parties(p.0) + p.1 == b,
    decreases n,
{
    if n == 0 {
        if parse_parties(b, n) is Some {
            let p = parse_parties(b, n)->Some_0;
            assert(spec_parties(p.0) + p.1 =~= b);
        }
    } else if b.len() >= 4 {
        lemma_parse_parties_reconstruct(b.skip(4), (n - 1) as nat);
        if parse_parties(b, n) is Some {
            let p = parse_parties(b, n)->Some_0;
            let tail = parse_parties(b.skip(4), (n - 1) as nat)->Some_0;
            lemma_u32_be_of_be(b.subrange(0, 4));
            assert(p.0.drop_first() =~= tail.0);
            assert(p.0[0] == u32_of_be(b.subrange(0, 4)));
            assert(p.0.len() > 0);
            assert(spec_parties(p.0) == b.subrange(0, 4) + spec_parties(tail.0));
            assert(spec_parties(tail.0) + tail.1 == b.skip(4));
            assert(spec_parties(p.0) + p.1 =~= (b.subrange(0, 4) + spec_parties(tail.0)) + tail.1);
            assert((b.subrange(0, 4) + spec_parties(tail.0)) + tail.1 =~= b.subrange(0, 4) + (
            spec_parties(tail.0) + tail.1));
            assert(b.subrange(0, 4) + b.skip(4) =~= b);
        }
    }
}

/// A successfully read run of pairs, re-encoded, is the bytes it was read
/// from (up to the remainder).
#[verifier::rlimit(100)]
pub proof fn lemma_parse_sig_pairs_reconstruct(b: Seq<u8>, n: nat)
    ensures
        parse_sig_pairs(b, n) matches Some(p) ==> spec_sig_pairs(p.0) + p.1 == b,
    decreases n,
{
    if n == 0 {
        if parse_sig_pairs(b, n) is Some {
            let p = parse_sig_pairs(b, n)->Some_0;
            assert(spec_sig_pairs(p.0) + p.1 =~= b);
        }
    } else if b.len() >= 76 {
        lemma_parse_sig_pairs_reconstruct(b.skip(76), (n - 1) as nat);
        if parse_sig_pairs(b, n) is Some {
            let p = parse_sig_pairs(b, n)->Some_0;
            let tail = parse_sig_pairs(b.skip(76), (n - 1) as nat)->Some_0;
            lemma_u32_be_of_be(b.subrange(0, 4));
            assert(p.0.drop_first() =~= tail.0);
            assert(p.0[0] == (u32_of_be(b.subrange(0, 4)), b.subrange(4, 76)));
            assert(p.0.len() > 0);
            assert(spec_sig_pairs(p.0) == b.subrange(0, 4) + b.subrange(4, 76) + spec_sig_pairs(
                tail.0,
            ));
            assert(spec_sig_pairs(tail.0) + tail.1 == b.skip(76));
            assert(spec_sig_pairs(p.0) + p.1 =~= b.subrange(0, 4) + b.subrange(4, 76) + (
            spec_sig_pairs(tail.0) + tail.1));
            assert(b.subrange(0, 4) + b.subrange(4, 76) + b.skip(76) =~= b);
        }
    }
}

} // verus!

// ---------------------------------------------------------------------------
// Executable serializers
// ---------------------------------------------------------------------------

verus! {

/// Appends the big-endian encodings of every party in `list` to `out`.
fn write_parties(out: &mut Vec<u8>, list: &Vec<u32>)
    ensures
        final(out)@ == old(out)@ + spec_parties(list@),
{
    let mut i: usize = 0;
    while i < list.len()
        invariant
            i <= list@.len(),
            out@ == old(out)@ + spec_parties(list@.subrange(0, i as int)),
        decreases list@.len() - i,
    {
        proof {
            assert(spec_parties(list@.subrange(0, 0)) =~= Seq::<u8>::empty());
            lemma_spec_parties_snoc(list@.subrange(0, i as int), list@[i as int]);
            assert(list@.subrange(0, i + 1) =~= list@.subrange(0, i as int).push(list@[i as int]));
        }
        write_u32_be(out, list[i]);
        i = i + 1;
    }
    proof {
        assert(list@.subrange(0, list@.len() as int) =~= list@);
        assert(spec_parties(list@.subrange(0, 0)) =~= Seq::<u8>::empty());
        assert(out@ =~= old(out)@ + spec_parties(list@));
    }
}

/// Appends the encodings of every (party, signature) pair in `pairs` to
/// `out`.
fn write_sig_pairs(out: &mut Vec<u8>, pairs: &Vec<(u32, Vec<u8>)>)
    ensures
        final(out)@ == old(out)@ + spec_sig_pairs(
            Seq::new(pairs@.len(), |i: int| (pairs@[i].0, pairs@[i].1@)),
        ),
{
    let ghost v = Seq::new(pairs@.len(), |i: int| (pairs@[i].0, pairs@[i].1@));
    let mut i: usize = 0;
    while i < pairs.len()
        invariant
            i <= pairs@.len(),
            v == Seq::new(pairs@.len(), |j: int| (pairs@[j].0, pairs@[j].1@)),
            out@ == old(out)@ + spec_sig_pairs(v.subrange(0, i as int)),
        decreases pairs@.len() - i,
    {
        proof {
            lemma_spec_sig_pairs_snoc(v.subrange(0, i as int), v[i as int]);
            assert(v.subrange(0, i + 1) =~= v.subrange(0, i as int).push(v[i as int]));
        }
        let pair = &pairs[i];
        write_u32_be(out, pair.0);
        write_all(out, &pair.1);
        i = i + 1;
        proof {
            assert(out@ =~= old(out)@ + spec_sig_pairs(v.subrange(0, i as int)));
        }
    }
    proof {
        assert(spec_sig_pairs(v.subrange(0, 0)) =~= Seq::<u8>::empty());
        assert(v.subrange(0, v.len() as int) =~= v);
        assert(out@ =~= old(out)@ + spec_sig_pairs(v));
    }
}

impl FinalizationMessageHeader {
    /// Encodes the header: session id, index, delta, sender.
    pub fn serialize(&self) -> (r: Vec<u8>)
        ensures
            r@ == self@.spec_serialize(),
    {
        let mut out: Vec<u8> = Vec::new();
        write_all(&mut out, &self.session_id);
        write_u64_be(&mut out, self.index);
        write_u64_be(&mut out, self.delta);
        write_u32_be(&mut out, self.sender);
        proof {
            assert(out@ =~= self@.spec_serialize());
        }
        out
    }
}

impl WmvbaMessage {
    /// Encodes the message: its discriminant byte, then its payload.
    pub fn serialize(&self) -> (r: Vec<u8>)
        ensures
            r@ == self@.spec_serialize(),
    {
        let mut out: Vec<u8> = Vec::new();
        match self {
            WmvbaMessage::Proposal(v) => {
                out.push(0u8);
                write_all(&mut out, v);
                proof {
                    assert(out@ =~= self@.spec_serialize());
                }
            },
            WmvbaMessage::Vote(o) => match o {
                Option::None => {
                    out.push(1u8);
                    proof {
                        assert(out@ =~= self@.spec_serialize());
                    }
                },
                Option::Some(v) => {
                    out.push(2u8);
                    write_all(&mut out, v);
                    proof {
                        assert(out@ =~= self@.spec_serialize());
                    }
                },
            },
            WmvbaMessage::AbbaInput(a) => {
                if a.justified {
                    out.push(4u8);
                } else {
                    out.push(3u8);
                }
                write_u32_be(&mut out, a.phase);
                write_all(&mut out, &a.ticket);
                proof {
                    assert(out@ =~= self@.spec_serialize());
                }
            },
            WmvbaMessage::CssSeen(c) => {
                if c.saw {
                    out.push(6u8);
                } else {
                    out.push(5u8);
                }
                write_u32_be(&mut out, c.phase);
                write_u32_be(&mut out, c.party);
                proof {
                    assert(out@ =~= self@.spec_serialize());
                }
            },
            WmvbaMessage::CssDoneReporting(c) => {
                out.push(7u8);
                write_u32_be(&mut out, c.phase);
                write_u64_be(&mut out, c.chose_false.len() as u64);
                write_parties(&mut out, &c.chose_false);
                write_u64_be(&mut out, c.chose_true.len() as u64);
                write_parties(&mut out, &c.chose_true);
                proof {
                    assert(out@ =~= self@.spec_serialize());
                }
            },
            WmvbaMessage::AreWeDone(b) => {
                if *b {
                    out.push(9u8);
                } else {
                    out.push(8u8);
                }
                proof {
                    assert(out@ =~= self@.spec_serialize());
                }
            },
            WmvbaMessage::WitnessCreator(v) => {
                out.push(10u8);
                write_all(&mut out, v);
                proof {
                    assert(out@ =~= self@.spec_serialize());
                }
            },
        }
        out
    }
}

impl FinalizationProof {
    /// Encodes the proof: the pair count, then every pair.
    pub fn serialize(&self) -> (r: Vec<u8>)
        ensures
            r@ == spec_serialize_proof(self@),
    {
        let mut out: Vec<u8> = Vec::new();
        write_u64_be(&mut out, self.0.len() as u64);
        write_sig_pairs(&mut out, &self.0);
        proof {
            assert(out@ =~= spec_serialize_proof(self@));
        }
        out
    }
}

impl FinalizationMessage {
    /// Encodes the message: header, WMVBA payload, signature.
    pub fn serialize(&self) -> (r: Vec<u8>)
        ensures
            r@ == self@.spec_serialize(),
    {
        let mut out = self.header.serialize();
        let m = self.message.serialize();
        write_all(&mut out, &m);
        write_all(&mut out, &self.signature);
        proof {
            assert(out@ =~= self@.spec_serialize());
        }
        out
    }
}

impl FinalizationRecord {
    /// Encodes the record: index, block hash, proof, delay.
    pub fn serialize(&self) -> (r: Vec<u8>)
        ensures
            r@ == self@.spec_serialize(),
    {
        let mut out: Vec<u8> = Vec::new();
        write_u64_be(&mut out, self.index);
        write_all(&mut out, &self.block_pointer);
        let p = self.proof.serialize();
        write_all(&mut out, &p);
        write_u64_be(&mut out, self.delay);
        proof {
            assert(out@ =~= self@.spec_serialize());
        }
        out
    }
}

} // verus!

// ---------------------------------------------------------------------------
// Executable decoders
// ---------------------------------------------------------------------------

verus! {

/// Whether the executable decode result agrees with the spec-level parse.
pub open spec fn decode_ok<T: View>(r: Result<T, CodecError>, p: Result<T::V, CodecError>) -> bool {
    match r {
        Ok(t) => p == Ok::<T::V, CodecError>(t@),
        Err(e) => p == Err::<T::V, CodecError>(e),
    }
}

/// Reads `cnt` big-endian parties starting at `pos`.
fn read_parties(bytes: &Vec<u8>, pos: usize, cnt: usize) -> (r: Vec<u32>)
    requires
        pos + 4 * cnt <= bytes@.len(),
    ensures
        r@.len() == cnt,
        forall|i: int|
            0 <= i < cnt ==> r@[i] == u32_of_be(
                #[trigger] bytes@.subrange(pos + 4 * i, pos + 4 * i + 4),
            ),
{
    let n: usize = bytes.len();
    assert(pos + 4 * cnt <= n);
    let mut r: Vec<u32> = Vec::new();
    let mut i: usize = 0;
    while i < cnt
        invariant
            i <= cnt,
            pos + 4 * cnt <= n,
            n == bytes@.len(),
            r@.len() == i,
            forall|j: int|
                0 <= j < i ==> r@[j] == u32_of_be(
                    #[trigger] bytes@.subrange(pos + 4 * j, pos + 4 * j + 4),
                ),
        decreases cnt - i,
    {
        let v = read_u32_be(bytes, pos + 4 * i);
        r.push(v);
        i = i + 1;
    }
    r
}

/// Reads `cnt` (party, signature) pairs starting at `pos`.
fn read_sig_pairs(bytes: &Vec<u8>, pos: usize, cnt: usize) -> (r: Vec<(u32, Vec<u8>)>)
    requires
        pos + 76 * cnt <= bytes@.len(),
    ensures
        r@.len() == cnt,
        forall|i: int|
            0 <= i < cnt ==> (#[trigger] r@[i]).0 == u32_of_be(
                bytes@.subrange(pos + 76 * i, pos + 76 * i + 4),
            ) && r@[i].1@ == bytes@.subrange(pos + 76 * i + 4, pos + 76 * i + 76),
{
    let n: usize = bytes.len();
    assert(pos + 76 * cnt <= n);
    let mut r: Vec<(u32, Vec<u8>)> = Vec::new();
    let mut i: usize = 0;
    while i < cnt
        invariant
            i <= cnt,
            pos + 76 * cnt <= n,
            n == bytes@.len(),
            r@.len() == i,
            forall|j: int|
                0 <= j < i ==> (#[trigger] r@[j]).0 == u32_of_be(
                    bytes@.subrange(pos + 76 * j, pos + 76 * j + 4),
                ) && r@[j].1@ == bytes@.subrange(pos + 76 * j + 4, pos + 76 * j + 76),
        decreases cnt - i,
    {
        let party = read_u32_be(bytes, pos + 76 * i);
        let sig = read_exact(bytes, pos + 76 * i + 4, 72);
        r.push((party, sig));
        i = i + 1;
    }
    r
}

impl FinalizationMessageHeader {
    /// Decodes a header from exactly `HEADER_LEN` bytes.
    pub fn deserialize(bytes: &Vec<u8>) -> (r: Result<FinalizationMessageHeader, CodecError>)
        ensures
            decode_ok(r, parse_header(bytes@)),
    {
        let len = bytes.len();
        if len < HEADER_LEN {
            return Err(CodecError::ShortRead);
        }
        if len > HEADER_LEN {
            return Err(CodecError::TrailingBytes);
        }
        let session_id = read_exact(bytes, 0, 32);
        let index = read_u64_be(bytes, 32);
        let delta = read_u64_be(bytes, 40);
        let sender = read_u32_be(bytes, 48);
        Ok(FinalizationMessageHeader { session_id, index, delta, sender })
    }
}

impl WmvbaMessage {
    /// Decodes a WMVBA message; the whole input must be consumed.
    #[verifier::rlimit(100)]
    pub fn deserialize(bytes: &Vec<u8>) -> (r: Result<WmvbaMessage, CodecError>)
        ensures
            decode_ok(r, parse_wmvba(bytes@)),
    {
        let len = bytes.len();
        if len == 0 {
            return Err(CodecError::ShortRead);
        }
        let tag = bytes[0];
        let ghost b = bytes@;
        let ghost rest = b.skip(1);
        if tag == 0 || tag == 2 || tag == 10 {
            if len < 33 {
                return Err(CodecError::ShortRead);
            }
            if len > 33 {
                return Err(CodecError::TrailingBytes);
            }
            let hash = read_exact(bytes, 1, 32);
            proof {
                assert(hash@ =~= rest);
            }
            if tag == 0 {
                Ok(WmvbaMessage::Proposal(hash))
            } else if tag == 2 {
                Ok(WmvbaMessage::Vote(Some(hash)))
            } else {
                Ok(WmvbaMessage::WitnessCreator(hash))
            }
        } else if tag == 1 || tag == 8 || tag == 9 {
            if len > 1 {
                return Err(CodecError::TrailingBytes);
            }
            if tag == 1 {
                Ok(WmvbaMessage::Vote(None))
            } else {
                Ok(WmvbaMessage::AreWeDone(tag == 9))
            }
        } else if tag == 3 || tag == 4 {
            if len < 85 {
                return Err(CodecError::ShortRead);
            }
            if len > 85 {
                return Err(CodecError::TrailingBytes);
            }
            let phase = read_u32_be(bytes, 1);
            let ticket = read_exact(bytes, 5, 80);
            proof {
                assert(rest.subrange(0, 4) =~= b.subrange(1, 5));
                assert(rest.skip(4) =~= b.subrange(5, 85));
            }
            Ok(WmvbaMessage::AbbaInput(AbbaInput { phase, ticket, justified: tag == 4 }))
        } else if tag == 5 || tag == 6 {
            if len < 9 {
                return Err(CodecError::ShortRead);
            }
            if len > 9 {
                return Err(CodecError::TrailingBytes);
            }
            let phase = read_u32_be(bytes, 1);
            let party = read_u32_be(bytes, 5);
            proof {
                assert(rest.subrange(0, 4) =~= b.subrange(1, 5));
                assert(rest.subrange(4, 8) =~= b.subrange(5, 9));
            }
            Ok(WmvbaMessage::CssSeen(CssSeen { phase, party, saw: tag == 6 }))
        } else if tag == 7 {
            if len < 13 {
                return Err(CodecError::ShortRead);
            }
            let phase = read_u32_be(bytes, 1);
            let n1 = read_u64_be(bytes, 5);
            proof {
                assert(rest.subrange(0, 4) =~= b.subrange(1, 5));
                assert(rest.subrange(4, 12) =~= b.subrange(5, 13));
            }
            let avail1: usize = len - 13;
            let ghost body1 = rest.skip(12);
            proof {
                assert(body1 =~= b.skip(13));
                lemma_parse_parties_char(body1, n1 as nat);
            }
            if n1 > u64::MAX / 4 {
                return Err(CodecError::ShortRead);
            }
            if 4 * n1 > avail1 as u64 {
                return Err(CodecError::ShortRead);
            }
            assert(n1 <= usize::MAX as u64);
            let cnt1: usize = n1 as usize;
            let cf = read_parties(bytes, 13, cnt1);
            let pos2: usize = 13 + 4 * cnt1;
            let ghost first = parse_parties(body1, n1 as nat)->Some_0;
            proof {
                assert forall|i: int| 0 <= i < cnt1 implies cf@[i] == first.0[i] by {
                    assert(body1.subrange(4 * i, 4 * i + 4) =~= b.subrange(
                        13 + 4 * i,
                        13 + 4 * i + 4,
                    ));
                }
                assert(cf@ =~= first.0);
                assert(first.1 =~= b.skip(pos2 as int));
            }
            if len - pos2 < 8 {
                return Err(CodecError::ShortRead);
            }
            let n2 = read_u64_be(bytes, pos2);
            proof {
                assert(first.1.subrange(0, 8) =~= b.subrange(pos2 as int, pos2 + 8));
            }
            let avail2: usize = len - pos2 - 8;
            let ghost body2 = first.1.skip(8);
            proof {
                assert(body2 =~= b.skip(pos2 + 8));
                lemma_parse_parties_char(body2, n2 as nat);
            }
            if n2 > u64::MAX / 4 {
                return Err(CodecError::ShortRead);
            }
            if 4 * n2 > avail2 as u64 {
                return Err(CodecError::ShortRead);
            }
            assert(n2 <= usize::MAX as u64);
            let cnt2: usize = n2 as usize;
            let ct = read_parties(bytes, pos2 + 8, cnt2);
            let ghost second = parse_parties(body2, n2 as nat)->Some_0;
            proof {
                assert forall|i: int| 0 <= i < cnt2 implies ct@[i] == second.0[i] by {
                    assert(body2.subrange(4 * i, 4 * i + 4) =~= b.subrange(
                        pos2 + 8 + 4 * i,
                        pos2 + 8 + 4 * i + 4,
                    ));
                }
                assert(ct@ =~= second.0);
                assert(second.1.len() == len - pos2 - 8 - 4 * cnt2);
            }
            let end: usize = pos2 + 8 + 4 * cnt2;
            if end < len {
                return Err(CodecError::TrailingBytes);
            }
            Ok(
                WmvbaMessage::CssDoneReporting(
                    CssDoneReporting { phase, chose_false: cf, chose_true: ct },
                ),
            )
        } else {
            Err(CodecError::UnsupportedVariant)
        }
    }
}

impl FinalizationProof {
    /// Decodes a proof; the whole input must be consumed.
    pub fn deserialize(bytes: &Vec<u8>) -> (r: Result<FinalizationProof, CodecError>)
        ensures
            decode_ok(r, parse_proof(bytes@)),
    {
        let len = bytes.len();
        if len < 8 {
            return Err(CodecError::ShortRead);
        }
        let n = read_u64_be(bytes, 0);
        let ghost b = bytes@;
        let ghost body = b.skip(8);
        let avail: usize = len - 8;
        proof {
            assert(b.subrange(0, 8) =~= b.take(8));
            lemma_parse_sig_pairs_char(body, n as nat);
        }
        if n > u64::MAX / 76 {
            return Err(CodecError::ShortRead);
        }
        if 76 * n > avail as u64 {
            return Err(CodecError::ShortRead);
        }
        assert(n <= usize::MAX as u64);
        let cnt: usize = n as usize;
        let pairs = read_sig_pairs(bytes, 8, cnt);
        let ghost pr = parse_sig_pairs(body, n as nat)->Some_0;
        let result = FinalizationProof(pairs);
        proof {
            assert forall|i: int| 0 <= i < cnt implies result@[i] == pr.0[i] by {
                assert(body.subrange(76 * i, 76 * i + 4) =~= b.subrange(
                    8 + 76 * i,
                    8 + 76 * i + 4,
                ));
                assert(body.subrange(76 * i + 4, 76 * i + 76) =~= b.subrange(
                    8 + 76 * i + 4,
                    8 + 76 * i + 76,
                ));
            }
            assert(result@ =~= pr.0);
            assert(pr.1.len() == len - 8 - 76 * cnt);
        }
        if 8 + 76 * cnt < len {
            return Err(CodecError::TrailingBytes);
        }
        Ok(result)
    }
}

impl FinalizationMessage {
    /// Decodes a finalization message. The WMVBA slice width is inferred
    /// from the outer frame: total minus header minus signature.
    pub fn deserialize(bytes: &Vec<u8>) -> (r: Result<FinalizationMessage, CodecError>)
        ensures
            decode_ok(r, parse_message(bytes@)),
    {
        let len = bytes.len();
        if len < HEADER_LEN + SIGNATURE_LEN + 1 {
            return Err(CodecError::MalformedFrame);
        }
        let ghost b = bytes@;
        let header_bytes = read_exact(bytes, 0, HEADER_LEN);
        let header = match FinalizationMessageHeader::deserialize(&header_bytes) {
            Ok(h) => h,
            Err(e) => {
                return Err(e);
            },
        };
        let wm_bytes = read_exact(bytes, HEADER_LEN, len - HEADER_LEN - SIGNATURE_LEN);
        proof {
            assert(wm_bytes@ =~= b.subrange(HEADER_LEN as int, len - SIGNATURE_LEN));
        }
        let message = match WmvbaMessage::deserialize(&wm_bytes) {
            Ok(m) => m,
            Err(e) => {
                return Err(e);
            },
        };
        let signature = read_exact(bytes, len - SIGNATURE_LEN, SIGNATURE_LEN);
        proof {
            assert(signature@ =~= b.skip(len - SIGNATURE_LEN));
        }
        Ok(FinalizationMessage { header, message, signature })
    }
}

impl FinalizationRecord {
    /// Decodes a finalization record. The proof slice width is inferred
    /// from the outer frame: total minus index, hash and delay.
    pub fn deserialize(bytes: &Vec<u8>) -> (r: Result<FinalizationRecord, CodecError>)
        ensures
            decode_ok(r, parse_record(bytes@)),
    {
        let len = bytes.len();
        if len < 8 + VAL_LEN + 8 + 8 {
            return Err(CodecError::MalformedFrame);
        }
        let ghost b = bytes@;
        let index = read_u64_be(bytes, 0);
        let block_pointer = read_exact(bytes, 8, VAL_LEN);
        let proof_bytes = read_exact(bytes, 40, len - 48);
        proof {
            assert(proof_bytes@ =~= b.subrange(40, len - 8));
        }
        let pf = match FinalizationProof::deserialize(&proof_bytes) {
            Ok(p) => p,
            Err(e) => {
                return Err(e);
            },
        };
        let delay = read_u64_be(bytes, len - 8);
        proof {
            assert(b.subrange(len - 8, len as int) =~= b.skip(len - 8));
        }
        Ok(FinalizationRecord { index, block_pointer, proof: pf, delay })
    }
}

} // verus!

// ---------------------------------------------------------------------------
// Round-trip laws
// ---------------------------------------------------------------------------

verus! {

/// Every WMVBA encoding starts with its discriminant byte.
pub proof fn lemma_wmvba_serialize_nonempty(m: WmvbaMessageV)
    ensures
        m.spec_serialize().len() >= 1,
{
    match m {
        WmvbaMessageV::Proposal(_) => {},
        WmvbaMessageV::Vote(_) => {},
        WmvbaMessageV::AbbaInput(_) => {},
        WmvbaMessageV::CssSeen(_) => {},
        WmvbaMessageV::CssDoneReporting(_) => {},
        WmvbaMessageV::AreWeDone(_) => {},
        WmvbaMessageV::WitnessCreator(_) => {},
    }
}

/// Decoding an encoded CSS "done reporting" payload yields it back.
#[verifier::rlimit(100)]
#[verifier::spinoff_prover]
proof fn lemma_cdr_round_trip(c: CssDoneReportingV)
    requires
        c.wf(),
    ensures
        parse_wmvba(WmvbaMessageV::CssDoneReporting(c).spec_serialize()) == Ok::<
            WmvbaMessageV,
            CodecError,
        >(WmvbaMessageV::CssDoneReporting(c)),
{
    let b = WmvbaMessageV::CssDoneReporting(c).spec_serialize();
    let n1: u64 = c.chose_false.len() as u64;
    let n2: u64 = c.chose_true.len() as u64;
    let p1 = spec_parties(c.chose_false);
    let p2 = spec_parties(c.chose_true);
    lemma_spec_parties_len(c.chose_false);
    lemma_spec_parties_len(c.chose_true);
    assert(b[0] == 7);
    let rest = b.skip(1);
    assert(rest =~= u32_be(c.phase) + u64_be(n1) + p1 + u64_be(n2) + p2);
    assert(rest.subrange(0, 4) =~= u32_be(c.phase));
    lemma_u32_of_be_of(c.phase);
    assert(rest.subrange(4, 12) =~= u64_be(n1));
    lemma_u64_of_be_of(n1);
    assert(rest.skip(12) =~= p1 + (u64_be(n2) + p2));
    lemma_parse_of_spec_parties(c.chose_false, u64_be(n2) + p2);
    assert(n1 as nat == c.chose_false.len());
    let first = parse_parties(rest.skip(12), n1 as nat)->Some_0;
    assert(first.0 == c.chose_false && first.1 == u64_be(n2) + p2);
    assert(first.1.subrange(0, 8) =~= u64_be(n2));
    lemma_u64_of_be_of(n2);
    assert(first.1.skip(8) =~= p2 + Seq::<u8>::empty());
    lemma_parse_of_spec_parties(c.chose_true, Seq::<u8>::empty());
    assert(n2 as nat == c.chose_true.len());
    let second = parse_parties(first.1.skip(8), n2 as nat)->Some_0;
    assert(second.0 == c.chose_true && second.1.len() == 0);
}

/// Decoding an encoded ABBA input payload yields it back.
proof fn lemma_abba_round_trip(a: AbbaInputV)
    requires
        a.wf(),
    ensures
        parse_wmvba(WmvbaMessageV::AbbaInput(a).spec_serialize()) == Ok::<
            WmvbaMessageV,
            CodecError,
        >(WmvbaMessageV::AbbaInput(a)),
{
    let b = WmvbaMessageV::AbbaInput(a).spec_serialize();
    let rest = b.skip(1);
    assert(rest =~= u32_be(a.phase) + a.ticket);
    assert(rest.subrange(0, 4) =~= u32_be(a.phase));
    lemma_u32_of_be_of(a.phase);
    assert(rest.skip(4) =~= a.ticket);
    if a.justified {
        assert(b[0] == 4);
    } else {
        assert(b[0] == 3);
    }
}

/// Decoding an encoded WMVBA message yields the message back.
#[verifier::rlimit(100)]
#[verifier::spinoff_prover]
pub proof fn lemma_wmvba_round_trip(m: WmvbaMessageV)
    requires
        m.wf(),
    ensures
        parse_wmvba(m.spec_serialize()) == Ok::<WmvbaMessageV, CodecError>(m),
{
    let b = m.spec_serialize();
    match m {
        WmvbaMessageV::Proposal(v) => {
            assert(b[0] == 0);
            assert(b.skip(1) =~= v);
        },
        WmvbaMessageV::Vote(o) => match o {
            Option::None => {
                assert(b[0] == 1);
                assert(b.skip(1).len() == 0);
            },
            Option::Some(v) => {
                assert(b[0] == 2);
                assert(b.skip(1) =~= v);
            },
        },
        WmvbaMessageV::AbbaInput(a) => {
            lemma_abba_round_trip(a);
        },
        WmvbaMessageV::CssSeen(c) => {
            let rest = b.skip(1);
            assert(rest =~= u32_be(c.phase) + u32_be(c.party));
            assert(rest.subrange(0, 4) =~= u32_be(c.phase));
            assert(rest.subrange(4, 8) =~= u32_be(c.party));
            lemma_u32_of_be_of(c.phase);
            lemma_u32_of_be_of(c.party);
            if c.saw {
                assert(b[0] == 6);
            } else {
                assert(b[0] == 5);
            }
        },
        WmvbaMessageV::CssDoneReporting(c) => {
            lemma_cdr_round_trip(c);
        },
        WmvbaMessageV::AreWeDone(v) => {
            if v {
                assert(b[0] == 9);
            } else {
                assert(b[0] == 8);
            }
            assert(b.skip(1).len() == 0);
        },
        WmvbaMessageV::WitnessCreator(v) => {
            assert(b[0] == 10);
            assert(b.skip(1) =~= v);
        },
    }
}

/// A successfully decoded CSS "done reporting" payload re-encodes to the
/// bytes it was decoded from.
#[verifier::rlimit(100)]
#[verifier::spinoff_prover]
proof fn lemma_cdr_parse_exact(b: Seq<u8>)
    requires
        parse_wmvba(b) is Ok,
        b.len() > 0,
        b[0] == 7,
    ensures
        parse_wmvba(b) matches Ok(m) ==> m.wf() && m.spec_serialize() == b,
{
    let m = parse_wmvba(b)->Ok_0;
    let rest = b.skip(1);
    assert(seq![b[0]] + rest =~= b);
    let phase = u32_of_be(rest.subrange(0, 4));
    let n1 = u64_of_be(rest.subrange(4, 12));
    lemma_parse_parties_char(rest.skip(12), n1 as nat);
    lemma_parse_parties_reconstruct(rest.skip(12), n1 as nat);
    let first = parse_parties(rest.skip(12), n1 as nat)->Some_0;
    let n2 = u64_of_be(first.1.subrange(0, 8));
    lemma_parse_parties_char(first.1.skip(8), n2 as nat);
    lemma_parse_parties_reconstruct(first.1.skip(8), n2 as nat);
    let second = parse_parties(first.1.skip(8), n2 as nat)->Some_0;
    assert(second.1.len() == 0);
    let cf = first.0;
    let ct = second.0;
    assert(cf.len() == n1 && ct.len() == n2);
    lemma_u32_be_of_be(rest.subrange(0, 4));
    lemma_u64_be_of_be(rest.subrange(4, 12));
    lemma_u64_be_of_be(first.1.subrange(0, 8));
    assert(spec_parties(ct) =~= spec_parties(ct) + second.1);
    assert(spec_parties(ct) == first.1.skip(8));
    assert(u64_be(n2) =~= first.1.subrange(0, 8));
    assert(u64_be(n2) + spec_parties(ct) =~= first.1);
    assert(spec_parties(cf) + first.1 == rest.skip(12));
    assert(u32_be(phase) =~= rest.subrange(0, 4));
    assert(u64_be(n1) =~= rest.subrange(4, 12));
    assert(m.spec_serialize() =~= seq![7u8] + u32_be(phase) + u64_be(n1) + spec_parties(cf)
        + u64_be(n2) + spec_parties(ct));
    assert(u32_be(phase) + u64_be(n1) + (spec_parties(cf) + first.1) =~= rest);
    assert(m.spec_serialize() =~= b);
}

/// A successfully decoded WMVBA message is well formed and re-encodes to the
/// bytes it was decoded from.
#[verifier::rlimit(100)]
#[verifier::spinoff_prover]
pub proof fn lemma_wmvba_parse_exact(b: Seq<u8>)
    ensures
        parse_wmvba(b) matches Ok(m) ==> m.wf() && m.spec_serialize() == b,
{
    if parse_wmvba(b) is Ok {
        let m = parse_wmvba(b)->Ok_0;
        let tag = b[0];
        let rest = b.skip(1);
        assert(seq![tag] + rest =~= b);
        if tag == 0 || tag == 2 || tag == 10 {
            assert(m.spec_serialize() =~= b);
        } else if tag == 1 || tag == 8 || tag == 9 {
            assert(rest.len() == 0);
            assert(m.spec_serialize() =~= b);
        } else if tag == 3 || tag == 4 {
            lemma_u32_be_of_be(rest.subrange(0, 4));
            assert(u32_be(u32_of_be(rest.subrange(0, 4))) + rest.skip(4) =~= rest);
            assert(m.spec_serialize() =~= b);
        } else if tag == 5 || tag == 6 {
            lemma_u32_be_of_be(rest.subrange(0, 4));
            lemma_u32_be_of_be(rest.subrange(4, 8));
            assert(u32_be(u32_of_be(rest.subrange(0, 4))) + u32_be(u32_of_be(rest.subrange(4, 8)))
                =~= rest);
            assert(m.spec_serialize() =~= b);
        } else {
            assert(tag == 7);
            lemma_cdr_parse_exact(b);
        }
    }
}

/// Appending anything to an encoded CSS "done reporting" payload makes it
/// fail to decode.
#[verifier::rlimit(100)]
#[verifier::spinoff_prover]
proof fn lemma_cdr_trailing(c: CssDoneReportingV, extra: Seq<u8>)
    requires
        c.wf(),
        extra.len() > 0,
    ensures
        parse_wmvba(WmvbaMessageV::CssDoneReporting(c).spec_serialize() + extra) == Err::<
            WmvbaMessageV,
            CodecError,
        >(CodecError::TrailingBytes),
{
    let b = WmvbaMessageV::CssDoneReporting(c).spec_serialize() + extra;
    let rest = b.skip(1);
    let n1: u64 = c.chose_false.len() as u64;
    let n2: u64 = c.chose_true.len() as u64;
    let p1 = spec_parties(c.chose_false);
    let p2 = spec_parties(c.chose_true);
    lemma_spec_parties_len(c.chose_false);
    lemma_spec_parties_len(c.chose_true);
    assert(b[0] == 7);
    assert(rest =~= u32_be(c.phase) + u64_be(n1) + p1 + u64_be(n2) + p2 + extra);
    assert(rest.subrange(4, 12) =~= u64_be(n1));
    lemma_u64_of_be_of(n1);
    assert(rest.skip(12) =~= p1 + (u64_be(n2) + p2 + extra));
    lemma_parse_of_spec_parties(c.chose_false, u64_be(n2) + p2 + extra);
    assert(n1 as nat == c.chose_false.len());
    let first = parse_parties(rest.skip(12), n1 as nat)->Some_0;
    assert(first.0 == c.chose_false && first.1 == u64_be(n2) + p2 + extra);
    assert(first.1.subrange(0, 8) =~= u64_be(n2));
    lemma_u64_of_be_of(n2);
    assert(first.1.skip(8) =~= p2 + extra);
    lemma_parse_of_spec_parties(c.chose_true, extra);
    assert(n2 as nat == c.chose_true.len());
    let second = parse_parties(first.1.skip(8), n2 as nat)->Some_0;
    assert(second.0 == c.chose_true && second.1 == extra);
    assert(second.1.len() > 0);
}

/// Appending anything to a WMVBA encoding makes it fail to decode, with
/// `TrailingBytes`.
#[verifier::rlimit(100)]
#[verifier::spinoff_prover]
pub proof fn lemma_wmvba_trailing(m: WmvbaMessageV, extra: Seq<u8>)
    requires
        m.wf(),
        extra.len() > 0,
    ensures
        parse_wmvba(m.spec_serialize() + extra) == Err::<WmvbaMessageV, CodecError>(
            CodecError::TrailingBytes,
        ),
{
    let b = m.spec_serialize() + extra;
    let rest = b.skip(1);
    match m {
        WmvbaMessageV::Proposal(v) => {
            assert(b[0] == 0);
        },
        WmvbaMessageV::Vote(o) => match o {
            Option::None => {
                assert(b[0] == 1);
                assert(rest.len() > 0);
            },
            Option::Some(v) => {
                assert(b[0] == 2);
            },
        },
        WmvbaMessageV::AbbaInput(a) => {
            if a.justified {
                assert(b[0] == 4);
            } else {
                assert(b[0] == 3);
            }
            assert(rest.len() > 4 + TICKET_LEN);
        },
        WmvbaMessageV::CssSeen(c) => {
            if c.saw {
                assert(b[0] == 6);
            } else {
                assert(b[0] == 5);
            }
            assert(rest.len() > 8);
        },
        WmvbaMessageV::CssDoneReporting(c) => {
            lemma_cdr_trailing(c, extra);
        },
        WmvbaMessageV::AreWeDone(v) => {
            if v {
                assert(b[0] == 9);
            } else {
                assert(b[0] == 8);
            }
            assert(rest.len() > 0);
        },
        WmvbaMessageV::WitnessCreator(v) => {
            assert(b[0] == 10);
        },
    }
}

/// Tags above ten name no WMVBA variant and are rejected as such.
pub proof fn lemma_wmvba_unknown_tag(b: Seq<u8>)
    requires
        b.len() > 0,
        b[0] > 10,
    ensures
        parse_wmvba(b) == Err::<WmvbaMessageV, CodecError>(CodecError::UnsupportedVariant),
{
}

} // verus!

verus! {

/// Decoding an encoded header yields the header back.
pub proof fn lemma_header_round_trip(h: FinalizationMessageHeaderV)
    requires
        h.wf(),
    ensures
        parse_header(h.spec_serialize()) == Ok::<FinalizationMessageHeaderV, CodecError>(h),
{
    let b = h.spec_serialize();
    assert(b.len() == HEADER_LEN);
    assert(b.subrange(0, 32) =~= h.session_id);
    assert(b.subrange(32, 40) =~= u64_be(h.index));
    assert(b.subrange(40, 48) =~= u64_be(h.delta));
    assert(b.subrange(48, 52) =~= u32_be(h.sender));
    lemma_u64_of_be_of(h.index);
    lemma_u64_of_be_of(h.delta);
    lemma_u32_of_be_of(h.sender);
}

/// A successfully decoded header is well formed and re-encodes to the bytes
/// it was decoded from.
pub proof fn lemma_header_parse_exact(b: Seq<u8>)
    ensures
        parse_header(b) matches Ok(h) ==> h.wf() && h.spec_serialize() == b,
{
    if parse_header(b) is Ok {
        let h = parse_header(b)->Ok_0;
        lemma_u64_be_of_be(b.subrange(32, 40));
        lemma_u64_be_of_be(b.subrange(40, 48));
        lemma_u32_be_of_be(b.subrange(48, 52));
        assert(h.spec_serialize() =~= b);
    }
}

/// Appending anything to an encoded header makes it fail to decode.
pub proof fn lemma_header_trailing(h: FinalizationMessageHeaderV, extra: Seq<u8>)
    requires
        h.wf(),
        extra.len() > 0,
    ensures
        parse_header(h.spec_serialize() + extra) == Err::<FinalizationMessageHeaderV, CodecError>(
            CodecError::TrailingBytes,
        ),
{
    assert((h.spec_serialize() + extra).len() > HEADER_LEN);
}

/// Decoding an encoded proof yields the proof back.
pub proof fn lemma_proof_round_trip(p: Seq<(u32, Seq<u8>)>)
    requires
        proof_wf(p),
    ensures
        parse_proof(spec_serialize_proof(p)) == Ok::<Seq<(u32, Seq<u8>)>, CodecError>(p),
{
    let b = spec_serialize_proof(p);
    let n: u64 = p.len() as u64;
    assert(b.subrange(0, 8) =~= u64_be(n));
    lemma_u64_of_be_of(n);
    assert(b.skip(8) =~= spec_sig_pairs(p) + Seq::<u8>::empty());
    lemma_parse_of_spec_sig_pairs(p, Seq::<u8>::empty());
    assert(n as nat == p.len());
}

/// A successfully decoded proof is well formed and re-encodes to the bytes
/// it was decoded from.
pub proof fn lemma_proof_parse_exact(b: Seq<u8>)
    ensures
        parse_proof(b) matches Ok(p) ==> proof_wf(p) && spec_serialize_proof(p) == b,
{
    if parse_proof(b) is Ok {
        let p = parse_proof(b)->Ok_0;
        let n = u64_of_be(b.subrange(0, 8));
        lemma_parse_sig_pairs_char(b.skip(8), n as nat);
        lemma_parse_sig_pairs_reconstruct(b.skip(8), n as nat);
        let pr = parse_sig_pairs(b.skip(8), n as nat)->Some_0;
        assert(pr.1.len() == 0);
        assert(p.len() == n);
        lemma_u64_be_of_be(b.subrange(0, 8));
        assert(u64_be(p.len() as u64) =~= b.subrange(0, 8));
        assert(spec_sig_pairs(p) =~= spec_sig_pairs(p) + pr.1);
        assert(spec_sig_pairs(p) == b.skip(8));
        assert(spec_serialize_proof(p) =~= b);
    }
}

/// Appending anything to an encoded proof makes it fail to decode.
pub proof fn lemma_proof_trailing(p: Seq<(u32, Seq<u8>)>, extra: Seq<u8>)
    requires
        proof_wf(p),
        extra.len() > 0,
    ensures
        parse_proof(spec_serialize_proof(p) + extra) == Err::<Seq<(u32, Seq<u8>)>, CodecError>(
            CodecError::TrailingBytes,
        ),
{
    let b = spec_serialize_proof(p) + extra;
    let n: u64 = p.len() as u64;
    assert(b.subrange(0, 8) =~= u64_be(n));
    lemma_u64_of_be_of(n);
    assert(b.skip(8) =~= spec_sig_pairs(p) + extra);
    lemma_parse_of_spec_sig_pairs(p, extra);
    assert(n as nat == p.len());
    let pr = parse_sig_pairs(b.skip(8), n as nat)->Some_0;
    assert(pr.1 == extra);
}

/// Decoding an encoded finalization message yields the message back.
#[verifier::rlimit(100)]
#[verifier::spinoff_prover]
pub proof fn lemma_message_round_trip(m: FinalizationMessageV)
    requires
        m.wf(),
    ensures
        parse_message(m.spec_serialize()) == Ok::<FinalizationMessageV, CodecError>(m),
{
    let b = m.spec_serialize();
    let hs = m.header.spec_serialize();
    let ws = m.message.spec_serialize();
    lemma_wmvba_serialize_nonempty(m.message);
    assert(hs.len() == HEADER_LEN);
    assert(b.len() == HEADER_LEN + ws.len() + SIGNATURE_LEN);
    assert(b.subrange(0, HEADER_LEN as int) =~= hs);
    lemma_header_round_trip(m.header);
    assert(b.subrange(HEADER_LEN as int, b.len() - SIGNATURE_LEN) =~= ws);
    lemma_wmvba_round_trip(m.message);
    assert(b.skip(b.len() - SIGNATURE_LEN) =~= m.signature);
}

/// A successfully decoded finalization message is well formed and re-encodes
/// to the bytes it was decoded from.
#[verifier::rlimit(100)]
#[verifier::spinoff_prover]
pub proof fn lemma_message_parse_exact(b: Seq<u8>)
    ensures
        parse_message(b) matches Ok(m) ==> m.wf() && m.spec_serialize() == b,
{
    if parse_message(b) is Ok {
        let m = parse_message(b)->Ok_0;
        lemma_header_parse_exact(b.subrange(0, HEADER_LEN as int));
        lemma_wmvba_parse_exact(b.subrange(HEADER_LEN as int, b.len() - SIGNATURE_LEN));
        assert(m.header.spec_serialize() == b.subrange(0, HEADER_LEN as int));
        assert(m.message.spec_serialize() == b.subrange(HEADER_LEN as int, b.len()
            - SIGNATURE_LEN));
        assert(m.signature == b.skip(b.len() - SIGNATURE_LEN));
        assert(m.spec_serialize() =~= b);
    }
}

/// Appending anything to an encoded finalization message makes it fail to
/// decode.
#[verifier::rlimit(100)]
#[verifier::spinoff_prover]
pub proof fn lemma_message_trailing(m: FinalizationMessageV, extra: Seq<u8>)
    requires
        m.wf(),
        extra.len() > 0,
    ensures
        parse_message(m.spec_serialize() + extra) == Err::<FinalizationMessageV, CodecError>(
            CodecError::TrailingBytes,
        ),
{
    let b = m.spec_serialize() + extra;
    let hs = m.header.spec_serialize();
    let ws = m.message.spec_serialize();
    let tail = m.signature + extra;
    lemma_wmvba_serialize_nonempty(m.message);
    assert(hs.len() == HEADER_LEN);
    assert(b.len() == HEADER_LEN + ws.len() + SIGNATURE_LEN + extra.len());
    assert(b.subrange(0, HEADER_LEN as int) =~= hs);
    lemma_header_round_trip(m.header);
    let w = tail.subrange(0, extra.len() as int);
    assert(w.len() == extra.len());
    assert(b.subrange(HEADER_LEN as int, b.len() - SIGNATURE_LEN) =~= ws + w);
    lemma_wmvba_trailing(m.message, w);
}

/// Decoding an encoded finalization record yields the record back.
#[verifier::rlimit(100)]
#[verifier::spinoff_prover]
pub proof fn lemma_record_round_trip(r: FinalizationRecordV)
    requires
        r.wf(),
    ensures
        parse_record(r.spec_serialize()) == Ok::<FinalizationRecordV, CodecError>(r),
{
    let b = r.spec_serialize();
    let ps = spec_serialize_proof(r.proof);
    assert(b.len() == 8 + VAL_LEN + ps.len() + 8);
    assert(b.subrange(0, 8) =~= u64_be(r.index));
    lemma_u64_of_be_of(r.index);
    assert(b.subrange(8, 40) =~= r.block_pointer);
    assert(b.subrange(40, b.len() - 8) =~= ps);
    lemma_proof_round_trip(r.proof);
    assert(b.skip(b.len() - 8) =~= u64_be(r.delay));
    lemma_u64_of_be_of(r.delay);
}

/// A record whose four fields re-encode to the four slices of `b` itself
/// re-encodes to `b`.
proof fn lemma_record_reassemble(b: Seq<u8>, r: FinalizationRecordV)
    requires
        b.len() >= 56,
        u64_be(r.index) == b.subrange(0, 8),
        r.block_pointer == b.subrange(8, 40),
        spec_serialize_proof(r.proof) == b.subrange(40, b.len() - 8),
        u64_be(r.delay) == b.subrange(b.len() - 8, b.len() as int),
    ensures
        r.spec_serialize() == b,
{
    assert(u64_be(r.index) + r.block_pointer =~= b.subrange(0, 40));
    assert(u64_be(r.index) + r.block_pointer + spec_serialize_proof(r.proof) =~= b.subrange(
        0,
        b.len() - 8,
    ));
    assert(r.spec_serialize() =~= b);
}

/// A successfully decoded finalization record is well formed and re-encodes
/// to the bytes it was decoded from.
#[verifier::rlimit(100)]
#[verifier::spinoff_prover]
pub proof fn lemma_record_parse_exact(b: Seq<u8>)
    ensures
        parse_record(b) matches Ok(r) ==> r.wf() && r.spec_serialize() == b,
{
    if parse_record(b) is Ok {
        let r = parse_record(b)->Ok_0;
        lemma_proof_parse_exact(b.subrange(40, b.len() - 8));
        lemma_u64_be_of_be(b.subrange(0, 8));
        assert(b.skip(b.len() - 8) =~= b.subrange(b.len() - 8, b.len() as int));
        lemma_u64_be_of_be(b.subrange(b.len() - 8, b.len() as int));
        lemma_record_reassemble(b, r);
    }
}

/// Appending anything to an encoded finalization record makes it fail to
/// decode.
#[verifier::rlimit(100)]
#[verifier::spinoff_prover]
pub proof fn lemma_record_trailing(r: FinalizationRecordV, extra: Seq<u8>)
    requires
        r.wf(),
        extra.len() > 0,
    ensures
        parse_record(r.spec_serialize() + extra) == Err::<FinalizationRecordV, CodecError>(
            CodecError::TrailingBytes,
        ),
{
    let b = r.spec_serialize() + extra;
    let ps = spec_serialize_proof(r.proof);
    let tail = u64_be(r.delay) + extra;
    assert(b.len() == 8 + VAL_LEN + ps.len() + 8 + extra.len());
    let w = tail.subrange(0, extra.len() as int);
    assert(w.len() == extra.len());
    assert(b.subrange(40, b.len() - 8) =~= ps + w);
    lemma_proof_trailing(r.proof, w);
}

} // verus!
