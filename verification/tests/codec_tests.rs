//! Byte-level codec behaviour: block decoding against a reference byte
//! string, WMVBA discriminant coverage, round trips, and length strictness.

use concordium_node::block::Block;
use concordium_node::finalization::{
    AbbaInput, CodecError, CssDoneReporting, CssSeen, FinalizationMessage,
    FinalizationMessageHeader, FinalizationProof, FinalizationRecord, WmvbaMessage,
};

fn reference_block_bytes() -> Vec<u8> {
    vec![
        0, 0, 0, 0, 9, 60, 250, 52, 203, 177, 255, 13, 4, 179, 160, 197, 194, 34, 84, 186, 123,
        247, 222, 246, 39, 60, 144, 3, 126, 183, 208, 197, 207, 80, 228, 15, 218, 177, 206, 219, 0,
        0, 0, 0, 0, 0, 0, 4, 91, 79, 253, 56, 152, 63, 243, 146, 178, 101, 220, 59, 0, 215, 209,
        152, 245, 237, 204, 118, 246, 80, 236, 206, 174, 33, 172, 241, 118, 132, 36, 208, 106, 143,
        223, 92, 102, 126, 60, 231, 13, 232, 238, 120, 7, 245, 9, 213, 161, 61, 161, 174, 129, 171,
        106, 110, 4, 122, 20, 198, 72, 119, 161, 12, 175, 220, 218, 40, 41, 62, 209, 135, 254, 161,
        249, 131, 245, 195, 145, 0, 70, 170, 101, 248, 152, 252, 191, 72, 76, 111, 146, 107, 78,
        212, 30, 212, 238, 60, 247, 236, 20, 142, 224, 186, 91, 159, 49, 191, 132, 52, 195, 121,
        233, 85, 189, 48, 96, 175, 234, 112, 97, 36, 242, 144, 202, 66, 198, 109, 84, 249, 0, 78,
        63, 162, 52, 1, 3, 24, 135, 151, 21, 93, 15, 160, 24, 40, 169, 25, 45, 145, 153, 30, 141,
        28, 140, 200, 240, 63, 98, 215, 193, 186, 178, 84, 53, 198, 123, 147, 181, 167, 60, 105,
        11, 81, 83, 58, 61, 203, 244, 191, 1, 27, 193, 163, 100, 53, 77, 177, 194, 175, 73, 5, 203,
        177, 255, 13, 4, 179, 160, 197, 194, 34, 84, 186, 123, 247, 222, 246, 39, 60, 144, 3, 126,
        183, 208, 197, 207, 80, 228, 15, 218, 177, 206, 219, 0, 0, 0, 0, 0, 0, 0, 8, 0, 0, 0, 0, 0,
        0, 0, 0, 25, 222, 218, 238, 169, 232, 56, 230, 13, 183, 57, 66, 109, 127, 52, 37, 103, 213,
        230, 6, 146, 183, 79, 92, 57, 134, 242, 175, 212, 247, 179, 156, 87, 113, 25, 89, 234, 196,
        242, 52, 204, 84, 139, 223, 8, 38, 198, 13, 210, 197, 193, 159, 232, 175, 181, 172, 169,
        164, 174, 44, 113, 186, 202, 1,
    ]
}

#[test]
fn serialization_deserialize_block_000() {
    let input = reference_block_bytes();
    let deserialized = Block::deserialize(&input);
    assert!(deserialized.is_some());
    let block = deserialized.unwrap();
    assert_eq!(&block.baker_id, &4);
}

#[test]
fn block_round_trips_to_same_bytes() {
    let input = reference_block_bytes();
    let block = Block::deserialize(&input).unwrap();
    assert_eq!(block.serialize(), input);
}


fn err_of<T>(r: Result<T, CodecError>) -> CodecError {
    match r {
        Ok(_) => panic!("decoded unexpectedly"),
        Err(e) => e,
    }
}

fn decode(bytes: Vec<u8>) -> Result<WmvbaMessage, CodecError> {
    WmvbaMessage::deserialize(&bytes)
}

fn reencode(bytes: Vec<u8>) -> Vec<u8> {
    decode(bytes).unwrap().serialize()
}

#[test]
fn wmvba_every_known_tag_decodes() {
    let hash = vec![7u8; 32];
    let mut proposal = vec![0u8];
    proposal.extend_from_slice(&hash);
    assert_eq!(reencode(proposal.clone()), proposal);

    let vote_none = vec![1u8];
    assert_eq!(reencode(vote_none.clone()), vote_none);

    let mut vote_some = vec![2u8];
    vote_some.extend_from_slice(&hash);
    assert_eq!(reencode(vote_some.clone()), vote_some);

    for tag in [3u8, 4u8] {
        let mut abba = vec![tag, 0, 0, 0, 9];
        abba.extend_from_slice(&[5u8; 80]);
        let decoded = decode(abba.clone()).unwrap();
        match &decoded {
            WmvbaMessage::AbbaInput(a) => {
                assert_eq!(a.phase, 9);
                assert_eq!(a.justified, tag == 4);
            },
            _ => panic!("wrong variant"),
        }
        assert_eq!(decoded.serialize(), abba);
    }

    for tag in [5u8, 6u8] {
        let css = vec![tag, 0, 0, 0, 2, 0, 0, 0, 11];
        let decoded = decode(css.clone()).unwrap();
        match &decoded {
            WmvbaMessage::CssSeen(c) => {
                assert_eq!(c.phase, 2);
                assert_eq!(c.party, 11);
                assert_eq!(c.saw, tag == 6);
            },
            _ => panic!("wrong variant"),
        }
        assert_eq!(decoded.serialize(), css);
    }

    // tag 7: phase, two parties that chose false, one that chose true
    let cdr = vec![
        7u8, 0, 0, 0, 1, 0, 0, 0, 0, 0, 0, 0, 2, 0, 0, 0, 3, 0, 0, 0, 4, 0, 0, 0, 0, 0, 0, 0, 1,
        0, 0, 0, 5,
    ];
    let decoded = decode(cdr.clone()).unwrap();
    match &decoded {
        WmvbaMessage::CssDoneReporting(c) => {
            assert_eq!(c.phase, 1);
            assert_eq!(c.chose_false, vec![3, 4]);
            assert_eq!(c.chose_true, vec![5]);
        },
        _ => panic!("wrong variant"),
    }
    assert_eq!(decoded.serialize(), cdr);

    assert_eq!(reencode(vec![8u8]), vec![8u8]);
    assert_eq!(reencode(vec![9u8]), vec![9u8]);

    let mut witness = vec![10u8];
    witness.extend_from_slice(&hash);
    assert_eq!(reencode(witness.clone()), witness);
}

#[test]
fn wmvba_tag_eleven_is_unsupported() {
    assert_eq!(err_of(decode(vec![11u8])), CodecError::UnsupportedVariant);
    assert_eq!(err_of(decode(vec![11u8, 0, 0])), CodecError::UnsupportedVariant);
    assert_eq!(err_of(decode(vec![255u8])), CodecError::UnsupportedVariant);
}

#[test]
fn wmvba_truncation_and_trailing_bytes_fail() {
    assert_eq!(err_of(decode(Vec::new())), CodecError::ShortRead);
    assert_eq!(err_of(decode(vec![0u8, 1, 2])), CodecError::ShortRead);
    let mut extra = vec![1u8];
    extra.push(0);
    assert_eq!(err_of(decode(extra)), CodecError::TrailingBytes);
    let mut proposal = vec![0u8];
    proposal.extend_from_slice(&[7u8; 32]);
    proposal.push(0);
    assert_eq!(err_of(decode(proposal)), CodecError::TrailingBytes);
}

fn sample_message() -> FinalizationMessage {
    FinalizationMessage {
        header: FinalizationMessageHeader {
            session_id: vec![1u8; 32],
            index: 3,
            delta: 4,
            sender: 5,
        },
        message: WmvbaMessage::AbbaInput(AbbaInput {
            phase: 2,
            ticket: vec![9u8; 80],
            justified: true,
        }),
        signature: vec![6u8; 72],
    }
}

#[test]
fn finalization_message_round_trip() {
    let msg = sample_message();
    let bytes = msg.serialize();
    let back = FinalizationMessage::deserialize(&bytes).unwrap();
    assert_eq!(back.serialize(), bytes);
    assert_eq!(back.header.index, 3);
    assert_eq!(back.header.delta, 4);
    assert_eq!(back.header.sender, 5);
    assert_eq!(back.signature, vec![6u8; 72]);
}

#[test]
fn finalization_message_trailing_bytes_fail() {
    let mut bytes = sample_message().serialize();
    bytes.push(0);
    assert_eq!(err_of(FinalizationMessage::deserialize(&bytes)), CodecError::TrailingBytes);
}

fn sample_record() -> FinalizationRecord {
    FinalizationRecord {
        index: 8,
        block_pointer: vec![3u8; 32],
        proof: FinalizationProof(vec![(1, vec![4u8; 72]), (2, vec![5u8; 72])]),
        delay: 6,
    }
}

#[test]
fn finalization_record_round_trip() {
    let rec = sample_record();
    let bytes = rec.serialize();
    let back = FinalizationRecord::deserialize(&bytes).unwrap();
    assert_eq!(back.serialize(), bytes);
    assert_eq!(back.index, 8);
    assert_eq!(back.delay, 6);
    assert_eq!(back.proof.0.len(), 2);
    assert_eq!(back.proof.0[0].0, 1);
}

#[test]
fn finalization_record_trailing_bytes_fail() {
    let mut bytes = sample_record().serialize();
    bytes.push(9);
    assert_eq!(err_of(FinalizationRecord::deserialize(&bytes)), CodecError::TrailingBytes);
}

#[test]
fn finalization_record_too_short_is_malformed() {
    assert_eq!(err_of(FinalizationRecord::deserialize(&vec![0u8; 40])), CodecError::MalformedFrame);
}

#[test]
fn cdr_empty_party_lists_round_trip() {
    let msg = WmvbaMessage::CssDoneReporting(CssDoneReporting {
        phase: 0,
        chose_false: Vec::new(),
        chose_true: Vec::new(),
    });
    let bytes = msg.serialize();
    assert_eq!(bytes.len(), 1 + 4 + 8 + 8);
    assert_eq!(decode(bytes.clone()).unwrap().serialize(), bytes);
}

#[test]
fn css_seen_truncated_fails() {
    let css = vec![5u8, 0, 0, 0, 2, 0, 0];
    assert_eq!(err_of(decode(css)), CodecError::ShortRead);
}
