use stance_bft::interpreter::{
    get_last_block_prev_session, BlockHashNum, OrderedDataInterpreter, ProposalStatus,
    SessionBoundaries,
};
use sp_runtime::BoundedVec;
use stance_bft::primitives::{
    ApiError, AuthorityId, CommitteeKickOutConfig, EraValidators, KickOutReason,
    SessionAuthorityData, DEFAULT_CLEAN_SESSION_COUNTER_DELAY,
    DEFAULT_KICK_OUT_SESSION_COUNT_THRESHOLD, KEY_TYPE, STANCE_ENGINE_ID, TOKEN, TOKEN_DECIMALS,
};

fn block(tag: u8, num: u32) -> BlockHashNum {
    BlockHashNum { hash: [tag; 32], num }
}

#[test]
fn the_block_before_a_session_is_the_last_of_the_session_before() {
    let later = SessionBoundaries::new(900, 1799).unwrap();
    assert_eq!(get_last_block_prev_session(later), 899);
    let first = SessionBoundaries::new(0, 899).unwrap();
    assert_eq!(get_last_block_prev_session(first), 0);
    let second_block = SessionBoundaries::new(1, 1).unwrap();
    assert_eq!(get_last_block_prev_session(second_block), 0);
}

#[test]
fn session_boundaries_are_in_order() {
    assert!(SessionBoundaries::new(10, 9).is_none());
    let b = SessionBoundaries::new(10, 10).unwrap();
    assert_eq!((b.first_block(), b.last_block()), (10, 10));
}

#[test]
fn the_blocks_of_a_proposal_are_handed_on_in_order() {
    let boundaries = SessionBoundaries::new(900, 1799).unwrap();
    let mut interpreter = OrderedDataInterpreter::new(block(1, 899), boundaries);
    assert_eq!(interpreter.last_finalized_by_stance(), block(1, 899));
    assert_eq!(interpreter.session_boundaries(), boundaries);
    let blocks = interpreter.data_finalized(ProposalStatus::Finalize(vec![block(2, 900), block(3, 901)]));
    assert_eq!(blocks, vec![block(2, 900), block(3, 901)]);
    assert_eq!(interpreter.last_finalized_by_stance(), block(3, 901));
}

#[test]
fn a_proposal_to_ignore_or_out_of_bounds_finalizes_nothing() {
    let boundaries = SessionBoundaries::new(0, 899).unwrap();
    let mut interpreter = OrderedDataInterpreter::new(block(0, 0), boundaries);
    assert!(interpreter.data_finalized(ProposalStatus::Ignore).is_empty());
    assert!(interpreter.data_finalized(ProposalStatus::OutOfBounds).is_empty());
    assert!(interpreter.data_finalized(ProposalStatus::Finalize(Vec::new())).is_empty());
    assert_eq!(interpreter.last_finalized_by_stance(), block(0, 0));
    assert!(interpreter.blocks_to_finalize_from_data(ProposalStatus::Ignore).is_empty());
    assert_eq!(
        interpreter.blocks_to_finalize_from_data(ProposalStatus::Finalize(vec![block(5, 5)])),
        vec![block(5, 5)]
    );
    assert_eq!(interpreter.last_finalized_by_stance(), block(0, 0));
}

#[test]
fn the_default_kick_out_config() {
    let config = CommitteeKickOutConfig::default();
    assert_eq!(config.minimal_expected_performance.parts(), 0);
    assert_eq!(config.underperformed_session_count_threshold, DEFAULT_KICK_OUT_SESSION_COUNT_THRESHOLD);
    assert_eq!(config.clean_session_counter_delay, DEFAULT_CLEAN_SESSION_COUNTER_DELAY);
    assert_eq!((config.underperformed_session_count_threshold, config.clean_session_counter_delay), (3, 960));
}

#[test]
fn a_reason_in_free_text_keeps_to_its_bound() {
    assert!(BoundedVec::<u8, sp_runtime::traits::ConstU32<300>>::try_from(vec![b'x'; 301]).is_err());
    let reason = KickOutReason::OtherReason(BoundedVec::try_from(b"late".to_vec()).unwrap());
    assert_ne!(reason, KickOutReason::InsufficientUptime(3));
    assert_eq!(reason.clone(), reason);
    match reason {
        KickOutReason::OtherReason(text) => assert_eq!(text.into_inner(), b"late".to_vec()),
        KickOutReason::InsufficientUptime(_) => panic!("the reason was given as text"),
    }
}

#[test]
fn era_validators_start_empty() {
    let validators: EraValidators<u64> = EraValidators::default();
    assert!(validators.reserved.is_empty());
    assert!(validators.non_reserved.is_empty());
}

#[test]
fn session_authority_data_keeps_what_it_was_given() {
    let a = AuthorityId { key: [1; 32] };
    let b = AuthorityId { key: [2; 32] };
    let data = SessionAuthorityData::new(vec![a, b], Some(b));
    assert_eq!(*data.authorities(), vec![a, b]);
    assert_eq!(*data.emergency_finalizer(), Some(b));
    let none = SessionAuthorityData::new(Vec::new(), None);
    assert!(none.authorities().is_empty());
    assert_eq!(*none.emergency_finalizer(), None);
}

#[test]
fn the_constants_spell_what_they_should() {
    assert_eq!(&KEY_TYPE, b"alp0");
    assert_eq!(&STANCE_ENGINE_ID, b"FRNK");
    assert_eq!(TOKEN, 10u128.pow(TOKEN_DECIMALS));
    assert_eq!(ApiError::DecodeKey, ApiError::DecodeKey);
}
