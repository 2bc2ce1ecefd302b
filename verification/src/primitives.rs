//! Chain-wide constants and the committee types shared by runtime and node.

use sp_runtime::{traits::ConstU32, BoundedVec};
use vstd::prelude::*;
use crate::staking::{spec_percent_parts, Portion};

pub use sp_staking::{EraIndex, SessionIndex};

verus! {

pub type Balance = u128;

pub type BlockNumber = u32;

pub type SessionCount = u32;

pub type BlockCount = u32;

pub const MILLISECS_PER_BLOCK: u64 = 1000;

pub const DEFAULT_SESSION_PERIOD: u32 = 900;

pub const DEFAULT_SESSIONS_PER_ERA: SessionIndex = 96;

pub const TOKEN_DECIMALS: u32 = 12;

/// One whole token in its smallest denomination: ten to the power `TOKEN_DECIMALS`.
pub const TOKEN: u128 = 1_000_000_000_000;

pub const ADDRESSES_ENCODING: u8 = 42;

pub const DEFAULT_UNIT_CREATION_DELAY: u64 = 300;

pub const DEFAULT_COMMITTEE_SIZE: u32 = 4;

/// The performance below which a validator counts as underperforming, in
/// percent.
pub const DEFAULT_KICK_OUT_MINIMAL_EXPECTED_PERFORMANCE_PERCENT: u32 = 0;

pub const DEFAULT_KICK_OUT_SESSION_COUNT_THRESHOLD: SessionCount = 3;

pub const DEFAULT_KICK_OUT_REASON_LENGTH: u32 = 300;

pub const DEFAULT_CLEAN_SESSION_COUNTER_DELAY: SessionCount = 960;

/// The identifier of the key type of the authorities.
pub const KEY_TYPE: [u8; 4] = [0x61, 0x6c, 0x70, 0x30];

/// The identifier under which justifications travel.
pub const STANCE_ENGINE_ID: [u8; 4] = [0x46, 0x52, 0x4e, 0x4b];

/// Desired size of a committee in a session.
#[derive(Debug, Clone, Copy, PartialEq, Eq, Structural)]
pub struct CommitteeSeats {
    /// Number of reserved validators in a session.
    pub reserved_seats: u32,
    /// Number of non-reserved validators in a session.
    pub non_reserved_seats: u32,
}

impl CommitteeSeats {
    /// The number of seats as a mathematical integer, capped at `u32::MAX`.
    pub open spec fn spec_size(self) -> int {
        if self.reserved_seats + self.non_reserved_seats > u32::MAX {
            u32::MAX as int
        } else {
            self.reserved_seats + self.non_reserved_seats
        }
    }

    /// Total number of seats; saturates instead of overflowing.
    pub fn size(&self) -> (total: u32)
        ensures
            total == self.spec_size(),
    {
        self.reserved_seats.saturating_add(self.non_reserved_seats)
    }
}

impl Default for CommitteeSeats {
    fn default() -> (seats: Self)
        ensures
            seats.reserved_seats == DEFAULT_COMMITTEE_SIZE,
            seats.non_reserved_seats == 0,
    {
        CommitteeSeats { reserved_seats: DEFAULT_COMMITTEE_SIZE, non_reserved_seats: 0 }
    }
}

/// Configurable parameters of the mechanism that removes validators from
/// the committee.
#[derive(Debug, Clone, PartialEq, Eq, Structural)]
pub struct CommitteeKickOutConfig {
    /// The ratio of blocks produced to blocks expected of a single validator
    /// in a session below which the validator underperforms.
    pub minimal_expected_performance: Portion,
    /// How many underperformed sessions remove a validator from the
    /// committee.
    pub underperformed_session_count_threshold: SessionCount,
    /// The count of underperformed sessions is cleared every so many
    /// sessions.
    pub clean_session_counter_delay: SessionCount,
}

impl Default for CommitteeKickOutConfig {
    fn default() -> (config: Self)
        ensures
            config.minimal_expected_performance.wf(),
            config.minimal_expected_performance.spec_parts() == spec_percent_parts(
                DEFAULT_KICK_OUT_MINIMAL_EXPECTED_PERFORMANCE_PERCENT,
            ),
            config.underperformed_session_count_threshold
                == DEFAULT_KICK_OUT_SESSION_COUNT_THRESHOLD,
            config.clean_session_counter_delay == DEFAULT_CLEAN_SESSION_COUNTER_DELAY,
    {
        CommitteeKickOutConfig {
            minimal_expected_performance: Portion::from_percent(
                DEFAULT_KICK_OUT_MINIMAL_EXPECTED_PERFORMANCE_PERCENT,
            ),
            underperformed_session_count_threshold: DEFAULT_KICK_OUT_SESSION_COUNT_THRESHOLD,
            clean_session_counter_delay: DEFAULT_CLEAN_SESSION_COUNTER_DELAY,
        }
    }
}

/// `bounded_collections::BoundedVec`, as `sp_runtime` hands it on: a vector
/// that its type bounds in length. Nothing is claimed of what it holds.
#[verifier::external_type_specification]
#[verifier::external_body]
#[verifier::reject_recursive_types(T)]
#[verifier::reject_recursive_types(S)]
pub struct ExBoundedVec<T, S>(BoundedVec<T, S>);

/// `bounded_collections::ConstU32`, the bound of a bounded vector as a type.
#[verifier::external_type_specification]
#[verifier::external_body]
pub struct ExConstU32<const N: u32>(ConstU32<N>);

/// `BoundedVec::clone`. Nothing is claimed of the copy.
pub assume_specification<T, S>[ <BoundedVec<T, S> as Clone>::clone ](
    v: &BoundedVec<T, S>,
) -> (copy: BoundedVec<T, S>)
    where
        T: Clone,
;

/// Why a validator was removed from the committee.
#[derive(Debug, Clone, PartialEq, Eq)]
pub enum KickOutReason {
    /// The validator's uptime was insufficient in the given number of
    /// sessions.
    InsufficientUptime(u32),
    /// Any other reason, in at most `DEFAULT_KICK_OUT_REASON_LENGTH` bytes.
    OtherReason(BoundedVec<u8, ConstU32<DEFAULT_KICK_OUT_REASON_LENGTH>>),
}

/// The validators of an era, of whom the committee of each session is made.
#[derive(PartialEq, Eq)]
pub struct EraValidators<AccountId> {
    /// Validators that are in the committee in every session.
    pub reserved: Vec<AccountId>,
    /// Validators that may be removed from the committee.
    pub non_reserved: Vec<AccountId>,
}

impl<AccountId> Default for EraValidators<AccountId> {
    fn default() -> (validators: Self)
        ensures
            validators.reserved@.len() == 0,
            validators.non_reserved@.len() == 0,
    {
        Self { reserved: Vec::new(), non_reserved: Vec::new() }
    }
}

/// What the runtime interface may fail with.
#[derive(Debug, PartialEq, Eq, Structural)]
pub enum ApiError {
    DecodeKey,
}

/// The public key by which an authority is known.
#[derive(Debug, Clone, Copy, PartialEq, Eq)]
pub struct AuthorityId {
    pub key: [u8; 32],
}

/// All the data needed to verify the justifications of a session's blocks.
#[derive(Debug, Clone, PartialEq, Eq)]
pub struct SessionAuthorityData {
    authorities: Vec<AuthorityId>,
    emergency_finalizer: Option<AuthorityId>,
}

impl SessionAuthorityData {
    /// The authorities of the session, in order.
    pub closed spec fn spec_authorities(&self) -> Seq<AuthorityId> {
        self.authorities@
    }

    /// The key that may finalize in an emergency, if there is one.
    pub closed spec fn spec_emergency_finalizer(&self) -> Option<AuthorityId> {
        self.emergency_finalizer
    }

    pub fn new(authorities: Vec<AuthorityId>, emergency_finalizer: Option<AuthorityId>) -> (data:
        Self)
        ensures
            data.spec_authorities() == authorities@,
            data.spec_emergency_finalizer() == emergency_finalizer,
    {
        SessionAuthorityData { authorities, emergency_finalizer }
    }

    pub fn authorities(&self) -> (authorities: &Vec<AuthorityId>)
        ensures
            authorities@ == self.spec_authorities(),
    {
        &self.authorities
    }

    pub fn emergency_finalizer(&self) -> (finalizer: &Option<AuthorityId>)
        ensures
            *finalizer == self.spec_emergency_finalizer(),
    {
        &self.emergency_finalizer
    }
}

} // verus!
