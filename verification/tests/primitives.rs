use stance_bft::primitives::{CommitteeSeats, DEFAULT_COMMITTEE_SIZE};
use stance_bft::staking::{era_payout, Portion, MILLISECONDS_PER_YEAR, YEARLY_INFLATION};

#[test]
fn committee_size_adds_both_kinds_of_seats() {
    let seats = CommitteeSeats { reserved_seats: 3, non_reserved_seats: 4 };
    assert_eq!(seats.size(), 7);
}

#[test]
fn committee_size_saturates() {
    let seats = CommitteeSeats { reserved_seats: u32::MAX, non_reserved_seats: 1 };
    assert_eq!(seats.size(), u32::MAX);
}

#[test]
fn default_committee_has_only_reserved_seats() {
    let seats = CommitteeSeats::default();
    assert_eq!(seats.reserved_seats, DEFAULT_COMMITTEE_SIZE);
    assert_eq!(seats.non_reserved_seats, 0);
    assert_eq!(seats.size(), 4);
}

#[test]
fn portion_of_a_rational() {
    assert_eq!(Portion::from_rational(1, 4).parts(), 250_000_000);
    assert_eq!(Portion::from_rational(1, 3).parts(), 333_333_333);
    assert_eq!(Portion::from_rational(5, 4).parts(), 1_000_000_000);
    assert_eq!(Portion::from_rational(1, 0).parts(), 1_000_000_000);
}

#[test]
fn portion_of_a_percentage() {
    assert_eq!(Portion::from_percent(90).parts(), 900_000_000);
    assert_eq!(Portion::from_percent(0).parts(), 0);
    assert_eq!(Portion::from_percent(250).parts(), 1_000_000_000);
}

#[test]
fn portion_rounds_to_nearest_and_down_on_a_tie() {
    let half = Portion::from_percent(50);
    assert_eq!(half.of(3), 1);
    assert_eq!(half.of(5), 2);
    let third = Portion::from_rational(1, 3);
    assert_eq!(third.of(3_000_000_000), 999_999_999);
    let two_thirds = Portion::from_rational(2, 3);
    assert_eq!(two_thirds.of(3), 2);
}

#[test]
fn a_whole_year_pays_the_yearly_inflation() {
    let (validators, rest) = era_payout(MILLISECONDS_PER_YEAR);
    assert_eq!(validators, YEARLY_INFLATION / 10 * 9);
    assert_eq!(rest, YEARLY_INFLATION / 10);
    assert_eq!(validators + rest, YEARLY_INFLATION);
}

#[test]
fn a_longer_era_pays_no_more_than_a_year() {
    assert_eq!(era_payout(MILLISECONDS_PER_YEAR * 2), era_payout(MILLISECONDS_PER_YEAR));
}

#[test]
fn an_era_of_no_length_pays_nothing() {
    assert_eq!(era_payout(0), (0, 0));
}

#[test]
fn a_day_pays_its_share() {
    // One day of a Julian year: floor(10^9 / 365.25) parts.
    let day: u64 = 24 * 3600 * 1000;
    let parts = Portion::from_rational(day, MILLISECONDS_PER_YEAR).parts();
    assert_eq!(parts, 2_737_850);
    let (validators, rest) = era_payout(day);
    assert_eq!(validators + rest, 82_135_500_000_000_000);
    assert_eq!(validators, 73_921_950_000_000_000);
    assert_eq!(rest, 8_213_550_000_000_000);
}
