use stance_bft::creator::Creator;
use stance_bft::dag::Dag;
use stance_bft::crypto::Keychain;
use stance_bft::unit::Header;

struct CreatorKeys;

impl Keychain for CreatorKeys {
    fn digest(&self, creator: usize, round: u32, _parents: &Vec<Option<u64>>, payload: &Vec<u8>) -> u64 {
        1_000_000 + 1000 * round as u64 + 10 * creator as u64 + payload.len() as u64
    }

    fn sign(&self, digest: u64) -> Vec<u8> {
        vec![(digest % 251) as u8]
    }

    fn verify(&self, digest: u64, signature: &Vec<u8>, _signer: usize) -> bool {
        *signature == vec![(digest % 251) as u8]
    }
}

fn candidate(creator: usize, round: u32, hash: u64) -> Header {
    Header { creator, round, parents: vec![None; 4], hash }
}

#[test]
fn there_is_no_creator_outside_the_committee() {
    assert!(Creator::new(4, 4, None).is_none());
    assert!(Creator::new(0, 0, None).is_none());
    assert!(Creator::new(4, 3, None).is_some());
}

#[test]
fn the_unit_of_round_zero_is_made_at_once() {
    let mut creator = Creator::new(4, 1, None).unwrap();
    assert_eq!(creator.round(), 0);
    assert!(creator.ready());
    let pre = creator.create().unwrap();
    assert_eq!(pre.creator, 1);
    assert_eq!(pre.round, 0);
    assert_eq!(pre.parents, vec![None; 4]);
    assert_eq!(creator.round(), 1);
}

#[test]
fn a_later_unit_waits_for_its_own_and_a_quorum_of_others() {
    let mut creator = Creator::new(4, 1, None).unwrap();
    assert!(creator.create().is_some());
    assert!(!creator.ready());
    creator.add_candidate(&candidate(0, 0, 10));
    creator.add_candidate(&candidate(2, 0, 12));
    creator.add_candidate(&candidate(3, 0, 13));
    // Three others, but its own unit of round zero is not there yet.
    assert!(!creator.ready());
    assert!(creator.create().is_none());
    assert_eq!(creator.round(), 1);
    creator.add_candidate(&candidate(1, 0, 11));
    assert!(creator.ready());
    let pre = creator.create().unwrap();
    assert_eq!(pre.round, 1);
    assert_eq!(pre.parents, vec![Some(10), Some(11), Some(12), Some(13)]);
    assert_eq!(creator.round(), 2);
}

#[test]
fn two_others_and_its_own_are_not_enough_among_four() {
    let mut creator = Creator::new(4, 0, None).unwrap();
    assert!(creator.create().is_some());
    creator.add_candidate(&candidate(0, 0, 10));
    creator.add_candidate(&candidate(1, 0, 11));
    creator.add_candidate(&candidate(2, 0, 12));
    assert!(!creator.ready());
    assert!(creator.create().is_none());
}

#[test]
fn among_seven_five_others_are_enough() {
    let mut creator = Creator::new(7, 6, None).unwrap();
    assert!(creator.create().is_some());
    for c in [6usize, 0, 1, 2, 3] {
        creator.add_candidate(&Header { creator: c, round: 0, parents: vec![None; 7], hash: 50 + c as u64 });
    }
    assert!(!creator.ready());
    creator.add_candidate(&Header { creator: 5, round: 0, parents: vec![None; 7], hash: 55 });
    let pre = creator.create().unwrap();
    assert_eq!(
        pre.parents,
        vec![Some(50), Some(51), Some(52), Some(53), None, Some(55), Some(56)]
    );
}

#[test]
fn of_a_fork_only_the_first_unit_becomes_a_parent() {
    // Creator 2 makes two units in round 3; participant 0 makes its unit of round 4.
    let mut creator = Creator::new(4, 0, Some(4)).unwrap();
    for round in 0..3 {
        for c in 0..4 {
            creator.add_candidate(&candidate(c, round, 100 * round as u64 + c as u64));
        }
    }
    creator.add_candidate(&candidate(0, 3, 300));
    creator.add_candidate(&candidate(1, 3, 301));
    creator.add_candidate(&candidate(2, 3, 302));
    creator.add_candidate(&candidate(2, 3, 999));
    creator.add_candidate(&candidate(3, 3, 303));
    let pre = creator.create().unwrap();
    assert_eq!(pre.round, 4);
    assert_eq!(pre.parents, vec![Some(300), Some(301), Some(302), Some(303)]);
    assert_eq!(pre.parents.iter().filter(|p| **p == Some(302) || **p == Some(999)).count(), 1);
}

#[test]
fn candidates_that_do_not_fit_are_passed_over() {
    let mut creator = Creator::new(4, 0, None).unwrap();
    assert!(creator.create().is_some());
    // A creator outside the committee, and a round far above what is known.
    creator.add_candidate(&candidate(4, 0, 1));
    creator.add_candidate(&candidate(1, 5, 2));
    for c in 0..4 {
        creator.add_candidate(&candidate(c, 0, 10 + c as u64));
    }
    let pre = creator.create().unwrap();
    assert_eq!(pre.parents, vec![Some(10), Some(11), Some(12), Some(13)]);
}

#[test]
fn a_starting_round_is_taken_up() {
    let mut creator = Creator::new(4, 2, Some(3)).unwrap();
    assert_eq!(creator.round(), 3);
    assert!(!creator.ready());
    for round in 0..3 {
        for c in 0..4 {
            creator.add_candidate(&candidate(c, round, 100 * round as u64 + c as u64));
        }
    }
    let pre = creator.create().unwrap();
    assert_eq!(pre.round, 3);
    assert_eq!(pre.parents, vec![Some(200), Some(201), Some(202), Some(203)]);
}

#[test]
fn the_last_round_is_never_reached() {
    let mut creator = Creator::new(1, 0, Some(u32::MAX)).unwrap();
    assert!(!creator.ready());
    assert!(creator.create().is_none());
    assert_eq!(creator.round(), u32::MAX);
}

#[test]
fn a_unit_is_hashed_and_signed_with_the_keys() {
    let mut creator = Creator::new(4, 3, None).unwrap();
    let unit = creator.create_unit(vec![7, 7], &CreatorKeys).unwrap();
    assert_eq!(unit.header.creator, 3);
    assert_eq!(unit.header.round, 0);
    assert_eq!(unit.header.parents, vec![None; 4]);
    assert_eq!(unit.header.hash, 1_000_032);
    assert_eq!(unit.payload, vec![7, 7]);
    assert!(CreatorKeys.verify(unit.header.hash, &unit.signature, 3));
    assert!(creator.create_unit(vec![], &CreatorKeys).is_none());
}

#[test]
fn a_creator_made_from_a_dag_knows_its_units() {
    let mut dag = Dag::new(4);
    for c in [0usize, 2, 3, 1] {
        assert!(dag.insert(candidate(c, 0, 10 + c as u64)).is_ok());
    }
    assert!(Creator::from_dag(&dag, 4, None).is_none());
    let mut creator = Creator::from_dag(&dag, 1, Some(1)).unwrap();
    assert_eq!(creator.round(), 1);
    let pre = creator.create().unwrap();
    assert_eq!(pre.round, 1);
    assert_eq!(pre.parents, vec![Some(10), Some(11), Some(12), Some(13)]);
    // From an empty DAG and a later round nothing can be made.
    let mut idle = Creator::from_dag(&Dag::new(4), 1, Some(5)).unwrap();
    assert_eq!(idle.round(), 5);
    assert!(idle.create().is_none());
}
