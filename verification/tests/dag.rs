use stance_bft::committee::{fault_tolerance, quorum};
use stance_bft::dag::{Dag, Fit, InsertError};
use stance_bft::reach::ancestry;
use stance_bft::unit::Header;

fn dag_unit(creator: usize, round: u32, parents: Vec<Option<u64>>) -> Header {
    Header { creator, round, parents, hash: 1000 * round as u64 + creator as u64 + 1 }
}

fn dag_full_round(dag: &mut Dag, round: u32) {
    for creator in 0..4 {
        let parents = if round == 0 {
            vec![None; 4]
        } else {
            (0..4u64).map(|c| Some(1000 * (round as u64 - 1) + c + 1)).collect()
        };
        assert_eq!(dag.insert(dag_unit(creator, round, parents)), Ok(()));
    }
}

#[test]
fn quorum_is_all_but_the_tolerated_faults() {
    assert_eq!(fault_tolerance(0), 0);
    assert_eq!(fault_tolerance(1), 0);
    assert_eq!(fault_tolerance(3), 0);
    assert_eq!(fault_tolerance(4), 1);
    assert_eq!(fault_tolerance(7), 2);
    assert_eq!(fault_tolerance(9), 2);
    assert_eq!(quorum(1), 1);
    assert_eq!(quorum(4), 3);
    assert_eq!(quorum(5), 4);
    assert_eq!(quorum(6), 5);
    assert_eq!(quorum(7), 5);
    assert_eq!(quorum(10), 7);
}

#[test]
fn an_empty_dag_holds_nothing() {
    let dag = Dag::new(4);
    assert_eq!(dag.n_members(), 4);
    assert_eq!(dag.rounds(), 0);
    assert!(dag.get(0, 0).is_none());
    assert!(!dag.contains(1));
    assert_eq!(dag.find(1), None);
}

#[test]
fn units_of_round_zero_are_added() {
    let mut dag = Dag::new(4);
    assert_eq!(dag.insert(dag_unit(2, 0, vec![None; 4])), Ok(()));
    assert_eq!(dag.rounds(), 1);
    assert!(dag.contains(3));
    assert_eq!(dag.find(3), Some((0, 2)));
    assert_eq!(dag.get(0, 2).map(|h| h.hash), Some(3));
    assert!(dag.get(0, 1).is_none());
}

#[test]
fn a_known_digest_is_a_duplicate() {
    let mut dag = Dag::new(4);
    assert_eq!(dag.insert(dag_unit(2, 0, vec![None; 4])), Ok(()));
    assert_eq!(dag.insert(dag_unit(2, 0, vec![None; 4])), Err(InsertError::Duplicate));
    // The digest decides, whatever else the unit says.
    let mut other = dag_unit(1, 0, vec![None; 4]);
    other.hash = 3;
    assert_eq!(dag.insert(other), Err(InsertError::Duplicate));
    assert_eq!(dag.rounds(), 1);
    assert!(dag.get(0, 1).is_none());
}

#[test]
fn a_second_unit_of_a_creator_in_a_round_is_refused() {
    let mut dag = Dag::new(4);
    assert_eq!(dag.insert(dag_unit(2, 0, vec![None; 4])), Ok(()));
    let mut fork = dag_unit(2, 0, vec![None; 4]);
    fork.hash = 77;
    assert!(!dag.admits(&fork));
    assert_eq!(dag.insert(fork), Err(InsertError::InvalidUnit));
    assert_eq!(dag.get(0, 2).map(|h| h.hash), Some(3));
    assert!(!dag.contains(77));
}

#[test]
fn malformed_units_are_refused() {
    let mut dag = Dag::new(4);
    // A creator outside the committee.
    assert_eq!(dag.insert(dag_unit(4, 0, vec![None; 4])), Err(InsertError::InvalidUnit));
    // Too few and too many parent slots.
    assert_eq!(dag.insert(dag_unit(0, 0, vec![None; 3])), Err(InsertError::InvalidUnit));
    assert_eq!(dag.insert(dag_unit(0, 0, vec![None; 5])), Err(InsertError::InvalidUnit));
    // A unit of round zero with a parent.
    assert_eq!(
        dag.insert(dag_unit(0, 0, vec![Some(9), None, None, None])),
        Err(InsertError::InvalidUnit)
    );
    // A unit of a later round with too few parents.
    assert_eq!(
        dag.insert(dag_unit(0, 1, vec![Some(1), Some(2), None, None])),
        Err(InsertError::InvalidUnit)
    );
    assert_eq!(dag.rounds(), 0);
}

#[test]
fn parents_must_be_a_quorum_of_the_round_before() {
    let mut dag = Dag::new(4);
    dag_full_round(&mut dag, 0);
    // Two parents are no quorum of four.
    assert_eq!(
        dag.insert(dag_unit(0, 1, vec![Some(1), Some(2), None, None])),
        Err(InsertError::InvalidUnit)
    );
    // A parent's digest must be the one in the parent's slot.
    assert_eq!(
        dag.insert(dag_unit(0, 1, vec![Some(1), Some(2), Some(4), None])),
        Err(InsertError::InvalidUnit)
    );
    // Three are a quorum.
    assert_eq!(dag.insert(dag_unit(0, 1, vec![Some(1), Some(2), Some(3), None])), Ok(()));
    // A unit of round two may not name units of round zero.
    assert_eq!(
        dag.insert(dag_unit(1, 2, vec![Some(1), Some(2), Some(3), None])),
        Err(InsertError::InvalidUnit)
    );
    assert_eq!(dag.rounds(), 2);
}

#[test]
fn a_unit_whose_parent_is_missing_waits_for_it() {
    let mut dag = Dag::new(4);
    // Above a round that is not there.
    let early = dag_unit(0, 1, vec![Some(1), Some(2), Some(3), None]);
    assert_eq!(dag.fit(&early), Fit::Waits);
    assert_eq!(dag.insert(early), Err(InsertError::MissingParents));
    assert_eq!(dag.insert(dag_unit(0, 0, vec![None; 4])), Ok(()));
    assert_eq!(dag.insert(dag_unit(1, 0, vec![None; 4])), Ok(()));
    // With one parent still missing.
    assert_eq!(
        dag.insert(dag_unit(0, 1, vec![Some(1), Some(2), Some(3), None])),
        Err(InsertError::MissingParents)
    );
    assert!(!dag.admits(&dag_unit(0, 1, vec![Some(1), Some(2), Some(3), None])));
    assert_eq!(dag.rounds(), 1);
    assert_eq!(dag.insert(dag_unit(2, 0, vec![None; 4])), Ok(()));
    let late = dag_unit(0, 1, vec![Some(1), Some(2), Some(3), None]);
    assert_eq!(dag.fit(&late), Fit::Fits);
    assert_eq!(dag.insert(late), Ok(()));
}

#[test]
fn a_unit_that_builds_on_another_unit_than_the_dag_holds_never_fits() {
    let mut dag = Dag::new(4);
    for c in 0..3 {
        assert_eq!(dag.insert(dag_unit(c, 0, vec![None; 4])), Ok(()));
    }
    // Slot 2 holds digest 3; the fourth parent is still missing.
    let unit = dag_unit(0, 1, vec![Some(1), None, Some(99), Some(4)]);
    assert_eq!(dag.fit(&unit), Fit::Never);
    assert_eq!(dag.insert(unit), Err(InsertError::InvalidUnit));
    // A taken slot, and too few parents, are for good as well.
    assert_eq!(dag.fit(&Header { creator: 1, round: 0, parents: vec![None; 4], hash: 50 }), Fit::Never);
    assert_eq!(dag.fit(&dag_unit(0, 1, vec![Some(1), None, None, Some(4)])), Fit::Never);
    assert_eq!(dag.fit(&dag_unit(3, 0, vec![None; 4])), Fit::Fits);
}

#[test]
fn ancestry_follows_the_parent_links() {
    let mut dag = Dag::new(4);
    dag_full_round(&mut dag, 0);
    assert_eq!(dag.insert(dag_unit(0, 1, vec![Some(1), Some(2), Some(3), None])), Ok(()));
    assert_eq!(dag.insert(dag_unit(1, 1, vec![None, Some(2), Some(3), Some(4)])), Ok(()));
    assert_eq!(dag.insert(dag_unit(2, 1, vec![Some(1), Some(2), Some(3), None])), Ok(()));
    assert_eq!(
        dag.insert(dag_unit(3, 2, vec![Some(1001), None, Some(1003), None])),
        Err(InsertError::InvalidUnit)
    );
    assert_eq!(dag.insert(dag_unit(3, 2, vec![Some(1001), Some(1002), Some(1003), None])), Ok(()));
    assert_eq!(
        ancestry(&dag, 1, 0),
        vec![vec![true, true, true, false], vec![true, false, false, false]]
    );
    assert_eq!(
        ancestry(&dag, 2, 3),
        vec![
            vec![true, true, true, true],
            vec![true, true, true, false],
            vec![false, false, false, true]
        ]
    );
    assert_eq!(ancestry(&dag, 0, 3), vec![vec![false, false, false, true]]);
}

#[test]
fn a_committee_of_none_admits_nothing() {
    let mut dag = Dag::new(0);
    assert_eq!(dag.insert(dag_unit(0, 0, vec![])), Err(InsertError::InvalidUnit));
    assert_eq!(dag.rounds(), 0);
}

#[test]
fn the_head_of_a_creator_is_its_latest_unit() {
    let mut dag = Dag::new(4);
    assert_eq!(dag.head(1), None);
    dag_full_round(&mut dag, 0);
    assert_eq!(dag.head(1), Some(0));
    assert_eq!(dag.insert(dag_unit(1, 1, vec![Some(1), Some(2), Some(3), None])), Ok(()));
    assert_eq!(dag.head(1), Some(1));
    assert_eq!(dag.head(0), Some(0));
    assert_eq!(dag.head(4), None);
}
