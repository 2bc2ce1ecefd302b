use stance_bft::extender::Extender;
use stance_bft::unit::Header;

fn ext_hash(creator: usize, round: u32) -> u64 {
    1000 * round as u64 + creator as u64 + 1
}

fn ext_unit(creator: usize, round: u32, parents: &[usize]) -> Header {
    let mut slots = vec![None; 4];
    for p in parents {
        slots[*p] = Some(ext_hash(*p, round - 1));
    }
    Header { creator, round, parents: slots, hash: ext_hash(creator, round) }
}

fn ext_first(creator: usize) -> Header {
    Header { creator, round: 0, parents: vec![None; 4], hash: ext_hash(creator, 0) }
}

fn ext_add(extender: &mut Extender, unit: Header) -> Vec<u64> {
    assert!(extender.admits(&unit));
    extender.add_unit(unit)
}

fn ext_full_round(extender: &mut Extender, round: u32) {
    for c in 0..4 {
        let unit = if round == 0 { ext_first(c) } else { ext_unit(c, round, &[0, 1, 2, 3]) };
        assert!(ext_add(extender, unit).is_empty());
    }
}

#[test]
fn nothing_is_ordered_before_a_quorum_has_voted() {
    let mut extender = Extender::new(4);
    assert_eq!(extender.n_members(), 4);
    ext_full_round(&mut extender, 0);
    assert!(ext_add(&mut extender, ext_unit(0, 1, &[0, 1, 2, 3])).is_empty());
    assert!(ext_add(&mut extender, ext_unit(1, 1, &[0, 1, 2, 3])).is_empty());
    assert!(extender.ordered().is_empty());
}

#[test]
fn the_third_vote_decides_the_first_wave() {
    let mut extender = Extender::new(4);
    ext_full_round(&mut extender, 0);
    assert!(ext_add(&mut extender, ext_unit(0, 1, &[0, 1, 2, 3])).is_empty());
    assert!(ext_add(&mut extender, ext_unit(1, 1, &[0, 1, 2, 3])).is_empty());
    assert_eq!(ext_add(&mut extender, ext_unit(2, 1, &[0, 1, 2, 3])), vec![1]);
    assert_eq!(*extender.ordered(), vec![1]);
    // A fourth vote changes nothing.
    assert!(ext_add(&mut extender, ext_unit(3, 1, &[0, 1, 2, 3])).is_empty());
    assert_eq!(*extender.ordered(), vec![1]);
}

#[test]
fn a_unit_that_does_not_name_the_anchor_is_no_vote() {
    let mut extender = Extender::new(4);
    ext_full_round(&mut extender, 0);
    assert!(ext_add(&mut extender, ext_unit(0, 1, &[1, 2, 3])).is_empty());
    assert!(ext_add(&mut extender, ext_unit(1, 1, &[0, 1, 2])).is_empty());
    assert!(ext_add(&mut extender, ext_unit(2, 1, &[0, 2, 3])).is_empty());
    assert!(extender.ordered().is_empty());
    assert_eq!(ext_add(&mut extender, ext_unit(3, 1, &[0, 1, 3])), vec![1]);
}

#[test]
fn each_wave_orders_what_its_anchor_reaches_by_round_and_creator() {
    let mut extender = Extender::new(4);
    ext_full_round(&mut extender, 0);
    for c in 0..4 {
        ext_add(&mut extender, ext_unit(c, 1, &[0, 1, 2, 3]));
    }
    ext_full_round(&mut extender, 2);
    assert!(ext_add(&mut extender, ext_unit(3, 3, &[0, 1, 2, 3])).is_empty());
    assert!(ext_add(&mut extender, ext_unit(1, 3, &[0, 1, 2, 3])).is_empty());
    let batch = ext_add(&mut extender, ext_unit(0, 3, &[0, 1, 2, 3]));
    assert_eq!(batch, vec![2, 3, 4, 1001, 1002, 1003, 1004, 2002]);
    assert_eq!(*extender.ordered(), vec![1, 2, 3, 4, 1001, 1002, 1003, 1004, 2002]);
    assert!(ext_add(&mut extender, ext_unit(2, 3, &[0, 1, 2, 3])).is_empty());
    ext_full_round(&mut extender, 4);
    assert!(ext_add(&mut extender, ext_unit(0, 5, &[0, 1, 2])).is_empty());
    assert!(ext_add(&mut extender, ext_unit(1, 5, &[0, 1, 3])).is_empty());
    assert!(ext_add(&mut extender, ext_unit(2, 5, &[1, 2, 3])).is_empty());
    let batch = ext_add(&mut extender, ext_unit(3, 5, &[0, 2, 3]));
    assert_eq!(batch, vec![2001, 2003, 2004, 3001, 3002, 3003, 3004, 4003]);
}

#[test]
fn an_undecided_anchor_is_taken_when_a_later_anchor_reaches_it() {
    let mut extender = Extender::new(4);
    ext_full_round(&mut extender, 0);
    // Only two votes for the anchor of the first wave.
    ext_add(&mut extender, ext_unit(0, 1, &[0, 1, 2]));
    ext_add(&mut extender, ext_unit(1, 1, &[0, 1, 3]));
    ext_add(&mut extender, ext_unit(2, 1, &[1, 2, 3]));
    ext_add(&mut extender, ext_unit(3, 1, &[1, 2, 3]));
    assert!(extender.ordered().is_empty());
    for c in 0..4 {
        assert!(ext_add(&mut extender, ext_unit(c, 2, &[0, 1, 2])).is_empty());
    }
    assert!(ext_add(&mut extender, ext_unit(0, 3, &[0, 1, 2])).is_empty());
    assert!(ext_add(&mut extender, ext_unit(2, 3, &[1, 2, 3])).is_empty());
    let batch = ext_add(&mut extender, ext_unit(3, 3, &[0, 1, 3]));
    // First the anchor of wave zero alone, then what the anchor of wave one adds.
    assert_eq!(batch, vec![1, 2, 3, 4, 1001, 1002, 1003, 2002]);
}

#[test]
fn an_anchor_that_nothing_reaches_is_passed_over() {
    let mut extender = Extender::new(4);
    ext_full_round(&mut extender, 0);
    for c in 0..4 {
        ext_add(&mut extender, ext_unit(c, 1, &[1, 2, 3]));
    }
    for c in 0..4 {
        ext_add(&mut extender, ext_unit(c, 2, &[0, 1, 2, 3]));
    }
    ext_add(&mut extender, ext_unit(0, 3, &[0, 1, 2, 3]));
    ext_add(&mut extender, ext_unit(1, 3, &[0, 1, 2, 3]));
    let batch = ext_add(&mut extender, ext_unit(2, 3, &[0, 1, 2, 3]));
    assert_eq!(batch, vec![2, 3, 4, 1001, 1002, 1003, 1004, 2002]);
    assert!(!extender.ordered().contains(&1));
}

#[test]
fn a_missing_anchor_decides_nothing() {
    let mut extender = Extender::new(4);
    for c in 1..4 {
        ext_add(&mut extender, ext_first(c));
    }
    for c in 1..4 {
        assert!(ext_add(&mut extender, ext_unit(c, 1, &[1, 2, 3])).is_empty());
    }
    assert!(extender.ordered().is_empty());
}

#[test]
fn a_fork_is_not_admitted_and_counts_no_second_time() {
    // Creator 2 makes two units in round 3. The second is not admitted, so
    // the votes of round 3 count creator 2 once.
    let mut extender = Extender::new(4);
    for round in 0..3 {
        for c in 0..4 {
            let unit = if round == 0 { ext_first(c) } else { ext_unit(c, round, &[0, 1, 2, 3]) };
            ext_add(&mut extender, unit);
        }
    }
    let before = extender.ordered().clone();
    assert!(ext_add(&mut extender, ext_unit(2, 3, &[0, 1, 2, 3])).is_empty());
    let mut fork = ext_unit(2, 3, &[1, 2, 3]);
    fork.hash = 9999;
    assert!(!extender.admits(&fork));
    assert!(ext_add(&mut extender, ext_unit(0, 3, &[0, 1, 2, 3])).is_empty());
    // Two voters so far, though creator 2 has made two units.
    assert_eq!(*extender.ordered(), before);
    assert!(!ext_add(&mut extender, ext_unit(1, 3, &[0, 1, 2, 3])).is_empty());
}

#[test]
fn the_order_does_not_depend_on_the_order_of_arrival() {
    let mut one = Extender::new(4);
    let mut other = Extender::new(4);
    for c in 0..4 {
        ext_add(&mut one, ext_first(c));
        ext_add(&mut other, ext_first(3 - c));
    }
    for round in 1..6 {
        for c in 0..4 {
            ext_add(&mut one, ext_unit(c, round, &[0, 1, 2, 3]));
            ext_add(&mut other, ext_unit((c + round as usize) % 4, round, &[0, 1, 2, 3]));
        }
    }
    assert_eq!(one.ordered(), other.ordered());
    assert_eq!(one.ordered().len(), 17);
}

#[test]
fn the_order_only_grows_and_names_nothing_twice() {
    let mut extender = Extender::new(4);
    let mut seen: Vec<u64> = Vec::new();
    for round in 0..8 {
        for c in 0..4 {
            let unit = if round == 0 { ext_first(c) } else { ext_unit(c, round, &[0, 1, 2, 3]) };
            let batch = ext_add(&mut extender, unit);
            let ordered = extender.ordered().clone();
            assert_eq!(ordered[..seen.len()], seen[..]);
            assert_eq!(ordered[seen.len()..], batch[..]);
            seen = ordered;
        }
    }
    let mut sorted = seen.clone();
    sorted.sort();
    sorted.dedup();
    assert_eq!(sorted.len(), seen.len());
    assert_eq!(seen.len(), 25);
}

#[test]
fn agreement_between_a_participant_ahead_and_one_behind() {
    let mut ahead = Extender::new(4);
    let mut behind = Extender::new(4);
    for round in 0..6 {
        for c in 0..4 {
            let unit = if round == 0 { ext_first(c) } else { ext_unit(c, round, &[0, 1, 2, 3]) };
            ext_add(&mut ahead, unit);
        }
    }
    for round in 0..4 {
        for c in 0..3 {
            let unit = if round == 0 { ext_first(c) } else { ext_unit(c, round, &[0, 1, 2, 3]) };
            if behind.admits(&unit) {
                behind.add_unit(unit);
            }
        }
    }
    // The one behind has only the units of round zero of three creators:
    // nothing above them fits without the fourth.
    assert!(behind.ordered().is_empty());
    ext_add(&mut behind, ext_first(3));
    for round in 1..4 {
        for c in 0..4 {
            ext_add(&mut behind, ext_unit(c, round, &[0, 1, 2, 3]));
        }
    }
    let short = behind.ordered().clone();
    assert_eq!(short.len(), 9);
    assert_eq!(ahead.ordered()[..short.len()], short[..]);
}

#[test]
fn a_fork_shown_to_two_participants_does_not_split_their_orders() {
    // Creator 3 shows one unit of round one to one participant and another
    // to the other. The honest creators never build on either.
    let mut one = Extender::new(4);
    let mut other = Extender::new(4);
    for c in 0..4 {
        ext_add(&mut one, ext_first(c));
        ext_add(&mut other, ext_first(c));
    }
    let mut shown_to_one = ext_unit(3, 1, &[0, 1, 3]);
    shown_to_one.hash = 7001;
    let mut shown_to_other = ext_unit(3, 1, &[1, 2, 3]);
    shown_to_other.hash = 7002;
    ext_add(&mut one, shown_to_one);
    ext_add(&mut other, shown_to_other);
    for round in 1..6 {
        for c in 0..3 {
            let parents: &[usize] = if round == 1 { &[0, 1, 2, 3] } else { &[0, 1, 2] };
            ext_add(&mut one, ext_unit(c, round, parents));
            if round < 4 {
                ext_add(&mut other, ext_unit(c, round, parents));
            }
        }
    }
    let long = one.ordered().clone();
    let short = other.ordered().clone();
    assert!(!short.is_empty());
    assert!(short.len() < long.len());
    assert_eq!(long[..short.len()], short[..]);
    assert!(!long.contains(&7001));
    assert!(!short.contains(&7002));
}

#[test]
fn a_unit_that_does_not_fit_is_handed_back_unnoted() {
    let mut extender = Extender::new(4);
    assert!(extender.try_add_unit(ext_unit(0, 1, &[0, 1, 2])).is_none());
    assert_eq!(extender.try_add_unit(ext_first(0)), Some(Vec::new()));
    assert!(extender.try_add_unit(ext_first(0)).is_none());
    for c in 1..4 {
        assert_eq!(extender.try_add_unit(ext_first(c)), Some(Vec::new()));
    }
    assert_eq!(extender.try_add_unit(ext_unit(1, 1, &[0, 1, 2])), Some(Vec::new()));
    assert_eq!(extender.try_add_unit(ext_unit(2, 1, &[0, 1, 2])), Some(Vec::new()));
    assert_eq!(extender.try_add_unit(ext_unit(3, 1, &[0, 1, 2])), Some(vec![1]));
}
