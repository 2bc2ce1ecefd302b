use stance_bft::consensus::{Config, Consensus, DataProvider, Reaction};
use stance_bft::creator::Creator;
use stance_bft::crypto::Keychain;
use stance_bft::extender::Extender;
use stance_bft::terminal::Terminal;
use stance_bft::terminator::{Action, Phase, Terminator};
use stance_bft::unit::{Header, Unit};

struct EngineKeys;

impl Keychain for EngineKeys {
    fn digest(&self, creator: usize, round: u32, parents: &Vec<Option<u64>>, payload: &Vec<u8>) -> u64 {
        let mut h: u64 = 0xcbf29ce484222325;
        let mut feed = |x: u64| {
            h ^= x;
            h = h.wrapping_mul(0x100000001b3);
        };
        feed(creator as u64);
        feed(round as u64);
        for p in parents {
            feed(p.map_or(0, |d| d | 1));
        }
        for b in payload {
            feed(*b as u64);
        }
        h
    }

    fn sign(&self, digest: u64) -> Vec<u8> {
        digest.to_be_bytes().to_vec()
    }

    fn verify(&self, digest: u64, signature: &Vec<u8>, _signer: usize) -> bool {
        *signature == digest.to_be_bytes().to_vec()
    }
}

struct EngineData(u8);

impl DataProvider for EngineData {
    fn get_data(&mut self) -> Vec<u8> {
        self.0 = self.0.wrapping_add(1);
        vec![self.0]
    }
}

fn engine_copy(unit: &Unit) -> Unit {
    Unit {
        header: Header {
            creator: unit.header.creator,
            round: unit.header.round,
            parents: unit.header.parents.clone(),
            hash: unit.header.hash,
        },
        payload: unit.payload.clone(),
        signature: unit.signature.clone(),
    }
}

struct Participant {
    terminal: Terminal,
    creator: Creator,
    extender: Extender,
    for_creator: usize,
    for_extender: usize,
}

fn participant(index: usize) -> Participant {
    let mut terminal = Terminal::new(4);
    let for_creator = terminal.register_hook();
    let for_extender = terminal.register_hook();
    Participant {
        terminal,
        creator: Creator::new(4, index, None).unwrap(),
        extender: Extender::new(4),
        for_creator,
        for_extender,
    }
}

fn deliver(p: &mut Participant, unit: Unit) {
    if p.terminal.insert(unit, &EngineKeys).is_err() {
        return;
    }
    for header in p.terminal.take_notifications(p.for_creator) {
        p.creator.add_candidate(&header);
    }
    for header in p.terminal.take_notifications(p.for_extender) {
        assert!(p.extender.admits(&header));
        p.extender.add_unit(header);
    }
}

#[test]
fn four_honest_participants_order_the_same_units() {
    let mut all: Vec<Participant> = (0..4).map(participant).collect();
    let mut made: Vec<Unit> = Vec::new();
    loop {
        let mut fresh: Vec<Unit> = Vec::new();
        for p in all.iter_mut() {
            if p.creator.round() <= 5 {
                if let Some(unit) = p.creator.create_unit(vec![p.creator.round() as u8], &EngineKeys) {
                    fresh.push(unit);
                }
            }
        }
        if fresh.is_empty() {
            break;
        }
        for unit in fresh {
            for p in all.iter_mut() {
                deliver(p, engine_copy(&unit));
            }
            made.push(unit);
        }
    }
    assert_eq!(made.len(), 24);
    let ordered = all[0].extender.ordered().clone();
    for p in all.iter() {
        assert_eq!(p.terminal.len(), 24);
        assert_eq!(*p.extender.ordered(), ordered);
    }
    // All units up to round three, and the anchor of round four.
    assert_eq!(ordered.len(), 17);
    for unit in made.iter().filter(|u| u.header.round <= 3) {
        assert!(ordered.contains(&unit.header.hash));
    }
    let anchor = made.iter().find(|u| u.header.round == 4 && u.header.creator == 2).unwrap();
    assert_eq!(ordered[16], anchor.header.hash);
    for hash in ordered.iter() {
        assert!(all[3].terminal.contains(*hash));
    }
}

#[test]
fn engines_that_hear_each_other_advance_and_agree() {
    let mut engines: Vec<Consensus> =
        (0..4).map(|i| Consensus::new(Config { n_members: 4, node_ix: i }).unwrap()).collect();
    let mut data = EngineData(0);
    let mut queue: Vec<Unit> = Vec::new();
    for engine in engines.iter_mut() {
        let Reaction { outgoing, batch } = engine.start(None, &EngineKeys, &mut data);
        assert!(batch.is_empty());
        assert_eq!(outgoing.len(), 1);
        assert_eq!(outgoing[0].header.round, 0);
        queue.extend(outgoing);
    }
    let mut streams: Vec<Vec<u64>> = vec![Vec::new(); 4];
    // Whatever was made is offered to every engine until none takes any more:
    // a unit that comes before its parents is refused and offered again.
    let mut pool: Vec<Unit> = queue;
    loop {
        let mut fresh: Vec<Unit> = Vec::new();
        let mut taken = false;
        for (i, engine) in engines.iter_mut().enumerate() {
            for unit in pool.iter() {
                if engine.contains(unit.header.hash) {
                    continue;
                }
                let size = engine.dag_size();
                let reaction = engine.handle_unit(engine_copy(unit), &EngineKeys, &mut data);
                taken = taken || engine.dag_size() > size;
                streams[i].extend(reaction.batch);
                fresh.extend(reaction.outgoing.into_iter().filter(|u| u.header.round <= 5));
            }
        }
        pool.extend(fresh);
        if !taken {
            break;
        }
    }
    for (i, engine) in engines.iter().enumerate() {
        assert_eq!(*engine.ordered(), streams[i]);
        assert!(engine.dag_size() >= 24);
        assert_eq!(engine.ordered()[..17], engines[0].ordered()[..17]);
        for hash in engine.ordered().iter() {
            assert!(engine.contains(*hash));
        }
    }
}

#[test]
fn an_engine_needs_an_index_in_the_committee() {
    assert!(Consensus::new(Config { n_members: 4, node_ix: 4 }).is_none());
    assert!(Consensus::new(Config { n_members: 0, node_ix: 0 }).is_none());
}

#[test]
fn an_engine_makes_nothing_before_it_is_started() {
    let mut engine = Consensus::new(Config { n_members: 4, node_ix: 0 }).unwrap();
    let mut other = Consensus::new(Config { n_members: 4, node_ix: 1 }).unwrap();
    let mut data = EngineData(0);
    let unit = other.start(None, &EngineKeys, &mut data).outgoing.pop().unwrap();
    let reaction = engine.handle_unit(unit, &EngineKeys, &mut data);
    assert!(reaction.outgoing.is_empty());
    assert_eq!(engine.dag_size(), 1);
    let reaction = engine.start(None, &EngineKeys, &mut data);
    assert_eq!(reaction.outgoing.len(), 1);
    assert_eq!(engine.dag_size(), 2);
    // Started once, it is not started again.
    assert!(engine.start(Some(3), &EngineKeys, &mut data).outgoing.is_empty());
}

#[test]
fn a_stopped_engine_adds_nothing_and_gives_nothing_out() {
    let mut engine = Consensus::new(Config { n_members: 4, node_ix: 0 }).unwrap();
    let mut other = Consensus::new(Config { n_members: 4, node_ix: 1 }).unwrap();
    let mut data = EngineData(0);
    engine.start(None, &EngineKeys, &mut data);
    let unit = other.start(None, &EngineKeys, &mut data).outgoing.pop().unwrap();
    assert!(!engine.is_stopped());
    assert_eq!(engine.request_exit(), Phase::Stopped);
    assert!(engine.is_stopped());
    let size = engine.dag_size();
    let reaction = engine.handle_unit(unit, &EngineKeys, &mut data);
    assert!(reaction.outgoing.is_empty());
    assert!(reaction.batch.is_empty());
    assert_eq!(engine.dag_size(), size);
    assert!(engine.ordered().is_empty());
    let reaction = engine.start(None, &EngineKeys, &mut data);
    assert!(reaction.outgoing.is_empty());
    assert_eq!(engine.request_exit(), Phase::Stopped);
}

#[test]
fn an_invalid_unit_changes_nothing() {
    let mut engine = Consensus::new(Config { n_members: 4, node_ix: 0 }).unwrap();
    let mut data = EngineData(0);
    engine.start(None, &EngineKeys, &mut data);
    let bad = Unit {
        header: Header { creator: 1, round: 0, parents: vec![None; 4], hash: 5 },
        payload: vec![],
        signature: vec![],
    };
    let reaction = engine.handle_unit(bad, &EngineKeys, &mut data);
    assert!(reaction.outgoing.is_empty());
    assert!(reaction.batch.is_empty());
    assert_eq!(engine.dag_size(), 1);
}

#[test]
fn the_exit_cancels_all_tasks_and_waits_for_each() {
    let mut terminator = Terminator::new();
    let terminal = terminator.add_offspring_connection();
    let creator = terminator.add_offspring_connection();
    let extender = terminator.add_offspring_connection();
    assert_eq!((terminal, creator, extender), (0, 1, 2));
    assert_eq!(terminator.phase(), Phase::Running);
    assert!(!terminator.is_cancelled());
    assert_eq!(terminator.request_exit(), Action::Cancel);
    assert!(terminator.is_cancelled());
    assert_eq!(terminator.phase(), Phase::Stopping);
    assert_eq!(terminator.request_exit(), Action::Wait);
    assert_eq!(terminator.task_ended(creator), Action::Wait);
    assert_eq!(terminator.task_ended(creator), Action::Wait);
    assert_eq!(terminator.task_ended(terminal), Action::Wait);
    assert_eq!(terminator.phase(), Phase::Stopping);
    assert_eq!(terminator.task_ended(extender), Action::Finish);
    assert_eq!(terminator.phase(), Phase::Stopped);
    assert_eq!(terminator.request_exit(), Action::Finish);
}

#[test]
fn a_task_that_ends_early_stops_the_others() {
    let mut terminator = Terminator::new();
    let terminal = terminator.add_offspring_connection();
    let creator = terminator.add_offspring_connection();
    let extender = terminator.add_offspring_connection();
    assert_eq!(terminator.task_ended(extender), Action::Cancel);
    assert!(terminator.is_cancelled());
    assert_eq!(terminator.phase(), Phase::Stopping);
    assert_eq!(terminator.task_ended(7), Action::Wait);
    assert_eq!(terminator.task_ended(terminal), Action::Wait);
    assert_eq!(terminator.task_ended(creator), Action::Finish);
    assert_eq!(terminator.phase(), Phase::Stopped);
}

#[test]
fn a_terminator_without_tasks_stops_at_once() {
    let mut terminator = Terminator::new();
    assert_eq!(terminator.phase(), Phase::Running);
    assert_eq!(terminator.request_exit(), Action::Finish);
    assert_eq!(terminator.phase(), Phase::Stopped);
    // A task that joins now is to stop at once.
    let late = terminator.add_offspring_connection();
    assert!(terminator.is_cancelled());
    assert_eq!(terminator.phase(), Phase::Stopping);
    assert_eq!(terminator.task_ended(late), Action::Finish);
}

#[test]
fn an_engine_that_caught_up_makes_its_units_round_after_round() {
    // Three participants are three rounds ahead; the fourth hears of their
    // units only then and makes its own units of all the rounds at once.
    let mut late = Consensus::new(Config { n_members: 4, node_ix: 3 }).unwrap();
    let mut data = EngineData(0);
    let first = late.start(None, &EngineKeys, &mut data).outgoing.pop().unwrap();
    assert_eq!(first.header.round, 0);
    let mut ahead: Vec<Participant> = (0..3).map(participant).collect();
    let mut pool: Vec<Unit> = vec![engine_copy(&first)];
    for p in ahead.iter_mut() {
        deliver(p, engine_copy(&first));
    }
    let mut made = 0;
    for round in 0..3u32 {
        let mut fresh: Vec<Unit> = Vec::new();
        for p in ahead.iter_mut() {
            assert_eq!(p.creator.round(), round);
            fresh.push(p.creator.create_unit(vec![round as u8], &EngineKeys).unwrap());
        }
        for unit in fresh.iter() {
            for p in ahead.iter_mut() {
                deliver(p, engine_copy(unit));
            }
        }
        // The late one answers each full round with its own unit of the next.
        let mut answers: Vec<Unit> = Vec::new();
        for (i, unit) in fresh.iter().enumerate() {
            let size = late.dag_size();
            let reaction = late.handle_unit(engine_copy(unit), &EngineKeys, &mut data);
            if i < 2 {
                assert!(reaction.outgoing.is_empty());
                assert_eq!(late.dag_size(), size + 1);
            } else {
                assert_eq!(reaction.outgoing.len(), 1);
                assert_eq!(reaction.outgoing[0].header.round, round + 1);
                assert_eq!(reaction.outgoing[0].header.creator, 3);
                assert_eq!(late.dag_size(), size + 2);
            }
            answers.extend(reaction.outgoing);
        }
        made += answers.len();
        for unit in answers.iter() {
            for p in ahead.iter_mut() {
                deliver(p, engine_copy(unit));
            }
        }
        pool.extend(fresh);
        pool.extend(answers);
    }
    assert_eq!(made, 3);
    assert_eq!(late.dag_size(), pool.len());
}

#[test]
fn an_engine_started_at_a_later_round_on_an_empty_dag_stands_there() {
    let mut engine = Consensus::new(Config { n_members: 4, node_ix: 1 }).unwrap();
    let mut data = EngineData(0);
    let reaction = engine.start(Some(5), &EngineKeys, &mut data);
    assert!(reaction.outgoing.is_empty());
    assert!(reaction.batch.is_empty());
    assert_eq!(engine.dag_size(), 0);
    assert_eq!(engine.round(), Some(5));
}

#[test]
fn an_engine_started_on_a_dag_builds_on_it() {
    // The units of round zero of all four are there before the creator of
    // the second participant goes to work at round one.
    let mut engine = Consensus::new(Config { n_members: 4, node_ix: 1 }).unwrap();
    let mut data = EngineData(0);
    assert_eq!(engine.round(), None);
    let mut firsts: Vec<Unit> = Vec::new();
    for i in 0..4 {
        let mut other = Consensus::new(Config { n_members: 4, node_ix: i }).unwrap();
        firsts.push(other.start(None, &EngineKeys, &mut data).outgoing.pop().unwrap());
    }
    for unit in firsts.iter() {
        assert!(engine.handle_unit(engine_copy(unit), &EngineKeys, &mut data).outgoing.is_empty());
    }
    let reaction = engine.start(Some(1), &EngineKeys, &mut data);
    assert_eq!(reaction.outgoing.len(), 1);
    assert_eq!(reaction.outgoing[0].header.round, 1);
    assert_eq!(
        reaction.outgoing[0].header.parents,
        firsts.iter().map(|u| Some(u.header.hash)).collect::<Vec<_>>()
    );
    assert_eq!(engine.round(), Some(2));
    assert_eq!(engine.dag_size(), 5);
}

#[test]
fn a_checked_unit_is_taken_in_by_what_the_checks_said() {
    let mut engine = Consensus::new(Config { n_members: 4, node_ix: 0 }).unwrap();
    let mut other = Consensus::new(Config { n_members: 4, node_ix: 1 }).unwrap();
    let mut data = EngineData(0);
    let unit = other.start(None, &EngineKeys, &mut data).outgoing.pop().unwrap();
    let mut batch: Vec<u64> = Vec::new();
    assert!(!engine.take_in(engine_copy(&unit), false, true, &mut batch));
    assert!(!engine.take_in(engine_copy(&unit), true, false, &mut batch));
    assert_eq!(engine.dag_size(), 0);
    assert!(engine.take_in(engine_copy(&unit), true, true, &mut batch));
    assert_eq!(engine.dag_size(), 1);
    assert!(engine.contains(unit.header.hash));
    assert!(!engine.take_in(engine_copy(&unit), true, true, &mut batch));
    assert_eq!(engine.dag_size(), 1);
    assert!(batch.is_empty());
    engine.request_exit();
    let mut third = Consensus::new(Config { n_members: 4, node_ix: 2 }).unwrap();
    let late = third.start(None, &EngineKeys, &mut data).outgoing.pop().unwrap();
    assert!(!engine.take_in(late, true, true, &mut batch));
    assert_eq!(engine.dag_size(), 1);
}
