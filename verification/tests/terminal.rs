use stance_bft::crypto::Keychain;
use stance_bft::dag::InsertError;
use stance_bft::terminal::Terminal;
use stance_bft::unit::{Header, Unit};

struct TerminalKeys;

fn terminal_digest(creator: usize, round: u32, parents: &Vec<Option<u64>>, payload: &Vec<u8>) -> u64 {
    let mut h: u64 = 0xcbf29ce484222325;
    let mut feed = |x: u64| {
        h ^= x;
        h = h.wrapping_mul(0x100000001b3);
    };
    feed(creator as u64);
    feed(round as u64);
    for p in parents {
        match p {
            Some(d) => {
                feed(1);
                feed(*d);
            }
            None => feed(0),
        }
    }
    for b in payload {
        feed(*b as u64);
    }
    h
}

impl Keychain for TerminalKeys {
    fn digest(&self, creator: usize, round: u32, parents: &Vec<Option<u64>>, payload: &Vec<u8>) -> u64 {
        terminal_digest(creator, round, parents, payload)
    }

    fn sign(&self, digest: u64) -> Vec<u8> {
        digest.to_le_bytes().to_vec()
    }

    fn verify(&self, digest: u64, signature: &Vec<u8>, signer: usize) -> bool {
        signer < 4 && *signature == digest.to_le_bytes().to_vec()
    }
}

fn terminal_unit(creator: usize, round: u32, parents: Vec<Option<u64>>) -> Unit {
    let payload = vec![creator as u8, round as u8];
    let hash = terminal_digest(creator, round, &parents, &payload);
    Unit {
        header: Header { creator, round, parents, hash },
        payload,
        signature: hash.to_le_bytes().to_vec(),
    }
}

#[test]
fn a_valid_unit_is_added_and_every_subscriber_told_once() {
    let mut terminal = Terminal::new(4);
    let first = terminal.register_hook();
    let second = terminal.register_hook();
    assert_eq!((first, second), (0, 1));
    let unit = terminal_unit(1, 0, vec![None; 4]);
    let hash = unit.header.hash;
    assert_eq!(terminal.insert(unit, &TerminalKeys), Ok(()));
    assert_eq!(terminal.len(), 1);
    assert!(terminal.contains(hash));
    let told = terminal.take_notifications(first);
    assert_eq!(told.len(), 1);
    assert_eq!(told[0].hash, hash);
    assert_eq!(told[0].creator, 1);
    assert!(terminal.take_notifications(first).is_empty());
    let told = terminal.take_notifications(second);
    assert_eq!(told.len(), 1);
    assert_eq!(told[0].hash, hash);
}

#[test]
fn inserting_a_unit_twice_makes_one_entry_and_one_notification() {
    let mut terminal = Terminal::new(4);
    let hook = terminal.register_hook();
    assert_eq!(terminal.insert(terminal_unit(1, 0, vec![None; 4]), &TerminalKeys), Ok(()));
    assert_eq!(
        terminal.insert(terminal_unit(1, 0, vec![None; 4]), &TerminalKeys),
        Err(InsertError::Duplicate)
    );
    assert_eq!(terminal.len(), 1);
    assert_eq!(terminal.take_notifications(hook).len(), 1);
}

#[test]
fn a_unit_with_a_wrong_digest_is_invalid() {
    let mut terminal = Terminal::new(4);
    let hook = terminal.register_hook();
    let mut unit = terminal_unit(1, 0, vec![None; 4]);
    unit.header.hash ^= 1;
    unit.signature = unit.header.hash.to_le_bytes().to_vec();
    assert_eq!(terminal.insert(unit, &TerminalKeys), Err(InsertError::InvalidUnit));
    assert_eq!(terminal.len(), 0);
    assert!(terminal.take_notifications(hook).is_empty());
}

#[test]
fn a_unit_with_a_wrong_signature_is_invalid() {
    let mut terminal = Terminal::new(4);
    let mut unit = terminal_unit(1, 0, vec![None; 4]);
    unit.signature = vec![0; 8];
    assert_eq!(terminal.insert(unit, &TerminalKeys), Err(InsertError::InvalidUnit));
    assert_eq!(terminal.len(), 0);
}

#[test]
fn failed_checks_come_before_the_duplicate() {
    let mut terminal = Terminal::new(4);
    let unit = terminal_unit(1, 0, vec![None; 4]);
    let again = terminal_unit(1, 0, vec![None; 4]);
    let third = terminal_unit(1, 0, vec![None; 4]);
    assert_eq!(terminal.insert_checked(unit, true, true), Ok(()));
    assert_eq!(terminal.insert_checked(again, true, false), Err(InsertError::InvalidUnit));
    assert_eq!(terminal.insert_checked(third, true, true), Err(InsertError::Duplicate));
}

#[test]
fn units_are_found_by_digest_and_by_the_order_of_arrival() {
    let mut terminal = Terminal::new(4);
    let a = terminal_unit(3, 0, vec![None; 4]);
    let b = terminal_unit(0, 0, vec![None; 4]);
    let (ha, hb) = (a.header.hash, b.header.hash);
    assert_eq!(terminal.insert(a, &TerminalKeys), Ok(()));
    assert_eq!(terminal.insert(b, &TerminalKeys), Ok(()));
    assert_eq!(terminal.unit(hb).map(|u| u.header.creator), Some(0));
    assert_eq!(terminal.unit(ha).map(|u| u.payload.clone()), Some(vec![3, 0]));
    assert!(terminal.unit(ha ^ hb).is_none());
    assert_eq!(terminal.nth(0).map(|u| u.header.hash), Some(ha));
    assert_eq!(terminal.nth(1).map(|u| u.header.hash), Some(hb));
    assert!(terminal.nth(2).is_none());
}

#[test]
fn a_subscriber_is_told_only_of_what_comes_after_it_subscribed() {
    let mut terminal = Terminal::new(4);
    assert_eq!(terminal.insert(terminal_unit(0, 0, vec![None; 4]), &TerminalKeys), Ok(()));
    let hook = terminal.register_hook();
    assert!(terminal.take_notifications(hook).is_empty());
    assert_eq!(terminal.insert(terminal_unit(1, 0, vec![None; 4]), &TerminalKeys), Ok(()));
    assert_eq!(terminal.insert(terminal_unit(2, 0, vec![None; 4]), &TerminalKeys), Ok(()));
    let told = terminal.take_notifications(hook);
    assert_eq!(told.iter().map(|h| h.creator).collect::<Vec<_>>(), vec![1, 2]);
}

#[test]
fn a_fork_is_refused_by_the_terminal() {
    let mut terminal = Terminal::new(4);
    let hook = terminal.register_hook();
    assert_eq!(terminal.insert(terminal_unit(2, 0, vec![None; 4]), &TerminalKeys), Ok(()));
    let mut fork = terminal_unit(2, 0, vec![None; 4]);
    fork.payload = vec![9];
    fork.header.hash = terminal_digest(2, 0, &fork.header.parents, &fork.payload);
    fork.signature = fork.header.hash.to_le_bytes().to_vec();
    assert_eq!(terminal.insert(fork, &TerminalKeys), Err(InsertError::InvalidUnit));
    assert_eq!(terminal.len(), 1);
    assert_eq!(terminal.take_notifications(hook).len(), 1);
}

#[test]
fn the_terminal_keeps_payload_and_signature() {
    let mut terminal = Terminal::new(4);
    let unit = terminal_unit(2, 0, vec![None; 4]);
    let (hash, payload, signature) = (unit.header.hash, unit.payload.clone(), unit.signature.clone());
    assert_eq!(terminal.insert(unit, &TerminalKeys), Ok(()));
    let kept = terminal.unit(hash).unwrap();
    assert_eq!(kept.payload, payload);
    assert_eq!(kept.payload, vec![2, 0]);
    assert_eq!(kept.signature, signature);
    assert_eq!(terminal.nth(0).unwrap().signature, signature);
    assert_eq!(terminal.dag().rounds(), 1);
}

#[test]
fn a_unit_that_comes_before_its_parents_may_come_again() {
    let mut terminal = Terminal::new(4);
    let hook = terminal.register_hook();
    let parents: Vec<Unit> = (0..3).map(|c| terminal_unit(c, 0, vec![None; 4])).collect();
    let slots: Vec<Option<u64>> =
        vec![Some(parents[0].header.hash), Some(parents[1].header.hash), Some(parents[2].header.hash), None];
    assert_eq!(
        terminal.insert(terminal_unit(1, 1, slots.clone()), &TerminalKeys),
        Err(InsertError::MissingParents)
    );
    assert!(terminal.take_notifications(hook).is_empty());
    for unit in parents {
        assert_eq!(terminal.insert(unit, &TerminalKeys), Ok(()));
    }
    assert_eq!(terminal.insert(terminal_unit(1, 1, slots), &TerminalKeys), Ok(()));
    assert_eq!(terminal.take_notifications(hook).len(), 4);
}
