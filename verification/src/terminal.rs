//! The terminal: the one owner of the DAG. It validates what arrives, adds
//! what is valid and tells its subscribers of every unit added.

use std::collections::HashMap;
use vstd::prelude::*;
use vstd::std_specs::hash::group_hash_axioms;
use crate::crypto::Keychain;
use crate::dag::{
    admissible, contains_hash, grid_insert, insert_outcome, lemma_insert_wf, present, unit_at,
    wf_grid, Dag, Grid, InsertError,
};
use crate::unit::{Header, Node, Unit, UnitContent, UnitHash};

verus! {

/// What the terminal answers to a unit, the unit's digest and signature
/// having been checked with the results `digest_ok` and `signature_ok`.
pub open spec fn terminal_outcome(
    g: Grid,
    n: nat,
    u: Node,
    digest_ok: bool,
    signature_ok: bool,
) -> Result<(), InsertError> {
    if !digest_ok || !signature_ok {
        Err(InsertError::InvalidUnit)
    } else {
        insert_outcome(g, n, u)
    }
}

/// The notifications of `queue` as mathematical values.
pub open spec fn queue_view(queue: Seq<Header>) -> Seq<Node> {
    queue.map_values(|h: Header| h@)
}

/// Whether `store` holds a unit with header `u`.
pub open spec fn stored(store: Seq<Unit>, u: Node) -> bool {
    exists|i: int| 0 <= i < store.len() && (#[trigger] store[i]).header@ == u
}

/// The terminal. Subscribers are queues that the terminal itself owns and
/// writes to, one per subscription, in the order of subscription.
pub struct Terminal {
    dag: Dag,
    /// The units, in the order in which they were added.
    store: Vec<Unit>,
    /// Where in the store the unit with a given digest is.
    positions: HashMap<UnitHash, usize>,
    outboxes: Vec<Vec<Header>>,
}

impl Terminal {
    /// The DAG.
    pub closed spec fn grid(&self) -> Grid {
        self.dag@
    }

    /// The size of the committee.
    pub closed spec fn members(&self) -> nat {
        self.dag.members()
    }

    /// The number of subscriptions.
    pub closed spec fn hooks(&self) -> nat {
        self.outboxes.len() as nat
    }

    /// What subscription `hook` has been told and has not yet taken.
    pub closed spec fn pending(&self, hook: int) -> Seq<Node> {
        queue_view(self.outboxes[hook]@)
    }

    /// The units added so far, in the order in which they were added.
    pub closed spec fn log(&self) -> Seq<UnitContent> {
        Seq::new(self.store.len() as nat, |i: int| self.store[i]@)
    }

    /// The number of units added so far.
    pub open spec fn count(&self) -> nat {
        self.log().len()
    }

    /// The invariant of the terminal.
    pub closed spec fn wf(&self) -> bool {
        &&& self.dag.wf()
        &&& wf_grid(self.dag@, self.dag.members())
        &&& forall|i: int|
            0 <= i < self.store.len() ==> present(
                self.dag@,
                (#[trigger] self.store[i]).header@.round as int,
                self.store[i].header@.creator as int,
            ) && unit_at(
                self.dag@,
                self.store[i].header@.round as int,
                self.store[i].header@.creator as int,
            ) == self.store[i].header@
        &&& forall|r: int, c: int| #[trigger]
            present(self.dag@, r, c) ==> stored(self.store@, unit_at(self.dag@, r, c))
        &&& forall|h: UnitHash| #[trigger]
            self.positions@.contains_key(h) ==> self.positions@[h] < self.store.len()
                && self.store[self.positions@[h] as int].header.hash == h
        &&& forall|i: int|
            0 <= i < self.store.len() ==> self.positions@.contains_key(
                (#[trigger] self.store[i]).header.hash,
            )
    }

    /// What the invariant says to the outside.
    pub proof fn lemma_grid_wf(&self)
        requires
            self.wf(),
        ensures
            wf_grid(self.grid(), self.members()),
    {
    }

    /// Every unit of the DAG is in the log: a terminal that has added nothing
    /// holds an empty DAG.
    pub proof fn lemma_grid_is_logged(&self)
        requires
            self.wf(),
        ensures
            forall|r: int, c: int| #[trigger]
                present(self.grid(), r, c) ==> exists|i: int|
                    0 <= i < self.log().len() && (#[trigger] self.log()[i]).header == unit_at(
                        self.grid(),
                        r,
                        c,
                    ),
            self.count() == 0 ==> forall|r: int, c: int| !present(self.grid(), r, c),
    {
        assert forall|r: int, c: int| #[trigger] present(self.grid(), r, c) implies exists|i: int|
            0 <= i < self.log().len() && (#[trigger] self.log()[i]).header == unit_at(
                self.grid(),
                r,
                c,
            ) by {
            assert(stored(self.store@, unit_at(self.dag@, r, c)));
            let i = choose|i: int|
                0 <= i < self.store@.len() && (#[trigger] self.store@[i]).header@ == unit_at(
                    self.dag@,
                    r,
                    c,
                );
            assert(self.log()[i].header == unit_at(self.grid(), r, c));
        }
    }

    /// The DAG.
    pub fn dag(&self) -> (dag: &Dag)
        requires
            self.wf(),
        ensures
            dag.wf(),
            dag@ == self.grid(),
            dag.members() == self.members(),
    {
        &self.dag
    }

    /// A terminal with an empty DAG and no subscriber.
    pub fn new(n_members: usize) -> (terminal: Terminal)
        ensures
            terminal.wf(),
            terminal.members() == n_members,
            terminal.grid().len() == 0,
            terminal.hooks() == 0,
            terminal.log() == Seq::<UnitContent>::empty(),
    {
        let dag = Dag::new(n_members);
        proof {
            dag.lemma_view_shape();
        }
        let terminal = Terminal {
            dag,
            store: Vec::new(),
            positions: HashMap::new(),
            outboxes: Vec::new(),
        };
        proof {
            assert(terminal.log() =~= Seq::<UnitContent>::empty());
        }
        terminal
    }

    pub fn n_members(&self) -> (n: usize)
        ensures
            n == self.members(),
    {
        self.dag.n_members()
    }

    /// The number of units in the DAG.
    pub fn len(&self) -> (k: usize)
        ensures
            k == self.count(),
    {
        self.store.len()
    }

    /// The `i`-th unit added, counting from zero.
    pub fn nth(&self, i: usize) -> (found: Option<&Unit>)
        requires
            self.wf(),
        ensures
            found.is_some() == (i < self.count()),
            match found {
                Some(u) => u@ == self.log()[i as int] && present(
                    self.grid(),
                    u.header.round as int,
                    u.header.creator as int,
                ) && unit_at(self.grid(), u.header.round as int, u.header.creator as int)
                    == u.header@,
                None => true,
            },
    {
        if i < self.store.len() {
            Some(&self.store[i])
        } else {
            None
        }
    }

    /// Subscribes: from now on every unit added is queued for the subscriber.
    /// Answers the number under which the subscriber takes its notifications.
    pub fn register_hook(&mut self) -> (hook: usize)
        requires
            old(self).wf(),
        ensures
            final(self).wf(),
            final(self).grid() == old(self).grid(),
            final(self).members() == old(self).members(),
            final(self).log() == old(self).log(),
            hook == old(self).hooks(),
            final(self).hooks() == old(self).hooks() + 1,
            final(self).pending(hook as int) == Seq::<Node>::empty(),
            forall|i: int|
                0 <= i < old(self).hooks() ==> final(self).pending(i) == old(self).pending(i),
    {
        let hook = self.outboxes.len();
        self.outboxes.push(Vec::new());
        proof {
            assert(self.pending(hook as int) =~= Seq::<Node>::empty());
        }
        hook
    }

    /// Whether the DAG holds a unit with digest `hash`.
    pub fn contains(&self, hash: UnitHash) -> (b: bool)
        requires
            self.wf(),
        ensures
            b == contains_hash(self.grid(), hash),
    {
        self.dag.contains(hash)
    }

    /// The unit with digest `hash`, if the DAG holds it.
    pub fn unit(&self, hash: UnitHash) -> (found: Option<&Unit>)
        requires
            self.wf(),
        ensures
            match found {
                Some(u) => u.header.hash == hash && self.log().contains(u@) && present(
                    self.grid(),
                    u.header.round as int,
                    u.header.creator as int,
                ) && unit_at(self.grid(), u.header.round as int, u.header.creator as int)
                    == u.header@,
                None => !contains_hash(self.grid(), hash),
            },
    {
        broadcast use group_hash_axioms;

        match self.positions.get(&hash) {
            Some(i) => {
                assert(self.log()[*i as int] == self.store[*i as int]@);
                Some(&self.store[*i])
            },
            None => {
                proof {
                    if contains_hash(self.dag@, hash) {
                        let (r, c) = choose|r: int, c: int| #[trigger]
                            present(self.dag@, r, c) && unit_at(self.dag@, r, c).hash == hash;
                        assert(stored(self.store@, unit_at(self.dag@, r, c)));
                        let i = choose|i: int|
                            0 <= i < self.store@.len() && (#[trigger] self.store@[i]).header@
                                == unit_at(self.dag@, r, c);
                        assert(self.positions@.contains_key(self.store[i].header.hash));
                    }
                }
                None
            },
        }
    }

    /// Takes what subscription `hook` has been told since it last took, in
    /// the order in which the units were added.
    pub fn take_notifications(&mut self, hook: usize) -> (taken: Vec<Header>)
        requires
            old(self).wf(),
            hook < old(self).hooks(),
        ensures
            final(self).wf(),
            final(self).grid() == old(self).grid(),
            final(self).members() == old(self).members(),
            final(self).log() == old(self).log(),
            final(self).hooks() == old(self).hooks(),
            queue_view(taken@) == old(self).pending(hook as int),
            final(self).pending(hook as int) == Seq::<Node>::empty(),
            forall|i: int|
                0 <= i < old(self).hooks() && i != hook ==> final(self).pending(i) == old(
                    self,
                ).pending(i),
    {
        let mut taken: Vec<Header> = Vec::new();
        core::mem::swap(&mut taken, &mut self.outboxes[hook]);
        proof {
            assert(self.pending(hook as int) =~= Seq::<Node>::empty());
        }
        taken
    }

    /// Adds a unit whose digest and signature have been checked, with the
    /// results given. A unit that failed either check is invalid. Of the
    /// others, one whose digest is known is a duplicate, one that waits for a
    /// parent is answered with `MissingParents`, and one that can never be
    /// added is invalid. A unit that is added is stored as it came and queued
    /// once for each subscriber; a unit that is refused changes nothing.
    pub fn insert_checked(&mut self, unit: Unit, digest_ok: bool, signature_ok: bool) -> (res:
        Result<(), InsertError>)
        requires
            old(self).wf(),
        ensures
            final(self).wf(),
            final(self).members() == old(self).members(),
            final(self).hooks() == old(self).hooks(),
            res == terminal_outcome(
                old(self).grid(),
                old(self).members(),
                unit.header@,
                digest_ok,
                signature_ok,
            ),
            res.is_ok() == (digest_ok && signature_ok && admissible(
                old(self).grid(),
                old(self).members(),
                unit.header@,
            )),
            res.is_ok() ==> {
                &&& final(self).grid() == grid_insert(
                    old(self).grid(),
                    old(self).members(),
                    unit.header@,
                )
                &&& final(self).log() == old(self).log().push(unit@)
                &&& forall|i: int|
                    0 <= i < old(self).hooks() ==> final(self).pending(i) == old(self).pending(
                        i,
                    ).push(unit.header@)
            },
            res.is_err() ==> {
                &&& final(self).grid() == old(self).grid()
                &&& final(self).log() == old(self).log()
                &&& forall|i: int|
                    0 <= i < old(self).hooks() ==> final(self).pending(i) == old(self).pending(i)
            },
    {
        if !digest_ok || !signature_ok {
            return Err(InsertError::InvalidUnit);
        }
        let ghost g = self.dag@;
        let ghost n = self.dag.members();
        let ghost u = unit.header@;
        let ghost content = unit@;
        let ghost store_before = self.store@;
        let res = self.dag.insert(unit.header.duplicate());
        match res {
            Err(e) => Err(e),
            Ok(()) => {
                proof {
                    lemma_insert_wf(g, n, u);
                    self.dag.lemma_view_shape();
                }
                let ghost dag_after = self.dag;
                let mut i: usize = 0;
                while i < self.outboxes.len()
                    invariant
                        i <= self.outboxes.len(),
                        self.outboxes.len() == old(self).outboxes.len(),
                        self.dag == dag_after,
                        self.store == old(self).store,
                        self.positions == old(self).positions,
                        u == unit.header@,
                        forall|j: int|
                            0 <= j < i ==> queue_view(#[trigger] self.outboxes[j]@) == queue_view(
                                old(self).outboxes[j]@,
                            ).push(u),
                        forall|j: int|
                            i <= j < self.outboxes.len() ==> #[trigger] self.outboxes[j] == old(
                                self,
                            ).outboxes[j],
                    decreases self.outboxes.len() - i,
                {
                    let copy = unit.header.duplicate();
                    let ghost before = self.outboxes[i as int]@;
                    self.outboxes[i].push(copy);
                    proof {
                        assert(queue_view(self.outboxes[i as int]@) =~= queue_view(before).push(
                            u,
                        ));
                    }
                    i += 1;
                }
                let ghost log_before = self.log();
                let ghost positions_before = self.positions@;
                let hash = unit.header.hash;
                let position = self.store.len();
                self.store.push(unit);
                self.positions.insert(hash, position);
                proof {
                    broadcast use group_hash_axioms;

                    assert(self.positions@ == positions_before.insert(hash, position));
                    assert forall|h: UnitHash| #[trigger]
                        self.positions@.contains_key(h) implies self.positions@[h]
                        < self.store.len() && self.store[self.positions@[h] as int].header.hash
                        == h by {
                        if h != hash {
                            assert(positions_before.contains_key(h));
                            assert(self.store[positions_before[h] as int]
                                == store_before[positions_before[h] as int]);
                        }
                    }
                    assert forall|i: int| 0 <= i < self.store.len() implies self.positions@.contains_key(
                        (#[trigger] self.store[i]).header.hash,
                    ) by {
                        if i < store_before.len() {
                            assert(self.store[i] == store_before[i]);
                            assert(positions_before.contains_key(store_before[i].header.hash));
                        }
                    }
                    assert(self.log() =~= log_before.push(content));
                    let g2 = self.dag@;
                    assert forall|i: int| 0 <= i < self.store.len() implies present(
                        g2,
                        (#[trigger] self.store[i]).header@.round as int,
                        self.store[i].header@.creator as int,
                    ) && unit_at(
                        g2,
                        self.store[i].header@.round as int,
                        self.store[i].header@.creator as int,
                    ) == self.store[i].header@ by {
                        if i < store_before.len() {
                            assert(self.store[i] == store_before[i]);
                            assert(present(
                                g,
                                store_before[i].header@.round as int,
                                store_before[i].header@.creator as int,
                            ));
                        }
                    }
                    assert forall|r: int, c: int| #[trigger] present(g2, r, c) implies stored(
                        self.store@,
                        unit_at(g2, r, c),
                    ) by {
                        if present(g, r, c) {
                            assert(stored(store_before, unit_at(g, r, c)));
                            let i = choose|i: int|
                                0 <= i < store_before.len() && (#[trigger] store_before[i]).header@
                                    == unit_at(g, r, c);
                            assert(self.store@[i] == store_before[i]);
                        } else {
                            assert(self.store@[store_before.len() as int].header@ == u);
                        }
                    }
                }
                Ok(())
            },
        }
    }

    /// Checks a unit's digest and its creator's signature with `keys` and
    /// adds the unit as `insert_checked` does with what the checks answered.
    pub fn insert<K: Keychain>(&mut self, unit: Unit, keys: &K) -> (res: Result<(), InsertError>)
        requires
            old(self).wf(),
        ensures
            final(self).wf(),
            final(self).members() == old(self).members(),
            final(self).hooks() == old(self).hooks(),
            res.is_ok() ==> {
                &&& admissible(old(self).grid(), old(self).members(), unit.header@)
                &&& final(self).grid() == grid_insert(
                    old(self).grid(),
                    old(self).members(),
                    unit.header@,
                )
                &&& final(self).log() == old(self).log().push(unit@)
                &&& forall|i: int|
                    0 <= i < old(self).hooks() ==> final(self).pending(i) == old(self).pending(
                        i,
                    ).push(unit.header@)
            },
            res.is_err() ==> {
                &&& final(self).grid() == old(self).grid()
                &&& final(self).log() == old(self).log()
                &&& forall|i: int|
                    0 <= i < old(self).hooks() ==> final(self).pending(i) == old(self).pending(i)
            },
            res == Err::<(), InsertError>(InsertError::Duplicate) ==> contains_hash(
                old(self).grid(),
                unit.header@.hash,
            ),
            exists|digest_ok: bool, signature_ok: bool|
                res == #[trigger] terminal_outcome(
                    old(self).grid(),
                    old(self).members(),
                    unit.header@,
                    digest_ok,
                    signature_ok,
                ),
    {
        let digest = keys.digest(
            unit.header.creator,
            unit.header.round,
            &unit.header.parents,
            &unit.payload,
        );
        let digest_ok = digest == unit.header.hash;
        let signature_ok = keys.verify(unit.header.hash, &unit.signature, unit.header.creator);
        self.insert_checked(unit, digest_ok, signature_ok)
    }
}

/// Idempotent insertion: a unit that was added is a duplicate from then on,
/// and a duplicate changes neither the DAG nor any subscriber's queue. So
/// adding the same unit twice makes one entry and one notification.
pub proof fn lemma_second_insert_is_duplicate(g: Grid, n: nat, u: Node)
    requires
        wf_grid(g, n),
        admissible(g, n, u),
    ensures
        terminal_outcome(g, n, u, true, true) == Ok::<(), InsertError>(()),
        terminal_outcome(grid_insert(g, n, u), n, u, true, true) == Err::<(), InsertError>(
            InsertError::Duplicate,
        ),
{
    lemma_insert_wf(g, n, u);
    assert(present(grid_insert(g, n, u), u.round as int, u.creator as int));
}

} // verus!
