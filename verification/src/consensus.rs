//! One participant's engine: terminal, creator and extender put together, and
//! the terminator above them.
//!
//! The engine is handed what arrives, one thing at a time, and answers with
//! what is to be sent: the units that this participant has made, for its
//! peers, and what was added to the order, for whoever finalizes.

use vstd::prelude::*;
use crate::creator::{
    can_create, hashes_of, lemma_can_create_kept, lemma_noting_follows_dag, noted,
    with_candidate, Candidates, Creator,
};
use crate::crypto::Keychain;
use crate::dag::{
    admissible, contains_hash, extends, grid_insert, lemma_insert_wf, present, unit_at, wf_grid,
    Grid,
};
use crate::extender::Extender;
use crate::order::ordered;
use crate::terminal::{terminal_outcome, Terminal};
use crate::terminator::{Phase, Terminator};
use crate::unit::{NodeIndex, Round, Unit, UnitHash};

verus! {

/// Where the application data of new units comes from.
pub trait DataProvider {
    /// The data for the next unit.
    fn get_data(&mut self) -> Vec<u8>;
}

/// What an engine is set up with.
#[derive(Debug, Clone, Copy)]
pub struct Config {
    /// The size of the committee.
    pub n_members: usize,
    /// This participant's index in the committee.
    pub node_ix: NodeIndex,
}

/// What the engine answers to an event.
#[derive(Debug)]
pub struct Reaction {
    /// The units that this participant has made, in the order of their
    /// rounds, to be sent to its peers.
    pub outgoing: Vec<Unit>,
    /// What was added to the order.
    pub batch: Vec<UnitHash>,
}

/// The engine of one participant.
pub struct Consensus {
    terminal: Terminal,
    /// The creator, once the round to begin with is known.
    creator: Option<Creator>,
    extender: Extender,
    terminator: Terminator,
    index: NodeIndex,
}

/// The number under which the terminator knows the terminal.
pub const TERMINAL_TASK: usize = 0;

/// The number under which the terminator knows the creator.
pub const CREATOR_TASK: usize = 1;

/// The number under which the terminator knows the extender.
pub const EXTENDER_TASK: usize = 2;

fn append(stream: &mut Vec<UnitHash>, more: &Vec<UnitHash>)
    ensures
        final(stream)@ == old(stream)@ + more@,
{
    let ghost start = stream@;
    let mut i: usize = 0;
    while i < more.len()
        invariant
            i <= more.len(),
            stream@ == start + more@.take(i as int),
        decreases more.len() - i,
    {
        stream.push(more[i]);
        proof {
            assert(stream@ =~= start + more@.take(i + 1));
        }
        i += 1;
    }
    proof {
        assert(more@.take(more.len() as int) =~= more@);
    }
}

impl Consensus {
    /// The DAG.
    pub closed spec fn dag(&self) -> Grid {
        self.terminal.grid()
    }

    /// The size of the committee.
    pub closed spec fn members(&self) -> nat {
        self.terminal.members()
    }

    /// The order given out so far.
    pub closed spec fn stream(&self) -> Seq<UnitHash> {
        self.extender.stream()
    }

    /// This participant's index in the committee.
    pub closed spec fn me(&self) -> nat {
        self.index as nat
    }

    /// The number of units in the DAG.
    pub closed spec fn size(&self) -> nat {
        self.terminal.count()
    }

    /// Whether the engine was told to stop.
    pub closed spec fn stopped(&self) -> bool {
        self.terminator@.cancelled
    }

    /// Whether the creator is at work.
    pub closed spec fn started(&self) -> bool {
        self.creator.is_some()
    }

    /// The invariant of the engine: terminal and extender hold the same DAG,
    /// the order given out is the order that this DAG determines, and the
    /// creator, once at work, knows every unit of this DAG.
    pub closed spec fn wf(&self) -> bool {
        &&& self.terminal.wf()
        &&& self.extender.wf()
        &&& self.terminator.wf()
        &&& self.terminal.members() == self.extender.members()
        &&& self.terminal.grid() == self.extender.grid()
        &&& self.index < self.terminal.members()
        &&& self.terminator@.stopped.len() == 3
        &&& (self.terminator@.cancelled ==> crate::terminator::all_stopped(
            self.terminator@.stopped,
        ))
        &&& match self.creator {
            Some(creator) => creator.wf() && creator.members() == self.terminal.members()
                && creator.me() == self.index && creator.candidates() == hashes_of(
                self.terminal.grid(),
                self.terminal.members(),
            ),
            None => true,
        }
    }

    /// The creator, once at work, knows the DAG: its candidates are the
    /// digests of the units of the DAG, slot by slot.
    pub proof fn lemma_creator_knows_dag(&self)
        requires
            self.wf(),
            self.started(),
        ensures
            self.candidates() == hashes_of(self.dag(), self.members()),
    {
    }

    /// The committee of an engine has members.
    pub proof fn lemma_has_members(&self)
        requires
            self.wf(),
        ensures
            self.members() >= 1,
            self.me() < self.members(),
    {
    }

    /// Validity, no duplication and the order as a function of the DAG:
    /// whatever the engine has given out is the digest of a unit that its
    /// terminal has validated and added, nothing was given out twice, and
    /// what was given out is the order that the DAG determines.
    pub proof fn lemma_stream_is_valid(&self)
        requires
            self.wf(),
        ensures
            wf_grid(self.dag(), self.members()),
            self.stream() == ordered(self.dag(), self.members()),
            self.stream().no_duplicates(),
            forall|i: int|
                0 <= i < self.stream().len() ==> contains_hash(
                    self.dag(),
                    #[trigger] self.stream()[i],
                ),
    {
        self.extender.lemma_stream_is_order();
        self.extender.lemma_stream_lists_units_once();
    }

    /// An engine for the participant `node_ix` of a committee of `n_members`,
    /// with an empty DAG and the creator not yet at work. There is none for
    /// an index outside the committee.
    pub fn new(config: Config) -> (made: Option<Consensus>)
        ensures
            made.is_some() == (config.node_ix < config.n_members),
            match made {
                Some(engine) => {
                    &&& engine.wf()
                    &&& engine.members() == config.n_members
                    &&& engine.me() == config.node_ix
                    &&& engine.size() == 0
                    &&& engine.dag().len() == 0
                    &&& engine.stream() == Seq::<UnitHash>::empty()
                    &&& !engine.stopped()
                    &&& !engine.started()
                },
                None => true,
            },
    {
        if config.node_ix >= config.n_members {
            return None;
        }
        let terminal = Terminal::new(config.n_members);
        let extender = Extender::new(config.n_members);
        let mut terminator = Terminator::new();
        terminator.add_offspring_connection();
        terminator.add_offspring_connection();
        terminator.add_offspring_connection();
        proof {
            assert(terminal.grid() =~= extender.grid());
        }
        Some(Consensus { terminal, creator: None, extender, terminator, index: config.node_ix })
    }

    /// Whether the engine was told to stop.
    pub fn is_stopped(&self) -> (b: bool)
        ensures
            b == self.stopped(),
    {
        self.terminator.is_cancelled()
    }

    /// The order given out so far.
    pub fn ordered(&self) -> (stream: &Vec<UnitHash>)
        ensures
            stream@ == self.stream(),
    {
        self.extender.ordered()
    }

    /// The round of the unit that the creator makes next, once the creator is
    /// at work.
    pub fn round(&self) -> (round: Option<Round>)
        requires
            self.wf(),
        ensures
            round.is_some() == self.started(),
            match round {
                Some(r) => r == self.next_round(),
                None => true,
            },
    {
        match &self.creator {
            Some(creator) => Some(creator.round()),
            None => None,
        }
    }

    /// The number of units in the DAG.
    pub fn dag_size(&self) -> (k: usize)
        ensures
            k == self.size(),
    {
        self.terminal.len()
    }

    /// Whether the DAG holds a unit with digest `hash`.
    pub fn contains(&self, hash: UnitHash) -> (b: bool)
        requires
            self.wf(),
        ensures
            b == contains_hash(self.dag(), hash),
    {
        self.terminal.contains(hash)
    }

    /// Adds `unit` through the terminal, its digest and signature having been
    /// checked with the results given, and, if it was added, hands it on to
    /// extender and creator: the extender appends to `batch` what the unit
    /// adds to the order, and the creator notes the unit as a candidate.
    /// Answers whether the unit was added; a unit that was not changes
    /// nothing, and a stopped engine adds none.
    pub fn take_in(
        &mut self,
        unit: Unit,
        digest_ok: bool,
        signature_ok: bool,
        batch: &mut Vec<UnitHash>,
    ) -> (added: bool)
        requires
            old(self).wf(),
        ensures
            final(self).wf(),
            final(self).stopped() == old(self).stopped(),
            final(self).members() == old(self).members(),
            final(self).started() == old(self).started(),
            final(self).me() == old(self).me(),
            added == (!old(self).stopped() && terminal_outcome(
                old(self).dag(),
                old(self).members(),
                unit.header@,
                digest_ok,
                signature_ok,
            ).is_ok()),
            added == (!old(self).stopped() && digest_ok && signature_ok && admissible(
                old(self).dag(),
                old(self).members(),
                unit.header@,
            )),
            final(self).dag() == if added {
                grid_insert(old(self).dag(), old(self).members(), unit.header@)
            } else {
                old(self).dag()
            },
            old(self).dag().len() <= final(self).dag().len(),
            final(self).size() == old(self).size() + if added {
                1nat
            } else {
                0nat
            },
            final(self).stream() == ordered(final(self).dag(), final(self).members()),
            old(self).stream().is_prefix_of(final(self).stream()),
            final(batch)@ == old(batch)@ + final(self).stream().subrange(
                old(self).stream().len() as int,
                final(self).stream().len() as int,
            ),
            final(self).next_round() == old(self).next_round(),
            final(self).candidates() == if added && old(self).started() {
                with_candidate(old(self).candidates(), old(self).members(), unit.header@)
            } else {
                old(self).candidates()
            },
            final(self).started() ==> final(self).candidates() == hashes_of(
                final(self).dag(),
                final(self).members(),
            ),
            extends(old(self).dag(), final(self).dag()),
            added ==> contains_hash(final(self).dag(), unit.header@.hash),
            forall|r: int, c: int| #[trigger]
                present(final(self).dag(), r, c) ==> present(old(self).dag(), r, c) || unit_at(
                    final(self).dag(),
                    r,
                    c,
                ) == unit.header@,
    {
        if self.terminator.is_cancelled() {
            proof {
                self.extender.lemma_stream_is_order();
                assert(batch@ =~= batch@ + self.stream().subrange(
                    self.stream().len() as int,
                    self.stream().len() as int,
                ));
            }
            return false;
        }
        let header = unit.header.duplicate();
        let ghost g = self.terminal.grid();
        let ghost n = self.terminal.members();
        let ghost before = self.extender.stream();
        let ghost batch_before = batch@;
        proof {
            self.terminal.lemma_grid_wf();
            self.extender.lemma_stream_is_order();
        }
        match self.terminal.insert_checked(unit, digest_ok, signature_ok) {
            Ok(()) => {
                proof {
                    lemma_insert_wf(g, n, header@);
                    lemma_noting_follows_dag(g, n, header@);
                }
                let more = self.extender.add_unit(header.duplicate());
                append(batch, &more);
                proof {
                    assert((before + more@).subrange(
                        before.len() as int,
                        (before + more@).len() as int,
                    ) =~= more@);
                }
                let mut creator: Option<Creator> = None;
                core::mem::swap(&mut creator, &mut self.creator);
                match creator {
                    Some(mut c) => {
                        c.add_candidate(&header);
                        self.creator = Some(c);
                    },
                    None => {},
                }
                true
            },
            Err(_) => {
                proof {
                    assert(batch@ =~= batch_before + before.subrange(
                        before.len() as int,
                        before.len() as int,
                    ));
                }
                false
            },
        }
    }

    /// Lets the creator make every unit that it can make as things stand,
    /// round after round, until it can make no more. Each unit is checked and
    /// added through the terminal like a unit of any other participant; those
    /// that the terminal adds are appended to `outgoing`, and what they add to
    /// the order is appended to `batch`.
    fn produce<K: Keychain, D: DataProvider>(
        &mut self,
        keys: &K,
        data: &mut D,
        outgoing: &mut Vec<Unit>,
        batch: &mut Vec<UnitHash>,
    )
        requires
            old(self).wf(),
            !old(self).stopped(),
        ensures
            final(self).wf(),
            !final(self).stopped(),
            final(self).members() == old(self).members(),
            final(self).started() == old(self).started(),
            final(self).me() == old(self).me(),
            !final(self).can_make(),
            final(self).could_make(old(self).next_round(), final(self).next_round()),
            old(self).next_round() <= final(self).next_round(),
            old(self).can_make() ==> old(self).next_round() < final(self).next_round(),
            final(self).next_round() == old(self).next_round() || final(self).next_round()
                <= final(self).dag().len() + 1,
            final(self).started() ==> final(self).candidates() == hashes_of(
                final(self).dag(),
                final(self).members(),
            ),
            !old(self).can_make() ==> final(self).next_round() == old(self).next_round()
                && final(self).dag() == old(self).dag() && final(outgoing)@ == old(outgoing)@,
            final(self).size() + old(outgoing)@.len() == old(self).size() + final(
                outgoing
            )@.len(),
            final(outgoing)@.len() - old(outgoing)@.len() <= final(self).next_round() - old(
                self
            ).next_round(),
            forall|i: int|
                old(outgoing)@.len() <= i < final(outgoing)@.len() ==> old(self).next_round()
                    <= (#[trigger] final(outgoing)@[i]).header.round < final(self).next_round(),
            forall|i: int, j: int|
                old(outgoing)@.len() <= i < j < final(outgoing)@.len() ==> (#[trigger] final(
                    outgoing
                )@[i]).header.round < (#[trigger] final(outgoing)@[j]).header.round,
            final(self).stream() == ordered(final(self).dag(), final(self).members()),
            extends(old(self).dag(), final(self).dag()),
            old(self).stream().is_prefix_of(final(self).stream()),
            final(batch)@ == old(batch)@ + final(self).stream().subrange(
                old(self).stream().len() as int,
                final(self).stream().len() as int,
            ),
            old(outgoing)@.is_prefix_of(final(outgoing)@),
            forall|i: int|
                old(outgoing)@.len() <= i < final(outgoing)@.len() ==> (#[trigger] final(
                    outgoing
                )@[i]).header.creator == old(self).index && contains_hash(
                    final(self).dag(),
                    final(outgoing)@[i].header@.hash,
                ),
            forall|r: int, c: int| #[trigger]
                present(final(self).dag(), r, c) ==> present(old(self).dag(), r, c)
                    || c == old(self).index,
    {
        let ghost stream0 = self.extender.stream();
        let ghost batch0 = batch@;
        let ghost out0 = outgoing@;
        let ghost dag0 = self.terminal.grid();
        let ghost round0 = self.next_round();
        let ghost size0 = self.size();
        proof {
            assert(batch0 =~= batch0 + stream0.subrange(
                stream0.len() as int,
                stream0.len() as int,
            ));
        }
        loop
            invariant
                self.wf(),
                !self.stopped(),
                self.members() == old(self).members(),
                self.started() == old(self).started(),
                self.index == old(self).index,
                stream0 == old(self).stream(),
                dag0 == old(self).dag(),
                batch0 == old(batch)@,
                out0 == old(outgoing)@,
                round0 == old(self).next_round(),
                size0 == old(self).size(),
                round0 <= self.next_round(),
                self.next_round() == round0 ==> self.dag() == dag0 && outgoing@ == out0,
                self.next_round() == round0 ==> self.can_make() == old(self).can_make(),
                self.next_round() == round0 || self.next_round() <= self.dag().len() + 1,
                self.could_make(round0, self.next_round()),
                self.next_round() > round0 ==> old(self).can_make(),
                self.size() + out0.len() == size0 + outgoing@.len(),
                outgoing@.len() - out0.len() <= self.next_round() - round0,
                forall|i: int|
                    out0.len() <= i < outgoing@.len() ==> round0 <= (#[trigger] outgoing@[i])
                        .header.round < self.next_round(),
                forall|i: int, j: int|
                    out0.len() <= i < j < outgoing@.len() ==> (#[trigger] outgoing@[i])
                        .header.round < (#[trigger] outgoing@[j]).header.round,
                extends(dag0, self.dag()),
                stream0.is_prefix_of(self.stream()),
                batch@ == batch0 + self.stream().subrange(
                    stream0.len() as int,
                    self.stream().len() as int,
                ),
                out0.is_prefix_of(outgoing@),
                forall|i: int|
                    out0.len() <= i < outgoing@.len() ==> (#[trigger] outgoing@[i]).header.creator
                        == self.index && contains_hash(self.dag(), outgoing@[i].header@.hash),
                forall|r: int, c: int| #[trigger]
                    present(self.dag(), r, c) ==> present(dag0, r, c) || c == self.index,
            decreases
                    match self.creator {
                        Some(c) => Round::MAX - c.next_round(),
                        None => 0,
                    },
        {
            let ghost could = self.can_make();
            let ghost dag_head = self.dag();
            let ghost round_head = self.next_round();
            proof {
                self.terminal.lemma_grid_wf();
                assert(self.started() ==> could == can_create(
                    hashes_of(dag_head, self.members()),
                    self.members(),
                    self.me(),
                    round_head,
                ));
            }
            let mut creator: Option<Creator> = None;
            core::mem::swap(&mut creator, &mut self.creator);
            let unit = match creator {
                Some(mut c) => {
                    let made = if c.ready() {
                        let payload = data.get_data();
                        c.create_unit(payload, keys)
                    } else {
                        None
                    };
                    self.creator = Some(c);
                    made
                },
                None => None,
            };
            match unit {
                Some(unit) => {
                    assert(could);
                    let copy = unit.duplicate();
                    let digest = keys.digest(
                        unit.header.creator,
                        unit.header.round,
                        &unit.header.parents,
                        &unit.payload,
                    );
                    let digest_ok = digest == unit.header.hash;
                    let signature_ok = keys.verify(
                        unit.header.hash,
                        &unit.signature,
                        unit.header.creator,
                    );
                    let ghost dag_before = self.dag();
                    let ghost stream_before = self.stream();
                    let ghost out_before = outgoing@;
                    let ghost made_round = unit.header@.round;
                    let ghost made = unit.header@;
                    let added = self.take_in(unit, digest_ok, signature_ok, batch);
                    proof {
                        assert forall|r: nat| round0 <= r < self.next_round() implies #[trigger] can_create(
                            hashes_of(self.dag(), self.members()),
                            self.members(),
                            self.me(),
                            r,
                        ) by {
                            assert(dag_before == dag_head);
                            assert(r <= round_head);
                            assert(can_create(
                                hashes_of(dag_before, self.members()),
                                self.members(),
                                self.me(),
                                r,
                            ));
                            if added {
                                lemma_can_create_kept(
                                    dag_before,
                                    self.members(),
                                    made,
                                    self.me(),
                                    r,
                                );
                            }
                        }
                        let s1 = stream_before;
                        let s2 = self.stream();
                        assert(s2.subrange(stream0.len() as int, s2.len() as int) =~= s1.subrange(
                            stream0.len() as int,
                            s1.len() as int,
                        ) + s2.subrange(s1.len() as int, s2.len() as int));
                        self.terminal.lemma_grid_wf();
                        assert forall|r: int, c: int| #[trigger]
                            present(self.dag(), r, c) implies present(dag0, r, c) || c
                            == self.index by {
                            if !present(dag_before, r, c) {
                                assert(crate::dag::wf_cell(self.dag(), self.members(), r, c));
                            }
                        }
                        assert forall|i: int| out0.len() <= i < out_before.len() implies contains_hash(
                            self.dag(),
                            (#[trigger] out_before[i]).header@.hash,
                        ) by {
                            lemma_contains_kept(
                                dag_before,
                                self.dag(),
                                out_before[i].header@.hash,
                            );
                        }
                    }
                    if added {
                        outgoing.push(copy);
                    }
                },
                None => {
                    proof {
                        self.extender.lemma_stream_is_order();
                    }
                    return ;
                },
            }
        }
    }

    /// A unit has arrived. It is validated and, if valid and new, added to
    /// the DAG and handed on; then the creator makes what it now can. A
    /// stopped engine does nothing.
    pub fn handle_unit<K: Keychain, D: DataProvider>(
        &mut self,
        unit: Unit,
        keys: &K,
        data: &mut D,
    ) -> (reaction: Reaction)
        requires
            old(self).wf(),
        ensures
            final(self).wf(),
            final(self).members() == old(self).members(),
            final(self).stopped() == old(self).stopped(),
            final(self).started() == old(self).started(),
            extends(old(self).dag(), final(self).dag()),
            final(self).stream() == old(self).stream() + reaction.batch@,
            final(self).stream() == ordered(final(self).dag(), final(self).members()),
            forall|i: int|
                0 <= i < reaction.outgoing@.len() ==> contains_hash(
                    final(self).dag(),
                    (#[trigger] reaction.outgoing@[i]).header@.hash,
                ),
            old(self).stopped() ==> {
                &&& final(self).dag() == old(self).dag()
                &&& reaction.outgoing@.len() == 0
                &&& reaction.batch@.len() == 0
            },
            final(self).me() == old(self).me(),
            forall|r: int, c: int| #[trigger]
                present(final(self).dag(), r, c) ==> present(old(self).dag(), r, c) || unit_at(
                    final(self).dag(),
                    r,
                    c,
                ) == unit.header@ || c == old(self).me(),
            forall|i: int|
                0 <= i < reaction.outgoing@.len() ==> (#[trigger] reaction.outgoing@[i])
                    .header.creator == old(self).me(),
            !old(self).started() ==> reaction.outgoing@.len() == 0,
            !old(self).stopped() ==> !final(self).can_make(),
            final(self).could_make(old(self).next_round(), final(self).next_round()),
            old(self).next_round() <= final(self).next_round(),
            final(self).next_round() == old(self).next_round() || final(self).next_round()
                <= final(self).dag().len() + 1,
            final(self).started() ==> final(self).candidates() == hashes_of(
                final(self).dag(),
                final(self).members(),
            ),
            old(self).stopped() ==> final(self).next_round() == old(self).next_round()
                && final(self).candidates() == old(self).candidates(),
            reaction.outgoing@.len() <= final(self).next_round() - old(self).next_round(),
            forall|i: int|
                0 <= i < reaction.outgoing@.len() ==> old(self).next_round()
                    <= (#[trigger] reaction.outgoing@[i]).header.round < final(self).next_round(),
            forall|i: int, j: int|
                0 <= i < j < reaction.outgoing@.len() ==> (#[trigger] reaction.outgoing@[i])
                    .header.round < (#[trigger] reaction.outgoing@[j]).header.round,
            old(self).stopped() ==> final(self).size() == old(self).size(),
            !old(self).stopped() ==> exists|digest_ok: bool, signature_ok: bool|
                final(self).size() == old(self).size() + reaction.outgoing@.len() + if (
                #[trigger] terminal_outcome(
                    old(self).dag(),
                    old(self).members(),
                    unit.header@,
                    digest_ok,
                    signature_ok,
                )).is_ok() {
                    1nat
                } else {
                    0nat
                },
    {
        let mut outgoing: Vec<Unit> = Vec::new();
        let mut batch: Vec<UnitHash> = Vec::new();
        if self.terminator.is_cancelled() {
            proof {
                assert(self.stream() =~= self.stream() + batch@);
                self.extender.lemma_stream_is_order();
            }
            return Reaction { outgoing, batch };
        }
        let ghost stream0 = self.stream();
        let digest = keys.digest(
            unit.header.creator,
            unit.header.round,
            &unit.header.parents,
            &unit.payload,
        );
        let digest_ok = digest == unit.header.hash;
        let signature_ok = keys.verify(unit.header.hash, &unit.signature, unit.header.creator);
        let ghost before = *self;
        let taken = self.take_in(unit, digest_ok, signature_ok, &mut batch);
        let ghost stream1 = self.stream();
        self.produce(keys, data, &mut outgoing, &mut batch);
        proof {
            assert(taken == terminal_outcome(
                before.dag(),
                before.members(),
                unit.header@,
                digest_ok,
                signature_ok,
            ).is_ok());
            let s = self.stream();
            assert(stream1 =~= stream0 + stream1.subrange(
                stream0.len() as int,
                stream1.len() as int,
            ));
            assert(s =~= stream1 + s.subrange(stream1.len() as int, s.len() as int));
            assert(s =~= stream0 + batch@);
        }
        Reaction { outgoing, batch }
    }

    /// The round to begin with is known: the creator goes to work at the round
    /// `starting_round`, or at round zero where none is given, knows every unit
    /// of the DAG and makes what it can. Afterwards it stands at the first
    /// round from there on whose unit it cannot make of the DAG as it then is.
    /// Where the creator is at work already, or the engine is stopped, nothing
    /// happens.
    pub fn start<K: Keychain, D: DataProvider>(
        &mut self,
        starting_round: Option<Round>,
        keys: &K,
        data: &mut D,
    ) -> (reaction: Reaction)
        requires
            old(self).wf(),
        ensures
            final(self).wf(),
            final(self).members() == old(self).members(),
            final(self).stopped() == old(self).stopped(),
            final(self).started() == (old(self).started() || !old(self).stopped()),
            extends(old(self).dag(), final(self).dag()),
            final(self).stream() == old(self).stream() + reaction.batch@,
            final(self).stream() == ordered(final(self).dag(), final(self).members()),
            forall|i: int|
                0 <= i < reaction.outgoing@.len() ==> contains_hash(
                    final(self).dag(),
                    (#[trigger] reaction.outgoing@[i]).header@.hash,
                ),
            old(self).stopped() || old(self).started() ==> {
                &&& final(self).dag() == old(self).dag()
                &&& final(self).next_round() == old(self).next_round()
                &&& final(self).candidates() == old(self).candidates()
                &&& reaction.outgoing@.len() == 0
                &&& reaction.batch@.len() == 0
            },
            !old(self).stopped() && !old(self).started() ==> {
                &&& starting_round_of(starting_round) <= final(self).next_round()
                &&& final(self).could_make(
                    starting_round_of(starting_round),
                    final(self).next_round(),
                )
                &&& final(self).next_round() == starting_round_of(starting_round)
                    || final(self).next_round() <= final(self).dag().len() + 1
                &&& (can_create(
                    hashes_of(old(self).dag(), old(self).members()),
                    old(self).members(),
                    old(self).me(),
                    starting_round_of(starting_round),
                ) ==> starting_round_of(starting_round) < final(self).next_round())
                &&& (!can_create(
                    hashes_of(old(self).dag(), old(self).members()),
                    old(self).members(),
                    old(self).me(),
                    starting_round_of(starting_round),
                ) ==> {
                    &&& final(self).next_round() == starting_round_of(starting_round)
                    &&& final(self).dag() == old(self).dag()
                    &&& reaction.outgoing@.len() == 0
                    &&& reaction.batch@.len() == 0
                })
                &&& (starting_round_of(starting_round) == 0 ==> final(self).next_round() >= 1)
                &&& (old(self).size() == 0 && starting_round_of(starting_round) > 0 ==> {
                    &&& final(self).next_round() == starting_round_of(starting_round)
                    &&& final(self).dag() == old(self).dag()
                    &&& reaction.outgoing@.len() == 0
                })
                &&& !final(self).can_make()
            },
            final(self).started() ==> final(self).candidates() == hashes_of(
                final(self).dag(),
                final(self).members(),
            ),
            final(self).me() == old(self).me(),
            forall|r: int, c: int| #[trigger]
                present(final(self).dag(), r, c) ==> present(old(self).dag(), r, c)
                    || c == old(self).me(),
            forall|i: int|
                0 <= i < reaction.outgoing@.len() ==> (#[trigger] reaction.outgoing@[i])
                    .header.creator == old(self).me(),
            final(self).size() == old(self).size() + reaction.outgoing@.len(),
            forall|i: int, j: int|
                0 <= i < j < reaction.outgoing@.len() ==> (#[trigger] reaction.outgoing@[i])
                    .header.round < (#[trigger] reaction.outgoing@[j]).header.round,
            forall|i: int|
                0 <= i < reaction.outgoing@.len() ==> starting_round_of(starting_round)
                    <= (#[trigger] reaction.outgoing@[i]).header.round < final(self).next_round(),
    {
        let mut outgoing: Vec<Unit> = Vec::new();
        let mut batch: Vec<UnitHash> = Vec::new();
        if self.terminator.is_cancelled() || self.creator.is_some() {
            proof {
                assert(self.stream() =~= self.stream() + batch@);
                self.extender.lemma_stream_is_order();
            }
            return Reaction { outgoing, batch };
        }
        let ghost stream0 = self.stream();
        proof {
            self.terminal.lemma_grid_is_logged();
            self.extender.lemma_stream_is_order();
        }
        self.creator = Creator::from_dag(self.terminal.dag(), self.index, starting_round);
        let ghost ready = self.can_make();
        let ghost r0 = starting_round_of(starting_round);
        proof {
            assert(self.next_round() == r0);
            assert(ready == can_create(
                hashes_of(old(self).dag(), old(self).members()),
                old(self).members(),
                old(self).me(),
                r0,
            ));
            if old(self).size() == 0 && r0 > 0 {
                if r0 - 1 < old(self).dag().len() {
                    assert(!present(old(self).dag(), r0 - 1, self.index as int));
                }
                assert(!ready);
            }
        }
        self.produce(keys, data, &mut outgoing, &mut batch);
        proof {
            let s = self.stream();
            assert(s =~= stream0 + s.subrange(stream0.len() as int, s.len() as int));
            assert(s =~= stream0 + batch@);
            if !ready {
                assert(s == stream0);
                assert(batch@.len() == 0);
            }
        }
        Reaction { outgoing, batch }
    }

    /// The exit is asked for: terminal, creator and extender are told to
    /// stop, and stop. From then on the engine adds no unit, tells nobody of
    /// any and gives nothing out.
    pub fn request_exit(&mut self) -> (phase: Phase)
        requires
            old(self).wf(),
        ensures
            final(self).wf(),
            final(self).stopped(),
            phase == Phase::Stopped,
            final(self).dag() == old(self).dag(),
            final(self).stream() == old(self).stream(),
            final(self).members() == old(self).members(),
            final(self).me() == old(self).me(),
            final(self).size() == old(self).size(),
            final(self).started() == old(self).started(),
    {
        self.terminator.request_exit();
        self.terminator.task_ended(TERMINAL_TASK);
        self.terminator.task_ended(CREATOR_TASK);
        self.terminator.task_ended(EXTENDER_TASK);
        self.terminator.phase()
    }

    /// The round of the unit that the creator makes next; zero while the
    /// creator is not at work.
    pub closed spec fn next_round(&self) -> nat {
        match self.creator {
            Some(creator) => creator.next_round(),
            None => 0,
        }
    }

    /// The candidates that the creator has noted; none while the creator is
    /// not at work.
    pub closed spec fn candidates(&self) -> Candidates {
        match self.creator {
            Some(creator) => creator.candidates(),
            None => Seq::empty(),
        }
    }

    /// Whether the creator could make the unit of every round from `from` up
    /// to, but not including, `to`, given the DAG as it stands.
    pub open spec fn could_make(&self, from: nat, to: nat) -> bool {
        forall|r: nat|
            from <= r < to ==> #[trigger] can_create(
                hashes_of(self.dag(), self.members()),
                self.members(),
                self.me(),
                r,
            )
    }

    /// Whether the creator is at work and can make its next unit as things
    /// stand.
    pub closed spec fn can_make(&self) -> bool {
        match self.creator {
            Some(creator) => can_create(
                creator.candidates(),
                creator.members(),
                creator.me(),
                creator.next_round(),
            ),
            None => false,
        }
    }
}

/// The round that a creator begins with: the one given, or zero where none
/// is given.
pub open spec fn starting_round_of(starting_round: Option<Round>) -> nat {
    match starting_round {
        Some(r) => r as nat,
        None => 0,
    }
}

/// A grid that extends another holds every digest that the other holds.
pub proof fn lemma_contains_kept(a: Grid, b: Grid, h: UnitHash)
    requires
        extends(a, b),
        contains_hash(a, h),
    ensures
        contains_hash(b, h),
{
    let (r, c) = choose|r: int, c: int| #[trigger]
        crate::dag::present(a, r, c) && crate::dag::unit_at(a, r, c).hash == h;
    assert(crate::dag::present(b, r, c));
}

} // verus!
