//! The creator: it makes this participant's units, one per round, each on top
//! of the units of the round before that it has been told of.

use vstd::prelude::*;
use crate::committee::{
    count_true, lemma_count_true_monotone, lemma_count_true_step, quorum, spec_quorum,
};
use crate::crypto::Keychain;
use crate::dag::{
    admissible, grid_insert, lemma_insert_wf, parent_flags, present, shape_ok, unit_at, wf_grid,
    Dag, Grid,
};
use crate::unit::{Header, Node, NodeIndex, PreUnit, Round, Unit, UnitHash};

verus! {

/// For each round and member, the digest of the first unit of that member in
/// that round that the creator was told of.
pub type Candidates = Seq<Seq<Option<UnitHash>>>;

/// For each member, whether it is another member than `index` and `row` holds
/// a candidate of it.
pub open spec fn others_flags(row: Seq<Option<UnitHash>>, index: nat) -> Seq<bool> {
    Seq::new(row.len(), |c: int| c != index && row[c].is_some())
}

/// Whether a unit of round `round` can be made: always in round zero; later,
/// once the creator knows its own unit of the round before and units of that
/// round from a quorum of other members. The round counter's last value is
/// never reached.
pub open spec fn can_create(cands: Candidates, n: nat, index: nat, round: nat) -> bool {
    &&& round < Round::MAX
    &&& round > 0 ==> {
        &&& round - 1 < cands.len()
        &&& cands[round - 1][index as int].is_some()
        &&& count_true(others_flags(cands[round - 1], index)) >= spec_quorum(n)
    }
}

/// The parents of the unit of round `round`: none in round zero, later every
/// candidate of the round before.
pub open spec fn parents_for(cands: Candidates, n: nat, round: nat) -> Seq<Option<UnitHash>> {
    if round == 0 {
        Seq::new(n, |c: int| None)
    } else {
        cands[round - 1]
    }
}

/// Whether the candidate `u` is taken note of: it is a member's unit, its
/// round is at most one above the rounds known so far, and no unit of its
/// creator in its round was noted before.
pub open spec fn noted(cands: Candidates, n: nat, u: Node) -> bool {
    &&& u.creator < n
    &&& u.round <= cands.len()
    &&& u.round < cands.len() ==> cands[u.round as int][u.creator as int].is_none()
}

/// The candidates with `u` noted.
pub open spec fn with_candidate(cands: Candidates, n: nat, u: Node) -> Candidates {
    let base = if u.round == cands.len() {
        cands.push(Seq::new(n, |c: int| None))
    } else {
        cands
    };
    base.update(u.round as int, base[u.round as int].update(u.creator as int, Some(u.hash)))
}

/// The candidates that a grid gives: for each round and member the digest of
/// the unit in the slot, if there is one.
pub open spec fn hashes_of(g: Grid, n: nat) -> Candidates {
    Seq::new(
        g.len(),
        |r: int|
            Seq::new(
                n,
                |c: int|
                    if present(g, r, c) {
                        Some(unit_at(g, r, c).hash)
                    } else {
                        None
                    },
            ),
    )
}

/// A creator that knows a DAG and is told of a unit that is added to it knows
/// the DAG with that unit: the unit is noted, and the candidates are again
/// what the grid gives.
pub proof fn lemma_noting_follows_dag(g: Grid, n: nat, u: Node)
    requires
        wf_grid(g, n),
        admissible(g, n, u),
    ensures
        noted(hashes_of(g, n), n, u),
        with_candidate(hashes_of(g, n), n, u) == hashes_of(grid_insert(g, n, u), n),
{
    lemma_insert_wf(g, n, u);
    let g2 = grid_insert(g, n, u);
    let a = with_candidate(hashes_of(g, n), n, u);
    let b = hashes_of(g2, n);
    assert(a.len() == b.len());
    assert forall|r: int| 0 <= r < b.len() implies #[trigger] a[r] =~= b[r] by {
        assert forall|c: int| 0 <= c < n implies a[r][c] == b[r][c] by {
            if present(g2, r, c) {
                if present(g, r, c) {
                    assert(unit_at(g2, r, c) == unit_at(g, r, c));
                }
            } else {
                if present(g, r, c) {
                    assert(present(g2, r, c));
                }
            }
        }
    }
    assert(a =~= b);
}

/// What a creator can make of a DAG it can make of the DAG with one more
/// unit: a unit that could be made is not withdrawn.
pub proof fn lemma_can_create_kept(g: Grid, n: nat, u: Node, me: nat, round: nat)
    requires
        wf_grid(g, n),
        admissible(g, n, u),
        me < n,
        can_create(hashes_of(g, n), n, me, round),
    ensures
        can_create(hashes_of(grid_insert(g, n, u), n), n, me, round),
{
    lemma_insert_wf(g, n, u);
    if round > 0 {
        let g2 = grid_insert(g, n, u);
        let row = hashes_of(g, n)[round - 1];
        let row2 = hashes_of(g2, n)[round - 1];
        assert(row[me as int].is_some());
        assert(present(g, round - 1, me as int));
        assert(present(g2, round - 1, me as int));
        let a = others_flags(row, me);
        let b = others_flags(row2, me);
        assert forall|c: int| 0 <= c < a.len() && a[c] implies b[c] by {
            assert(present(g, round - 1, c));
            assert(present(g2, round - 1, c));
        }
        lemma_count_true_monotone(a, b);
    }
}

/// Fork containment at the creator: of the units of one member in one round
/// the creator notes the first it is told of and no other, so that the
/// parents of a unit that it makes never name two of them.
pub proof fn lemma_second_candidate_passed_over(cands: Candidates, n: nat, first: Node, second: Node)
    requires
        noted(cands, n, first),
        second.round == first.round,
        second.creator == first.creator,
        forall|r: int| 0 <= r < cands.len() ==> (#[trigger] cands[r]).len() == n,
    ensures
        !noted(with_candidate(cands, n, first), n, second),
        with_candidate(cands, n, first)[first.round as int][first.creator as int] == Some(
            first.hash,
        ),
{
}

/// The creator of one participant.
pub struct Creator {
    n_members: usize,
    index: NodeIndex,
    round: Round,
    rows: Vec<Vec<Option<UnitHash>>>,
}

fn no_parents(n: usize) -> (row: Vec<Option<UnitHash>>)
    ensures
        row@ == Seq::new(n as nat, |c: int| None::<UnitHash>),
{
    let mut row: Vec<Option<UnitHash>> = Vec::new();
    let mut c: usize = 0;
    while c < n
        invariant
            c <= n,
            row.len() == c,
            forall|j: int| 0 <= j < c ==> row[j].is_none(),
        decreases n - c,
    {
        row.push(None);
        c += 1;
    }
    proof {
        assert(row@ =~= Seq::new(n as nat, |c: int| None::<UnitHash>));
    }
    row
}

impl Creator {
    /// The candidates noted so far.
    pub closed spec fn candidates(&self) -> Candidates {
        Seq::new(self.rows.len() as nat, |r: int| self.rows[r]@)
    }

    /// The size of the committee.
    pub closed spec fn members(&self) -> nat {
        self.n_members as nat
    }

    /// This participant's index.
    pub closed spec fn me(&self) -> nat {
        self.index as nat
    }

    /// The round of the unit to be made next.
    pub closed spec fn next_round(&self) -> nat {
        self.round as nat
    }

    /// The invariant of the creator.
    pub closed spec fn wf(&self) -> bool {
        &&& self.index < self.n_members
        &&& self.rows.len() <= 0x1_0000_0000
        &&& forall|r: int|
            0 <= r < self.rows.len() ==> (#[trigger] self.rows[r]).len() == self.n_members
    }

    /// What the invariant says to the outside: this participant is a member,
    /// and the candidates of each round have one slot per member.
    pub proof fn lemma_candidates_shape(&self)
        requires
            self.wf(),
        ensures
            self.me() < self.members(),
            forall|r: int|
                0 <= r < self.candidates().len() ==> (#[trigger] self.candidates()[r]).len()
                    == self.members(),
    {
    }

    /// A creator for member `index` of the committee of `dag`, which knows
    /// every unit of `dag` and begins with the round `starting_round`, or with
    /// round zero where none is given. There is none for an index outside the
    /// committee.
    pub fn from_dag(dag: &Dag, index: NodeIndex, starting_round: Option<Round>) -> (made: Option<
        Creator,
    >)
        requires
            dag.wf(),
        ensures
            made.is_some() == (index < dag.members()),
            match made {
                Some(creator) => {
                    &&& creator.wf()
                    &&& creator.members() == dag.members()
                    &&& creator.me() == index
                    &&& creator.candidates() == hashes_of(dag@, dag.members())
                    &&& creator.next_round() == match starting_round {
                        Some(r) => r as nat,
                        None => 0,
                    }
                },
                None => true,
            },
    {
        let n = dag.n_members();
        if index >= n {
            return None;
        }
        let round = match starting_round {
            Some(r) => r,
            None => 0,
        };
        proof {
            dag.lemma_view_shape();
        }
        let height = dag.rounds();
        let mut rows: Vec<Vec<Option<UnitHash>>> = Vec::new();
        let mut r: usize = 0;
        while r < height
            invariant
                r <= height,
                height == dag@.len(),
                height <= 0x1_0000_0000,
                n == dag.members(),
                rows.len() == r,
                forall|i: int| 0 <= i < r ==> (#[trigger] rows[i])@ == hashes_of(dag@, n as nat)[i],
            decreases height - r,
        {
            let mut row: Vec<Option<UnitHash>> = Vec::new();
            let mut c: usize = 0;
            while c < n
                invariant
                    c <= n,
                    r < height,
                    height == dag@.len(),
                    height <= 0x1_0000_0000,
                    row.len() == c,
                    forall|j: int|
                        0 <= j < c ==> #[trigger] row[j] == hashes_of(dag@, n as nat)[r as int][j],
                decreases n - c,
            {
                let slot = match dag.get(r as Round, c) {
                    Some(h) => Some(h.hash),
                    None => None,
                };
                row.push(slot);
                c += 1;
            }
            proof {
                assert(row@ =~= hashes_of(dag@, n as nat)[r as int]);
            }
            rows.push(row);
            r += 1;
        }
        let creator = Creator { n_members: n, index, round, rows };
        proof {
            assert(creator.candidates() =~= hashes_of(dag@, n as nat));
        }
        Some(creator)
    }

    /// A creator for member `index` of a committee of `n_members`, which
    /// begins with the round `starting_round`, or with round zero where none
    /// is given. There is none for an index outside the committee.
    pub fn new(n_members: usize, index: NodeIndex, starting_round: Option<Round>) -> (made: Option<
        Creator,
    >)
        ensures
            made.is_some() == (index < n_members),
            match made {
                Some(creator) => {
                    &&& creator.wf()
                    &&& creator.members() == n_members
                    &&& creator.me() == index
                    &&& creator.candidates().len() == 0
                    &&& creator.next_round() == match starting_round {
                        Some(r) => r as nat,
                        None => 0,
                    }
                },
                None => true,
            },
    {
        if index < n_members {
            let round = match starting_round {
                Some(r) => r,
                None => 0,
            };
            Some(Creator { n_members, index, round, rows: Vec::new() })
        } else {
            None
        }
    }

    /// The round of the unit to be made next.
    pub fn round(&self) -> (r: Round)
        ensures
            r == self.next_round(),
    {
        self.round
    }

    /// Takes note of a unit that was added to the DAG. Of two units of one
    /// member in one round only the first is noted, so that a fork never
    /// yields two parents.
    pub fn add_candidate(&mut self, header: &Header)
        requires
            old(self).wf(),
        ensures
            final(self).wf(),
            final(self).members() == old(self).members(),
            final(self).me() == old(self).me(),
            final(self).next_round() == old(self).next_round(),
            final(self).candidates() == if noted(
                old(self).candidates(),
                old(self).members(),
                header@,
            ) {
                with_candidate(old(self).candidates(), old(self).members(), header@)
            } else {
                old(self).candidates()
            },
    {
        let r = header.round as usize;
        let c = header.creator;
        let ghost before = self.candidates();
        if c >= self.n_members || r > self.rows.len() {
            return ;
        }
        if r < self.rows.len() && self.rows[r][c].is_some() {
            return ;
        }
        if r == self.rows.len() {
            let row = no_parents(self.n_members);
            self.rows.push(row);
        }
        self.rows[r][c] = Some(header.hash);
        proof {
            let after = with_candidate(before, self.n_members as nat, header@);
            assert(self.candidates().len() == after.len());
            assert forall|i: int| 0 <= i < after.len() implies #[trigger] self.candidates()[i]
                =~= after[i] by {}
            assert(self.candidates() =~= after);
        }
    }

    /// Whether the unit of the next round can be made.
    pub fn ready(&self) -> (b: bool)
        requires
            self.wf(),
        ensures
            b == can_create(self.candidates(), self.members(), self.me(), self.next_round()),
    {
        if self.round == Round::MAX {
            return false;
        }
        if self.round == 0 {
            return true;
        }
        let below = (self.round - 1) as usize;
        if below >= self.rows.len() {
            return false;
        }
        if self.rows[below][self.index].is_none() {
            return false;
        }
        let n = self.n_members;
        let ghost flags = others_flags(self.rows[below as int]@, self.index as nat);
        let mut count: usize = 0;
        let mut c: usize = 0;
        while c < n
            invariant
                c <= n,
                n == self.n_members,
                below < self.rows.len(),
                self.rows[below as int].len() == n,
                flags == others_flags(self.rows[below as int]@, self.index as nat),
                count == count_true(flags.take(c as int)),
                count <= c,
            decreases n - c,
        {
            proof {
                lemma_count_true_step(flags, c as int);
            }
            if c != self.index && self.rows[below][c].is_some() {
                count += 1;
            }
            c += 1;
        }
        proof {
            assert(flags.take(n as int) =~= flags);
            assert(self.candidates()[below as int] == self.rows[below as int]@);
        }
        count >= quorum(n)
    }

    /// Makes the unit of the next round, if it can be made, and moves on to
    /// the round after it. The unit names as parents all the candidates of
    /// the round before, so as many distinct creators as are known; it is
    /// well shaped whatever digest it is given.
    pub fn create(&mut self) -> (made: Option<PreUnit>)
        requires
            old(self).wf(),
        ensures
            final(self).wf(),
            final(self).members() == old(self).members(),
            final(self).me() == old(self).me(),
            final(self).candidates() == old(self).candidates(),
            made.is_some() == can_create(
                old(self).candidates(),
                old(self).members(),
                old(self).me(),
                old(self).next_round(),
            ),
            match made {
                Some(pre) => {
                    &&& pre.creator == old(self).me()
                    &&& pre.round == old(self).next_round()
                    &&& pre.parents@ == parents_for(
                        old(self).candidates(),
                        old(self).members(),
                        old(self).next_round(),
                    )
                    &&& final(self).next_round() == old(self).next_round() + 1
                    &&& forall|h: UnitHash|
                        shape_ok(
                            #[trigger] unit_of(pre, h),
                            old(self).members(),
                        )
                },
                None => final(self).next_round() == old(self).next_round(),
            },
    {
        if !self.ready() {
            return None;
        }
        let round = self.round;
        let parents = if round == 0 {
            no_parents(self.n_members)
        } else {
            self.rows[(round - 1) as usize].clone()
        };
        let pre = PreUnit { creator: self.index, round, parents };
        self.round = round + 1;
        proof {
            let n = self.n_members as nat;
            if round > 0 {
                let row = self.rows[round - 1]@;
                assert(self.candidates()[round - 1] == row);
                assert forall|h: UnitHash| shape_ok(#[trigger] unit_of(pre, h), n) by {
                    let u = unit_of(pre, h);
                    let a = others_flags(row, self.index as nat);
                    let b = parent_flags(u);
                    lemma_count_true_monotone(a, b);
                }
            }
        }
        Some(pre)
    }

    /// Makes the unit of the next round with `payload`, if it can be made:
    /// what `create` makes, under the digest that `keys` gives it and with the
    /// signature that `keys` puts to that digest.
    pub fn create_unit<K: Keychain>(&mut self, payload: Vec<u8>, keys: &K) -> (made: Option<Unit>)
        requires
            old(self).wf(),
        ensures
            final(self).wf(),
            final(self).members() == old(self).members(),
            final(self).me() == old(self).me(),
            final(self).candidates() == old(self).candidates(),
            made.is_some() == can_create(
                old(self).candidates(),
                old(self).members(),
                old(self).me(),
                old(self).next_round(),
            ),
            match made {
                Some(unit) => {
                    &&& unit.header.creator == old(self).me()
                    &&& unit.header.round == old(self).next_round()
                    &&& unit.header.parents@ == parents_for(
                        old(self).candidates(),
                        old(self).members(),
                        old(self).next_round(),
                    )
                    &&& unit.payload == payload
                    &&& final(self).next_round() == old(self).next_round() + 1
                    &&& shape_ok(unit.header@, old(self).members())
                },
                None => final(self).next_round() == old(self).next_round(),
            },
    {
        match self.create() {
            Some(pre) => {
                let hash = keys.digest(pre.creator, pre.round, &pre.parents, &payload);
                let signature = keys.sign(hash);
                proof {
                    assert(shape_ok(unit_of(pre, hash), old(self).members()));
                }
                let header = Header {
                    creator: pre.creator,
                    round: pre.round,
                    parents: pre.parents,
                    hash,
                };
                Some(Unit { header, payload, signature })
            },
            None => None,
        }
    }
}

/// The header content of `pre` under the digest `h`.
pub open spec fn unit_of(pre: PreUnit, h: UnitHash) -> Node {
    Node { creator: pre.creator as nat, round: pre.round as nat, parents: pre.parents@, hash: h }
}

} // verus!
