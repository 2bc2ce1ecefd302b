//! The DAG of units, laid out as a grid: one row per round, one slot per
//! committee member.
//!
//! A member has at most one unit in a round, so a slot either is empty or
//! holds that unit. Units refer to their parents by digest; in a well-formed
//! grid each such digest is the one found in the parent's slot one row below.

use std::collections::HashMap;
use vstd::prelude::*;
use vstd::std_specs::hash::group_hash_axioms;
use crate::committee::{count_true, lemma_count_true_step, quorum, spec_quorum};
use crate::unit::{Header, Node, NodeIndex, Round, UnitHash};

verus! {

/// Row `r`, slot `c` holds the unit that member `c` made in round `r`, if it
/// is there.
pub type Grid = Seq<Seq<Option<Node>>>;

/// Whether the grid holds a unit of member `c` in round `r`.
pub open spec fn present(g: Grid, r: int, c: int) -> bool {
    0 <= r < g.len() && 0 <= c < g[r].len() && g[r][c].is_some()
}

/// The unit of member `c` in round `r`.
pub open spec fn unit_at(g: Grid, r: int, c: int) -> Node
    recommends
        present(g, r, c),
{
    g[r][c].unwrap()
}

/// Whether `u` names a parent made by member `k`.
pub open spec fn has_parent(u: Node, k: int) -> bool {
    0 <= k < u.parents.len() && u.parents[k].is_some()
}

/// For each member, whether `u` names a parent made by it.
pub open spec fn parent_flags(u: Node) -> Seq<bool> {
    Seq::new(u.parents.len(), |k: int| u.parents[k].is_some())
}

/// What can be told of a unit by looking at it alone: its creator is a member,
/// it has one parent slot per member, a unit of round zero names no parent and
/// a later one names parents made by a quorum of distinct members.
pub open spec fn shape_ok(u: Node, n: nat) -> bool {
    &&& u.creator < n
    &&& u.parents.len() == n
    &&& u.round == 0 ==> forall|k: int| 0 <= k < n ==> u.parents[k].is_none()
    &&& u.round > 0 ==> count_true(parent_flags(u)) >= spec_quorum(n)
}

/// Every parent that `u` names is the unit in the grid that the named member
/// made in the round just before `u`'s.
pub open spec fn parents_resolve(g: Grid, u: Node) -> bool {
    forall|k: int| #[trigger]
        has_parent(u, k) ==> present(g, u.round - 1, k) && unit_at(g, u.round - 1, k).hash
            == u.parents[k].unwrap()
}

/// Whether some unit in the grid has the digest `h`.
pub open spec fn contains_hash(g: Grid, h: UnitHash) -> bool {
    exists|r: int, c: int| #[trigger] present(g, r, c) && unit_at(g, r, c).hash == h
}

/// Whether `u` may be added to the grid: it is well shaped, its parents are in
/// the grid in the round before its own, its slot is still empty (a second
/// unit of one member in one round is a fork and is refused) and its digest is
/// not yet known.
pub open spec fn admissible(g: Grid, n: nat, u: Node) -> bool {
    &&& shape_ok(u, n)
    &&& parents_resolve(g, u)
    &&& u.round <= g.len()
    &&& !present(g, u.round as int, u.creator as int)
    &&& !contains_hash(g, u.hash)
}

/// The grid with `u` put into its slot, on a new row if `u` opens a round.
pub open spec fn grid_insert(g: Grid, n: nat, u: Node) -> Grid {
    let base = if u.round == g.len() {
        g.push(Seq::new(n, |c: int| None))
    } else {
        g
    };
    base.update(u.round as int, base[u.round as int].update(u.creator as int, Some(u)))
}

/// The unit in slot `(r, c)` belongs there and is admissibly linked downward.
pub open spec fn wf_cell(g: Grid, n: nat, r: int, c: int) -> bool {
    let u = unit_at(g, r, c);
    &&& u.round == r
    &&& u.creator == c
    &&& shape_ok(u, n)
    &&& parents_resolve(g, u)
}

/// Well-formedness of a grid for a committee of `n`: rows have `n` slots, each
/// unit sits in the slot of its creator and round with its parents below it,
/// and no digest occurs twice.
pub open spec fn wf_grid(g: Grid, n: nat) -> bool {
    &&& forall|r: int| 0 <= r < g.len() ==> (#[trigger] g[r]).len() == n
    &&& forall|r: int, c: int| #[trigger] present(g, r, c) ==> wf_cell(g, n, r, c)
    &&& forall|r1: int, c1: int, r2: int, c2: int|
        #[trigger] present(g, r1, c1) && #[trigger] present(g, r2, c2) && unit_at(g, r1, c1).hash
            == unit_at(g, r2, c2).hash ==> r1 == r2 && c1 == c2
}

/// `g2` holds every unit of `g1`, in the same slot.
pub open spec fn extends(g1: Grid, g2: Grid) -> bool {
    forall|r: int, c: int| #[trigger]
        present(g1, r, c) ==> present(g2, r, c) && unit_at(g2, r, c) == unit_at(g1, r, c)
}

/// Adding an admissible unit keeps the grid well formed, keeps every unit
/// where it was and fills exactly the new unit's slot.
pub proof fn lemma_insert_wf(g: Grid, n: nat, u: Node)
    requires
        wf_grid(g, n),
        admissible(g, n, u),
    ensures
        wf_grid(grid_insert(g, n, u), n),
        extends(g, grid_insert(g, n, u)),
        present(grid_insert(g, n, u), u.round as int, u.creator as int),
        unit_at(grid_insert(g, n, u), u.round as int, u.creator as int) == u,
        forall|r: int, c: int| #[trigger]
            present(grid_insert(g, n, u), r, c) ==> present(g, r, c) || (r == u.round && c
                == u.creator),
        grid_insert(g, n, u).len() == if u.round == g.len() {
            g.len() + 1
        } else {
            g.len()
        },
{
    let g2 = grid_insert(g, n, u);
    assert forall|r: int, c: int| #[trigger] present(g2, r, c) implies present(g, r, c) || (r
        == u.round && c == u.creator) by {}
    assert forall|r: int, c: int| #[trigger] present(g, r, c) implies present(g2, r, c)
        && unit_at(g2, r, c) == unit_at(g, r, c) by {}
    assert forall|r: int, c: int| #[trigger] present(g2, r, c) implies wf_cell(g2, n, r, c) by {
        let w = unit_at(g2, r, c);
        if present(g, r, c) {
            assert(wf_cell(g, n, r, c));
            assert(w == unit_at(g, r, c));
        } else {
            assert(w == u);
        }
        assert forall|k: int| #[trigger] has_parent(w, k) implies present(g2, w.round - 1, k)
            && unit_at(g2, w.round - 1, k).hash == w.parents[k].unwrap() by {
            assert(present(g, w.round - 1, k));
        }
    }
    assert forall|r1: int, c1: int, r2: int, c2: int|
        #[trigger] present(g2, r1, c1) && #[trigger] present(g2, r2, c2) && unit_at(
            g2,
            r1,
            c1,
        ).hash == unit_at(g2, r2, c2).hash implies r1 == r2 && c1 == c2 by {
        if present(g, r1, c1) && present(g, r2, c2) {
        } else if present(g, r1, c1) {
            assert(unit_at(g, r1, c1).hash == u.hash);
        } else if present(g, r2, c2) {
            assert(unit_at(g, r2, c2).hash == u.hash);
        }
    }
}

/// Why a unit was not added to the DAG.
#[derive(Debug, Clone, Copy, PartialEq, Eq, Structural)]
pub enum InsertError {
    /// The unit is malformed, is a second unit of its creator in its round,
    /// or names as a parent another unit than the one that the DAG holds in
    /// the parent's slot. It will never be added.
    InvalidUnit,
    /// A unit with this digest is in the DAG already.
    Duplicate,
    /// The unit is well formed and fits what the DAG holds, but it names a
    /// parent that the DAG does not hold. It may be offered again once its
    /// parents have arrived.
    MissingParents,
}

/// How a unit stands to a grid, its digest left aside.
#[derive(Debug, Clone, Copy, PartialEq, Eq, Structural)]
pub enum Fit {
    /// The unit can be added as the grid stands.
    Fits,
    /// The unit can be added once the parents that it names have arrived.
    Waits,
    /// The unit can never be added.
    Never,
}

/// Whether `u` names as a parent another unit than the one that the grid
/// holds in the parent's slot.
pub open spec fn names_other(g: Grid, u: Node) -> bool {
    exists|k: int| #[trigger]
        has_parent(u, k) && present(g, u.round - 1, k) && unit_at(g, u.round - 1, k).hash
            != u.parents[k].unwrap()
}

/// Whether `u` names a parent whose slot in the grid is empty.
pub open spec fn awaits_parent(g: Grid, u: Node) -> bool {
    exists|k: int| #[trigger] has_parent(u, k) && !present(g, u.round - 1, k)
}

/// How `u` stands to the grid. It can never be added if it is not well
/// shaped, if its slot is taken or if it builds on a unit that the grid does
/// not hold in its slot; else it waits while a parent is missing, and fits
/// once none is.
pub open spec fn fit_of(g: Grid, n: nat, u: Node) -> Fit {
    if !shape_ok(u, n) || present(g, u.round as int, u.creator as int) || names_other(g, u) {
        Fit::Never
    } else if awaits_parent(g, u) {
        Fit::Waits
    } else {
        Fit::Fits
    }
}

/// A unit fits exactly if it is admissible but for its digest being new.
pub proof fn lemma_fits_is_admissible(g: Grid, n: nat, u: Node)
    ensures
        fit_of(g, n, u) == Fit::Fits <==> shape_ok(u, n) && parents_resolve(g, u) && u.round
            <= g.len() && !present(g, u.round as int, u.creator as int),
        admissible(g, n, u) <==> fit_of(g, n, u) == Fit::Fits && !contains_hash(g, u.hash),
{
    if fit_of(g, n, u) == Fit::Fits {
        assert forall|k: int| #[trigger] has_parent(u, k) implies present(g, u.round - 1, k)
            && unit_at(g, u.round - 1, k).hash == u.parents[k].unwrap() by {}
        if u.round > 0 {
            crate::committee::lemma_quorum_overlap(n);
            let k = crate::committee::lemma_count_true_witness(parent_flags(u));
            assert(has_parent(u, k));
        }
    }
}

/// The DAG. It only grows: a unit, once added, stays as it is.
pub struct Dag {
    n_members: usize,
    rows: Vec<Vec<Option<Header>>>,
    /// Where the unit with a given digest sits.
    index: HashMap<UnitHash, (Round, NodeIndex)>,
}

pub open spec fn slot_view(slot: Option<Header>) -> Option<Node> {
    match slot {
        Some(h) => Some(h@),
        None => None,
    }
}

impl View for Dag {
    type V = Grid;

    closed spec fn view(&self) -> Grid {
        Seq::new(
            self.rows.len() as nat,
            |r: int| Seq::new(self.rows[r].len() as nat, |c: int| slot_view(self.rows[r][c])),
        )
    }
}

fn empty_row(n: usize) -> (row: Vec<Option<Header>>)
    ensures
        row.len() == n,
        forall|c: int| 0 <= c < n ==> row[c].is_none(),
{
    let mut row: Vec<Option<Header>> = Vec::new();
    let mut c: usize = 0;
    while c < n
        invariant
            c <= n,
            row.len() == c,
            forall|j: int| 0 <= j < c ==> row[j].is_none(),
        decreases n - c,
    {
        row.push(None);
        c += 1;
    }
    row
}

impl Dag {
    /// The size of the committee whose units this DAG holds.
    pub closed spec fn members(&self) -> nat {
        self.n_members as nat
    }

    /// The invariant of the DAG.
    pub closed spec fn wf(&self) -> bool {
        &&& wf_grid(self@, self.n_members as nat)
        &&& self.rows.len() <= 0x1_0000_0000
        &&& forall|h: UnitHash| #[trigger]
            self.index@.contains_key(h) ==> present(
                self@,
                self.index@[h].0 as int,
                self.index@[h].1 as int,
            ) && unit_at(self@, self.index@[h].0 as int, self.index@[h].1 as int).hash == h
        &&& forall|r: int, c: int| #[trigger]
            present(self@, r, c) ==> self.index@.contains_key(unit_at(self@, r, c).hash)
    }

    /// The grid is as the invariant says, for the committee of this DAG.
    pub proof fn lemma_view_shape(&self)
        requires
            self.wf(),
        ensures
            wf_grid(self@, self.members()),
            self@.len() <= 0x1_0000_0000,
    {
    }

    /// An empty DAG for a committee of `n_members`.
    pub fn new(n_members: usize) -> (dag: Dag)
        ensures
            dag.wf(),
            dag@.len() == 0,
            dag.members() == n_members,
    {
        Dag { n_members, rows: Vec::new(), index: HashMap::new() }
    }

    pub fn n_members(&self) -> (n: usize)
        ensures
            n == self.members(),
    {
        self.n_members
    }

    /// The number of rounds that the DAG has rows for.
    pub fn rounds(&self) -> (k: usize)
        ensures
            k == self@.len(),
    {
        self.rows.len()
    }

    /// The unit of member `creator` in round `round`, if the DAG holds it.
    pub fn get(&self, round: Round, creator: NodeIndex) -> (unit: Option<&Header>)
        ensures
            match unit {
                Some(h) => present(self@, round as int, creator as int) && h@ == unit_at(
                    self@,
                    round as int,
                    creator as int,
                ),
                None => !present(self@, round as int, creator as int),
            },
    {
        let r = round as usize;
        if r < self.rows.len() && creator < self.rows[r].len() {
            self.rows[r][creator].as_ref()
        } else {
            None
        }
    }

    /// The round of the latest unit of member `creator`, if the DAG holds a
    /// unit of it.
    pub fn head(&self, creator: NodeIndex) -> (latest: Option<Round>)
        requires
            self.wf(),
        ensures
            match latest {
                Some(r) => present(self@, r as int, creator as int) && forall|above: int|
                    r < above ==> !present(self@, above, creator as int),
                None => forall|r: int| !present(self@, r, creator as int),
            },
    {
        let mut r: usize = self.rows.len();
        while r > 0
            invariant
                r <= self.rows.len(),
                self.rows.len() <= 0x1_0000_0000,
                forall|above: int| r <= above ==> !present(self@, above, creator as int),
            decreases r,
        {
            r -= 1;
            if creator < self.rows[r].len() && self.rows[r][creator].is_some() {
                return Some(r as Round);
            }
        }
        None
    }

    /// Where the unit with digest `hash` sits, if the DAG holds it.
    pub fn find(&self, hash: UnitHash) -> (at: Option<(Round, NodeIndex)>)
        requires
            self.wf(),
        ensures
            match at {
                Some((r, c)) => present(self@, r as int, c as int) && unit_at(
                    self@,
                    r as int,
                    c as int,
                ).hash == hash,
                None => !contains_hash(self@, hash),
            },
    {
        broadcast use group_hash_axioms;

        match self.index.get(&hash) {
            Some(at) => Some(*at),
            None => None,
        }
    }

    /// Whether the DAG holds a unit with digest `hash`.
    pub fn contains(&self, hash: UnitHash) -> (b: bool)
        requires
            self.wf(),
        ensures
            b == contains_hash(self@, hash),
    {
        self.find(hash).is_some()
    }

    /// How `h` stands to the DAG, its digest left aside.
    pub fn fit(&self, h: &Header) -> (fit: Fit)
        requires
            self.wf(),
        ensures
            fit == fit_of(self@, self.members(), h@),
    {
        let n = self.n_members;
        if h.creator >= n || h.parents.len() != n {
            return Fit::Never;
        }
        let r = h.round as usize;
        if r < self.rows.len() {
            assert(self@[r as int].len() == n);
            if self.rows[r][h.creator].is_some() {
                return Fit::Never;
            }
        }
        let ghost flags = parent_flags(h@);
        let ghost g = self@;
        let mut count: usize = 0;
        let mut other = false;
        let mut missing = false;
        let mut k: usize = 0;
        while k < n
            invariant
                k <= n,
                n == self.n_members,
                h.parents.len() == n,
                self.wf(),
                g == self@,
                r == h.round,
                flags == parent_flags(h@),
                count == count_true(flags.take(k as int)),
                count <= k,
                count == 0 <==> forall|j: int| 0 <= j < k ==> h@.parents[j].is_none(),
                other <==> exists|j: int|
                    0 <= j < k && #[trigger] has_parent(h@, j) && present(g, r - 1, j) && unit_at(
                        g,
                        r - 1,
                        j,
                    ).hash != h@.parents[j].unwrap(),
                missing <==> exists|j: int|
                    0 <= j < k && #[trigger] has_parent(h@, j) && !present(g, r - 1, j),
            decreases n - k,
        {
            proof {
                lemma_count_true_step(flags, k as int);
            }
            match h.parents[k] {
                Some(digest) => {
                    assert(has_parent(h@, k as int));
                    if r > 0 && r - 1 < self.rows.len() {
                        assert(self@[r - 1].len() == n);
                        match &self.rows[r - 1][k] {
                            Some(p) => {
                                if p.hash != digest {
                                    other = true;
                                }
                            },
                            None => {
                                missing = true;
                            },
                        }
                    } else {
                        missing = true;
                    }
                    count += 1;
                },
                None => {},
            }
            k += 1;
        }
        proof {
            assert(flags.take(n as int) =~= flags);
            if other {
                let j = choose|j: int|
                    0 <= j < n && #[trigger] has_parent(h@, j) && present(g, r - 1, j) && unit_at(
                        g,
                        r - 1,
                        j,
                    ).hash != h@.parents[j].unwrap();
                assert(names_other(g, h@));
            }
            if missing {
                let j = choose|j: int|
                    0 <= j < n && #[trigger] has_parent(h@, j) && !present(g, r - 1, j);
                assert(awaits_parent(g, h@));
            }
        }
        let well_shaped = if r == 0 {
            count == 0
        } else {
            count >= quorum(n)
        };
        if !well_shaped || other {
            Fit::Never
        } else if missing {
            Fit::Waits
        } else {
            Fit::Fits
        }
    }

    /// Whether `h` may be added as the DAG stands.
    pub fn admits(&self, h: &Header) -> (b: bool)
        requires
            self.wf(),
        ensures
            b == admissible(self@, self.members(), h@),
    {
        proof {
            lemma_fits_is_admissible(self@, self.members(), h@);
        }
        !self.contains(h.hash) && self.fit(h) == Fit::Fits
    }

    /// Adds a unit. A unit whose digest is known is a duplicate. Of the
    /// others, one that fits is added, one that waits for a parent is answered
    /// with `MissingParents`, and one that can never be added is invalid. A
    /// unit that is not added leaves the DAG as it was.
    pub fn insert(&mut self, header: Header) -> (res: Result<(), InsertError>)
        requires
            old(self).wf(),
        ensures
            final(self).wf(),
            final(self).members() == old(self).members(),
            res == insert_outcome(old(self)@, old(self).members(), header@),
            res.is_ok() == admissible(old(self)@, old(self).members(), header@),
            res.is_ok() ==> final(self)@ == grid_insert(old(self)@, old(self).members(), header@),
            res.is_err() ==> final(self)@ == old(self)@,
    {
        if self.contains(header.hash) {
            return Err(InsertError::Duplicate);
        }
        proof {
            lemma_fits_is_admissible(self@, self.members(), header@);
        }
        match self.fit(&header) {
            Fit::Never => {
                return Err(InsertError::InvalidUnit);
            },
            Fit::Waits => {
                return Err(InsertError::MissingParents);
            },
            Fit::Fits => {},
        }
        let r = header.round as usize;
        let c = header.creator;
        let ghost u = header@;
        let ghost g = self@;
        let ghost n = self.n_members as nat;
        if r == self.rows.len() {
            let row = empty_row(self.n_members);
            self.rows.push(row);
        }
        let hash = header.hash;
        let round = header.round;
        let ghost index_before = self.index@;
        self.rows[r][c] = Some(header);
        self.index.insert(hash, (round, c));
        proof {
            broadcast use group_hash_axioms;

            let g2 = grid_insert(g, n, u);
            lemma_insert_wf(g, n, u);
            assert(self@.len() == g2.len());
            assert forall|i: int| 0 <= i < g2.len() implies #[trigger] self@[i] =~= g2[i] by {
                if i < g.len() {
                    assert(g[i].len() == n);
                }
            }
            assert(self@ =~= g2);
            assert(self.index@ == index_before.insert(hash, (round, c)));
            assert forall|h: UnitHash| #[trigger] self.index@.contains_key(h) implies present(
                g2,
                self.index@[h].0 as int,
                self.index@[h].1 as int,
            ) && unit_at(g2, self.index@[h].0 as int, self.index@[h].1 as int).hash == h by {
                if h != hash {
                    assert(index_before.contains_key(h));
                    assert(present(g, index_before[h].0 as int, index_before[h].1 as int));
                }
            }
            assert forall|r: int, c: int| #[trigger] present(g2, r, c) implies self.index@.contains_key(
                unit_at(g2, r, c).hash,
            ) by {
                if present(g, r, c) {
                    assert(index_before.contains_key(unit_at(g, r, c).hash));
                }
            }
        }
        Ok(())
    }
}

/// What adding `u` to `g` answers.
pub open spec fn insert_outcome(g: Grid, n: nat, u: Node) -> Result<(), InsertError> {
    if contains_hash(g, u.hash) {
        Err(InsertError::Duplicate)
    } else {
        match fit_of(g, n, u) {
            Fit::Fits => Ok(()),
            Fit::Waits => Err(InsertError::MissingParents),
            Fit::Never => Err(InsertError::InvalidUnit),
        }
    }
}

/// A unit is added exactly if it is admissible.
pub proof fn lemma_added_is_admissible(g: Grid, n: nat, u: Node)
    ensures
        insert_outcome(g, n, u).is_ok() <==> admissible(g, n, u),
{
    lemma_fits_is_admissible(g, n, u);
}

/// Fork containment: a grid holds at most one unit of a member in a round,
/// and a second one is never added. Whatever unit comes for an occupied slot
/// is a duplicate, if its digest is known, and invalid otherwise.
pub proof fn lemma_second_unit_in_slot_refused(g: Grid, n: nat, u: Node)
    requires
        present(g, u.round as int, u.creator as int),
    ensures
        !admissible(g, n, u),
        insert_outcome(g, n, u).is_err(),
        insert_outcome(g, n, u) == Err::<(), InsertError>(InsertError::InvalidUnit) <==> unit_at(
            g,
            u.round as int,
            u.creator as int,
        ).hash != u.hash && !contains_hash(g, u.hash),
{
}

} // verus!
