//! The extender: it follows the DAG as it grows and extends the total order
//! whenever a further wave is decided.

use vstd::prelude::*;
use crate::committee::{count_true, lemma_count_true_step, quorum};
use crate::dag::{admissible, grid_insert, lemma_insert_wf, wf_grid, Dag, Grid};
use crate::order::{
    anchor_round, batch, batch_row, batch_rows, before_last, chain, chain_below, decided,
    flatten, has_anchor, in_batch, leader, ordered, takes, top_wave, vote_flags, voting_round,
};
use crate::order_lemmas::{
    lemma_chain_split, lemma_decided_anchor, lemma_decided_locked, lemma_decided_monotone,
    lemma_insert_keeps_order, lemma_newly_decided, lemma_order_kept, lemma_top_wave,
    lemma_top_wave_is,
};
use crate::reach::{ancestry, lemma_reaches_parent_round, lemma_reaches_present, reaches};
use crate::unit::{Header, NodeIndex, Round, UnitHash};

verus! {

/// The waves of `desc`, which lists them falling, in rising order.
pub open spec fn rising(desc: Seq<Round>) -> Seq<nat> {
    Seq::new(desc.len(), |i: int| desc[desc.len() - 1 - i] as nat)
}

/// A wave that may be absent, as a mathematical value.
pub open spec fn wave_of(w: Option<Round>) -> Option<nat> {
    match w {
        Some(p) => Some(p as nat),
        None => None,
    }
}

fn leader_of(w: Round, n: usize) -> (l: NodeIndex)
    requires
        n >= 1,
    ensures
        l == leader(w as nat, n as nat),
        l < n,
{
    (w as usize) % n
}

/// The number of members that have voted for the anchor of wave `w`.
fn count_votes(dag: &Dag, w: Round) -> (votes: usize)
    requires
        dag.wf(),
        dag.members() >= 1,
        2 * w + 1 <= Round::MAX,
    ensures
        votes == count_true(vote_flags(dag@, dag.members(), w as nat)),
{
    let n = dag.n_members();
    let l = leader_of(w, n);
    let round: Round = 2 * w + 1;
    let ghost flags = vote_flags(dag@, n as nat, w as nat);
    let mut votes: usize = 0;
    let mut c: usize = 0;
    while c < n
        invariant
            c <= n,
            n == dag.members(),
            l == leader(w as nat, n as nat),
            round == voting_round(w as nat),
            flags == vote_flags(dag@, n as nat, w as nat),
            votes == count_true(flags.take(c as int)),
            votes <= c,
        decreases n - c,
    {
        proof {
            lemma_count_true_step(flags, c as int);
        }
        match dag.get(round, c) {
            Some(h) => {
                if l < h.parents.len() && h.parents[l].is_some() {
                    votes += 1;
                }
            },
            None => {},
        }
        c += 1;
    }
    proof {
        assert(flags.take(n as int) =~= flags);
    }
    votes
}

/// Walks down from the anchor of wave `top` to wave `lo` and lists, falling,
/// the waves below `top` whose anchors are taken.
fn walk_down(dag: &Dag, top: Round, lo: Round) -> (desc: Vec<Round>)
    requires
        dag.wf(),
        dag.members() >= 1,
        has_anchor(dag@, dag.members(), top as nat),
        lo <= top,
    ensures
        rising(desc@) == chain_below(dag@, dag.members(), top as nat, top as nat, lo as nat),
        forall|i: int|
            0 <= i < desc.len() ==> lo <= #[trigger] desc[i] < top && has_anchor(
                dag@,
                dag.members(),
                desc[i] as nat,
            ),
        forall|i: int, j: int| 0 <= i < j < desc.len() ==> desc[i] > desc[j],
{
    let n = dag.n_members();
    let ghost g = dag@;
    let ghost goal = chain_below(g, n as nat, top as nat, top as nat, lo as nat);
    proof {
        dag.lemma_view_shape();
    }
    let mut desc: Vec<Round> = Vec::new();
    let mut cur: Round = top;
    let mut marks = ancestry(dag, 2 * cur, leader_of(cur, n));
    let mut w: Round = top;
    proof {
        assert(rising(desc@) =~= Seq::<nat>::empty());
        assert(goal =~= chain_below(g, n as nat, cur as nat, w as nat, lo as nat) + rising(desc@));
    }
    while w > lo
        invariant
            lo <= w <= cur <= top,
            n == dag.members(),
            n >= 1,
            g == dag@,
            dag.wf(),
            wf_grid(g, n as nat),
            has_anchor(g, n as nat, cur as nat),
            2 * cur < g.len(),
            g.len() <= 0x1_0000_0000,
            marks.len() == 2 * cur + 1,
            forall|r: int| 0 <= r <= 2 * cur ==> (#[trigger] marks[r]).len() == n,
            forall|r: int, k: int|
                0 <= r <= 2 * cur && 0 <= k < n ==> marks[r][k] == reaches(
                    g,
                    anchor_round(cur as nat),
                    leader(cur as nat, n as nat),
                    r,
                    k,
                ),
            goal == chain_below(g, n as nat, cur as nat, w as nat, lo as nat) + rising(desc@),
            forall|i: int|
                0 <= i < desc.len() ==> w <= #[trigger] desc[i] < top && has_anchor(
                    g,
                    n as nat,
                    desc[i] as nat,
                ),
            forall|i: int, j: int| 0 <= i < j < desc.len() ==> desc[i] > desc[j],
            desc.len() > 0 ==> desc[desc.len() - 1] == cur,
            desc.len() == 0 ==> cur == top,
        decreases w,
    {
        let v: Round = w - 1;
        let l = leader_of(v, n);
        let ghost before = desc@;
        if marks[2 * (v as usize)][l] {
            proof {
                assert(takes(g, n as nat, cur as nat, v as nat));
                lemma_reaches_present(
                    g,
                    n as nat,
                    anchor_round(cur as nat),
                    leader(cur as nat, n as nat),
                    anchor_round(v as nat),
                    leader(v as nat, n as nat),
                );
            }
            desc.push(v);
            cur = v;
            marks = ancestry(dag, 2 * v, l);
            proof {
                let below = chain_below(g, n as nat, v as nat, v as nat, lo as nat);
                assert(rising(desc@) =~= seq![v as nat] + rising(before));
                assert(goal =~= below + rising(desc@));
            }
        }
        w = v;
    }
    proof {
        assert(goal =~= rising(desc@));
    }
    desc
}

/// Appends to `out` what the anchor of wave `v` contributes, the anchor taken
/// before it being that of wave `prev`.
fn collect(dag: &Dag, v: Round, prev: Option<Round>, out: &mut Vec<UnitHash>)
    requires
        dag.wf(),
        dag.members() >= 1,
        has_anchor(dag@, dag.members(), v as nat),
        match prev {
            Some(p) => p < v && has_anchor(dag@, dag.members(), p as nat),
            None => true,
        },
    ensures
        final(out)@ == old(out)@ + batch(dag@, dag.members(), v as nat, wave_of(prev)),
{
    let n = dag.n_members();
    let ghost g = dag@;
    let ghost start = out@;
    proof {
        dag.lemma_view_shape();
    }
    let marks = ancestry(dag, 2 * v, leader_of(v, n));
    let (below, limit): (Vec<Vec<bool>>, usize) = match prev {
        Some(p) => (ancestry(dag, 2 * p, leader_of(p, n)), 2 * (p as usize) + 1),
        None => (Vec::new(), 0),
    };
    let height: usize = 2 * (v as usize) + 1;
    let mut r: usize = 0;
    proof {
        assert(out@ =~= start + batch_rows(g, n as nat, v as nat, wave_of(prev), 0));
    }
    while r < height
        invariant
            r <= height,
            height == 2 * v + 1,
            height <= g.len(),
            g.len() <= 0x1_0000_0000,
            n == dag.members(),
            g == dag@,
            dag.wf(),
            wf_grid(g, n as nat),
            marks.len() == height,
            forall|i: int| 0 <= i < height ==> (#[trigger] marks[i]).len() == n,
            forall|i: int, k: int|
                0 <= i < height && 0 <= k < n ==> marks[i][k] == reaches(
                    g,
                    anchor_round(v as nat),
                    leader(v as nat, n as nat),
                    i,
                    k,
                ),
            match prev {
                Some(p) => limit == 2 * p + 1 && p < v && below.len() == limit && (forall|i: int|
                    0 <= i < limit ==> (#[trigger] below[i]).len() == n) && (forall|
                    i: int,
                    k: int,
                |
                    0 <= i < limit && 0 <= k < n ==> below[i][k] == reaches(
                        g,
                        anchor_round(p as nat),
                        leader(p as nat, n as nat),
                        i,
                        k,
                    )),
                None => limit == 0,
            },
            out@ == start + batch_rows(g, n as nat, v as nat, wave_of(prev), r as nat),
        decreases height - r,
    {
        let ghost rows_before = out@;
        let mut c: usize = 0;
        proof {
            assert(out@ =~= rows_before + batch_row(
                g,
                n as nat,
                v as nat,
                wave_of(prev),
                r as int,
                0,
            ));
        }
        while c < n
            invariant
                c <= n,
                r < height,
                height == 2 * v + 1,
                height <= g.len(),
                g.len() <= 0x1_0000_0000,
                n == dag.members(),
                g == dag@,
                dag.wf(),
                wf_grid(g, n as nat),
                marks.len() == height,
                forall|i: int| 0 <= i < height ==> (#[trigger] marks[i]).len() == n,
                forall|i: int, k: int|
                    0 <= i < height && 0 <= k < n ==> marks[i][k] == reaches(
                        g,
                        anchor_round(v as nat),
                        leader(v as nat, n as nat),
                        i,
                        k,
                    ),
                match prev {
                    Some(p) => limit == 2 * p + 1 && p < v && below.len() == limit && (forall|
                        i: int,
                    |
                        0 <= i < limit ==> (#[trigger] below[i]).len() == n) && (forall|
                        i: int,
                        k: int,
                    |
                        0 <= i < limit && 0 <= k < n ==> below[i][k] == reaches(
                            g,
                            anchor_round(p as nat),
                            leader(p as nat, n as nat),
                            i,
                            k,
                        )),
                    None => limit == 0,
                },
                out@ == rows_before + batch_row(
                    g,
                    n as nat,
                    v as nat,
                    wave_of(prev),
                    r as int,
                    c as nat,
                ),
            decreases n - c,
        {
            let covered = r < limit && below[r][c];
            proof {
                match prev {
                    Some(p) => {
                        if r >= limit {
                            if reaches(
                                g,
                                anchor_round(p as nat),
                                leader(p as nat, n as nat),
                                r as int,
                                c as int,
                            ) {
                                lemma_reaches_parent_round(
                                    g,
                                    anchor_round(p as nat),
                                    leader(p as nat, n as nat),
                                    r as int,
                                    c as int,
                                );
                            }
                        }
                    },
                    None => {},
                }
                assert((marks[r as int][c as int] && !covered) == in_batch(
                    g,
                    n as nat,
                    v as nat,
                    wave_of(prev),
                    r as int,
                    c as int,
                ));
            }
            if marks[r][c] && !covered {
                proof {
                    lemma_reaches_present(
                        g,
                        n as nat,
                        anchor_round(v as nat),
                        leader(v as nat, n as nat),
                        r as int,
                        c as int,
                    );
                }
                match dag.get(r as Round, c) {
                    Some(h) => {
                        out.push(h.hash);
                    },
                    None => {},
                }
            }
            proof {
                assert(out@ =~= rows_before + batch_row(
                    g,
                    n as nat,
                    v as nat,
                    wave_of(prev),
                    r as int,
                    (c + 1) as nat,
                ));
            }
            c += 1;
        }
        proof {
            assert(out@ =~= start + batch_rows(
                g,
                n as nat,
                v as nat,
                wave_of(prev),
                (r + 1) as nat,
            ));
        }
        r += 1;
    }
}

/// The last of the waves `ws`, if there is one.
pub open spec fn last_of(ws: Seq<nat>) -> Option<nat> {
    if ws.len() > 0 {
        Some(ws.last())
    } else {
        None
    }
}

/// What the anchors taken between wave `lo` and the newly decided wave `w`
/// contribute, and then the anchor of `w` itself. The waves `before` are those
/// whose anchors were ordered earlier; they end just below `lo`.
fn emit(dag: &Dag, w: Round, lo: Round, Ghost(before): Ghost<Seq<nat>>) -> (out: Vec<UnitHash>)
    requires
        dag.wf(),
        dag.members() >= 1,
        has_anchor(dag@, dag.members(), w as nat),
        lo <= w,
        match last_of(before) {
            Some(t) => lo == t + 1 && has_anchor(dag@, dag.members(), t),
            None => lo == 0,
        },
    ensures
        flatten(
            dag@,
            dag.members(),
            before + chain_below(dag@, dag.members(), w as nat, w as nat, lo as nat).push(
                w as nat,
            ),
        ) == flatten(dag@, dag.members(), before) + out@,
{
    let n = dag.n_members();
    let ghost g = dag@;
    let desc = walk_down(dag, w, lo);
    let ghost up = rising(desc@);
    let mut out: Vec<UnitHash> = Vec::new();
    let mut prev: Option<Round> = if lo > 0 {
        Some(lo - 1)
    } else {
        None
    };
    let ghost mut done: Seq<nat> = before;
    let mut i: usize = desc.len();
    proof {
        assert(up.take(0) =~= Seq::<nat>::empty());
        assert(done =~= before + up.take(0));
        assert(flatten(g, n as nat, done) =~= flatten(g, n as nat, before) + out@);
    }
    while i > 0
        invariant
            i <= desc.len(),
            n == dag.members(),
            n >= 1,
            g == dag@,
            dag.wf(),
            up == rising(desc@),
            lo <= w,
            has_anchor(g, n as nat, w as nat),
            forall|j: int|
                0 <= j < desc.len() ==> lo <= #[trigger] desc[j] < w && has_anchor(
                    g,
                    n as nat,
                    desc[j] as nat,
                ),
            forall|j: int, k: int| 0 <= j < k < desc.len() ==> desc[j] > desc[k],
            done == before + up.take(desc.len() - i),
            wave_of(prev) == last_of(done),
            match prev {
                Some(p) => has_anchor(g, n as nat, p as nat) && p < w && (i > 0 ==> p
                    < desc[i - 1]),
                None => true,
            },
            flatten(g, n as nat, done) == flatten(g, n as nat, before) + out@,
        decreases i,
    {
        i -= 1;
        let v = desc[i];
        collect(dag, v, prev, &mut out);
        proof {
            let j = desc.len() - 1 - i;
            assert(up[j] == v as nat);
            let next = done.push(v as nat);
            assert(next =~= before + up.take(j + 1));
            assert(next.drop_last() =~= done);
            assert(before_last(next) == last_of(done));
            assert(flatten(g, n as nat, next) == flatten(g, n as nat, done) + batch(
                g,
                n as nat,
                v as nat,
                wave_of(prev),
            ));
            assert(flatten(g, n as nat, next) =~= flatten(g, n as nat, before) + out@);
            done = next;
        }
        prev = Some(v);
    }
    collect(dag, w, prev, &mut out);
    proof {
        assert(up.take(desc.len() as int) =~= up);
        let all = done.push(w as nat);
        assert(all =~= before + chain_below(g, n as nat, w as nat, w as nat, lo as nat).push(
            w as nat,
        ));
        assert(all.drop_last() =~= done);
        assert(before_last(all) == last_of(done));
        assert(flatten(g, n as nat, all) == flatten(g, n as nat, done) + batch(
            g,
            n as nat,
            w as nat,
            wave_of(prev),
        ));
        assert(flatten(g, n as nat, all) =~= flatten(g, n as nat, before) + out@);
    }
    out
}

/// The extender of one participant: its own record of the DAG and the order
/// it has given out so far.
pub struct Extender {
    dag: Dag,
    /// The first wave above the highest decided one.
    next_wave: Round,
    ordered: Vec<UnitHash>,
}

impl Extender {
    /// The DAG as far as the extender has been told of it.
    pub closed spec fn grid(&self) -> Grid {
        self.dag@
    }

    /// The size of the committee.
    pub closed spec fn members(&self) -> nat {
        self.dag.members()
    }

    /// The order given out so far.
    pub closed spec fn stream(&self) -> Seq<UnitHash> {
        self.ordered@
    }

    /// The invariant of the extender: the order given out is the order that
    /// its DAG determines.
    pub closed spec fn wf(&self) -> bool {
        &&& self.dag.wf()
        &&& wf_grid(self.dag@, self.dag.members())
        &&& self.ordered@ == ordered(self.dag@, self.dag.members())
        &&& self.next_wave as nat == match top_wave(self.dag@, self.dag.members()) {
            Some(t) => t + 1,
            None => 0,
        }
    }

    /// What the invariant says to the outside.
    pub proof fn lemma_stream_is_order(&self)
        requires
            self.wf(),
        ensures
            wf_grid(self.grid(), self.members()),
            self.stream() == ordered(self.grid(), self.members()),
    {
    }

    /// An extender that has seen no unit and given out nothing.
    pub fn new(n_members: usize) -> (extender: Extender)
        ensures
            extender.wf(),
            extender.members() == n_members,
            extender.grid().len() == 0,
            extender.stream() == Seq::<UnitHash>::empty(),
    {
        let dag = Dag::new(n_members);
        proof {
            dag.lemma_view_shape();
        }
        Extender { dag, next_wave: 0, ordered: Vec::new() }
    }

    pub fn n_members(&self) -> (n: usize)
        ensures
            n == self.members(),
    {
        self.dag.n_members()
    }

    /// The order given out so far.
    pub fn ordered(&self) -> (stream: &Vec<UnitHash>)
        ensures
            stream@ == self.stream(),
    {
        &self.ordered
    }

    /// Whether `header` may be handed to `add_unit` as things stand.
    pub fn admits(&self, header: &Header) -> (b: bool)
        requires
            self.wf(),
        ensures
            b == admissible(self.grid(), self.members(), header@),
    {
        self.dag.admits(header)
    }

    /// Takes note of `header` as `add_unit` does, if it may be handed to
    /// `add_unit`; answers nothing and changes nothing if it may not.
    pub fn try_add_unit(&mut self, header: Header) -> (batch: Option<Vec<UnitHash>>)
        requires
            old(self).wf(),
        ensures
            final(self).wf(),
            final(self).members() == old(self).members(),
            batch.is_some() == admissible(old(self).grid(), old(self).members(), header@),
            match batch {
                Some(batch) => {
                    &&& final(self).grid() == grid_insert(
                        old(self).grid(),
                        old(self).members(),
                        header@,
                    )
                    &&& final(self).stream() == old(self).stream() + batch@
                    &&& final(self).stream() == ordered(final(self).grid(), final(self).members())
                },
                None => final(self).grid() == old(self).grid() && final(self).stream() == old(
                    self,
                ).stream(),
            },
    {
        if self.dag.admits(&header) {
            Some(self.add_unit(header))
        } else {
            None
        }
    }

    /// Takes note of a unit that was added to the DAG and gives out what it
    /// adds to the order: nothing, unless the unit is the vote that decides a
    /// wave above all decided ones.
    pub fn add_unit(&mut self, header: Header) -> (batch: Vec<UnitHash>)
        requires
            old(self).wf(),
            admissible(old(self).grid(), old(self).members(), header@),
        ensures
            final(self).wf(),
            final(self).members() == old(self).members(),
            final(self).grid() == grid_insert(old(self).grid(), old(self).members(), header@),
            final(self).stream() == old(self).stream() + batch@,
            final(self).stream() == ordered(final(self).grid(), final(self).members()),
    {
        let ghost g = self.dag@;
        let ghost n = self.dag.members();
        let ghost u = header@;
        let ghost old_top = top_wave(g, n);
        let round = header.round;
        proof {
            lemma_insert_wf(g, n, u);
            lemma_top_wave(g, n);
        }
        let res = self.dag.insert(header);
        let ghost g2 = self.dag@;
        proof {
            self.dag.lemma_view_shape();
        }
        if round % 2 == 1 {
            let w: Round = (round - 1) / 2;
            if w >= self.next_wave {
                let votes = count_votes(&self.dag, w);
                if votes >= quorum(self.dag.n_members()) {
                    proof {
                        assert(decided(g2, n, w as nat));
                        lemma_decided_anchor(g2, n, w as nat);
                        assert forall|v: nat| (w as nat) < v implies !#[trigger] decided(
                            g2,
                            n,
                            v,
                        ) by {
                            if decided(g2, n, v) {
                                if !decided(g, n, v) {
                                    lemma_newly_decided(g, n, u, v);
                                }
                            }
                        }
                        lemma_top_wave_is(g2, n, w as nat);
                    }
                    let ghost before: Seq<nat> = match old_top {
                        Some(t) => chain(g2, n, t),
                        None => Seq::empty(),
                    };
                    proof {
                        match old_top {
                            Some(t) => {
                                lemma_decided_monotone(g, g2, n, t);
                                lemma_decided_anchor(g2, n, t);
                                lemma_decided_locked(g2, n, t);
                                lemma_chain_split(g2, n, w as nat, w as nat, t);
                                lemma_order_kept(g, g2, n, t);
                                assert(chain(g2, n, w as nat) =~= before + chain_below(
                                    g2,
                                    n,
                                    w as nat,
                                    w as nat,
                                    t + 1,
                                ).push(w as nat));
                            },
                            None => {
                                assert(chain(g2, n, w as nat) =~= before + chain_below(
                                    g2,
                                    n,
                                    w as nat,
                                    w as nat,
                                    0,
                                ).push(w as nat));
                            },
                        }
                    }
                    let out = emit(&self.dag, w, self.next_wave, Ghost(before));
                    let mut i: usize = 0;
                    let ghost start = self.ordered@;
                    while i < out.len()
                        invariant
                            i <= out.len(),
                            self.ordered@ == start + out@.take(i as int),
                            self.dag@ == g2,
                            self.dag.wf(),
                            self.dag.members() == n,
                        decreases out.len() - i,
                    {
                        self.ordered.push(out[i]);
                        proof {
                            assert(self.ordered@ =~= start + out@.take(i + 1));
                        }
                        i += 1;
                    }
                    proof {
                        assert(out@.take(out.len() as int) =~= out@);
                    }
                    self.next_wave = w + 1;
                    return out;
                }
            }
        }
        proof {
            assert forall|v: nat| #[trigger]
                decided(g2, n, v) && !decided(g, n, v) implies match old_top {
                Some(t) => v < t,
                None => false,
            } by {
                lemma_newly_decided(g, n, u, v);
            }
            lemma_insert_keeps_order(g, n, u);
            assert(self.ordered@ =~= self.ordered@ + Seq::<UnitHash>::empty());
        }
        Vec::new()
    }
}

} // verus!
