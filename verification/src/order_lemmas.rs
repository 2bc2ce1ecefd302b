//! Why the order is what two participants can agree on: what a unit reaches
//! depends on the unit alone, and a decided anchor is reached by every unit
//! two rounds above it.

use vstd::prelude::*;
use crate::committee::{
    both, count_true, lemma_count_both, lemma_count_true_monotone, lemma_count_true_witness,
    lemma_quorum_overlap, spec_fault_tolerance, spec_quorum,
};
use crate::dag::{
    admissible, extends, grid_insert, has_parent, lemma_insert_wf, parent_flags, present,
    unit_at, wf_cell, wf_grid, Grid,
};
use crate::order::{
    anchor_round, batch_row, batch_rows, before_last, chain, chain_below, decided, flatten,
    has_anchor, is_vote, leader, ordered, takes, top_below, top_wave, vote_flags, voting_round,
};
use crate::reach::{lemma_reaches_present, reaches};
use crate::unit::Node;

verus! {

/// Equal digests name equal units, across the two grids.
pub open spec fn consistent(a: Grid, b: Grid) -> bool {
    forall|r1: int, c1: int, r2: int, c2: int|
        #[trigger] present(a, r1, c1) && #[trigger] present(b, r2, c2) && unit_at(a, r1, c1).hash
            == unit_at(b, r2, c2).hash ==> unit_at(a, r1, c1) == unit_at(b, r2, c2)
}

/// Both grids hold the same unit in slot `(r, c)`.
pub open spec fn same_at(a: Grid, b: Grid, r: int, c: int) -> bool {
    present(a, r, c) && present(b, r, c) && unit_at(a, r, c) == unit_at(b, r, c)
}

/// Both grids hold the same anchor of wave `w`.
pub open spec fn same_anchor(a: Grid, b: Grid, n: nat, w: nat) -> bool {
    same_at(a, b, anchor_round(w), leader(w, n))
}

/// A grid is consistent with every grid that extends it.
pub proof fn lemma_extends_consistent(a: Grid, b: Grid, n: nat)
    requires
        wf_grid(b, n),
        extends(a, b),
    ensures
        consistent(a, b),
{
    assert forall|r1: int, c1: int, r2: int, c2: int|
        #[trigger] present(a, r1, c1) && #[trigger] present(b, r2, c2) && unit_at(a, r1, c1).hash
            == unit_at(b, r2, c2).hash implies unit_at(a, r1, c1) == unit_at(b, r2, c2) by {
        assert(present(b, r1, c1));
    }
}

/// What a unit reaches depends on the unit alone: in two consistent grids that
/// both hold it, it reaches the same slots, and these hold the same units.
pub proof fn lemma_reaches_same(a: Grid, b: Grid, n: nat, r: int, c: int, r2: int, c2: int)
    requires
        wf_grid(a, n),
        wf_grid(b, n),
        consistent(a, b),
        same_at(a, b, r, c),
    ensures
        reaches(a, r, c, r2, c2) == reaches(b, r, c, r2, c2),
        reaches(a, r, c, r2, c2) ==> same_at(a, b, r2, c2),
    decreases r,
{
    let u = unit_at(a, r, c);
    assert(wf_cell(a, n, r, c));
    assert(wf_cell(b, n, r, c));
    if r == r2 && c == c2 {
    } else if r > r2 && r > 0 {
        assert forall|k: int| #[trigger] has_parent(u, k) implies same_at(a, b, r - 1, k) by {
            assert(present(a, r - 1, k));
            assert(present(b, r - 1, k));
        }
        if reaches(a, r, c, r2, c2) {
            let k = choose|k: int| #[trigger]
                has_parent(unit_at(a, r, c), k) && reaches(a, r - 1, k, r2, c2);
            lemma_reaches_same(a, b, n, r - 1, k, r2, c2);
            assert(has_parent(unit_at(b, r, c), k) && reaches(b, r - 1, k, r2, c2));
        }
        if reaches(b, r, c, r2, c2) {
            let k = choose|k: int| #[trigger]
                has_parent(unit_at(b, r, c), k) && reaches(b, r - 1, k, r2, c2);
            lemma_reaches_same(a, b, n, r - 1, k, r2, c2);
            assert(has_parent(unit_at(a, r, c), k) && reaches(a, r - 1, k, r2, c2));
        }
    }
}

/// The walk from a common anchor takes the same anchors in both grids.
pub proof fn lemma_chain_same(a: Grid, b: Grid, n: nat, v: nat, w: nat, lo: nat)
    requires
        wf_grid(a, n),
        wf_grid(b, n),
        consistent(a, b),
        same_anchor(a, b, n, v),
    ensures
        chain_below(a, n, v, w, lo) == chain_below(b, n, v, w, lo),
        forall|i: int|
            0 <= i < chain_below(a, n, v, w, lo).len() ==> same_anchor(
                a,
                b,
                n,
                #[trigger] chain_below(a, n, v, w, lo)[i],
            ),
    decreases w,
{
    if w > lo {
        let u = (w - 1) as nat;
        lemma_reaches_same(
            a,
            b,
            n,
            anchor_round(v),
            leader(v, n),
            anchor_round(u),
            leader(u, n),
        );
        if takes(a, n, v, u) {
            lemma_chain_same(a, b, n, u, u, lo);
        } else {
            lemma_chain_same(a, b, n, v, u, lo);
        }
    }
}

/// A common anchor contributes the same units in both grids.
pub proof fn lemma_batch_row_same(
    a: Grid,
    b: Grid,
    n: nat,
    v: nat,
    prev: Option<nat>,
    r: int,
    upto: nat,
)
    requires
        wf_grid(a, n),
        wf_grid(b, n),
        consistent(a, b),
        same_anchor(a, b, n, v),
        match prev {
            Some(p) => same_anchor(a, b, n, p),
            None => true,
        },
    ensures
        batch_row(a, n, v, prev, r, upto) == batch_row(b, n, v, prev, r, upto),
    decreases upto,
{
    if upto > 0 {
        lemma_batch_row_same(a, b, n, v, prev, r, (upto - 1) as nat);
        lemma_reaches_same(a, b, n, anchor_round(v), leader(v, n), r, upto - 1);
        match prev {
            Some(p) => {
                lemma_reaches_same(a, b, n, anchor_round(p), leader(p, n), r, upto - 1);
            },
            None => {},
        }
    }
}

pub proof fn lemma_batch_same(a: Grid, b: Grid, n: nat, v: nat, prev: Option<nat>, upto: nat)
    requires
        wf_grid(a, n),
        wf_grid(b, n),
        consistent(a, b),
        same_anchor(a, b, n, v),
        match prev {
            Some(p) => same_anchor(a, b, n, p),
            None => true,
        },
    ensures
        batch_rows(a, n, v, prev, upto) == batch_rows(b, n, v, prev, upto),
    decreases upto,
{
    if upto > 0 {
        lemma_batch_same(a, b, n, v, prev, (upto - 1) as nat);
        lemma_batch_row_same(a, b, n, v, prev, upto - 1, n);
    }
}

/// Common anchors contribute the same order in both grids.
pub proof fn lemma_flatten_same(a: Grid, b: Grid, n: nat, ws: Seq<nat>)
    requires
        wf_grid(a, n),
        wf_grid(b, n),
        consistent(a, b),
        forall|i: int| 0 <= i < ws.len() ==> same_anchor(a, b, n, #[trigger] ws[i]),
    ensures
        flatten(a, n, ws) == flatten(b, n, ws),
    decreases ws.len(),
{
    if ws.len() > 0 {
        let init = ws.drop_last();
        assert forall|i: int| 0 <= i < init.len() implies same_anchor(
            a,
            b,
            n,
            #[trigger] init[i],
        ) by {
            assert(init[i] == ws[i]);
        }
        lemma_flatten_same(a, b, n, init);
        assert(same_anchor(a, b, n, ws[ws.len() - 1]));
        if ws.len() >= 2 {
            assert(same_anchor(a, b, n, ws[ws.len() - 2]));
        }
        lemma_batch_same(a, b, n, ws.last(), before_last(ws), 2 * ws.last() + 1);
    }
}

/// The order of a longer list of waves begins with the order of a shorter one.
pub proof fn lemma_flatten_prefix(g: Grid, n: nat, ws: Seq<nat>, more: Seq<nat>)
    ensures
        flatten(g, n, ws).is_prefix_of(flatten(g, n, ws + more)),
    decreases more.len(),
{
    if more.len() == 0 {
        assert(ws + more =~= ws);
    } else {
        let all = ws + more;
        assert(all.drop_last() =~= ws + more.drop_last());
        lemma_flatten_prefix(g, n, ws, more.drop_last());
    }
}

/// A decided wave has its anchor and its votes in the grid.
pub proof fn lemma_decided_anchor(g: Grid, n: nat, w: nat)
    requires
        wf_grid(g, n),
        n >= 1,
        decided(g, n, w),
    ensures
        has_anchor(g, n, w),
        voting_round(w) < g.len(),
{
    lemma_quorum_overlap(n);
    let k = lemma_count_true_witness(vote_flags(g, n, w));
    assert(is_vote(g, n, w, k));
    assert(wf_cell(g, n, voting_round(w), k));
    assert(has_parent(unit_at(g, voting_round(w), k), leader(w, n)));
}

/// What `top_below` finds is the highest decided wave below the bound.
pub proof fn lemma_top_below(g: Grid, n: nat, bound: nat)
    ensures
        match top_below(g, n, bound) {
            Some(t) => t < bound && decided(g, n, t) && forall|v: nat|
                t < v < bound ==> !#[trigger] decided(g, n, v),
            None => forall|v: nat| v < bound ==> !#[trigger] decided(g, n, v),
        },
    decreases bound,
{
    if bound > 0 {
        lemma_top_below(g, n, (bound - 1) as nat);
    }
}

/// The highest decided wave below the bound is what `top_below` finds.
pub proof fn lemma_top_is(g: Grid, n: nat, bound: nat, t: nat)
    requires
        t < bound,
        decided(g, n, t),
        forall|v: nat| t < v < bound ==> !#[trigger] decided(g, n, v),
    ensures
        top_below(g, n, bound) == Some(t),
    decreases bound,
{
    if bound - 1 > t {
        assert(!decided(g, n, (bound - 1) as nat));
        lemma_top_is(g, n, (bound - 1) as nat, t);
    }
}

pub proof fn lemma_top_none(g: Grid, n: nat, bound: nat)
    requires
        forall|v: nat| v < bound ==> !#[trigger] decided(g, n, v),
    ensures
        top_below(g, n, bound).is_none(),
    decreases bound,
{
    if bound > 0 {
        assert(!decided(g, n, (bound - 1) as nat));
        lemma_top_none(g, n, (bound - 1) as nat);
    }
}

/// The members marked in `honest` have, in any round, at most one unit over
/// both grids: where both grids hold a unit of such a member, it is the same.
pub open spec fn never_fork(a: Grid, b: Grid, honest: Seq<bool>) -> bool {
    forall|r: int, c: int|
        0 <= c < honest.len() && honest[c] && #[trigger] present(a, r, c) && #[trigger] present(
            b,
            r,
            c,
        ) ==> unit_at(a, r, c) == unit_at(b, r, c)
}

/// What two participants may assume of each other: their grids are well
/// formed for the same committee, equal digests name equal units, and all but
/// the tolerated number of members never fork.
pub open spec fn compatible(a: Grid, b: Grid, n: nat, honest: Seq<bool>) -> bool {
    &&& n >= 1
    &&& wf_grid(a, n)
    &&& wf_grid(b, n)
    &&& consistent(a, b)
    &&& honest.len() == n
    &&& count_true(honest) + spec_fault_tolerance(n) >= n
    &&& never_fork(a, b, honest)
}

/// Let `a` have decided wave `t`, and let `flags` mark a quorum of members
/// whose units of the voting round of `t` are in `b`. Then one of them is
/// honest and has voted: its one vote is in both grids, and so is the anchor
/// that it names.
pub proof fn lemma_vote_in_both(
    a: Grid,
    b: Grid,
    n: nat,
    honest: Seq<bool>,
    t: nat,
    flags: Seq<bool>,
) -> (k: int)
    requires
        compatible(a, b, n, honest),
        decided(a, n, t),
        flags.len() == n,
        count_true(flags) >= spec_quorum(n),
        forall|k: int| 0 <= k < n && flags[k] ==> present(b, voting_round(t), k),
    ensures
        0 <= k < n,
        flags[k],
        is_vote(a, n, t, k),
        is_vote(b, n, t, k),
        same_anchor(a, b, n, t),
{
    lemma_quorum_overlap(n);
    let votes = vote_flags(a, n, t);
    lemma_count_both(votes, flags);
    let common = both(votes, flags);
    lemma_count_both(common, honest);
    let k = lemma_count_true_witness(both(common, honest));
    assert(common[k] && honest[k]);
    assert(votes[k] && flags[k]);
    assert(is_vote(a, n, t, k));
    assert(present(b, voting_round(t), k));
    assert(unit_at(a, voting_round(t), k) == unit_at(b, voting_round(t), k));
    assert(wf_cell(a, n, voting_round(t), k));
    assert(wf_cell(b, n, voting_round(t), k));
    assert(has_parent(unit_at(a, voting_round(t), k), leader(t, n)));
    assert(has_parent(unit_at(b, voting_round(t), k), leader(t, n)));
    assert(present(a, anchor_round(t), leader(t, n)));
    assert(present(b, anchor_round(t), leader(t, n)));
    k
}

/// A decided anchor is locked in: once one participant has seen a quorum vote
/// for the anchor of wave `t`, every unit that any participant holds from two
/// rounds above the anchor onward reaches that same anchor.
pub proof fn lemma_decided_locks(
    a: Grid,
    b: Grid,
    n: nat,
    honest: Seq<bool>,
    t: nat,
    r: int,
    c: int,
)
    requires
        compatible(a, b, n, honest),
        decided(a, n, t),
        present(b, r, c),
        r >= anchor_round(t) + 2,
    ensures
        reaches(b, r, c, anchor_round(t), leader(t, n)),
        same_anchor(a, b, n, t),
    decreases r,
{
    lemma_quorum_overlap(n);
    let x = unit_at(b, r, c);
    assert(wf_cell(b, n, r, c));
    let flags = parent_flags(x);
    if r == anchor_round(t) + 2 {
        assert forall|k: int| 0 <= k < n && flags[k] implies present(b, voting_round(t), k) by {
            assert(has_parent(x, k));
        }
        let k = lemma_vote_in_both(a, b, n, honest, t, flags);
        assert(has_parent(x, k));
        let l = leader(t, n);
        assert(has_parent(unit_at(b, voting_round(t), k), l));
        assert(reaches(b, anchor_round(t), l, anchor_round(t), l));
        assert(reaches(b, voting_round(t), k, anchor_round(t), l));
        assert(reaches(b, r, c, anchor_round(t), l));
    } else {
        let k = lemma_count_true_witness(flags);
        assert(has_parent(x, k));
        assert(present(b, r - 1, k));
        lemma_decided_locks(a, b, n, honest, t, r - 1, k);
    }
}

/// Every unit of the grid from two rounds above the anchor of wave `t` onward
/// reaches that anchor.
pub open spec fn locked(g: Grid, n: nat, t: nat) -> bool {
    forall|r: int, c: int| #[trigger]
        present(g, r, c) && r >= anchor_round(t) + 2 ==> reaches(
            g,
            r,
            c,
            anchor_round(t),
            leader(t, n),
        )
}

/// All members: the selection that leaves nobody out.
pub open spec fn everyone(n: nat) -> Seq<bool> {
    Seq::new(n, |c: int| true)
}

pub proof fn lemma_count_everyone(n: nat)
    ensures
        count_true(everyone(n)) == n,
    decreases n,
{
    if n > 0 {
        assert(everyone(n).drop_last() =~= everyone((n - 1) as nat));
        lemma_count_everyone((n - 1) as nat);
    }
}

/// A grid is compatible with itself, whoever is honest.
pub proof fn lemma_self_compatible(g: Grid, n: nat)
    requires
        wf_grid(g, n),
        n >= 1,
    ensures
        compatible(g, g, n, everyone(n)),
{
    lemma_count_everyone(n);
}

/// In a well-formed grid a decided wave is locked in.
pub proof fn lemma_decided_locked(g: Grid, n: nat, t: nat)
    requires
        wf_grid(g, n),
        n >= 1,
        decided(g, n, t),
    ensures
        locked(g, n, t),
{
    lemma_self_compatible(g, n);
    assert forall|r: int, c: int| #[trigger]
        present(g, r, c) && r >= anchor_round(t) + 2 implies reaches(
        g,
        r,
        c,
        anchor_round(t),
        leader(t, n),
    ) by {
        lemma_decided_locks(g, g, n, everyone(n), t, r, c);
    }
}

/// The walk down from a later anchor passes through the anchor of every wave
/// that is locked in: below it, it is the walk down from that anchor.
pub proof fn lemma_chain_split(g: Grid, n: nat, v: nat, w: nat, t: nat)
    requires
        wf_grid(g, n),
        locked(g, n, t),
        has_anchor(g, n, v),
        t < w <= v,
    ensures
        chain_below(g, n, v, w, 0) == chain(g, n, t) + chain_below(g, n, v, w, t + 1),
    decreases w,
{
    let u = (w - 1) as nat;
    if u == t {
        assert(takes(g, n, v, t));
        assert(chain_below(g, n, v, w, t + 1) =~= Seq::<nat>::empty());
        assert(chain_below(g, n, v, w, 0) =~= chain(g, n, t) + chain_below(g, n, v, w, t + 1));
    } else if takes(g, n, v, u) {
        lemma_reaches_present(
            g,
            n,
            anchor_round(v),
            leader(v, n),
            anchor_round(u),
            leader(u, n),
        );
        lemma_chain_split(g, n, u, u, t);
        assert(chain_below(g, n, v, w, 0) =~= chain(g, n, t) + chain_below(g, n, v, w, t + 1));
    } else {
        lemma_chain_split(g, n, v, u, t);
    }
}

/// A grid that extends another has every vote of the other.
pub proof fn lemma_decided_monotone(a: Grid, b: Grid, n: nat, w: nat)
    requires
        extends(a, b),
        decided(a, n, w),
    ensures
        decided(b, n, w),
{
    let fa = vote_flags(a, n, w);
    let fb = vote_flags(b, n, w);
    assert forall|k: int| 0 <= k < fa.len() && fa[k] implies fb[k] by {
        assert(present(a, voting_round(w), k));
    }
    lemma_count_true_monotone(fa, fb);
}

/// A wave that one more unit decides is the wave that the unit votes in.
pub proof fn lemma_newly_decided(g: Grid, n: nat, u: Node, w: nat)
    requires
        wf_grid(g, n),
        admissible(g, n, u),
        decided(grid_insert(g, n, u), n, w),
        !decided(g, n, w),
    ensures
        u.round == voting_round(w),
{
    let g2 = grid_insert(g, n, u);
    lemma_insert_wf(g, n, u);
    if u.round != voting_round(w) {
        let fa = vote_flags(g, n, w);
        let fb = vote_flags(g2, n, w);
        assert forall|k: int| 0 <= k < n implies fa[k] == fb[k] by {
            if present(g2, voting_round(w), k) {
                assert(present(g, voting_round(w), k));
            }
            if present(g, voting_round(w), k) {
                assert(present(g2, voting_round(w), k));
            }
        }
        assert(fa =~= fb);
    }
}

/// No wave is decided beyond the rows of the grid.
pub proof fn lemma_top_wave(g: Grid, n: nat)
    requires
        wf_grid(g, n),
        n >= 1,
    ensures
        match top_wave(g, n) {
            Some(t) => decided(g, n, t) && has_anchor(g, n, t) && voting_round(t) < g.len()
                && forall|v: nat| t < v ==> !#[trigger] decided(g, n, v),
            None => forall|v: nat| !#[trigger] decided(g, n, v),
        },
{
    lemma_top_below(g, n, g.len());
    assert forall|v: nat| v >= g.len() implies !#[trigger] decided(g, n, v) by {
        if decided(g, n, v) {
            lemma_decided_anchor(g, n, v);
        }
    }
    match top_wave(g, n) {
        Some(t) => {
            lemma_decided_anchor(g, n, t);
        },
        None => {},
    }
}

/// The highest decided wave is the decided wave above which none is decided.
pub proof fn lemma_top_wave_is(g: Grid, n: nat, t: nat)
    requires
        wf_grid(g, n),
        n >= 1,
        decided(g, n, t),
        forall|v: nat| t < v ==> !#[trigger] decided(g, n, v),
    ensures
        top_wave(g, n) == Some(t),
{
    lemma_decided_anchor(g, n, t);
    lemma_top_is(g, n, g.len(), t);
}

/// With the same highest decided wave, a grid that extends another determines
/// the same order.
pub proof fn lemma_order_kept(a: Grid, b: Grid, n: nat, t: nat)
    requires
        wf_grid(a, n),
        wf_grid(b, n),
        extends(a, b),
        has_anchor(a, n, t),
    ensures
        chain(b, n, t) == chain(a, n, t),
        flatten(b, n, chain(b, n, t)) == flatten(a, n, chain(a, n, t)),
{
    lemma_extends_consistent(a, b, n);
    lemma_chain_same(a, b, n, t, t, 0);
    let ws = chain(a, n, t);
    assert forall|i: int| 0 <= i < ws.len() implies same_anchor(a, b, n, #[trigger] ws[i]) by {
        if i < ws.len() - 1 {
            assert(ws[i] == chain_below(a, n, t, t, 0)[i]);
        }
    }
    lemma_flatten_same(a, b, n, ws);
}

/// A unit that decides no wave above the highest decided one leaves the order
/// as it was.
pub proof fn lemma_insert_keeps_order(g: Grid, n: nat, u: Node)
    requires
        wf_grid(g, n),
        n >= 1,
        admissible(g, n, u),
        forall|v: nat| #[trigger]
            decided(grid_insert(g, n, u), n, v) && !decided(g, n, v) ==> match top_wave(g, n) {
                Some(t) => v < t,
                None => false,
            },
    ensures
        top_wave(grid_insert(g, n, u), n) == top_wave(
            g,
            n,
        ),
        ordered(grid_insert(g, n, u), n) == ordered(
            g,
            n,
        ),
{
    let g2 = grid_insert(g, n, u);
    lemma_insert_wf(g, n, u);
    lemma_top_wave(g, n);
    match top_wave(g, n) {
        Some(t) => {
            lemma_decided_monotone(g, g2, n, t);
            assert forall|v: nat| t < v implies !#[trigger] decided(g2, n, v) by {
                if decided(g2, n, v) {
                    assert(!decided(g, n, v));
                }
            }
            lemma_top_wave_is(g2, n, t);
            lemma_order_kept(g, g2, n, t);
        },
        None => {
            assert forall|v: nat| v < g2.len() implies !#[trigger] decided(g2, n, v) by {
                if decided(g2, n, v) {
                    assert(!decided(g, n, v));
                }
            }
            lemma_top_none(g2, n, g2.len());
        },
    }
}

} // verus!
