//! The total order that a DAG determines.
//!
//! Rounds are taken two at a time. Wave `w` is made of round `2w`, where one
//! member, the wave's leader, may have placed the wave's anchor, and of round
//! `2w + 1`, whose units vote for the anchor by naming it as a parent. The
//! leaders take turns: the leader of wave `w` is member `w` modulo the size of
//! the committee.
//!
//! The schedule of decisions is fixed as follows, for every participant alike.
//! A wave is decided as soon as a quorum of distinct members has voted for its
//! anchor: one round of votes suffices. A wave for which no quorum has voted
//! is settled by the next decided wave above it: its anchor is taken if the
//! anchor taken last reaches it, and passed over for good if not. No shared
//! randomness enters: agreement rests on the overlap of quorums alone.
//!
//! The anchors to be ordered are thus found by walking down from the anchor of
//! the highest decided wave. Each anchor taken contributes, from the lowest
//! wave up, the units it reaches that no earlier anchor contributed, by round
//! and, within a round, by creator. A member has one unit in a round at most,
//! so this is the order by round, creator and digest.

use vstd::prelude::*;
use crate::committee::{count_true, spec_quorum};
use crate::dag::{has_parent, present, unit_at, Grid};
use crate::reach::reaches;
use crate::unit::UnitHash;

verus! {

/// The member who may place the anchor of wave `w`.
pub open spec fn leader(w: nat, n: nat) -> int {
    if n == 0 {
        0
    } else {
        (w % n) as int
    }
}

/// The round in which the anchor of wave `w` stands.
pub open spec fn anchor_round(w: nat) -> int {
    2 * (w as int)
}

/// The round in which the anchor of wave `w` is voted for.
pub open spec fn voting_round(w: nat) -> int {
    2 * (w as int) + 1
}

/// Whether the anchor of wave `w` is in the grid.
pub open spec fn has_anchor(g: Grid, n: nat, w: nat) -> bool {
    present(g, anchor_round(w), leader(w, n))
}

/// Whether member `c` has voted for the anchor of wave `w`.
pub open spec fn is_vote(g: Grid, n: nat, w: nat, c: int) -> bool {
    present(g, voting_round(w), c) && has_parent(unit_at(g, voting_round(w), c), leader(w, n))
}

/// For each member, whether it has voted for the anchor of wave `w`.
pub open spec fn vote_flags(g: Grid, n: nat, w: nat) -> Seq<bool> {
    Seq::new(n, |c: int| is_vote(g, n, w, c))
}

/// Whether a quorum has voted for the anchor of wave `w`.
pub open spec fn decided(g: Grid, n: nat, w: nat) -> bool {
    count_true(vote_flags(g, n, w)) >= spec_quorum(n)
}

/// The highest decided wave below `bound`.
pub open spec fn top_below(g: Grid, n: nat, bound: nat) -> Option<nat>
    decreases bound,
{
    if bound == 0 {
        None
    } else if decided(g, n, (bound - 1) as nat) {
        Some((bound - 1) as nat)
    } else {
        top_below(g, n, (bound - 1) as nat)
    }
}

/// The highest decided wave. No wave is decided whose voting round the grid
/// has no row for.
pub open spec fn top_wave(g: Grid, n: nat) -> Option<nat> {
    top_below(g, n, g.len())
}

/// Whether the walk that has last taken the anchor of wave `v` takes the
/// anchor of the earlier wave `w` when it comes to it.
pub open spec fn takes(g: Grid, n: nat, v: nat, w: nat) -> bool {
    reaches(g, anchor_round(v), leader(v, n), anchor_round(w), leader(w, n))
}

/// The waves in `[lo, w)` whose anchors the walk takes once it has taken the
/// anchor of wave `v`, in rising order.
pub open spec fn chain_below(g: Grid, n: nat, v: nat, w: nat, lo: nat) -> Seq<nat>
    decreases w,
{
    if w <= lo {
        Seq::empty()
    } else if takes(g, n, v, (w - 1) as nat) {
        chain_below(g, n, (w - 1) as nat, (w - 1) as nat, lo).push((w - 1) as nat)
    } else {
        chain_below(g, n, v, (w - 1) as nat, lo)
    }
}

/// All the waves whose anchors are ordered when wave `top` is the highest
/// decided wave, in rising order.
pub open spec fn chain(g: Grid, n: nat, top: nat) -> Seq<nat> {
    chain_below(g, n, top, top, 0).push(top)
}

/// Whether the unit in slot `(r, c)` is contributed by the anchor of wave `v`,
/// the anchor taken before it being that of wave `prev`.
pub open spec fn in_batch(g: Grid, n: nat, v: nat, prev: Option<nat>, r: int, c: int) -> bool {
    reaches(g, anchor_round(v), leader(v, n), r, c) && match prev {
        Some(p) => !reaches(g, anchor_round(p), leader(p, n), r, c),
        None => true,
    }
}

/// The digests of the units of round `r` contributed by the anchor of wave
/// `v`, for the members below `upto`, in rising order of member.
pub open spec fn batch_row(g: Grid, n: nat, v: nat, prev: Option<nat>, r: int, upto: nat) -> Seq<
    UnitHash,
>
    decreases upto,
{
    if upto == 0 {
        Seq::empty()
    } else {
        let rest = batch_row(g, n, v, prev, r, (upto - 1) as nat);
        if in_batch(g, n, v, prev, r, upto - 1) {
            rest.push(unit_at(g, r, upto - 1).hash)
        } else {
            rest
        }
    }
}

/// The digests of the units of the rounds below `upto` contributed by the
/// anchor of wave `v`, in rising order of round and, within a round, of member.
pub open spec fn batch_rows(g: Grid, n: nat, v: nat, prev: Option<nat>, upto: nat) -> Seq<
    UnitHash,
>
    decreases upto,
{
    if upto == 0 {
        Seq::empty()
    } else {
        batch_rows(g, n, v, prev, (upto - 1) as nat) + batch_row(
            g,
            n,
            v,
            prev,
            upto - 1,
            n,
        )
    }
}

/// What the anchor of wave `v` contributes to the order.
pub open spec fn batch(g: Grid, n: nat, v: nat, prev: Option<nat>) -> Seq<UnitHash> {
    batch_rows(g, n, v, prev, 2 * v + 1)
}

/// The wave taken just before the last of `ws`.
pub open spec fn before_last(ws: Seq<nat>) -> Option<nat> {
    if ws.len() >= 2 {
        Some(ws[ws.len() - 2])
    } else {
        None
    }
}

/// The contributions of the anchors of the waves `ws`, one after the other.
pub open spec fn flatten(g: Grid, n: nat, ws: Seq<nat>) -> Seq<UnitHash>
    decreases ws.len(),
{
    if ws.len() == 0 {
        Seq::empty()
    } else {
        flatten(g, n, ws.drop_last()) + batch(g, n, ws.last(), before_last(ws))
    }
}

/// The order that the grid determines.
pub open spec fn ordered(g: Grid, n: nat) -> Seq<UnitHash> {
    match top_wave(g, n) {
        Some(top) => flatten(g, n, chain(g, n, top)),
        None => Seq::empty(),
    }
}

} // verus!
