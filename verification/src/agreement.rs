//! Agreement: the orders that two participants give out never contradict
//! each other.

use vstd::prelude::*;
use crate::committee::{count_true, spec_fault_tolerance};
use crate::consensus::Consensus;
use crate::dag::{present, unit_at, wf_grid, Grid};
use crate::extender::Extender;
use crate::order::{
    anchor_round, chain, chain_below, decided, flatten, leader, ordered, top_wave, vote_flags,
};
use crate::order_lemmas::{
    compatible, consistent, lemma_chain_same, lemma_chain_split, lemma_decided_locks,
    lemma_flatten_prefix, lemma_flatten_same, lemma_top_wave, locked, never_fork, same_anchor,
};
use crate::unit::UnitHash;

verus! {

/// Compatibility does not depend on which grid is named first.
pub proof fn lemma_compatible_symmetric(a: Grid, b: Grid, n: nat, honest: Seq<bool>)
    requires
        compatible(a, b, n, honest),
    ensures
        compatible(b, a, n, honest),
{
    assert forall|r1: int, c1: int, r2: int, c2: int|
        #[trigger] present(b, r1, c1) && #[trigger] present(a, r2, c2) && unit_at(
            b,
            r1,
            c1,
        ).hash == unit_at(a, r2, c2).hash implies unit_at(b, r1, c1)
        == unit_at(a, r2, c2) by {
        assert(present(a, r2, c2) && present(b, r1, c1));
    }
    assert forall|r: int, c: int|
        0 <= c < honest.len() && honest[c] && #[trigger] present(b, r, c) && #[trigger] present(
            a,
            r,
            c,
        ) implies unit_at(b, r, c) == unit_at(a, r, c) by {
        assert(present(a, r, c) && present(b, r, c));
    }
}

/// Two participants that have decided the same wave have decided the same
/// anchor.
proof fn lemma_same_wave_same_anchor(a: Grid, b: Grid, n: nat, honest: Seq<bool>, t: nat)
    requires
        compatible(a, b, n, honest),
        decided(a, n, t),
        decided(b, n, t),
    ensures
        same_anchor(a, b, n, t),
{
    let flags = vote_flags(b, n, t);
    let k = crate::order_lemmas::lemma_vote_in_both(a, b, n, honest, t, flags);
}

/// The order up to a common anchor is the same in both grids.
proof fn lemma_common_order(a: Grid, b: Grid, n: nat, t: nat)
    requires
        wf_grid(a, n),
        wf_grid(b, n),
        consistent(a, b),
        same_anchor(a, b, n, t),
    ensures
        chain(a, n, t) == chain(b, n, t),
        flatten(a, n, chain(a, n, t)) == flatten(b, n, chain(b, n, t)),
{
    lemma_chain_same(a, b, n, t, t, 0);
    let ws = chain(a, n, t);
    assert forall|i: int| 0 <= i < ws.len() implies same_anchor(a, b, n, #[trigger] ws[i]) by {
        if i < ws.len() - 1 {
            assert(ws[i] == chain_below(a, n, t, t, 0)[i]);
        }
    }
    lemma_flatten_same(a, b, n, ws);
}

/// The participant whose highest decided wave is the lower one has given out
/// a prefix of what the other has given out.
pub proof fn lemma_lower_is_prefix(a: Grid, b: Grid, n: nat, honest: Seq<bool>, ta: nat, tb: nat)
    requires
        compatible(a, b, n, honest),
        top_wave(a, n) == Some(ta),
        top_wave(b, n) == Some(tb),
        ta <= tb,
    ensures
        ordered(a, n).is_prefix_of(ordered(b, n)),
{
    lemma_top_wave(a, n);
    lemma_top_wave(b, n);
    if ta == tb {
        lemma_same_wave_same_anchor(a, b, n, honest, ta);
        lemma_common_order(a, b, n, ta);
    } else {
        lemma_decided_locks(a, b, n, honest, ta, anchor_round(tb), leader(tb, n));
        assert forall|r: int, c: int| #[trigger]
            present(b, r, c) && r >= anchor_round(ta) + 2 implies crate::reach::reaches(
            b,
            r,
            c,
            anchor_round(ta),
            leader(ta, n),
        ) by {
            lemma_decided_locks(a, b, n, honest, ta, r, c);
        }
        assert(locked(b, n, ta));
        lemma_chain_split(b, n, tb, tb, ta);
        let rest = chain_below(b, n, tb, tb, ta + 1).push(tb);
        assert(chain(b, n, tb) =~= chain(b, n, ta) + rest);
        lemma_flatten_prefix(b, n, chain(b, n, ta), rest);
        lemma_common_order(a, b, n, ta);
    }
}

/// Of the orders that two compatible grids determine, one is a prefix of the
/// other.
pub proof fn lemma_orders_agree(a: Grid, b: Grid, n: nat, honest: Seq<bool>)
    requires
        compatible(a, b, n, honest),
    ensures
        ordered(a, n).is_prefix_of(ordered(b, n)) || ordered(b, n).is_prefix_of(ordered(a, n)),
{
    match (top_wave(a, n), top_wave(b, n)) {
        (Some(ta), Some(tb)) => {
            if ta <= tb {
                lemma_lower_is_prefix(a, b, n, honest, ta, tb);
            } else {
                lemma_compatible_symmetric(a, b, n, honest);
                lemma_lower_is_prefix(b, a, n, honest, tb, ta);
            }
        },
        (None, _) => {
            assert(ordered(a, n) =~= Seq::<UnitHash>::empty());
        },
        (_, None) => {
            assert(ordered(b, n) =~= Seq::<UnitHash>::empty());
        },
    }
}

/// Two lists without repetitions, one of which begins with the other, hold
/// what they both hold at the same places.
pub proof fn lemma_same_places(xs: Seq<UnitHash>, ys: Seq<UnitHash>, i: int, k: int)
    requires
        xs.is_prefix_of(ys) || ys.is_prefix_of(xs),
        xs.no_duplicates(),
        ys.no_duplicates(),
        0 <= i < xs.len(),
        0 <= k < ys.len(),
        xs[i] == ys[k],
    ensures
        i == k,
{
    if xs.is_prefix_of(ys) {
        assert(xs[i] == ys.subrange(0, xs.len() as int)[i]);
    } else {
        assert(ys[k] == xs.subrange(0, ys.len() as int)[k]);
    }
}

/// Agreement: take two compatible grids, that is the DAGs of two participants
/// of one committee in which equal digests name equal units and all members
/// but the tolerated number never fork. Then of the orders that the two
/// determine, one is a prefix of the other, and wherever both place two
/// units, they place them in the same relative order.
pub proof fn lemma_agreement(a: Grid, b: Grid, n: nat, honest: Seq<bool>)
    requires
        compatible(a, b, n, honest),
    ensures
        ordered(a, n).is_prefix_of(ordered(b, n)) || ordered(b, n).is_prefix_of(ordered(a, n)),
        forall|i: int, j: int, k: int, l: int|
            0 <= i < ordered(a, n).len() && 0 <= j < ordered(a, n).len()
                && 0 <= k < ordered(b, n).len() && 0 <= l < ordered(b, n).len()
                && #[trigger] ordered(a, n)[i] == #[trigger] ordered(b, n)[k]
                && #[trigger] ordered(a, n)[j] == #[trigger] ordered(b, n)[l]
                ==> (i < j <==> k < l),
{
    lemma_orders_agree(a, b, n, honest);
    crate::stream_laws::lemma_order_lists_units_once(a, n);
    crate::stream_laws::lemma_order_lists_units_once(b, n);
    let xs = ordered(a, n);
    let ys = ordered(b, n);
    assert forall|i: int, j: int, k: int, l: int|
        0 <= i < xs.len() && 0 <= j < xs.len() && 0 <= k < ys.len() && 0 <= l < ys.len()
            && #[trigger] xs[i] == #[trigger] ys[k] && #[trigger] xs[j]
            == #[trigger] ys[l] implies (i < j <==> k < l) by {
        lemma_same_places(xs, ys, i, k);
        lemma_same_places(xs, ys, j, l);
    }
}

/// Agreement between extenders: take the extenders of two participants of
/// one committee, whose DAGs give equal digests to equal units only, and let
/// all members but the tolerated number never fork. Then of the orders that
/// the two have given out, one is a prefix of the other: wherever both have
/// placed two units, they have placed them in the same relative order.
pub proof fn lemma_extenders_agree(x: &Extender, y: &Extender, honest: Seq<bool>)
    requires
        x.wf(),
        y.wf(),
        x.members() == y.members(),
        x.members() >= 1,
        consistent(x.grid(), y.grid()),
        honest.len() == x.members(),
        count_true(honest) + spec_fault_tolerance(x.members()) >= x.members(),
        never_fork(x.grid(), y.grid(), honest),
    ensures
        x.stream().is_prefix_of(y.stream()) || y.stream().is_prefix_of(x.stream()),
        forall|i: int, j: int, k: int, l: int|
            0 <= i < x.stream().len() && 0 <= j < x.stream().len() && 0 <= k < y.stream().len()
                && 0 <= l < y.stream().len() && #[trigger] x.stream()[i] == #[trigger] y.stream()[k]
                && #[trigger] x.stream()[j] == #[trigger] y.stream()[l] ==> (i < j <==> k < l),
{
    x.lemma_stream_is_order();
    y.lemma_stream_is_order();
    lemma_agreement(x.grid(), y.grid(), x.members(), honest);
}

/// Agreement between engines: what `lemma_extenders_agree` says of the
/// extenders holds of the engines of two participants.
pub proof fn lemma_engines_agree(x: &Consensus, y: &Consensus, honest: Seq<bool>)
    requires
        x.wf(),
        y.wf(),
        x.members() == y.members(),
        consistent(x.dag(), y.dag()),
        honest.len() == x.members(),
        count_true(honest) + spec_fault_tolerance(x.members()) >= x.members(),
        never_fork(x.dag(), y.dag(), honest),
    ensures
        x.stream().is_prefix_of(y.stream()) || y.stream().is_prefix_of(x.stream()),
        forall|i: int, j: int, k: int, l: int|
            0 <= i < x.stream().len() && 0 <= j < x.stream().len() && 0 <= k < y.stream().len()
                && 0 <= l < y.stream().len() && #[trigger] x.stream()[i] == #[trigger] y.stream()[k]
                && #[trigger] x.stream()[j] == #[trigger] y.stream()[l] ==> (i < j <==> k < l),
{
    x.lemma_stream_is_valid();
    y.lemma_stream_is_valid();
    x.lemma_has_members();
    lemma_agreement(x.dag(), y.dag(), x.members(), honest);
}

} // verus!
