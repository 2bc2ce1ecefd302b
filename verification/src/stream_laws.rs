//! What the order lists: units of the DAG, each once, and ever more of them.

use vstd::prelude::*;
use vstd::seq_lib::lemma_no_dup_in_concat;
use crate::agreement::lemma_lower_is_prefix;
use crate::dag::{contains_hash, extends, has_parent, present, unit_at, wf_grid, Grid};
use crate::extender::Extender;
use crate::order::{
    anchor_round, batch, batch_row, batch_rows, before_last, chain, chain_below, decided,
    flatten, has_anchor, in_batch, leader, ordered, takes, top_wave, vote_flags, voting_round,
};
use crate::order_lemmas::{
    everyone, lemma_count_everyone, lemma_decided_anchor, lemma_decided_locked,
    lemma_decided_monotone, lemma_extends_consistent, lemma_top_wave,
};
use crate::reach::{lemma_reaches_present, lemma_reaches_transitive, reaches};
use crate::unit::UnitHash;

verus! {

/// Whether `h` is the digest of the unit in slot `(r, c)`.
pub open spec fn names(g: Grid, h: UnitHash, r: int, c: int) -> bool {
    present(g, r, c) && unit_at(g, r, c).hash == h
}

/// Whether `h` is the digest of a unit of round `r`, made by a member below
/// `upto`, that the anchor of wave `v` contributes.
pub open spec fn row_lists(
    g: Grid,
    n: nat,
    v: nat,
    prev: Option<nat>,
    r: int,
    upto: nat,
    h: UnitHash,
) -> bool {
    exists|c: int| 0 <= c < upto && in_batch(g, n, v, prev, r, c) && #[trigger] names(g, h, r, c)
}

/// Whether `h` is the digest of a unit of a round below `upto` that the
/// anchor of wave `v` contributes.
pub open spec fn rows_list(
    g: Grid,
    n: nat,
    v: nat,
    prev: Option<nat>,
    upto: nat,
    h: UnitHash,
) -> bool {
    exists|r: int, c: int|
        0 <= r < upto && in_batch(g, n, v, prev, r, c) && #[trigger] names(g, h, r, c)
}

/// Whether `h` is the digest of the anchor of wave `v` or of a unit below it.
pub open spec fn below_anchor(g: Grid, n: nat, v: nat, h: UnitHash) -> bool {
    exists|r: int, c: int|
        reaches(g, anchor_round(v), leader(v, n), r, c) && #[trigger] names(g, h, r, c)
}

/// The waves `ws` have their anchors in the grid, and each anchor reaches the
/// one before it.
pub open spec fn linked(g: Grid, n: nat, ws: Seq<nat>) -> bool {
    &&& forall|i: int| 0 <= i < ws.len() ==> has_anchor(g, n, #[trigger] ws[i])
    &&& forall|i: int| 0 <= i < ws.len() - 1 ==> takes(g, n, ws[i + 1], #[trigger] ws[i])
}

proof fn lemma_row_lists(g: Grid, n: nat, v: nat, prev: Option<nat>, r: int, upto: nat)
    requires
        wf_grid(g, n),
    ensures
        forall|i: int|
            0 <= i < batch_row(g, n, v, prev, r, upto).len() ==> row_lists(
                g,
                n,
                v,
                prev,
                r,
                upto,
                #[trigger] batch_row(g, n, v, prev, r, upto)[i],
            ),
        batch_row(g, n, v, prev, r, upto).no_duplicates(),
    decreases upto,
{
    if upto > 0 {
        let rest = batch_row(g, n, v, prev, r, (upto - 1) as nat);
        let row = batch_row(g, n, v, prev, r, upto);
        lemma_row_lists(g, n, v, prev, r, (upto - 1) as nat);
        assert forall|i: int| 0 <= i < rest.len() implies row_lists(
            g,
            n,
            v,
            prev,
            r,
            upto,
            #[trigger] rest[i],
        ) by {
            assert(row_lists(g, n, v, prev, r, (upto - 1) as nat, rest[i]));
            let c = choose|c: int|
                0 <= c < upto - 1 && in_batch(g, n, v, prev, r, c) && #[trigger] names(
                    g,
                    rest[i],
                    r,
                    c,
                );
            assert(names(g, rest[i], r, c));
        }
        if in_batch(g, n, v, prev, r, upto - 1) {
            let h = unit_at(g, r, upto - 1).hash;
            lemma_reaches_present(g, n, anchor_round(v), leader(v, n), r, upto - 1);
            assert(names(g, h, r, upto - 1));
            assert forall|i: int| 0 <= i < rest.len() implies rest[i] != h by {
                assert(row_lists(g, n, v, prev, r, (upto - 1) as nat, rest[i]));
                let c = choose|c: int|
                    0 <= c < upto - 1 && in_batch(g, n, v, prev, r, c) && #[trigger] names(
                        g,
                        rest[i],
                        r,
                        c,
                    );
                assert(present(g, r, c) && present(g, r, upto - 1));
            }
            assert forall|i: int| 0 <= i < row.len() implies row_lists(
                g,
                n,
                v,
                prev,
                r,
                upto,
                #[trigger] row[i],
            ) by {
                if i < rest.len() {
                    assert(row[i] == rest[i]);
                }
            }
        }
    }
}

proof fn lemma_rows_list(g: Grid, n: nat, v: nat, prev: Option<nat>, upto: nat)
    requires
        wf_grid(g, n),
    ensures
        forall|i: int|
            0 <= i < batch_rows(g, n, v, prev, upto).len() ==> rows_list(
                g,
                n,
                v,
                prev,
                upto,
                #[trigger] batch_rows(g, n, v, prev, upto)[i],
            ),
        batch_rows(g, n, v, prev, upto).no_duplicates(),
    decreases upto,
{
    if upto > 0 {
        let rest = batch_rows(g, n, v, prev, (upto - 1) as nat);
        let row = batch_row(g, n, v, prev, upto - 1, n);
        let all = batch_rows(g, n, v, prev, upto);
        lemma_rows_list(g, n, v, prev, (upto - 1) as nat);
        lemma_row_lists(g, n, v, prev, upto - 1, n);
        assert forall|i: int| 0 <= i < rest.len() implies rows_list(
            g,
            n,
            v,
            prev,
            upto,
            #[trigger] rest[i],
        ) by {
            assert(rows_list(g, n, v, prev, (upto - 1) as nat, rest[i]));
            let (r, c) = choose|r: int, c: int|
                0 <= r < upto - 1 && in_batch(g, n, v, prev, r, c) && #[trigger] names(
                    g,
                    rest[i],
                    r,
                    c,
                );
            assert(names(g, rest[i], r, c));
        }
        assert forall|j: int| 0 <= j < row.len() implies rows_list(
            g,
            n,
            v,
            prev,
            upto,
            #[trigger] row[j],
        ) by {
            assert(row_lists(g, n, v, prev, upto - 1, n, row[j]));
            let c = choose|c: int|
                0 <= c < n && in_batch(g, n, v, prev, upto - 1, c) && #[trigger] names(
                    g,
                    row[j],
                    upto - 1,
                    c,
                );
            assert(names(g, row[j], upto - 1, c));
        }
        assert forall|i: int, j: int| 0 <= i < rest.len() && 0 <= j < row.len() implies rest[i]
            != row[j] by {
            assert(rows_list(g, n, v, prev, (upto - 1) as nat, rest[i]));
            let (r, c) = choose|r: int, c: int|
                0 <= r < upto - 1 && in_batch(g, n, v, prev, r, c) && #[trigger] names(
                    g,
                    rest[i],
                    r,
                    c,
                );
            assert(row_lists(g, n, v, prev, upto - 1, n, row[j]));
            let d = choose|d: int|
                0 <= d < n && in_batch(g, n, v, prev, upto - 1, d) && #[trigger] names(
                    g,
                    row[j],
                    upto - 1,
                    d,
                );
            assert(present(g, r, c) && present(g, upto - 1, d));
        }
        lemma_no_dup_in_concat(rest, row);
        assert forall|i: int| 0 <= i < all.len() implies rows_list(
            g,
            n,
            v,
            prev,
            upto,
            #[trigger] all[i],
        ) by {
            if i < rest.len() {
                assert(all[i] == rest[i]);
            } else {
                assert(all[i] == row[i - rest.len()]);
            }
        }
    }
}

/// The walk down from an anchor in the grid takes anchors that are in the
/// grid, each reaching the one taken after it, the first being reached by the
/// anchor from which the walk sets out.
pub proof fn lemma_chain_linked(g: Grid, n: nat, v: nat, w: nat, lo: nat)
    requires
        wf_grid(g, n),
        has_anchor(g, n, v),
    ensures
        linked(g, n, chain_below(g, n, v, w, lo)),
        chain_below(g, n, v, w, lo).len() > 0 ==> takes(
            g,
            n,
            v,
            chain_below(g, n, v, w, lo).last(),
        ),
    decreases w,
{
    if w > lo {
        let u = (w - 1) as nat;
        if takes(g, n, v, u) {
            lemma_reaches_present(
                g,
                n,
                anchor_round(v),
                leader(v, n),
                anchor_round(u),
                leader(u, n),
            );
            lemma_chain_linked(g, n, u, u, lo);
            let inner = chain_below(g, n, u, u, lo);
            let ch = chain_below(g, n, v, w, lo);
            assert(ch == inner.push(u));
            assert forall|i: int| 0 <= i < ch.len() implies has_anchor(g, n, #[trigger] ch[i]) by {
                if i < inner.len() {
                    assert(ch[i] == inner[i]);
                }
            }
            assert forall|i: int| 0 <= i < ch.len() - 1 implies takes(
                g,
                n,
                ch[i + 1],
                #[trigger] ch[i],
            ) by {
                if i < inner.len() - 1 {
                    assert(ch[i] == inner[i] && ch[i + 1] == inner[i + 1]);
                } else {
                    assert(ch[i] == inner.last());
                }
            }
        } else {
            lemma_chain_linked(g, n, v, u, lo);
        }
    }
}

/// What linked anchors contribute, one after the other, are digests of units
/// at or below the last anchor, none of them twice.
pub proof fn lemma_flatten_lists(g: Grid, n: nat, ws: Seq<nat>)
    requires
        wf_grid(g, n),
        linked(g, n, ws),
        ws.len() > 0,
    ensures
        forall|i: int|
            0 <= i < flatten(g, n, ws).len() ==> below_anchor(
                g,
                n,
                ws.last(),
                #[trigger] flatten(g, n, ws)[i],
            ),
        flatten(g, n, ws).no_duplicates(),
    decreases ws.len(),
{
    let v = ws.last();
    let init = ws.drop_last();
    let prev = before_last(ws);
    let head = flatten(g, n, init);
    let tail = batch(g, n, v, prev);
    let all = flatten(g, n, ws);
    lemma_rows_list(g, n, v, prev, (2 * v + 1) as nat);
    assert forall|j: int| 0 <= j < tail.len() implies below_anchor(g, n, v, #[trigger] tail[j]) by {
        assert(rows_list(g, n, v, prev, (2 * v + 1) as nat, tail[j]));
        let (r, c) = choose|r: int, c: int|
            0 <= r < 2 * v + 1 && in_batch(g, n, v, prev, r, c) && #[trigger] names(
                g,
                tail[j],
                r,
                c,
            );
        assert(reaches(g, anchor_round(v), leader(v, n), r, c) && names(g, tail[j], r, c));
    }
    if init.len() > 0 {
        let p = init.last();
        assert(prev == Some(p));
        assert(ws[ws.len() - 2] == p);
        assert(takes(g, n, ws[ws.len() - 2 + 1], ws[ws.len() - 2]));
        assert(takes(g, n, v, p));
        assert(linked(g, n, init)) by {
            assert forall|i: int| 0 <= i < init.len() implies has_anchor(
                g,
                n,
                #[trigger] init[i],
            ) by {
                assert(init[i] == ws[i]);
            }
            assert forall|i: int| 0 <= i < init.len() - 1 implies takes(
                g,
                n,
                init[i + 1],
                #[trigger] init[i],
            ) by {
                assert(init[i] == ws[i] && init[i + 1] == ws[i + 1]);
            }
        }
        lemma_flatten_lists(g, n, init);
        assert forall|i: int| 0 <= i < head.len() implies below_anchor(
            g,
            n,
            v,
            #[trigger] head[i],
        ) by {
            assert(below_anchor(g, n, p, head[i]));
            let (r, c) = choose|r: int, c: int|
                reaches(g, anchor_round(p), leader(p, n), r, c) && #[trigger] names(
                    g,
                    head[i],
                    r,
                    c,
                );
            lemma_reaches_transitive(
                g,
                anchor_round(v),
                leader(v, n),
                anchor_round(p),
                leader(p, n),
                r,
                c,
            );
            assert(reaches(g, anchor_round(v), leader(v, n), r, c) && names(g, head[i], r, c));
        }
        assert forall|i: int, j: int| 0 <= i < head.len() && 0 <= j < tail.len() implies head[i]
            != tail[j] by {
            assert(below_anchor(g, n, p, head[i]));
            let (r, c) = choose|r: int, c: int|
                reaches(g, anchor_round(p), leader(p, n), r, c) && #[trigger] names(
                    g,
                    head[i],
                    r,
                    c,
                );
            assert(rows_list(g, n, v, prev, (2 * v + 1) as nat, tail[j]));
            let (r2, c2) = choose|r2: int, c2: int|
                0 <= r2 < 2 * v + 1 && in_batch(g, n, v, prev, r2, c2) && #[trigger] names(
                    g,
                    tail[j],
                    r2,
                    c2,
                );
            assert(present(g, r, c) && present(g, r2, c2));
        }
        lemma_no_dup_in_concat(head, tail);
    } else {
        assert(head =~= Seq::<UnitHash>::empty());
        assert(all =~= tail);
    }
    assert forall|i: int| 0 <= i < all.len() implies below_anchor(g, n, v, #[trigger] all[i]) by {
        if i < head.len() {
            assert(all[i] == head[i]);
        } else {
            assert(all[i] == tail[i - head.len()]);
        }
    }
}

/// Validity and no duplication, on the DAG: the order that a grid determines
/// lists digests of units of the grid, and none of them twice.
pub proof fn lemma_order_lists_units_once(g: Grid, n: nat)
    requires
        wf_grid(g, n),
        n >= 1,
    ensures
        ordered(g, n).no_duplicates(),
        forall|i: int|
            0 <= i < ordered(g, n).len() ==> contains_hash(g, #[trigger] ordered(g, n)[i]),
{
    lemma_top_wave(g, n);
    match top_wave(g, n) {
        Some(t) => {
            lemma_top_chain_linked(g, n, t);
            let ws = chain(g, n, t);
            lemma_flatten_lists(g, n, ws);
            let all = ordered(g, n);
            assert forall|i: int| 0 <= i < all.len() implies contains_hash(g, #[trigger] all[i]) by {
                assert(below_anchor(g, n, t, all[i]));
                let (r, c) = choose|r: int, c: int|
                    reaches(g, anchor_round(t), leader(t, n), r, c) && #[trigger] names(
                        g,
                        all[i],
                        r,
                        c,
                    );
                assert(present(g, r, c) && unit_at(g, r, c).hash == all[i]);
            }
        },
        None => {},
    }
}

/// What is in one of two lists is in the two put together.
proof fn lemma_contains_in_concat(a: Seq<UnitHash>, b: Seq<UnitHash>, x: UnitHash)
    requires
        a.contains(x) || b.contains(x),
    ensures
        (a + b).contains(x),
{
    if a.contains(x) {
        let i = choose|i: int| 0 <= i < a.len() && a[i] == x;
        assert((a + b)[i] == x);
    } else {
        let i = choose|i: int| 0 <= i < b.len() && b[i] == x;
        assert((a + b)[a.len() + i] == x);
    }
}

proof fn lemma_row_has(g: Grid, n: nat, v: nat, prev: Option<nat>, r: int, upto: nat, c: int)
    requires
        0 <= c < upto,
        in_batch(g, n, v, prev, r, c),
    ensures
        batch_row(g, n, v, prev, r, upto).contains(unit_at(g, r, c).hash),
    decreases upto,
{
    let row = batch_row(g, n, v, prev, r, upto);
    let rest = batch_row(g, n, v, prev, r, (upto - 1) as nat);
    if c == upto - 1 {
        assert(row[row.len() - 1] == unit_at(g, r, c).hash);
    } else {
        lemma_row_has(g, n, v, prev, r, (upto - 1) as nat, c);
        let i = choose|i: int| 0 <= i < rest.len() && rest[i] == unit_at(g, r, c).hash;
        assert(row[i] == rest[i]);
    }
}

proof fn lemma_rows_have(g: Grid, n: nat, v: nat, prev: Option<nat>, upto: nat, r: int, c: int)
    requires
        0 <= r < upto,
        0 <= c < n,
        in_batch(g, n, v, prev, r, c),
    ensures
        batch_rows(g, n, v, prev, upto).contains(unit_at(g, r, c).hash),
    decreases upto,
{
    let rest = batch_rows(g, n, v, prev, (upto - 1) as nat);
    let row = batch_row(g, n, v, prev, upto - 1, n);
    if r == upto - 1 {
        lemma_row_has(g, n, v, prev, r, n, c);
    } else {
        lemma_rows_have(g, n, v, prev, (upto - 1) as nat, r, c);
    }
    lemma_contains_in_concat(rest, row, unit_at(g, r, c).hash);
}

/// What linked anchors contribute, one after the other, leaves out no unit at
/// or below the last anchor.
pub proof fn lemma_flatten_lists_all(g: Grid, n: nat, ws: Seq<nat>, r: int, c: int)
    requires
        wf_grid(g, n),
        linked(g, n, ws),
        ws.len() > 0,
        reaches(g, anchor_round(ws.last()), leader(ws.last(), n), r, c),
    ensures
        flatten(g, n, ws).contains(unit_at(g, r, c).hash),
    decreases ws.len(),
{
    let v = ws.last();
    let init = ws.drop_last();
    let prev = before_last(ws);
    let head = flatten(g, n, init);
    let tail = batch(g, n, v, prev);
    let h = unit_at(g, r, c).hash;
    lemma_reaches_present(g, n, anchor_round(v), leader(v, n), r, c);
    if init.len() > 0 && reaches(g, anchor_round(init.last()), leader(init.last(), n), r, c) {
        assert(linked(g, n, init)) by {
            assert forall|i: int| 0 <= i < init.len() implies has_anchor(
                g,
                n,
                #[trigger] init[i],
            ) by {
                assert(init[i] == ws[i]);
            }
            assert forall|i: int| 0 <= i < init.len() - 1 implies takes(
                g,
                n,
                init[i + 1],
                #[trigger] init[i],
            ) by {
                assert(init[i] == ws[i] && init[i + 1] == ws[i + 1]);
            }
        }
        lemma_flatten_lists_all(g, n, init, r, c);
    } else {
        if init.len() > 0 {
            assert(prev == Some(init.last()));
        }
        assert(in_batch(g, n, v, prev, r, c));
        lemma_rows_have(g, n, v, prev, (2 * v + 1) as nat, r, c);
    }
    lemma_contains_in_concat(head, tail, h);
}

/// The chain of the highest decided wave is linked.
proof fn lemma_top_chain_linked(g: Grid, n: nat, t: nat)
    requires
        wf_grid(g, n),
        has_anchor(g, n, t),
    ensures
        linked(g, n, chain(g, n, t)),
{
    lemma_chain_linked(g, n, t, t, 0);
    let inner = chain_below(g, n, t, t, 0);
    let ws = chain(g, n, t);
    assert forall|i: int| 0 <= i < ws.len() implies has_anchor(g, n, #[trigger] ws[i]) by {
        if i < inner.len() {
            assert(ws[i] == inner[i]);
        }
    }
    assert forall|i: int| 0 <= i < ws.len() - 1 implies takes(g, n, ws[i + 1], #[trigger] ws[i]) by {
        if i < inner.len() - 1 {
            assert(ws[i] == inner[i] && ws[i + 1] == inner[i + 1]);
        } else {
            assert(ws[i] == inner.last());
        }
    }
}

/// Completeness of the order: once a wave is decided, the order lists its
/// anchor and every unit below it.
pub proof fn lemma_order_lists_all_below(g: Grid, n: nat, w: nat, r: int, c: int)
    requires
        wf_grid(g, n),
        n >= 1,
        decided(g, n, w),
        reaches(g, anchor_round(w), leader(w, n), r, c),
    ensures
        ordered(g, n).contains(unit_at(g, r, c).hash),
{
    lemma_top_wave(g, n);
    let t = top_wave(g, n).unwrap();
    lemma_decided_anchor(g, n, w);
    if w < t {
        lemma_decided_locked(g, n, w);
        assert(reaches(g, anchor_round(t), leader(t, n), anchor_round(w), leader(w, n)));
        lemma_reaches_transitive(
            g,
            anchor_round(t),
            leader(t, n),
            anchor_round(w),
            leader(w, n),
            r,
            c,
        );
    }
    lemma_top_chain_linked(g, n, t);
    lemma_flatten_lists_all(g, n, chain(g, n, t), r, c);
}

/// Append-only, on the DAG: as the grid grows, the order it determines only
/// gets longer. What an earlier grid determines is a prefix of what any grid
/// that extends it determines.
pub proof fn lemma_order_grows(a: Grid, b: Grid, n: nat)
    requires
        wf_grid(a, n),
        wf_grid(b, n),
        n >= 1,
        extends(a, b),
    ensures
        ordered(a, n).is_prefix_of(ordered(b, n)),
{
    lemma_extends_consistent(a, b, n);
    lemma_count_everyone(n);
    lemma_top_wave(a, n);
    lemma_top_wave(b, n);
    match top_wave(a, n) {
        Some(ta) => {
            lemma_decided_monotone(a, b, n, ta);
            let tb = top_wave(b, n).unwrap();
            lemma_lower_is_prefix(a, b, n, everyone(n), ta, tb);
        },
        None => {
            assert(ordered(a, n) =~= Seq::<UnitHash>::empty());
        },
    }
}

/// The rounds up to `top` are full and fully linked: every member has its
/// unit in each of them, and every unit above round zero names every
/// member's unit of the round before. This is what participants make of whom
/// none is slow and none is lost.
pub open spec fn full_up_to(g: Grid, n: nat, top: int) -> bool {
    &&& forall|r: int, c: int| 0 <= r <= top && 0 <= c < n ==> #[trigger] present(g, r, c)
    &&& forall|r: int, c: int, k: int|
        0 < r <= top && 0 <= c < n && 0 <= k < n ==> #[trigger] has_parent(unit_at(g, r, c), k)
}

/// In full rounds every unit reaches every unit of every round below it.
pub proof fn lemma_full_rounds_reach(
    g: Grid,
    n: nat,
    top: int,
    r: int,
    c: int,
    r2: int,
    c2: int,
)
    requires
        n >= 1,
        full_up_to(g, n, top),
        0 <= r2 < r <= top,
        0 <= c < n,
        0 <= c2 < n,
    ensures
        reaches(g, r, c, r2, c2),
    decreases r,
{
    assert(present(g, r, c));
    if r - 1 == r2 {
        assert(present(g, r - 1, c2));
        assert(has_parent(unit_at(g, r, c), c2));
        assert(reaches(g, r - 1, c2, r2, c2));
    } else {
        lemma_full_rounds_reach(g, n, top, r - 1, 0, r2, c2);
        assert(has_parent(unit_at(g, r, c), 0));
    }
}

/// Liveness where nothing is slow and nothing is lost: once the rounds up to
/// the voting round of wave `w` are full, the wave is decided, and the order
/// lists every unit of every round below the anchor's, and the anchor.
pub proof fn lemma_full_rounds_are_ordered(g: Grid, n: nat, w: nat, r: int, c: int)
    requires
        wf_grid(g, n),
        n >= 1,
        full_up_to(g, n, voting_round(w)),
        0 <= c < n,
        0 <= r < anchor_round(w) || (r == anchor_round(w) && c == leader(w, n)),
    ensures
        decided(g, n, w),
        ordered(g, n).contains(unit_at(g, r, c).hash),
{
    let flags = vote_flags(g, n, w);
    assert(flags =~= everyone(n)) by {
        assert forall|k: int| 0 <= k < n implies flags[k] by {
            assert(present(g, voting_round(w), k));
            assert(has_parent(unit_at(g, voting_round(w), k), leader(w, n)));
        }
    }
    lemma_count_everyone(n);
    crate::committee::lemma_quorum_overlap(n);
    assert(present(g, anchor_round(w), leader(w, n)));
    if r < anchor_round(w) {
        lemma_full_rounds_reach(g, n, voting_round(w), anchor_round(w), leader(w, n), r, c);
    }
    lemma_order_lists_all_below(g, n, w, r, c);
}

impl Extender {
    /// Validity and no duplication: whatever the extender has given out is
    /// the digest of a unit that it was handed, and it has given out no
    /// digest twice.
    pub proof fn lemma_stream_lists_units_once(&self)
        requires
            self.wf(),
            self.members() >= 1,
        ensures
            self.stream().no_duplicates(),
            forall|i: int|
                0 <= i < self.stream().len() ==> contains_hash(
                    self.grid(),
                    #[trigger] self.stream()[i],
                ),
    {
        self.lemma_stream_is_order();
        lemma_order_lists_units_once(self.grid(), self.members());
    }

    /// Completeness: once the extender has seen a quorum vote for the anchor
    /// of a wave, it has given out that anchor and every unit below it.
    pub proof fn lemma_stream_lists_all_below(&self, w: nat, r: int, c: int)
        requires
            self.wf(),
            self.members() >= 1,
            decided(self.grid(), self.members(), w),
            reaches(self.grid(), anchor_round(w), leader(w, self.members()), r, c),
        ensures
            self.stream().contains(unit_at(self.grid(), r, c).hash),
    {
        self.lemma_stream_is_order();
        lemma_order_lists_all_below(self.grid(), self.members(), w, r, c);
    }

    /// Participants that hold the same DAG have given out the same order.
    pub proof fn lemma_same_dag_same_stream(&self, other: &Extender)
        requires
            self.wf(),
            other.wf(),
            self.members() == other.members(),
            self.grid() == other.grid(),
        ensures
            self.stream() == other.stream(),
    {
        self.lemma_stream_is_order();
        other.lemma_stream_is_order();
    }
}

} // verus!
