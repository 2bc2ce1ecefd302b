//! Ancestry in the DAG: which units lie below a given unit.

use vstd::prelude::*;
use crate::dag::{has_parent, present, unit_at, wf_grid, Dag, Grid};
use crate::unit::{NodeIndex, Round};

verus! {

/// Whether the unit in slot `(r2, c2)` is the unit in slot `(r, c)` or one of
/// its ancestors: whether a chain of parent links leads from the one down to
/// the other.
pub open spec fn reaches(g: Grid, r: int, c: int, r2: int, c2: int) -> bool
    decreases r,
{
    present(g, r, c) && ((r == r2 && c == c2) || (r > r2 && r > 0 && exists|k: int| #[trigger]
        has_parent(unit_at(g, r, c), k) && reaches(g, r - 1, k, r2, c2)))
}

/// What a unit reaches is in the grid, at or below its own round.
pub proof fn lemma_reaches_present(g: Grid, n: nat, r: int, c: int, r2: int, c2: int)
    requires
        wf_grid(g, n),
        reaches(g, r, c, r2, c2),
    ensures
        present(g, r2, c2),
        r2 <= r,
        0 <= c2 < n,
    decreases r,
{
    if !(r == r2 && c == c2) {
        let k = choose|k: int| #[trigger]
            has_parent(unit_at(g, r, c), k) && reaches(g, r - 1, k, r2, c2);
        lemma_reaches_present(g, n, r - 1, k, r2, c2);
    }
}

/// One link further down: the parents of what a unit reaches are reached too.
pub proof fn lemma_reaches_parent(g: Grid, n: nat, r: int, c: int, r2: int, c2: int, k: int)
    requires
        wf_grid(g, n),
        reaches(g, r, c, r2, c2),
        has_parent(unit_at(g, r2, c2), k),
    ensures
        reaches(g, r, c, r2 - 1, k),
    decreases r,
{
    lemma_reaches_present(g, n, r, c, r2, c2);
    assert(present(g, r2, c2));
    let u = unit_at(g, r2, c2);
    assert(crate::dag::wf_cell(g, n, r2, c2));
    assert(present(g, r2 - 1, k));
    if r == r2 && c == c2 {
        assert(reaches(g, r - 1, k, r2 - 1, k));
    } else {
        let k1 = choose|k1: int| #[trigger]
            has_parent(unit_at(g, r, c), k1) && reaches(g, r - 1, k1, r2, c2);
        lemma_reaches_parent(g, n, r - 1, k1, r2, c2, k);
    }
}

/// The last link of a chain: what a unit reaches strictly below itself is a
/// parent of something it reaches one round higher.
pub proof fn lemma_reaches_last_link(g: Grid, n: nat, r: int, c: int, r2: int, c2: int) -> (via:
    int)
    requires
        wf_grid(g, n),
        reaches(g, r, c, r2, c2),
        r > r2,
    ensures
        reaches(g, r, c, r2 + 1, via),
        has_parent(unit_at(g, r2 + 1, via), c2),
    decreases r,
{
    let k1 = choose|k1: int| #[trigger]
        has_parent(unit_at(g, r, c), k1) && reaches(g, r - 1, k1, r2, c2);
    if r - 1 == r2 {
        c
    } else {
        lemma_reaches_parent_round(g, r - 1, k1, r2, c2);
        let via = lemma_reaches_last_link(g, n, r - 1, k1, r2, c2);
        via
    }
}

/// A unit reaches nothing above its own round.
pub proof fn lemma_reaches_parent_round(g: Grid, r: int, c: int, r2: int, c2: int)
    requires
        reaches(g, r, c, r2, c2),
    ensures
        r2 <= r,
        r2 == r ==> c2 == c,
{
}

/// Reaching is transitive.
pub proof fn lemma_reaches_transitive(
    g: Grid,
    r: int,
    c: int,
    r2: int,
    c2: int,
    r3: int,
    c3: int,
)
    requires
        reaches(g, r, c, r2, c2),
        reaches(g, r2, c2, r3, c3),
    ensures
        reaches(g, r, c, r3, c3),
    decreases r,
{
    if !(r == r2 && c == c2) {
        let k = choose|k: int| #[trigger]
            has_parent(unit_at(g, r, c), k) && reaches(g, r - 1, k, r2, c2);
        lemma_reaches_transitive(g, r - 1, k, r2, c2, r3, c3);
        lemma_reaches_parent_round(g, r2, c2, r3, c3);
    }
}

fn blank_row(n: usize) -> (row: Vec<bool>)
    ensures
        row.len() == n,
        forall|k: int| 0 <= k < n ==> !row[k],
{
    let mut row: Vec<bool> = Vec::new();
    let mut k: usize = 0;
    while k < n
        invariant
            k <= n,
            row.len() == k,
            forall|j: int| 0 <= j < k ==> !row[j],
        decreases n - k,
    {
        row.push(false);
        k += 1;
    }
    row
}

/// From the members whose unit of round `round` is marked, the members whose
/// unit of the round before is a parent of a marked unit.
fn parents_of_marked(dag: &Dag, round: Round, marked: &Vec<bool>) -> (below: Vec<bool>)
    requires
        dag.wf(),
        marked.len() == dag.members(),
        forall|c: int| 0 <= c < marked.len() && marked[c] ==> present(dag@, round as int, c),
    ensures
        below.len() == dag.members(),
        forall|k: int|
            0 <= k < below.len() ==> (below[k] <==> exists|c: int|
                0 <= c < marked.len() && marked[c] && #[trigger] has_parent(
                    unit_at(dag@, round as int, c),
                    k,
                )),
{
    let n = dag.n_members();
    let ghost g = dag@;
    let mut below = blank_row(n);
    let mut c: usize = 0;
    while c < n
        invariant
            c <= n,
            n == dag.members(),
            marked.len() == n,
            below.len() == n,
            g == dag@,
            dag.wf(),
            forall|c: int| 0 <= c < marked.len() && marked[c] ==> present(g, round as int, c),
            forall|k: int|
                0 <= k < n ==> (below[k] <==> exists|d: int|
                    0 <= d < c && marked[d] && #[trigger] has_parent(
                        unit_at(g, round as int, d),
                        k,
                    )),
        decreases n - c,
    {
        if marked[c] {
            match dag.get(round, c) {
                Some(h) => {
                    let ghost before = below@;
                    proof {
                        dag.lemma_view_shape();
                        assert(present(g, round as int, c as int));
                        assert(crate::dag::wf_cell(g, n as nat, round as int, c as int));
                    }
                    let mut k: usize = 0;
                    while k < n
                        invariant
                            k <= n,
                            c < n,
                            below.len() == n,
                            before.len() == n,
                            h.parents.len() == n,
                            forall|j: int| k <= j < n ==> #[trigger] below[j] == before[j],
                            forall|j: int|
                                0 <= j < k ==> (#[trigger] below[j] <==> (before[j]
                                    || h.parents[j].is_some())),
                        decreases n - k,
                    {
                        if h.parents[k].is_some() {
                            below[k] = true;
                        }
                        k += 1;
                    }
                    assert forall|j: int| 0 <= j < n implies (below[j] <==> exists|d: int|
                        0 <= d < c + 1 && marked[d] && #[trigger] has_parent(
                            unit_at(g, round as int, d),
                            j,
                        )) by {
                        assert(h@.parents[j] == h.parents[j]);
                        assert(has_parent(unit_at(g, round as int, c as int), j)
                            == h.parents[j].is_some());
                        if before[j] {
                            let d = choose|d: int|
                                0 <= d < c && marked[d] && #[trigger] has_parent(
                                    unit_at(g, round as int, d),
                                    j,
                                );
                            assert(0 <= d < c + 1);
                        }
                    }
                },
                None => {},
            }
        }
        c += 1;
    }
    below
}

/// For every round up to `round` and every member, whether that member's unit
/// of that round is the unit of `creator` in round `round` or lies below it.
pub fn ancestry(dag: &Dag, round: Round, creator: NodeIndex) -> (out: Vec<Vec<bool>>)
    requires
        dag.wf(),
        present(dag@, round as int, creator as int),
    ensures
        out.len() == round + 1,
        forall|r: int| 0 <= r <= round ==> (#[trigger] out[r]).len() == dag.members(),
        forall|r: int, k: int|
            0 <= r <= round && 0 <= k < dag.members() ==> out[r][k] == reaches(
                dag@,
                round as int,
                creator as int,
                r,
                k,
            ),
{
    let n = dag.n_members();
    let top = round as usize;
    let ghost g = dag@;
    proof {
        dag.lemma_view_shape();
    }
    let height = dag.rounds();
    assert(top < height);
    let mut out: Vec<Vec<bool>> = Vec::new();
    let mut i: usize = 0;
    while i <= top
        invariant
            i <= top + 1,
            top < height,
            out.len() == i,
            forall|r: int| 0 <= r < i ==> (#[trigger] out[r]).len() == n,
            forall|r: int, k: int| 0 <= r < i && 0 <= k < n ==> !out[r][k],
        decreases top + 1 - i,
    {
        let row = blank_row(n);
        out.push(row);
        i += 1;
    }
    out[top][creator] = true;
    let mut r: usize = top;
    while r > 0
        invariant
            r <= top,
            top == round,
            n == dag.members(),
            g == dag@,
            dag.wf(),
            present(g, round as int, creator as int),
            out.len() == top + 1,
            forall|i: int| 0 <= i <= top ==> (#[trigger] out[i]).len() == n,
            forall|i: int, k: int|
                r <= i <= top && 0 <= k < n ==> out[i][k] == reaches(
                    g,
                    round as int,
                    creator as int,
                    i,
                    k,
                ),
        decreases r,
    {
        proof {
            assert forall|c: int| 0 <= c < out[r as int].len() && out[r as int][c] implies present(
                g,
                r as int,
                c,
            ) by {
                dag.lemma_view_shape();
                lemma_reaches_present(g, n as nat, round as int, creator as int, r as int, c);
            }
        }
        let below = parents_of_marked(dag, r as Round, &out[r]);
        proof {
            dag.lemma_view_shape();
            assert forall|k: int| 0 <= k < n implies below[k] == reaches(
                g,
                round as int,
                creator as int,
                r - 1,
                k,
            ) by {
                if below[k] {
                    let c = choose|c: int|
                        0 <= c < n && out[r as int][c] && #[trigger] has_parent(
                            unit_at(g, r as int, c),
                            k,
                        );
                    lemma_reaches_parent(
                        g,
                        n as nat,
                        round as int,
                        creator as int,
                        r as int,
                        c,
                        k,
                    );
                }
                if reaches(g, round as int, creator as int, r - 1, k) {
                    let via = lemma_reaches_last_link(
                        g,
                        n as nat,
                        round as int,
                        creator as int,
                        r - 1,
                        k,
                    );
                    lemma_reaches_present(
                        g,
                        n as nat,
                        round as int,
                        creator as int,
                        r as int,
                        via,
                    );
                    assert(out[r as int][via]);
                }
            }
        }
        out[r - 1] = below;
        r -= 1;
    }
    out
}

} // verus!
