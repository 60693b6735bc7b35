//! The minimum-cost path search over the lattice.
//!
//! A single forward pass computes, for every node in lattice order,
//! the least total cost of a path from the virtual begin-of-text to
//! that node, together with its best predecessor.  A node's
//! predecessors are exactly the nodes ending where it starts; the
//! begin-of-text connects to nodes starting at position 0 with
//! connection category 0, and the virtual end-of-text closes the
//! path from nodes ending at the text length, again with category
//! 0.  Ties are broken deterministically: the candidate discovered
//! first in lattice order wins, and only a strictly cheaper path
//! replaces it.

use vstd::prelude::*;

verus! {

use crate::dictionary::ConnectionMatrix;
use crate::lattice::LatticeNode;

/// One cell of the search: the least total cost of a path from
/// begin-of-text through a node, and the index of the best
/// predecessor node (`None` when the path starts at the node).
pub ghost struct SpecCell {
    pub total: int,
    pub prev: Option<int>,
}

/// The best predecessor among `nodes[0..j]` for a target that
/// starts at `tstart` with left category `tleft`: the least
/// `cell.total + connection` over eligible nodes, the earliest
/// eligible node winning ties.  `None` when no node before `j` ends
/// at `tstart` with a settled cell.
pub open spec fn spec_min_pred(
    nodes: Seq<LatticeNode>,
    mat: ConnectionMatrix,
    bests: Seq<Option<SpecCell>>,
    tstart: int,
    tleft: int,
    j: int,
) -> Option<SpecCell>
    decreases j,
{
    if j <= 0 {
        None
    } else {
        let rest = spec_min_pred(nodes, mat, bests, tstart, tleft, j - 1);
        if nodes[j - 1].end == tstart && bests[j - 1] is Some {
            let c = bests[j - 1]->0.total + mat.spec_cost(nodes[j - 1].right_id as int, tleft);
            match rest {
                None => Some(SpecCell { total: c, prev: Some(j - 1) }),
                Some(r) => if c < r.total {
                    Some(SpecCell { total: c, prev: Some(j - 1) })
                } else {
                    Some(r)
                },
            }
        } else {
            rest
        }
    }
}

/// The cell of node `k`, given the settled cells of the nodes
/// before it: begin-of-text feeds nodes starting at position 0;
/// every other node takes its best predecessor, or stays
/// unreachable.
pub open spec fn spec_cell_at(
    nodes: Seq<LatticeNode>,
    mat: ConnectionMatrix,
    bests: Seq<Option<SpecCell>>,
    k: int,
) -> Option<SpecCell> {
    if nodes[k].start == 0 {
        Some(
            SpecCell {
                total: nodes[k].cost + mat.spec_cost(0, nodes[k].left_id as int),
                prev: None,
            },
        )
    } else {
        match spec_min_pred(nodes, mat, bests, nodes[k].start as int, nodes[k].left_id as int, k) {
            None => None,
            Some(r) => Some(SpecCell { total: r.total + nodes[k].cost, prev: r.prev }),
        }
    }
}

/// The cells of `nodes[0..k]`, in lattice order: the forward pass.
pub open spec fn spec_bests(nodes: Seq<LatticeNode>, mat: ConnectionMatrix, k: int) -> Seq<
    Option<SpecCell>,
>
    decreases k,
{
    if k <= 0 {
        Seq::empty()
    } else {
        let pre = spec_bests(nodes, mat, k - 1);
        pre.push(spec_cell_at(nodes, mat, pre, k - 1))
    }
}

/// The closing step: the best last node among `nodes[0..j]` ending
/// at the text length `n`, connecting to the virtual end-of-text
/// with category 0.  The cell's `prev` names that last node.
pub open spec fn spec_eos(
    nodes: Seq<LatticeNode>,
    mat: ConnectionMatrix,
    bests: Seq<Option<SpecCell>>,
    n: int,
) -> Option<SpecCell> {
    spec_min_pred(nodes, mat, bests, n, 0, nodes.len() as int)
}

/// The node indices of the best path, read backward from `k` along
/// best predecessors and reversed: a begin-to-end chain whose last
/// node is `k`.
pub open spec fn spec_path_from(bests: Seq<Option<SpecCell>>, k: int) -> Seq<int>
    decreases k,
{
    if 0 <= k < bests.len() && bests[k] is Some {
        match bests[k]->0.prev {
            None => seq![k],
            Some(p) => if 0 <= p < k {
                spec_path_from(bests, p).push(k)
            } else {
                seq![k]
            },
        }
    } else {
        Seq::empty()
    }
}

/// The best segmentation of `text` as node indices into the
/// lattice: empty for empty text, otherwise the path the closing
/// step selects.
pub open spec fn spec_best_path(nodes: Seq<LatticeNode>, mat: ConnectionMatrix, n: int) -> Seq<
    int,
> {
    if n == 0 {
        Seq::empty()
    } else {
        let bests = spec_bests(nodes, mat, nodes.len() as int);
        match spec_eos(nodes, mat, bests, n) {
            None => Seq::empty(),
            Some(r) => match r.prev {
                Some(k) => spec_path_from(bests, k),
                None => Seq::empty(),
            },
        }
    }
}

/// What a settled `spec_min_pred` result means: its predecessor is
/// an eligible node, with the stated total.
pub proof fn lemma_min_pred_inv(
    nodes: Seq<LatticeNode>,
    mat: ConnectionMatrix,
    bests: Seq<Option<SpecCell>>,
    tstart: int,
    tleft: int,
    j: int,
)
    requires
        j <= bests.len(),
        j <= nodes.len(),
    ensures
        match spec_min_pred(nodes, mat, bests, tstart, tleft, j) {
            None => true,
            Some(r) => {
                &&& r.prev matches Some(p)
                &&& 0 <= r.prev->0 < j
                &&& bests[r.prev->0] is Some
                &&& nodes[r.prev->0].end == tstart
                &&& r.total == bests[r.prev->0]->0.total + mat.spec_cost(
                    nodes[r.prev->0].right_id as int,
                    tleft,
                )
            },
        },
    decreases j,
{
    if j > 0 {
        lemma_min_pred_inv(nodes, mat, bests, tstart, tleft, j - 1);
    }
}

/// `spec_min_pred` settles as soon as any node before `j` is
/// eligible.
pub proof fn lemma_min_pred_some(
    nodes: Seq<LatticeNode>,
    mat: ConnectionMatrix,
    bests: Seq<Option<SpecCell>>,
    tstart: int,
    tleft: int,
    j: int,
    w: int,
)
    requires
        0 <= w < j,
        nodes[w].end == tstart,
        bests[w] is Some,
    ensures
        spec_min_pred(nodes, mat, bests, tstart, tleft, j) is Some,
    decreases j,
{
    if w < j - 1 {
        lemma_min_pred_some(nodes, mat, bests, tstart, tleft, j - 1, w);
    }
}

/// The forward pass only ever appends: cells already settled do not
/// change as the pass advances.
pub proof fn lemma_bests_prefix(
    nodes: Seq<LatticeNode>,
    mat: ConnectionMatrix,
    k1: int,
    k2: int,
)
    requires
        0 <= k1 <= k2,
    ensures
        spec_bests(nodes, mat, k1) == spec_bests(nodes, mat, k2).take(k1),
        spec_bests(nodes, mat, k2).len() == if k2 >= 0 {
            k2
        } else {
            0
        },
    decreases k2,
{
    if k2 > 0 {
        if k1 <= k2 - 1 {
            lemma_bests_prefix(nodes, mat, k1, k2 - 1);
            assert(spec_bests(nodes, mat, k2 - 1).take(k1) =~= spec_bests(nodes, mat, k2).take(
                k1,
            ));
        } else {
            lemma_bests_prefix(nodes, mat, k1 - 1, k2 - 1);
            assert(spec_bests(nodes, mat, k1) =~= spec_bests(nodes, mat, k2).take(k1));
        }
    } else {
        assert(spec_bests(nodes, mat, k1) =~= spec_bests(nodes, mat, k2).take(k1));
    }
}

/// What every settled cell of the forward pass means: a node
/// starting at 0 chains to begin-of-text; any other settled node
/// chains to an earlier settled node ending where it starts.
pub proof fn lemma_bests_inv(nodes: Seq<LatticeNode>, mat: ConnectionMatrix, k: int)
    requires
        k <= nodes.len(),
    ensures
        spec_bests(nodes, mat, k).len() == if k >= 0 {
            k
        } else {
            0
        },
        forall|j: int|
            0 <= j < k ==> match #[trigger] spec_bests(nodes, mat, k)[j] {
                None => nodes[j].start != 0,
                Some(cell) => match cell.prev {
                    None => nodes[j].start == 0,
                    Some(p) => {
                        &&& 0 <= p < j
                        &&& nodes[j].start != 0
                        &&& spec_bests(nodes, mat, k)[p] is Some
                        &&& nodes[p].end == nodes[j].start
                    },
                },
            },
    decreases k,
{
    if k > 0 {
        lemma_bests_inv(nodes, mat, k - 1);
        let pre = spec_bests(nodes, mat, k - 1);
        let full = spec_bests(nodes, mat, k);
        lemma_bests_prefix(nodes, mat, k - 1, k);
        assert(full == pre.push(spec_cell_at(nodes, mat, pre, k - 1)));
        assert forall|j: int| 0 <= j < k implies match #[trigger] full[j] {
            None => nodes[j].start != 0,
            Some(cell) => match cell.prev {
                None => nodes[j].start == 0,
                Some(p) => {
                    &&& 0 <= p < j
                    &&& nodes[j].start != 0
                    &&& full[p] is Some
                    &&& nodes[p].end == nodes[j].start
                },
            },
        } by {
            if j < k - 1 {
                assert(full[j] == pre[j]);
                match pre[j] {
                    None => {},
                    Some(cell) => match cell.prev {
                        None => {},
                        Some(p) => {
                            assert(full[p] == pre[p]);
                        },
                    },
                }
            } else {
                assert(full[j] == spec_cell_at(nodes, mat, pre, k - 1));
                if nodes[k - 1].start != 0 {
                    lemma_min_pred_inv(
                        nodes,
                        mat,
                        pre,
                        nodes[k - 1].start as int,
                        nodes[k - 1].left_id as int,
                        k - 1,
                    );
                    match spec_min_pred(
                        nodes,
                        mat,
                        pre,
                        nodes[k - 1].start as int,
                        nodes[k - 1].left_id as int,
                        k - 1,
                    ) {
                        None => {},
                        Some(r) => {
                            let p = r.prev->0;
                            assert(full[p] == pre[p]);
                        },
                    }
                }
            }
        }
    }
}

/// Totals stay bounded: every step adds at most one node cost and
/// one connection cost, so a settled cell's total is at most its
/// index count times the step bound.
pub proof fn lemma_bests_bounded(nodes: Seq<LatticeNode>, mat: ConnectionMatrix, k: int)
    requires
        k <= nodes.len(),
        forall|j: int|
            0 <= j < nodes.len() ==> -0x1_0000_0000 <= (#[trigger] nodes[j]).cost as int
                <= 0x1_0000_0000,
    ensures
        forall|j: int|
            0 <= j < k ==> match #[trigger] spec_bests(nodes, mat, k)[j] {
                None => true,
                Some(c) => -((j + 1) * 0x1_8000_0000) <= c.total <= (j + 1) * 0x1_8000_0000,
            },
    decreases k,
{
    if k > 0 {
        lemma_bests_bounded(nodes, mat, k - 1);
        lemma_bests_prefix(nodes, mat, k - 1, k);
        let pre = spec_bests(nodes, mat, k - 1);
        let full = spec_bests(nodes, mat, k);
        assert(full == pre.push(spec_cell_at(nodes, mat, pre, k - 1)));
        assert forall|j: int| 0 <= j < k implies match #[trigger] full[j] {
            None => true,
            Some(c) => -((j + 1) * 0x1_8000_0000) <= c.total <= (j + 1) * 0x1_8000_0000,
        } by {
            if j < k - 1 {
                assert(full[j] == pre[j]);
            } else {
                assert(full[j] == spec_cell_at(nodes, mat, pre, k - 1));
                match full[j] {
                    None => {},
                    Some(c) => {
                        if nodes[k - 1].start == 0 {
                            assert(0x1_8000_0000 <= k * 0x1_8000_0000) by (nonlinear_arith)
                                requires
                                    k >= 1,
                            ;
                        } else {
                            lemma_min_pred_inv(
                                nodes,
                                mat,
                                pre,
                                nodes[k - 1].start as int,
                                nodes[k - 1].left_id as int,
                                k - 1,
                            );
                            let r = spec_min_pred(
                                nodes,
                                mat,
                                pre,
                                nodes[k - 1].start as int,
                                nodes[k - 1].left_id as int,
                                k - 1,
                            )->0;
                            let p = r.prev->0;
                            assert(pre[p] == full[p]);
                            assert((p + 1) * 0x1_8000_0000 + 0x1_8000_0000 <= k * 0x1_8000_0000)
                                by (nonlinear_arith)
                                requires
                                    p + 1 <= k - 1,
                            ;
                            assert(-((p + 1) * 0x1_8000_0000) - 0x1_8000_0000 >= -(k
                                * 0x1_8000_0000)) by (nonlinear_arith)
                                requires
                                    p + 1 <= k - 1,
                            ;
                        }
                    },
                }
            }
        }
    }
}

/// What the best path from a settled node `k` looks like: it is a
/// chain of node indices, strictly increasing, beginning at a node
/// that starts at position 0, ending at `k`, in which each node
/// ends exactly where the next one starts.
pub proof fn lemma_path_from(nodes: Seq<LatticeNode>, mat: ConnectionMatrix, k: int)
    requires
        0 <= k < nodes.len(),
        spec_bests(nodes, mat, nodes.len() as int)[k] is Some,
    ensures
        ({
            let bests = spec_bests(nodes, mat, nodes.len() as int);
            let path = spec_path_from(bests, k);
            &&& path.len() >= 1
            &&& path[path.len() - 1] == k
            &&& forall|t: int| 0 <= t < path.len() ==> 0 <= #[trigger] path[t] < nodes.len()
            &&& forall|t1: int, t2: int| 0 <= t1 < t2 < path.len() ==> path[t1] < path[t2]
            &&& nodes[path[0]].start == 0
            &&& forall|t: int|
                0 <= t < path.len() - 1 ==> nodes[#[trigger] path[t]].end == nodes[path[t
                    + 1]].start
        }),
    decreases k,
{
    let bests = spec_bests(nodes, mat, nodes.len() as int);
    lemma_bests_inv(nodes, mat, nodes.len() as int);
    let cell = bests[k]->0;
    match cell.prev {
        None => {
            assert(spec_path_from(bests, k) =~= seq![k]);
        },
        Some(p) => {
            assert(0 <= p < k);
            assert(bests[p] is Some);
            lemma_path_from(nodes, mat, p);
            let sub = spec_path_from(bests, p);
            let path = spec_path_from(bests, k);
            assert(path == sub.push(k));
            assert(nodes[p].end == nodes[k].start);
            assert forall|t1: int, t2: int| 0 <= t1 < t2 < path.len() implies path[t1]
                < path[t2] by {
                if t2 < path.len() - 1 {
                    assert(path[t1] == sub[t1]);
                    assert(path[t2] == sub[t2]);
                } else {
                    assert(path[t2] == k);
                    assert(path[t1] == sub[t1]);
                    assert(sub[t1] <= sub[sub.len() - 1]);
                }
            }
        },
    }
}

/// True when some node of the lattice starts at position `p`.
pub open spec fn has_start_at(nodes: Seq<LatticeNode>, p: int) -> bool {
    exists|j: int| 0 <= j < nodes.len() && (#[trigger] nodes[j]).start == p
}

/// Connectivity: starting from any position that a settled path
/// reaches (position 0, or the end of a settled node), some settled
/// node ends at the text length.  The unknown-word fallback
/// supplies a node at every position, so the closing step always
/// finds a last node on non-empty text.
pub proof fn lemma_climb(nodes: Seq<LatticeNode>, mat: ConnectionMatrix, n: int, q: int)
    requires
        0 <= q < n,
        forall|j: int|
            0 <= j < nodes.len() ==> 0 <= (#[trigger] nodes[j]).start < nodes[j].end <= n,
        forall|j1: int, j2: int|
            0 <= j1 <= j2 < nodes.len() ==> (#[trigger] nodes[j1]).start
                <= (#[trigger] nodes[j2]).start,
        forall|p: int| 0 <= p < n ==> #[trigger] has_start_at(nodes, p),
        q == 0 || exists|j: int|
            0 <= j < nodes.len() && (#[trigger] nodes[j]).end == q && spec_bests(
                nodes,
                mat,
                nodes.len() as int,
            )[j] is Some,
    ensures
        exists|j: int|
            0 <= j < nodes.len() && (#[trigger] nodes[j]).end == n && spec_bests(
                nodes,
                mat,
                nodes.len() as int,
            )[j] is Some,
    decreases n - q,
{
    let len = nodes.len() as int;
    let bests = spec_bests(nodes, mat, len);
    assert(has_start_at(nodes, q));
    let kq = choose|j: int| 0 <= j < nodes.len() && (#[trigger] nodes[j]).start == q;
    lemma_bests_prefix(nodes, mat, kq, len);
    lemma_bests_prefix(nodes, mat, kq + 1, len);
    let pre = spec_bests(nodes, mat, kq);
    assert(spec_bests(nodes, mat, kq + 1) == pre.push(spec_cell_at(nodes, mat, pre, kq)));
    assert(bests[kq] == spec_bests(nodes, mat, kq + 1)[kq]);
    assert(bests[kq] == spec_cell_at(nodes, mat, pre, kq));
    if q == 0 {
        assert(bests[kq] is Some);
    } else {
        let j0 = choose|j: int|
            0 <= j < nodes.len() && (#[trigger] nodes[j]).end == q && spec_bests(
                nodes,
                mat,
                len,
            )[j] is Some;
        assert(nodes[j0].start < nodes[j0].end);
        assert(j0 < kq) by {
            if j0 >= kq {
                assert(nodes[kq].start <= nodes[j0].start);
            }
        }
        assert(pre[j0] == bests[j0]);
        lemma_min_pred_some(
            nodes,
            mat,
            pre,
            nodes[kq].start as int,
            nodes[kq].left_id as int,
            kq,
            j0,
        );
        assert(bests[kq] is Some);
    }
    let e = nodes[kq].end as int;
    if e == n {
        assert(nodes[kq].end == n && bests[kq] is Some);
    } else {
        assert(exists|j: int|
            0 <= j < nodes.len() && (#[trigger] nodes[j]).end == e && spec_bests(
                nodes,
                mat,
                len,
            )[j] is Some);
        lemma_climb(nodes, mat, n, e);
    }
}

/// One settled cell of the executable forward pass.
#[derive(Clone, Copy, Debug)]
pub struct Cell {
    pub total: i128,
    pub prev: Option<usize>,
}

/// The mathematical value of an executable cell.
pub open spec fn cell_view(c: Cell) -> SpecCell {
    SpecCell {
        total: c.total as int,
        prev: match c.prev {
            Some(p) => Some(p as int),
            None => None,
        },
    }
}

/// The mathematical value of the executable cell table.
pub open spec fn cells_view(cs: Seq<Option<Cell>>) -> Seq<Option<SpecCell>> {
    cs.map_values(
        |oc: Option<Cell>|
            match oc {
                Some(c) => Some(cell_view(c)),
                None => None,
            },
    )
}

/// The node indices of an executable path as mathematical values.
pub open spec fn idxs_view(s: Seq<usize>) -> Seq<int> {
    s.map_values(|x: usize| x as int)
}

/// Finds the best predecessor among the settled cells for a target
/// starting at `tstart` with left category `tleft`.
#[verifier::loop_isolation(false)]
fn min_pred(
    nodes: &Vec<LatticeNode>,
    mat: &ConnectionMatrix,
    cells: &Vec<Option<Cell>>,
    tstart: usize,
    tleft: u16,
) -> (r: Option<Cell>)
    requires
        mat.wf(),
        cells@.len() <= nodes@.len(),
        (tleft as int) < mat.num_left,
        forall|j: int|
            0 <= j < cells@.len() ==> ((#[trigger] nodes@[j]).right_id as int) < mat.num_right,
        forall|j: int|
            0 <= j < nodes@.len() ==> -0x1_0000_0000 <= (#[trigger] nodes@[j]).cost as int
                <= 0x1_0000_0000,
        cells_view(cells@) == spec_bests(nodes@, *mat, cells@.len() as int),
    ensures
        match r {
            None => spec_min_pred(
                nodes@,
                *mat,
                cells_view(cells@),
                tstart as int,
                tleft as int,
                cells@.len() as int,
            ) is None,
            Some(c) => spec_min_pred(
                nodes@,
                *mat,
                cells_view(cells@),
                tstart as int,
                tleft as int,
                cells@.len() as int,
            ) == Some(cell_view(c)),
        },
{
    let n = cells.len();
    let ghost bests = cells_view(cells@);
    proof {
        lemma_bests_bounded(nodes@, *mat, n as int);
    }
    let mut r: Option<Cell> = None;
    let mut j: usize = 0;
    while j < n
        invariant
            j <= n,
            match r {
                None => spec_min_pred(nodes@, *mat, bests, tstart as int, tleft as int, j as int)
                    is None,
                Some(c) => spec_min_pred(nodes@, *mat, bests, tstart as int, tleft as int, j as int)
                    == Some(cell_view(c)),
            },
        decreases n - j,
    {
        if nodes[j].end == tstart {
            match &cells[j] {
                Some(cell) => {
                    proof {
                        assert(bests[j as int] == Some(cell_view(*cell)));
                        assert(-(((j + 1) as int) * 0x1_8000_0000) <= cell.total as int <= ((j
                            + 1) as int) * 0x1_8000_0000);
                        assert(((j + 1) as int) * 0x1_8000_0000 <= (n as int) * 0x1_8000_0000)
                            by (nonlinear_arith)
                            requires
                                j + 1 <= n,
                        ;
                        assert(-((n as int) * 0x1_8000_0000) <= -(((j + 1) as int)
                            * 0x1_8000_0000)) by (nonlinear_arith)
                            requires
                                j + 1 <= n,
                        ;
                        assert((n as int) * 0x1_8000_0000 <= 0x1_0000_0000_0000_0000
                            * 0x1_8000_0000) by (nonlinear_arith)
                            requires
                                n <= 0x1_0000_0000_0000_0000,
                        ;
                    }
                    let conn = mat.cost(nodes[j].right_id, tleft);
                    let c: i128 = cell.total + conn as i128;
                    let better = match &r {
                        None => true,
                        Some(cur) => c < cur.total,
                    };
                    if better {
                        r = Some(Cell { total: c, prev: Some(j) });
                    }
                },
                None => {},
            }
        }
        j = j + 1;
    }
    r
}

/// The executable forward pass: settles one cell per node, in
/// lattice order.
#[verifier::loop_isolation(false)]
pub fn forward_pass(nodes: &Vec<LatticeNode>, mat: &ConnectionMatrix) -> (cells: Vec<Option<Cell>>)
    requires
        mat.wf(),
        forall|j: int|
            0 <= j < nodes@.len() ==> ((#[trigger] nodes@[j]).right_id as int) < mat.num_right,
        forall|j: int|
            0 <= j < nodes@.len() ==> ((#[trigger] nodes@[j]).left_id as int) < mat.num_left,
        forall|j: int|
            0 <= j < nodes@.len() ==> -0x1_0000_0000 <= (#[trigger] nodes@[j]).cost as int
                <= 0x1_0000_0000,
    ensures
        cells@.len() == nodes@.len(),
        cells_view(cells@) == spec_bests(nodes@, *mat, nodes@.len() as int),
{
    let n = nodes.len();
    let mut cells: Vec<Option<Cell>> = Vec::new();
    let mut k: usize = 0;
    while k < n
        invariant
            k <= n,
            cells@.len() == k,
            cells_view(cells@) == spec_bests(nodes@, *mat, k as int),
        decreases n - k,
    {
        let ghost pre = cells_view(cells@);
        let nd = &nodes[k];
        let cell: Option<Cell> = if nd.start == 0 {
            let conn = mat.cost(0, nd.left_id);
            Some(Cell { total: nd.cost as i128 + conn as i128, prev: None })
        } else {
            match min_pred(nodes, mat, &cells, nd.start, nd.left_id) {
                None => None,
                Some(r) => {
                    proof {
                        lemma_min_pred_inv(
                            nodes@,
                            *mat,
                            pre,
                            nd.start as int,
                            nd.left_id as int,
                            k as int,
                        );
                        lemma_bests_bounded(nodes@, *mat, k as int);
                        let p = cell_view(r).prev->0;
                        assert(pre[p] is Some);
                        assert(-((p + 1) * 0x1_8000_0000) <= pre[p]->0.total <= (p + 1)
                            * 0x1_8000_0000);
                        assert((p + 1) * 0x1_8000_0000 <= (n as int) * 0x1_8000_0000)
                            by (nonlinear_arith)
                            requires
                                p + 1 <= n,
                        ;
                        assert(-((n as int) * 0x1_8000_0000) <= -((p + 1) * 0x1_8000_0000))
                            by (nonlinear_arith)
                            requires
                                p + 1 <= n,
                        ;
                        assert((n as int) * 0x1_8000_0000 <= 0x1_0000_0000_0000_0000
                            * 0x1_8000_0000) by (nonlinear_arith)
                            requires
                                n <= 0x1_0000_0000_0000_0000,
                        ;
                    }
                    Some(Cell { total: r.total + nd.cost as i128, prev: r.prev })
                },
            }
        };
        cells.push(cell);
        proof {
            assert(cells_view(cells@) =~= pre.push(spec_cell_at(nodes@, *mat, pre, k as int)));
        }
        k = k + 1;
    }
    cells
}

/// Reads the best path backward from node `k` and returns it in
/// forward order.
#[verifier::loop_isolation(false)]
fn backtrack(cells: &Vec<Option<Cell>>, k: usize) -> (path: Vec<usize>)
    requires
        (k as int) < cells@.len(),
        cells_view(cells@)[k as int] is Some,
        forall|j: int|
            0 <= j < cells@.len() ==> match #[trigger] cells_view(cells@)[j] {
                None => true,
                Some(cell) => match cell.prev {
                    None => true,
                    Some(p) => 0 <= p < j && cells_view(cells@)[p] is Some,
                },
            },
    ensures
        idxs_view(path@) == spec_path_from(cells_view(cells@), k as int),
{
    let ghost bests = cells_view(cells@);
    let mut rev: Vec<usize> = Vec::new();
    let mut cur = k;
    let mut done = false;
    while !done
        invariant
            (cur as int) < cells@.len(),
            !done ==> bests[cur as int] is Some,
            !done ==> spec_path_from(bests, k as int) == spec_path_from(bests, cur as int)
                + idxs_view(rev@).reverse(),
            done ==> spec_path_from(bests, k as int) == idxs_view(rev@).reverse(),
        decreases (if done { 0 } else { cur + 1 }),
    {
        let cell = match &cells[cur] {
            Some(c) => *c,
            None => {
                proof {
                    assert(false);
                }
                Cell { total: 0, prev: None }
            },
        };
        let ghost old_rev = idxs_view(rev@);
        let ghost old_cur = cur as int;
        rev.push(cur);
        proof {
            assert(idxs_view(rev@) =~= old_rev.push(old_cur));
            lemma_reverse_push(old_rev, old_cur);
        }
        match cell.prev {
            Some(p) => {
                proof {
                    assert(spec_path_from(bests, old_cur) == spec_path_from(bests, p as int).push(
                        old_cur,
                    ));
                    assert(spec_path_from(bests, p as int) + (seq![old_cur]
                        + old_rev.reverse()) =~= (spec_path_from(bests, p as int).push(old_cur))
                        + old_rev.reverse());
                }
                cur = p;
            },
            None => {
                proof {
                    assert(spec_path_from(bests, old_cur) =~= seq![old_cur]);
                    assert(seq![old_cur] + old_rev.reverse() =~= spec_path_from(
                        bests,
                        old_cur,
                    ) + old_rev.reverse());
                }
                done = true;
            },
        }
    }
    let m = rev.len();
    let mut path: Vec<usize> = Vec::new();
    let mut t: usize = 0;
    while t < m
        invariant
            t <= m,
            idxs_view(path@) == idxs_view(rev@).reverse().take(t as int),
        decreases m - t,
    {
        path.push(rev[m - 1 - t]);
        proof {
            assert(idxs_view(path@) =~= idxs_view(rev@).reverse().take(t + 1));
        }
        t = t + 1;
    }
    proof {
        assert(idxs_view(rev@).reverse().take(m as int) =~= idxs_view(rev@).reverse());
    }
    path
}

/// Pushing onto a sequence prepends to its reverse.
proof fn lemma_reverse_push(s: Seq<int>, x: int)
    ensures
        s.push(x).reverse() =~= seq![x] + s.reverse(),
{
    assert forall|i: int| 0 <= i < s.push(x).reverse().len() implies s.push(x).reverse()[i] == (
    seq![x] + s.reverse())[i] by {
        assert(s.push(x).reverse()[i] == s.push(x)[s.len() - i]);
    }
}

/// Runs the whole search: forward pass, closing step, backtrack.
/// Returns the best path as node indices, exactly as
/// `spec_best_path` selects it.
pub fn run_search(nodes: &Vec<LatticeNode>, mat: &ConnectionMatrix, n: usize) -> (path: Vec<
    usize,
>)
    requires
        mat.wf(),
        forall|j: int|
            0 <= j < nodes@.len() ==> ((#[trigger] nodes@[j]).right_id as int) < mat.num_right,
        forall|j: int|
            0 <= j < nodes@.len() ==> ((#[trigger] nodes@[j]).left_id as int) < mat.num_left,
        forall|j: int|
            0 <= j < nodes@.len() ==> -0x1_0000_0000 <= (#[trigger] nodes@[j]).cost as int
                <= 0x1_0000_0000,
    ensures
        idxs_view(path@) == spec_best_path(nodes@, *mat, n as int),
{
    if n == 0 {
        let path: Vec<usize> = Vec::new();
        assert(idxs_view(path@) =~= spec_best_path(nodes@, *mat, 0));
        return path;
    }
    let cells = forward_pass(nodes, mat);
    let eos = min_pred(nodes, mat, &cells, n, 0);
    match eos {
        None => {
            let path: Vec<usize> = Vec::new();
            assert(idxs_view(path@) =~= spec_best_path(nodes@, *mat, n as int));
            path
        },
        Some(r) => {
            proof {
                lemma_min_pred_inv(
                    nodes@,
                    *mat,
                    cells_view(cells@),
                    n as int,
                    0,
                    cells@.len() as int,
                );
                lemma_bests_inv(nodes@, *mat, nodes@.len() as int);
            }
            match r.prev {
                Some(kk) => backtrack(&cells, kk),
                None => {
                    proof {
                        assert(false);
                    }
                    Vec::new()
                },
            }
        },
    }
}

} // verus!
