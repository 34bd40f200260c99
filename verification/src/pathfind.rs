use vstd::prelude::*;

use crate::maze::{Maze, lemma_rm_index_range, lemma_rm_index_injective, is_walkable_cell};

verus! {

/// 4-connected grid adjacency.
pub open spec fn adjacent(a: (int, int), b: (int, int)) -> bool {
    ||| (a.0 - b.0 == 1 || b.0 - a.0 == 1) && a.1 == b.1
    ||| (a.1 - b.1 == 1 || b.1 - a.1 == 1) && a.0 == b.0
}

/// Entry of a distance vector at cell `(i, j)`, row-major over width `w`.
pub open spec fn at_s(dv: Seq<i32>, w: int, i: int, j: int) -> int {
    dv[j * w + i] as int
}

/// Some in-bounds neighbor of `(i, j)` carries value `v`.
#[verifier::opaque]
pub open spec fn pred_exists(m: Maze, dv: Seq<i32>, i: int, j: int, v: int) -> bool {
    let w = m.spec_width();
    ||| m.in_bounds(i + 1, j) && at_s(dv, w, i + 1, j) == v
    ||| m.in_bounds(i - 1, j) && at_s(dv, w, i - 1, j) == v
    ||| m.in_bounds(i, j + 1) && at_s(dv, w, i, j + 1) == v
    ||| m.in_bounds(i, j - 1) && at_s(dv, w, i, j - 1) == v
}

/// One relaxation condition: if the neighbor is walkable, it has been
/// discovered with a value at most one hop beyond `(i, j)`'s.
#[verifier::opaque]
pub open spec fn relax_ok(m: Maze, dv: Seq<i32>, i: int, j: int, ni: int, nj: int) -> bool {
    m.walkable(ni, nj) ==> 0 <= at_s(dv, m.spec_width(), ni, nj) <= at_s(dv, m.spec_width(), i, j)
        + 1
}

/// All four neighbors of `(i, j)` are relaxed.
pub open spec fn relax4_ok(m: Maze, dv: Seq<i32>, i: int, j: int) -> bool {
    &&& relax_ok(m, dv, i, j, i + 1, j)
    &&& relax_ok(m, dv, i, j, i - 1, j)
    &&& relax_ok(m, dv, i, j, i, j + 1)
    &&& relax_ok(m, dv, i, j, i, j - 1)
}

/// A finished breadth-first distance field from source `(si, sj)`, as a dense
/// row-major vector with `-1` marking undiscovered cells. The four clauses
/// pin the field down to the exact shortest-hop distances:
/// - the source reads 0;
/// - every other discovered cell is walkable, positive, and one hop beyond
///   some discovered neighbor (so its value is achievable by a real path);
/// - every walkable neighbor of a discovered cell is discovered within one
///   further hop (so no shorter path can exist, and reachable cells are
///   never missed).
pub open spec fn dist_field_wf(m: Maze, si: int, sj: int, dv: Seq<i32>) -> bool {
    let w = m.spec_width();
    let h = m.spec_height();
    &&& dv.len() == w * h
    &&& m.in_bounds(si, sj)
    &&& at_s(dv, w, si, sj) == 0
    &&& forall|i: int, j: int| m.in_bounds(i, j) ==> -1 <= #[trigger] at_s(dv, w, i, j) <= w * h
    &&& forall|i: int, j: int|
        m.in_bounds(i, j) && #[trigger] at_s(dv, w, i, j) >= 0 && !(i == si && j == sj) ==> {
            &&& m.walkable(i, j)
            &&& at_s(dv, w, i, j) >= 1
            &&& pred_exists(m, dv, i, j, at_s(dv, w, i, j) - 1)
        }
    &&& forall|i: int, j: int|
        m.in_bounds(i, j) && #[trigger] at_s(dv, w, i, j) >= 0 ==> relax4_ok(m, dv, i, j)
}

/// Breadth-first shortest-hop distances from a source cell over the maze's
/// walkable cells, `-1` for the unreachable ones.
pub struct DistField {
    width: usize,
    height: usize,
    d: Vec<i32>,
}

impl DistField {
    pub closed spec fn spec_width(self) -> int {
        self.width as int
    }

    pub closed spec fn spec_height(self) -> int {
        self.height as int
    }

    pub closed spec fn dists(self) -> Seq<i32> {
        self.d@
    }

    /// The recorded distance of an in-bounds cell; `-1` when unreached.
    pub open spec fn at(self, i: int, j: int) -> int {
        at_s(self.dists(), self.spec_width(), i, j)
    }

    pub fn width(&self) -> (w: usize)
        ensures
            w == self.spec_width(),
    {
        self.width
    }

    pub fn height(&self) -> (h: usize)
        ensures
            h == self.spec_height(),
    {
        self.height
    }

    /// Reads the distance of cell `(i, j)`.
    pub fn get(&self, i: usize, j: usize) -> (v: i32)
        requires
            i < self.spec_width(),
            j < self.spec_height(),
            self.spec_width() <= 1024,
            self.spec_height() <= 1024,
            self.dists().len() == self.spec_width() * self.spec_height(),
        ensures
            v == self.at(i as int, j as int),
    {
        let k = rm_idx(self.width, self.height, i, j);
        self.d[k]
    }
}

/// Row-major index with its range fact.
fn rm_idx(w: usize, h: usize, i: usize, j: usize) -> (k: usize)
    requires
        i < w <= 1024,
        j < h <= 1024,
    ensures
        k == j * w + i,
        k < w * h,
{
    proof {
        assert(j * w + i < w * h && j * w + i <= 1024 * 1024) by (nonlinear_arith)
            requires
                0 <= i < w <= 1024,
                0 <= j < h <= 1024,
        ;
    }
    j * w + i
}

/// Number of nonnegative entries of a distance vector.
pub open spec fn count_nonneg(s: Seq<i32>) -> int
    decreases s.len(),
{
    if s.len() == 0 {
        0
    } else {
        count_nonneg(s.drop_last()) + if s.last() >= 0 {
            1int
        } else {
            0int
        }
    }
}

proof fn lemma_count_nonneg_le_len(s: Seq<i32>)
    ensures
        0 <= count_nonneg(s) <= s.len(),
    decreases s.len(),
{
    if s.len() > 0 {
        lemma_count_nonneg_le_len(s.drop_last());
    }
}

proof fn lemma_count_nonneg_update(s: Seq<i32>, k: int, v: i32)
    requires
        0 <= k < s.len(),
        s[k] < 0,
        v >= 0,
    ensures
        count_nonneg(s.update(k, v)) == count_nonneg(s) + 1,
    decreases s.len(),
{
    let t = s.update(k, v);
    if k == s.len() - 1 {
        assert(t.drop_last() =~= s.drop_last());
    } else {
        assert(t.drop_last() =~= s.drop_last().update(k, v));
        lemma_count_nonneg_update(s.drop_last(), k, v);
        assert(t.last() == s.last());
    }
}

/// The BFS work-list invariant: `dv` is the partial distance vector, `qv` the
/// discovery queue (never popped; `head` marks the processed prefix).
pub open spec fn bfs_inv(
    m: Maze,
    si: int,
    sj: int,
    dv: Seq<i32>,
    qv: Seq<(usize, usize)>,
    head: int,
) -> bool {
    let w = m.spec_width();
    let h = m.spec_height();
    &&& dv.len() == w * h
    &&& m.in_bounds(si, sj)
    &&& at_s(dv, w, si, sj) == 0
    &&& 0 <= head <= qv.len()
    &&& qv.len() == count_nonneg(dv)
    &&& forall|idx: int|
        0 <= idx < qv.len() ==> m.in_bounds(#[trigger] qv[idx].0 as int, qv[idx].1 as int)
            && at_s(dv, w, qv[idx].0 as int, qv[idx].1 as int) >= 0
    &&& forall|i: int, j: int|
        m.in_bounds(i, j) ==> -1 <= #[trigger] at_s(dv, w, i, j) < count_nonneg(dv)
    &&& forall|i: int, j: int|
        m.in_bounds(i, j) && #[trigger] at_s(dv, w, i, j) >= 0 && !(i == si && j == sj) ==> {
            &&& m.walkable(i, j)
            &&& at_s(dv, w, i, j) >= 1
            &&& pred_exists(m, dv, i, j, at_s(dv, w, i, j) - 1)
        }
    &&& forall|i: int, j: int|
        m.in_bounds(i, j) && #[trigger] at_s(dv, w, i, j) >= 0 ==> exists|idx: int|
            0 <= idx < qv.len() && #[trigger] qv[idx] == ((i as usize, j as usize))
    &&& forall|i1: int, i2: int|
        0 <= i1 <= i2 < qv.len() ==> #[trigger] at_s(dv, w, qv[i1].0 as int, qv[i1].1 as int)
            <= #[trigger] at_s(dv, w, qv[i2].0 as int, qv[i2].1 as int)
    &&& head < qv.len() ==> forall|idx: int|
        0 <= idx < qv.len() ==> #[trigger] at_s(dv, w, qv[idx].0 as int, qv[idx].1 as int) <= at_s(
            dv,
            w,
            qv[head].0 as int,
            qv[head].1 as int,
        ) + 1
    &&& forall|idx: int|
        0 <= idx < head ==> relax4_ok(m, dv, #[trigger] qv[idx].0 as int, qv[idx].1 as int)
}

/// Point-by-point effect of discovering cell `(ni, nj)` from `(ci, cj)`.
proof fn lemma_bfs_update_pointwise(
    m: Maze,
    dv0: Seq<i32>,
    ni: usize,
    nj: usize,
    dv: Seq<i32>,
    nv: i32,
)
    requires
        dv0.len() == m.spec_width() * m.spec_height(),
        m.in_bounds(ni as int, nj as int),
        dv == dv0.update(crate::maze::rm_index(m.spec_width(), ni as int, nj as int), nv),
    ensures
        forall|a: int, b: int|
            m.in_bounds(a, b) ==> #[trigger] at_s(dv, m.spec_width(), a, b) == (if a == ni && b
                == nj {
                nv as int
            } else {
                at_s(dv0, m.spec_width(), a, b)
            }),
{
    let w = m.spec_width();
    let h = m.spec_height();
    lemma_rm_index_range(w, h, ni as int, nj as int);
    assert forall|a: int, b: int| m.in_bounds(a, b) implies #[trigger] at_s(dv, w, a, b) == (if a
        == ni && b == nj {
        nv as int
    } else {
        at_s(dv0, w, a, b)
    }) by {
        lemma_rm_index_range(w, h, a, b);
        lemma_rm_index_injective(w, a, b, ni as int, nj as int);
    }
}

/// The discovery clauses survive the push: the fresh cell is walkable, not
/// the source, and one hop past `(ci, cj)`; older discovered cells keep
/// their witnesses.
#[verifier::rlimit(100)]
#[verifier::spinoff_prover]
proof fn lemma_push_pred(
    m: Maze,
    si: int,
    sj: int,
    dv0: Seq<i32>,
    dv: Seq<i32>,
    ci: int,
    cj: int,
    ni: int,
    nj: int,
    dc: int,
)
    requires
        m.in_bounds(si, sj),
        m.in_bounds(ci, cj),
        m.in_bounds(ni, nj),
        adjacent((ci, cj), (ni, nj)),
        m.walkable(ni, nj),
        dc == at_s(dv0, m.spec_width(), ci, cj),
        dc >= 0,
        at_s(dv0, m.spec_width(), ni, nj) == -1,
        at_s(dv0, m.spec_width(), si, sj) == 0,
        forall|a: int, b: int|
            m.in_bounds(a, b) ==> #[trigger] at_s(dv, m.spec_width(), a, b) == (if a == ni && b
                == nj {
                dc + 1
            } else {
                at_s(dv0, m.spec_width(), a, b)
            }),
        forall|i: int, j: int|
            m.in_bounds(i, j) && #[trigger] at_s(dv0, m.spec_width(), i, j) >= 0 && !(i == si && j
                == sj) ==> {
                &&& m.walkable(i, j)
                &&& at_s(dv0, m.spec_width(), i, j) >= 1
                &&& pred_exists(m, dv0, i, j, at_s(dv0, m.spec_width(), i, j) - 1)
            },
    ensures
        forall|i: int, j: int|
            m.in_bounds(i, j) && #[trigger] at_s(dv, m.spec_width(), i, j) >= 0 && !(i == si && j
                == sj) ==> {
                &&& m.walkable(i, j)
                &&& at_s(dv, m.spec_width(), i, j) >= 1
                &&& pred_exists(m, dv, i, j, at_s(dv, m.spec_width(), i, j) - 1)
            },
{
    reveal(pred_exists);
    let w = m.spec_width();
    assert(!(ni == si && nj == sj));
    assert forall|i: int, j: int|
        m.in_bounds(i, j) && #[trigger] at_s(dv, w, i, j) >= 0 && !(i == si && j == sj) implies {
        &&& m.walkable(i, j)
        &&& at_s(dv, w, i, j) >= 1
        &&& pred_exists(m, dv, i, j, at_s(dv, w, i, j) - 1)
    } by {
        if i == ni && j == nj {
            assert(at_s(dv, w, i, j) == dc + 1);
            assert(at_s(dv, w, ci, cj) == dc);
        } else {
            assert(at_s(dv, w, i, j) == at_s(dv0, w, i, j));
            let v = at_s(dv0, w, i, j) - 1;
            assert(pred_exists(m, dv0, i, j, v));
            if m.in_bounds(i + 1, j) && at_s(dv0, w, i + 1, j) == v {
                assert(at_s(dv, w, i + 1, j) == v);
            } else if m.in_bounds(i - 1, j) && at_s(dv0, w, i - 1, j) == v {
                assert(at_s(dv, w, i - 1, j) == v);
            } else if m.in_bounds(i, j + 1) && at_s(dv0, w, i, j + 1) == v {
                assert(at_s(dv, w, i, j + 1) == v);
            } else {
                assert(m.in_bounds(i, j - 1) && at_s(dv0, w, i, j - 1) == v);
                assert(at_s(dv, w, i, j - 1) == v);
            }
        }
    }
}

/// The processed prefix stays relaxed across the push: a walkable neighbor
/// of a processed cell was already discovered, so its value is untouched.
#[verifier::rlimit(100)]
#[verifier::spinoff_prover]
proof fn lemma_push_prefix_relax(
    m: Maze,
    dv0: Seq<i32>,
    dv: Seq<i32>,
    qv: Seq<(usize, usize)>,
    head: int,
    ni: int,
    nj: int,
    dc: int,
)
    requires
        0 <= head <= qv.len(),
        m.in_bounds(ni, nj),
        at_s(dv0, m.spec_width(), ni, nj) == -1,
        forall|a: int, b: int|
            m.in_bounds(a, b) ==> #[trigger] at_s(dv, m.spec_width(), a, b) == (if a == ni && b
                == nj {
                dc + 1
            } else {
                at_s(dv0, m.spec_width(), a, b)
            }),
        forall|idx: int|
            0 <= idx < qv.len() ==> m.in_bounds(#[trigger] qv[idx].0 as int, qv[idx].1 as int)
                && at_s(dv0, m.spec_width(), qv[idx].0 as int, qv[idx].1 as int) >= 0,
        forall|idx: int|
            0 <= idx < head ==> relax4_ok(m, dv0, #[trigger] qv[idx].0 as int, qv[idx].1 as int),
    ensures
        forall|idx: int|
            0 <= idx < head ==> relax4_ok(m, dv, #[trigger] qv[idx].0 as int, qv[idx].1 as int),
{
    reveal(relax_ok);
    let w = m.spec_width();
    assert forall|idx: int| 0 <= idx < head implies relax4_ok(
        m,
        dv,
        #[trigger] qv[idx].0 as int,
        qv[idx].1 as int,
    ) by {
        let a = qv[idx].0 as int;
        let b = qv[idx].1 as int;
        assert(relax4_ok(m, dv0, a, b));
        assert(at_s(dv, w, a, b) == at_s(dv0, w, a, b));
        if m.walkable(a + 1, b) {
            assert(at_s(dv0, w, a + 1, b) >= 0);
            assert(at_s(dv, w, a + 1, b) == at_s(dv0, w, a + 1, b));
        }
        if m.walkable(a - 1, b) {
            assert(at_s(dv0, w, a - 1, b) >= 0);
            assert(at_s(dv, w, a - 1, b) == at_s(dv0, w, a - 1, b));
        }
        if m.walkable(a, b + 1) {
            assert(at_s(dv0, w, a, b + 1) >= 0);
            assert(at_s(dv, w, a, b + 1) == at_s(dv0, w, a, b + 1));
        }
        if m.walkable(a, b - 1) {
            assert(at_s(dv0, w, a, b - 1) >= 0);
            assert(at_s(dv, w, a, b - 1) == at_s(dv0, w, a, b - 1));
        }
    }
}

/// The work-list invariant survives discovering the walkable, so far
/// undiscovered cell `(ni, nj)` adjacent to the current head `(ci, cj)`.
#[verifier::rlimit(100)]
#[verifier::spinoff_prover]
proof fn lemma_bfs_push(
    m: Maze,
    si: int,
    sj: int,
    dv0: Seq<i32>,
    qv0: Seq<(usize, usize)>,
    head: int,
    ci: usize,
    cj: usize,
    ni: usize,
    nj: usize,
    dv: Seq<i32>,
    qv: Seq<(usize, usize)>,
    dc: i32,
    nv: i32,
)
    requires
        bfs_inv(m, si, sj, dv0, qv0, head),
        0 <= head < qv0.len(),
        qv0[head] == ((ci, cj)),
        m.in_bounds(ni as int, nj as int),
        adjacent((ci as int, cj as int), (ni as int, nj as int)),
        m.walkable(ni as int, nj as int),
        dc == at_s(dv0, m.spec_width(), ci as int, cj as int),
        at_s(dv0, m.spec_width(), ni as int, nj as int) == -1,
        nv == dc + 1,
        dv == dv0.update(crate::maze::rm_index(m.spec_width(), ni as int, nj as int), nv),
        qv == qv0.push((ni, nj)),
    ensures
        bfs_inv(m, si, sj, dv, qv, head),
{
    let w = m.spec_width();
    let h = m.spec_height();
    reveal(pred_exists);
    reveal(relax_ok);
    lemma_bfs_update_pointwise(m, dv0, ni, nj, dv, nv);
    lemma_rm_index_range(w, h, ni as int, nj as int);
    lemma_count_nonneg_update(dv0, crate::maze::rm_index(w, ni as int, nj as int), nv);
    assert(at_s(dv, w, ni as int, nj as int) == dc + 1);
    assert(at_s(dv, w, si, sj) == 0);
    // Prior queue entries keep their values.
    assert forall|idx: int| 0 <= idx < qv0.len() implies at_s(
        dv,
        w,
        #[trigger] qv0[idx].0 as int,
        qv0[idx].1 as int,
    ) == at_s(dv0, w, qv0[idx].0 as int, qv0[idx].1 as int) by {}
    // Queue entries are discovered in-bounds cells.
    assert forall|idx: int| 0 <= idx < qv.len() implies m.in_bounds(
        #[trigger] qv[idx].0 as int,
        qv[idx].1 as int,
    ) && at_s(dv, w, qv[idx].0 as int, qv[idx].1 as int) >= 0 by {
        if idx < qv0.len() {
            assert(qv[idx] == qv0[idx]);
        } else {
            assert(qv[idx] == ((ni, nj)));
        }
    }
    // Values stay below the discovery count.
    assert forall|i: int, j: int| m.in_bounds(i, j) implies -1 <= #[trigger] at_s(dv, w, i, j)
        < count_nonneg(dv) by {
        assert(-1 <= at_s(dv0, w, i, j) < count_nonneg(dv0));
    }
    // Discovery stays covered by the queue.
    assert forall|i: int, j: int|
        m.in_bounds(i, j) && #[trigger] at_s(dv, w, i, j) >= 0 implies exists|idx: int|
        0 <= idx < qv.len() && #[trigger] qv[idx] == ((i as usize, j as usize)) by {
        if i == ni as int && j == nj as int {
            assert(qv[qv.len() - 1] == ((i as usize, j as usize)));
        } else {
            assert(at_s(dv0, w, i, j) >= 0);
            let idx0 = choose|idx: int|
                0 <= idx < qv0.len() && #[trigger] qv0[idx] == ((i as usize, j as usize));
            assert(qv[idx0] == ((i as usize, j as usize)));
        }
    }
    // The fresh cell is not the source and sits one hop past `(ci, cj)`.
    assert(!(ni as int == si && nj as int == sj));
    assert(pred_exists(m, dv, ni as int, nj as int, dc as int)) by {
        assert(at_s(dv, w, ci as int, cj as int) == dc);
        assert(m.in_bounds(ci as int, cj as int));
    }
    lemma_push_pred(m, si, sj, dv0, dv, ci as int, cj as int, ni as int, nj as int, dc as int);
    // The processed prefix stays relaxed across the push.
    lemma_push_prefix_relax(m, dv0, dv, qv0, head, ni as int, nj as int, dc as int);
    assert forall|idx: int| 0 <= idx < head implies relax4_ok(
        m,
        dv,
        #[trigger] qv[idx].0 as int,
        qv[idx].1 as int,
    ) by {
        assert(qv[idx] == qv0[idx]);
        assert(relax4_ok(m, dv, qv0[idx].0 as int, qv0[idx].1 as int));
    }
    // Queue values stay sorted, within the head's one-hop window.
    assert forall|i1: int, i2: int| 0 <= i1 <= i2 < qv.len() implies #[trigger] at_s(
        dv,
        w,
        qv[i1].0 as int,
        qv[i1].1 as int,
    ) <= #[trigger] at_s(dv, w, qv[i2].0 as int, qv[i2].1 as int) by {
        if i2 < qv0.len() {
            assert(qv[i1] == qv0[i1] && qv[i2] == qv0[i2]);
        } else {
            assert(qv[i2] == ((ni, nj)));
            if i1 < qv0.len() {
                assert(qv[i1] == qv0[i1]);
                assert(at_s(dv0, w, qv0[i1].0 as int, qv0[i1].1 as int) <= dc + 1);
            }
        }
    }
    assert forall|idx: int| 0 <= idx < qv.len() implies #[trigger] at_s(
        dv,
        w,
        qv[idx].0 as int,
        qv[idx].1 as int,
    ) <= at_s(dv, w, qv[head].0 as int, qv[head].1 as int) + 1 by {
        assert(qv[head] == ((ci, cj)));
        assert(at_s(dv, w, ci as int, cj as int) == dc);
        if idx < qv0.len() {
            assert(qv[idx] == qv0[idx]);
            assert(at_s(dv0, w, qv0[idx].0 as int, qv0[idx].1 as int) <= dc + 1);
        } else {
            assert(qv[idx] == ((ni, nj)));
        }
    }
}

/// Handles one neighbor `(ni, nj)` of the queue cell `(ci, cj) == qv[head]`:
/// a walkable, undiscovered neighbor is assigned one hop more and queued.
#[verifier::loop_isolation(false)]
#[verifier::rlimit(100)]
#[verifier::spinoff_prover]
fn bfs_visit(
    m: &Maze,
    d: &mut Vec<i32>,
    q: &mut Vec<(usize, usize)>,
    head: usize,
    ci: usize,
    cj: usize,
    ni: usize,
    nj: usize,
    src: Ghost<(int, int)>,
)
    requires
        m.wf(),
        bfs_inv(*m, src@.0, src@.1, old(d)@, old(q)@, head as int),
        head < old(q)@.len(),
        old(q)@[head as int] == ((ci, cj)),
        m.in_bounds(ni as int, nj as int),
        adjacent((ci as int, cj as int), (ni as int, nj as int)),
    ensures
        bfs_inv(*m, src@.0, src@.1, final(d)@, final(q)@, head as int),
        final(q)@.len() >= old(q)@.len(),
        forall|idx: int| 0 <= idx < old(q)@.len() ==> #[trigger] final(q)@[idx] == old(q)@[idx],
        forall|i: int, j: int|
            m.in_bounds(i, j) ==> #[trigger] at_s(final(d)@, m.spec_width(), i, j) == at_s(
                old(d)@,
                m.spec_width(),
                i,
                j,
            ) || (at_s(old(d)@, m.spec_width(), i, j) == -1 && at_s(final(d)@, m.spec_width(), i, j)
                == at_s(old(d)@, m.spec_width(), ci as int, cj as int) + 1),
        m.walkable(ni as int, nj as int) ==> 0 <= at_s(
            final(d)@,
            m.spec_width(),
            ni as int,
            nj as int,
        ) <= at_s(old(d)@, m.spec_width(), ci as int, cj as int) + 1,
        forall|x: int, y: int, nx: int, ny: int|
            m.in_bounds(x, y) && at_s(old(d)@, m.spec_width(), x, y) >= 0 && #[trigger] relax_ok(
                *m,
                old(d)@,
                x,
                y,
                nx,
                ny,
            ) ==> #[trigger] relax_ok(*m, final(d)@, x, y, nx, ny),
{
    let ghost w = m.spec_width();
    let ghost h = m.spec_height();
    let k = rm_idx(m.width(), m.height(), ni, nj);
    let kc = rm_idx(m.width(), m.height(), ci, cj);
    let dc = d[kc];
    if d[k] == -1 && is_walkable_cell(m, ni as i32, nj as i32) {
        proof {
            lemma_count_nonneg_le_len(d@);
            assert(w * h <= 1024 * 1024) by (nonlinear_arith)
                requires
                    1 <= w <= 1024,
                    1 <= h <= 1024,
            ;
            assert(dc < count_nonneg(d@));
        }
        let ghost dv0 = d@;
        let ghost qv0 = q@;
        d.set(k, dc + 1);
        q.push((ni, nj));
        proof {
            let nv = d@[k as int];
            lemma_bfs_push(
                *m,
                src@.0,
                src@.1,
                dv0,
                qv0,
                head as int,
                ci,
                cj,
                ni,
                nj,
                d@,
                q@,
                dc,
                nv,
            );
            lemma_bfs_update_pointwise(*m, dv0, ni, nj, d@, nv);
            reveal(relax_ok);
            assert forall|x: int, y: int, nx: int, ny: int|
                m.in_bounds(x, y) && at_s(dv0, w, x, y) >= 0 && #[trigger] relax_ok(
                    *m,
                    dv0,
                    x,
                    y,
                    nx,
                    ny,
                ) implies #[trigger] relax_ok(*m, d@, x, y, nx, ny) by {
                assert(at_s(d@, w, x, y) == at_s(dv0, w, x, y));
                if m.walkable(nx, ny) {
                    assert(m.in_bounds(nx, ny));
                    assert(at_s(dv0, w, nx, ny) >= 0);
                    assert(at_s(d@, w, nx, ny) == at_s(dv0, w, nx, ny));
                }
            }
        }
    } else {
        proof {
            assert(final(d)@ =~= old(d)@);
            assert(final(q)@ =~= old(q)@);
        }
    }
}

/// Breadth-first expansion from `(si, sj)` over the maze's walkable cells,
/// yielding the exact shortest-hop distance field.
#[verifier::loop_isolation(false)]
#[verifier::rlimit(100)]
pub fn bfs_distances(m: &Maze, si: usize, sj: usize) -> (f: DistField)
    requires
        m.wf(),
        si < m.spec_width(),
        sj < m.spec_height(),
    ensures
        f.spec_width() == m.spec_width(),
        f.spec_height() == m.spec_height(),
        f.dists().len() == m.spec_width() * m.spec_height(),
        dist_field_wf(*m, si as int, sj as int, f.dists()),
{
    let ghost w = m.spec_width();
    let ghost h = m.spec_height();
    let width = m.width();
    let height = m.height();
    let mut d: Vec<i32> = Vec::new();
    proof {
        assert(width * height <= 1024 * 1024) by (nonlinear_arith)
            requires
                width <= 1024,
                height <= 1024,
        ;
    }
    let total = width * height;
    let mut k: usize = 0;
    while k < total
        invariant
            k <= total,
            d@.len() == k,
            forall|n: int| 0 <= n < k ==> #[trigger] d@[n] == -1i32,
        decreases total - k,
    {
        d.push(-1);
        k = k + 1;
    }
    proof {
        lemma_count_all_negative(d@);
    }
    let ks = rm_idx(width, height, si, sj);
    let ghost dv0 = d@;
    d.set(ks, 0);
    proof {
        lemma_count_nonneg_update(dv0, ks as int, 0i32);
    }
    let mut q: Vec<(usize, usize)> = Vec::new();
    q.push((si, sj));
    let mut head: usize = 0;
    proof {
        assert forall|a: int, b: int| m.in_bounds(a, b) implies #[trigger] at_s(d@, w, a, b)
            == (if a == si && b == sj {
            0int
        } else {
            -1int
        }) by {
            lemma_rm_index_range(w, h, a, b);
            lemma_rm_index_injective(w, a, b, si as int, sj as int);
        }
        assert(count_nonneg(d@) == 1);
        assert(at_s(d@, w, si as int, sj as int) == 0);
        assert forall|i: int, j: int|
            m.in_bounds(i, j) && #[trigger] at_s(d@, w, i, j) >= 0 implies exists|idx: int|
            0 <= idx < q@.len() && #[trigger] q@[idx] == ((i as usize, j as usize)) by {
            assert(q@[0] == ((si, sj)));
            assert(i == si && j == sj);
            assert(q@[0] == ((i as usize, j as usize)));
        }
        assert(bfs_inv(*m, si as int, sj as int, d@, q@, 0));
    }
    while head < q.len()
        invariant
            bfs_inv(*m, si as int, sj as int, d@, q@, head as int),
        decreases w * h - head,
    {
        proof {
            lemma_count_nonneg_le_len(d@);
        }
        let (ci, cj) = q[head];
        let ghost a = ci as int;
        let ghost b = cj as int;
        let ghost d0 = d@;
        if ci + 1 < width {
            bfs_visit(m, &mut d, &mut q, head, ci, cj, ci + 1, cj, Ghost((si as int, sj as int)));
        }
        proof {
            reveal(relax_ok);
            assert(relax_ok(*m, d@, a, b, a + 1, b));
        }
        if ci > 0 {
            bfs_visit(m, &mut d, &mut q, head, ci, cj, ci - 1, cj, Ghost((si as int, sj as int)));
        }
        proof {
            reveal(relax_ok);
            assert(relax_ok(*m, d@, a, b, a + 1, b));
            assert(relax_ok(*m, d@, a, b, a - 1, b));
        }
        if cj + 1 < height {
            bfs_visit(m, &mut d, &mut q, head, ci, cj, ci, cj + 1, Ghost((si as int, sj as int)));
        }
        proof {
            reveal(relax_ok);
            assert(relax_ok(*m, d@, a, b, a + 1, b));
            assert(relax_ok(*m, d@, a, b, a - 1, b));
            assert(relax_ok(*m, d@, a, b, a, b + 1));
        }
        if cj > 0 {
            bfs_visit(m, &mut d, &mut q, head, ci, cj, ci, cj - 1, Ghost((si as int, sj as int)));
        }
        proof {
            reveal(relax_ok);
            assert(relax_ok(*m, d@, a, b, a + 1, b));
            assert(relax_ok(*m, d@, a, b, a - 1, b));
            assert(relax_ok(*m, d@, a, b, a, b + 1));
            assert(relax_ok(*m, d@, a, b, a, b - 1));
            lemma_bfs_advance(*m, si as int, sj as int, d@, q@, head as int, ci, cj);
        }
        head = head + 1;
    }
    proof {
        lemma_count_nonneg_le_len(d@);
        assert forall|i: int, j: int| m.in_bounds(i, j) implies -1 <= #[trigger] at_s(d@, w, i, j)
            <= w * h by {
            assert(-1 <= at_s(d@, w, i, j) < count_nonneg(d@));
        }
        // Every discovered cell sits in the processed prefix, so the whole
        // field is relaxed.
        assert forall|i: int, j: int|
            m.in_bounds(i, j) && #[trigger] at_s(d@, w, i, j) >= 0 implies relax4_ok(
            *m,
            d@,
            i,
            j,
        ) by {
            let idx = choose|idx: int|
                0 <= idx < q@.len() && #[trigger] q@[idx] == ((i as usize, j as usize));
            assert(relax4_ok(*m, d@, q@[idx].0 as int, q@[idx].1 as int));
            assert(q@[idx].0 as int == i && q@[idx].1 as int == j);
        }
        assert(dist_field_wf(*m, si as int, sj as int, d@));
    }
    DistField { width, height, d }
}

/// Advancing past a fully relaxed head cell keeps the work-list invariant.
#[verifier::rlimit(100)]
proof fn lemma_bfs_advance(
    m: Maze,
    si: int,
    sj: int,
    dv: Seq<i32>,
    qv: Seq<(usize, usize)>,
    head: int,
    ci: usize,
    cj: usize,
)
    requires
        bfs_inv(m, si, sj, dv, qv, head),
        0 <= head < qv.len(),
        qv[head] == ((ci, cj)),
        relax4_ok(m, dv, ci as int, cj as int),
    ensures
        bfs_inv(m, si, sj, dv, qv, head + 1),
{
    let w = m.spec_width();
    if head + 1 < qv.len() {
        assert forall|idx: int| 0 <= idx < qv.len() implies #[trigger] at_s(
            dv,
            w,
            qv[idx].0 as int,
            qv[idx].1 as int,
        ) <= at_s(dv, w, qv[head + 1].0 as int, qv[head + 1].1 as int) + 1 by {
            assert(at_s(dv, w, qv[head].0 as int, qv[head].1 as int) <= at_s(
                dv,
                w,
                qv[head + 1].0 as int,
                qv[head + 1].1 as int,
            ));
            assert(at_s(dv, w, qv[idx].0 as int, qv[idx].1 as int) <= at_s(
                dv,
                w,
                qv[head].0 as int,
                qv[head].1 as int,
            ) + 1);
        }
    }
}

/// `p` is a walk from `s` (exclusive) to `g` (inclusive): each listed cell is
/// walkable, consecutive cells are grid neighbors, the first is a neighbor of
/// `s`, the last is `g`. The empty walk stands for `s == g`.
pub open spec fn is_path(m: Maze, s: (int, int), p: Seq<(int, int)>, g: (int, int)) -> bool {
    if p.len() == 0 {
        s == g
    } else {
        &&& adjacent(s, p[0])
        &&& p.last() == g
        &&& forall|k: int| 0 <= k < p.len() ==> m.walkable((#[trigger] p[k]).0, p[k].1)
        &&& forall|k: int| 0 <= k < p.len() - 1 ==> adjacent(#[trigger] p[k], p[k + 1])
    }
}

/// No walk can beat the field: along any path from a discovered cell, the
/// recorded distance grows by at most one per hop.
pub proof fn lemma_path_lower(
    m: Maze,
    si: int,
    sj: int,
    dv: Seq<i32>,
    ci: int,
    cj: int,
    p: Seq<(int, int)>,
    gi: int,
    gj: int,
)
    requires
        dist_field_wf(m, si, sj, dv),
        m.in_bounds(ci, cj),
        at_s(dv, m.spec_width(), ci, cj) >= 0,
        is_path(m, (ci, cj), p, (gi, gj)),
    ensures
        at_s(dv, m.spec_width(), gi, gj) >= 0,
        at_s(dv, m.spec_width(), gi, gj) <= at_s(dv, m.spec_width(), ci, cj) + p.len(),
    decreases p.len(),
{
    reveal(relax_ok);
    let w = m.spec_width();
    if p.len() == 0 {
        assert(gi == ci && gj == cj);
    } else {
        let n = p[0];
        assert(m.walkable(n.0, n.1));
        assert(relax4_ok(m, dv, ci, cj));
        assert(adjacent((ci, cj), n));
        assert(0 <= at_s(dv, w, n.0, n.1) <= at_s(dv, w, ci, cj) + 1) by {
            if n.0 == ci + 1 && n.1 == cj {
                assert(relax_ok(m, dv, ci, cj, ci + 1, cj));
            } else if n.0 == ci - 1 && n.1 == cj {
                assert(relax_ok(m, dv, ci, cj, ci - 1, cj));
            } else if n.0 == ci && n.1 == cj + 1 {
                assert(relax_ok(m, dv, ci, cj, ci, cj + 1));
            } else {
                assert(n.0 == ci && n.1 == cj - 1);
                assert(relax_ok(m, dv, ci, cj, ci, cj - 1));
            }
        }
        let tail = p.drop_first();
        assert(is_path(m, n, tail, (gi, gj))) by {
            if tail.len() == 0 {
                assert(p.last() == p[0]);
            } else {
                assert(tail[0] == p[1]);
                assert(adjacent(p[0], p[1]));
                assert(tail.last() == p.last());
                assert forall|k: int| 0 <= k < tail.len() implies m.walkable(
                    (#[trigger] tail[k]).0,
                    tail[k].1,
                ) by {
                    assert(tail[k] == p[k + 1]);
                }
                assert forall|k: int| 0 <= k < tail.len() - 1 implies adjacent(
                    #[trigger] tail[k],
                    tail[k + 1],
                ) by {
                    assert(tail[k] == p[k + 1] && tail[k + 1] == p[k + 2]);
                }
            }
        }
        lemma_path_lower(m, si, sj, dv, n.0, n.1, tail, gi, gj);
    }
}

/// The field never overstates a distance: a discovered cell with value `D`
/// really is `D` hops from the source, witnessed by a concrete walk.
pub proof fn lemma_path_upper(m: Maze, si: int, sj: int, dv: Seq<i32>, gi: int, gj: int)
    requires
        dist_field_wf(m, si, sj, dv),
        m.in_bounds(gi, gj),
        at_s(dv, m.spec_width(), gi, gj) >= 0,
    ensures
        exists|p: Seq<(int, int)>|
            #[trigger] is_path(m, (si, sj), p, (gi, gj)) && p.len() == at_s(
                dv,
                m.spec_width(),
                gi,
                gj,
            ),
    decreases at_s(dv, m.spec_width(), gi, gj),
{
    reveal(pred_exists);
    let w = m.spec_width();
    let dist = at_s(dv, w, gi, gj);
    if dist == 0 {
        assert(gi == si && gj == sj);
        let p = Seq::<(int, int)>::empty();
        assert(is_path(m, (si, sj), p, (gi, gj)));
    } else {
        assert(!(gi == si && gj == sj));
        assert(m.walkable(gi, gj));
        assert(pred_exists(m, dv, gi, gj, dist - 1));
        let n: (int, int) = if m.in_bounds(gi + 1, gj) && at_s(dv, w, gi + 1, gj) == dist - 1 {
            (gi + 1, gj)
        } else if m.in_bounds(gi - 1, gj) && at_s(dv, w, gi - 1, gj) == dist - 1 {
            (gi - 1, gj)
        } else if m.in_bounds(gi, gj + 1) && at_s(dv, w, gi, gj + 1) == dist - 1 {
            (gi, gj + 1)
        } else {
            (gi, gj - 1)
        };
        assert(m.in_bounds(n.0, n.1) && at_s(dv, w, n.0, n.1) == dist - 1);
        assert(adjacent(n, (gi, gj)));
        lemma_path_upper(m, si, sj, dv, n.0, n.1);
        let p0 = choose|p0: Seq<(int, int)>|
            #[trigger] is_path(m, (si, sj), p0, n) && p0.len() == at_s(dv, w, n.0, n.1);
        let p = p0.push((gi, gj));
        assert(p.last() == (gi, gj));
        assert(is_path(m, (si, sj), p, (gi, gj))) by {
            if p0.len() == 0 {
                assert(n == ((si, sj)));
                assert(p[0] == (gi, gj));
                assert(adjacent((si, sj), (gi, gj)));
            } else {
                assert(p[0] == p0[0]);
                assert(p0.last() == n);
                assert(p[p.len() - 2] == p0[p0.len() - 1]);
            }
            assert forall|k: int| 0 <= k < p.len() implies m.walkable(
                (#[trigger] p[k]).0,
                p[k].1,
            ) by {
                if k < p0.len() {
                    assert(p[k] == p0[k]);
                } else {
                    assert(p[k] == (gi, gj));
                }
            }
            assert forall|k: int| 0 <= k < p.len() - 1 implies adjacent(
                #[trigger] p[k],
                p[k + 1],
            ) by {
                if k < p0.len() - 1 {
                    assert(p[k] == p0[k] && p[k + 1] == p0[k + 1]);
                } else {
                    assert(k == p0.len() - 1);
                    assert(p[k] == p0.last() && p[k + 1] == (gi, gj));
                }
            }
        }
        assert(p.len() == dist);
    }
}

/// The breadth-first field records exactly the length of a shortest walk:
/// for any minimal path `p` from the source to `(gi, gj)`, the field reads
/// `p.len()` there.
pub proof fn lemma_distance_matches_path_length(
    m: Maze,
    si: int,
    sj: int,
    dv: Seq<i32>,
    p: Seq<(int, int)>,
    gi: int,
    gj: int,
)
    requires
        dist_field_wf(m, si, sj, dv),
        m.in_bounds(gi, gj),
        is_path(m, (si, sj), p, (gi, gj)),
        forall|q: Seq<(int, int)>| #[trigger] is_path(m, (si, sj), q, (gi, gj)) ==> p.len() <= q.len(),
    ensures
        at_s(dv, m.spec_width(), gi, gj) == p.len(),
{
    let w = m.spec_width();
    lemma_path_lower(m, si, sj, dv, si, sj, p, gi, gj);
    lemma_path_upper(m, si, sj, dv, gi, gj);
    let p0 = choose|p0: Seq<(int, int)>|
        #[trigger] is_path(m, (si, sj), p0, (gi, gj)) && p0.len() == at_s(dv, w, gi, gj);
    assert(p.len() <= p0.len());
}

/// Two finished fields from the same source agree everywhere: the clauses of
/// `dist_field_wf` admit exactly one field.
pub proof fn lemma_dist_field_unique(m: Maze, si: int, sj: int, dv1: Seq<i32>, dv2: Seq<i32>)
    requires
        dist_field_wf(m, si, sj, dv1),
        dist_field_wf(m, si, sj, dv2),
    ensures
        forall|i: int, j: int|
            m.in_bounds(i, j) ==> #[trigger] at_s(dv1, m.spec_width(), i, j) == at_s(
                dv2,
                m.spec_width(),
                i,
                j,
            ),
{
    let w = m.spec_width();
    assert forall|i: int, j: int| m.in_bounds(i, j) implies #[trigger] at_s(dv1, w, i, j) == at_s(
        dv2,
        w,
        i,
        j,
    ) by {
        if at_s(dv1, w, i, j) >= 0 {
            lemma_path_upper(m, si, sj, dv1, i, j);
            let p1 = choose|p: Seq<(int, int)>|
                #[trigger] is_path(m, (si, sj), p, (i, j)) && p.len() == at_s(dv1, w, i, j);
            lemma_path_lower(m, si, sj, dv2, si, sj, p1, i, j);
            lemma_path_upper(m, si, sj, dv2, i, j);
            let p2 = choose|p: Seq<(int, int)>|
                #[trigger] is_path(m, (si, sj), p, (i, j)) && p.len() == at_s(dv2, w, i, j);
            lemma_path_lower(m, si, sj, dv1, si, sj, p2, i, j);
        } else {
            assert(at_s(dv1, w, i, j) == -1);
            if at_s(dv2, w, i, j) >= 0 {
                lemma_path_upper(m, si, sj, dv2, i, j);
                let p2 = choose|p: Seq<(int, int)>|
                    #[trigger] is_path(m, (si, sj), p, (i, j)) && p.len() == at_s(dv2, w, i, j);
                lemma_path_lower(m, si, sj, dv1, si, sj, p2, i, j);
            }
            assert(at_s(dv2, w, i, j) == -1);
        }
    }
}

/// A `Vec` of grid cells as a mathematical cell sequence.
pub open spec fn path_view(p: Seq<(usize, usize)>) -> Seq<(int, int)> {
    p.map_values(|c: (usize, usize)| (c.0 as int, c.1 as int))
}

/// Finds a neighbor of `(ci, cj)` one hop nearer the field's source. One
/// exists by the field's discovery clause.
#[verifier::loop_isolation(false)]
fn find_pred(m: &Maze, f: &DistField, ci: usize, cj: usize, src: Ghost<(int, int)>) -> (r: (
    usize,
    usize,
))
    requires
        m.wf(),
        f.spec_width() == m.spec_width(),
        f.spec_height() == m.spec_height(),
        f.dists().len() == m.spec_width() * m.spec_height(),
        dist_field_wf(*m, src@.0, src@.1, f.dists()),
        ci < m.spec_width(),
        cj < m.spec_height(),
        f.at(ci as int, cj as int) >= 1,
    ensures
        m.in_bounds(r.0 as int, r.1 as int),
        adjacent((r.0 as int, r.1 as int), (ci as int, cj as int)),
        f.at(r.0 as int, r.1 as int) == f.at(ci as int, cj as int) - 1,
{
    proof {
        reveal(pred_exists);
        assert(!(ci as int == src@.0 && cj as int == src@.1));
        assert(pred_exists(*m, f.dists(), ci as int, cj as int, f.at(ci as int, cj as int) - 1));
    }
    let width = m.width();
    let height = m.height();
    let dc = f.get(ci, cj);
    if ci + 1 < width {
        if f.get(ci + 1, cj) == dc - 1 {
            return (ci + 1, cj);
        }
    }
    if ci > 0 {
        if f.get(ci - 1, cj) == dc - 1 {
            return (ci - 1, cj);
        }
    }
    if cj + 1 < height {
        if f.get(ci, cj + 1) == dc - 1 {
            return (ci, cj + 1);
        }
    }
    if cj > 0 {
        if f.get(ci, cj - 1) == dc - 1 {
            return (ci, cj - 1);
        }
    }
    proof {
        assert(false);
    }
    (ci, cj)
}

/// Shortest path from `(si, sj)` to `(gi, gj)`, excluding the start cell,
/// as the chain of cells to step through. The result is empty both when the
/// two cells coincide and when no path exists; when a path comes back it is
/// a genuine shortest one: no other walk between the two cells is shorter.
#[verifier::loop_isolation(false)]
#[verifier::rlimit(100)]
pub fn bfs_path(m: &Maze, si: usize, sj: usize, gi: usize, gj: usize) -> (p: Vec<(usize, usize)>)
    requires
        m.wf(),
        si < m.spec_width(),
        sj < m.spec_height(),
        gi < m.spec_width(),
        gj < m.spec_height(),
    ensures
        ({
            let s = (si as int, sj as int);
            let g = (gi as int, gj as int);
            &&& (s == g ==> p@.len() == 0)
            &&& (s != g && p@.len() > 0 ==> is_path(*m, s, path_view(p@), g) && forall|
                q: Seq<(int, int)>,
            |
                #[trigger] is_path(*m, s, q, g) ==> p@.len() <= q.len())
            &&& (s != g && p@.len() == 0 ==> forall|q: Seq<(int, int)>| !is_path(*m, s, q, g))
        }),
{
    let ghost s = (si as int, sj as int);
    let ghost g = (gi as int, gj as int);
    let ghost w = m.spec_width();
    if si == gi && sj == gj {
        return Vec::new();
    }
    let f = bfs_distances(m, si, sj);
    let ghost dv = f.dists();
    let dg = f.get(gi, gj);
    if dg < 0 {
        proof {
            assert forall|q: Seq<(int, int)>| !is_path(*m, s, q, g) by {
                if is_path(*m, s, q, g) {
                    lemma_path_lower(*m, si as int, sj as int, dv, si as int, sj as int, q, gi as int, gj as int);
                }
            }
        }
        return Vec::new();
    }
    proof {
        assert(at_s(dv, w, gi as int, gj as int) >= 1);
    }
    let mut rev: Vec<(usize, usize)> = Vec::new();
    rev.push((gi, gj));
    let mut ci = gi;
    let mut cj = gj;
    let mut dc = dg;
    while dc > 1
        invariant
            1 <= dc <= dg,
            rev@.len() == dg - dc + 1,
            rev@[0] == ((gi, gj)),
            rev@[rev@.len() - 1] == ((ci, cj)),
            ci < m.spec_width(),
            cj < m.spec_height(),
            f.at(ci as int, cj as int) == dc,
            forall|t: int|
                0 <= t < rev@.len() ==> m.in_bounds((#[trigger] rev@[t]).0 as int, rev@[t].1 as int)
                    && f.at(rev@[t].0 as int, rev@[t].1 as int) == dg - t && m.walkable(
                    rev@[t].0 as int,
                    rev@[t].1 as int,
                ),
            forall|t: int|
                0 <= t < rev@.len() - 1 ==> adjacent(
                    ((#[trigger] rev@[t + 1]).0 as int, rev@[t + 1].1 as int),
                    (rev@[t].0 as int, rev@[t].1 as int),
                ),
        decreases dc,
    {
        let (ni, nj) = find_pred(m, &f, ci, cj, Ghost((si as int, sj as int)));
        rev.push((ni, nj));
        ci = ni;
        cj = nj;
        dc = dc - 1;
    }
    // The remaining neighbor at distance zero is the source itself, so the
    // chain's far end really touches the start cell.
    let (zi, zj) = find_pred(m, &f, ci, cj, Ghost((si as int, sj as int)));
    proof {
        assert(f.at(zi as int, zj as int) == 0);
        assert(zi as int == si as int && zj as int == sj as int);
        assert(adjacent(s, (ci as int, cj as int)));
    }
    let n = rev.len();
    let mut path: Vec<(usize, usize)> = Vec::new();
    let mut t: usize = n;
    while t > 0
        invariant
            t <= n,
            n == rev@.len(),
            path@.len() == n - t,
            forall|u: int| 0 <= u < path@.len() ==> #[trigger] path@[u] == rev@[n - 1 - u],
        decreases t,
    {
        path.push(rev[t - 1]);
        t = t - 1;
    }
    proof {
        let pv = path_view(path@);
        assert(pv.len() == n == dg);
        assert forall|k: int| 0 <= k < pv.len() implies #[trigger] pv[k] == ((
        rev@[n - 1 - k].0 as int,
        rev@[n - 1 - k].1 as int,
        )) by {
            assert(path@[k] == rev@[n - 1 - k]);
        }
        assert(pv[0] == ((ci as int, cj as int)));
        assert(pv.last() == (gi as int, gj as int));
        assert forall|k: int| 0 <= k < pv.len() implies m.walkable(
            (#[trigger] pv[k]).0,
            pv[k].1,
        ) by {
            assert(pv[k] == ((rev@[n - 1 - k].0 as int, rev@[n - 1 - k].1 as int)));
        }
        assert forall|k: int| 0 <= k < pv.len() - 1 implies adjacent(
            #[trigger] pv[k],
            pv[k + 1],
        ) by {
            let t0 = n - 2 - k;
            assert(adjacent(
                ((rev@[t0 + 1]).0 as int, rev@[t0 + 1].1 as int),
                (rev@[t0].0 as int, rev@[t0].1 as int),
            ));
            assert(pv[k] == ((rev@[n - 1 - k].0 as int, rev@[n - 1 - k].1 as int)));
            assert(pv[k + 1] == ((rev@[n - 2 - k].0 as int, rev@[n - 2 - k].1 as int)));
        }
        assert(is_path(*m, s, pv, g));
        assert forall|q: Seq<(int, int)>| #[trigger] is_path(*m, s, q, g) implies pv.len()
            <= q.len() by {
            lemma_path_lower(*m, si as int, sj as int, dv, si as int, sj as int, q, gi as int, gj as int);
        }
    }
    path
}

proof fn lemma_count_all_negative(s: Seq<i32>)
    requires
        forall|n: int| 0 <= n < s.len() ==> #[trigger] s[n] == -1i32,
    ensures
        count_nonneg(s) == 0,
    decreases s.len(),
{
    if s.len() > 0 {
        lemma_count_all_negative(s.drop_last());
    }
}

} // verus!
