//! The Floyd-Warshall engine: a runtime-sized square matrix of
//! [`Distance`] values, overwritten in place with all-pairs shortest
//! distances.
//!
//! The spec model mirrors the in-place computation exactly: [`relax`] is one
//! cell update, [`sweep`] a row-major prefix of one pass, [`pass`] one full
//! pass with a fixed intermediate vertex, and [`shortest_paths`] the whole
//! run. [`floyd_warshall`] ensures its result equals [`shortest_paths`] of
//! its input, and the lemmas in this module state the classic facts of that
//! fixed point.

use vstd::prelude::*;
use crate::distance::{Distance, dist_add, dist_le, dist_min};

verus! {

/// The entry of the flattened row-major matrix `m` of dimension `n` at row
/// `i`, column `j`.
pub open spec fn ent(m: Seq<Distance>, n: nat, i: nat, j: nat) -> Distance {
    m[(i * n + j) as int]
}

/// The row-major index of an in-range cell is in range.
proof fn lemma_place_in_range(n: nat, i: nat, j: nat)
    by (nonlinear_arith)
    requires
        i < n,
        j < n,
    ensures
        i * n + j < n * n,
{
}

/// Distinct in-range cells have distinct row-major indices.
proof fn lemma_place_injective(n: nat, i: nat, j: nat, x: nat, y: nat)
    by (nonlinear_arith)
    requires
        i < n,
        j < n,
        x < n,
        y < n,
        i * n + j == x * n + y,
    ensures
        i == x,
        j == y,
{
}

/// Cells of rows strictly below `x` sit strictly below the start of row `x`.
proof fn lemma_row_major_below(n: nat, p: nat, q: nat, x: nat)
    by (nonlinear_arith)
    requires
        p < x,
        q < n,
    ensures
        p * n + q < x * n,
{
}

/// A vector's length fits the machine's index type.
proof fn lemma_len_fits(v: &Vec<Distance>)
    ensures
        v@.len() <= usize::MAX,
{
    vstd::std_specs::vec::axiom_spec_len(v);
}

/// One relaxation step: lower cell `(i, j)` to the route through the
/// intermediate vertex `k` if that route is cheaper.
pub open spec fn relax(m: Seq<Distance>, n: nat, k: nat, i: nat, j: nat) -> Seq<Distance> {
    m.update(
        (i * n + j) as int,
        dist_min(ent(m, n, i, j), dist_add(ent(m, n, i, k), ent(m, n, k, j))),
    )
}

/// The matrix after relaxing, in row-major order with intermediate vertex
/// `k`, every cell strictly before `(i, j)`: all rows below `i`, then row `i`
/// up to column `j`.
pub open spec fn sweep(m: Seq<Distance>, n: nat, k: nat, i: nat, j: nat) -> Seq<Distance>
    decreases i, j,
{
    if j > 0 {
        relax(sweep(m, n, k, i, (j - 1) as nat), n, k, i, (j - 1) as nat)
    } else if i > 0 {
        sweep(m, n, k, (i - 1) as nat, n)
    } else {
        m
    }
}

/// One full pass with intermediate vertex `k`.
pub open spec fn pass(m: Seq<Distance>, n: nat, k: nat) -> Seq<Distance> {
    sweep(m, n, k, n, 0)
}

/// The matrix after the passes with intermediate vertices `0, .., k - 1`.
pub open spec fn passes(m: Seq<Distance>, n: nat, k: nat) -> Seq<Distance>
    decreases k,
{
    if k > 0 {
        pass(passes(m, n, (k - 1) as nat), n, (k - 1) as nat)
    } else {
        m
    }
}

/// The full Floyd-Warshall run on the flattened matrix `m` of dimension `n`.
pub open spec fn shortest_paths(m: Seq<Distance>, n: nat) -> Seq<Distance> {
    passes(m, n, n)
}

/// A square matrix of distances, stored flat in row-major order.
pub struct Matrix {
    n: usize,
    cells: Vec<Distance>,
}

impl Matrix {
    /// The dimension `N`: the matrix has `N` rows and `N` columns.
    pub closed spec fn dim(self) -> nat {
        self.n as nat
    }

    /// The cells, flattened row by row.
    pub closed spec fn entries(self) -> Seq<Distance> {
        self.cells@
    }

    /// Well-formed: exactly `dim() * dim()` cells.
    pub open spec fn wf(self) -> bool {
        self.entries().len() == self.dim() * self.dim()
    }

    /// The cell at row `i`, column `j`.
    pub open spec fn at(self, i: nat, j: nat) -> Distance {
        ent(self.entries(), self.dim(), i, j)
    }

    /// The dimension of the matrix.
    pub fn size(&self) -> (r: usize)
        ensures
            r == self.dim(),
    {
        self.n
    }

    /// Reads the cell at row `i`, column `j`.
    pub fn get(&self, i: usize, j: usize) -> (r: Distance)
        requires
            self.wf(),
            i < self.dim(),
            j < self.dim(),
        ensures
            r == self.at(i as nat, j as nat),
    {
        proof {
            lemma_place_in_range(self.n as nat, i as nat, j as nat);
            lemma_len_fits(&self.cells);
        }
        self.cells[i * self.n + j]
    }

    /// Overwrites the cell at row `i`, column `j`.
    pub fn set(&mut self, i: usize, j: usize, v: Distance)
        requires
            old(self).wf(),
            i < old(self).dim(),
            j < old(self).dim(),
        ensures
            final(self).wf(),
            final(self).dim() == old(self).dim(),
            final(self).entries() == old(self).entries().update(
                (i * old(self).dim() + j) as int,
                v,
            ),
    {
        proof {
            lemma_place_in_range(self.n as nat, i as nat, j as nat);
            lemma_len_fits(&self.cells);
        }
        let idx = i * self.n + j;
        self.cells[idx] = v;
    }

    /// Builds a square matrix from rows: returns `Some` exactly when every
    /// row has as many cells as there are rows, and `None` on any other
    /// shape.
    pub fn from_rows(rows: &Vec<Vec<Distance>>) -> (r: Option<Matrix>)
        ensures
            match r {
                Some(m) => {
                    &&& m.wf()
                    &&& m.dim() == rows@.len()
                    &&& forall|i: int| 0 <= i < rows@.len() ==> (#[trigger] rows@[i])@.len()
                        == rows@.len()
                    &&& forall|i: nat, j: nat|
                        i < rows@.len() && j < rows@.len() ==> m.at(i, j) == rows@[i as int]@[j as int]
                },
                None => exists|i: int|
                    0 <= i < rows@.len() && (#[trigger] rows@[i])@.len() != rows@.len(),
            },
    {
        let n = rows.len();
        let mut i: usize = 0;
        while i < n
            invariant
                n == rows@.len(),
                i <= n,
                forall|x: int| 0 <= x < i ==> (#[trigger] rows@[x])@.len() == n,
            decreases n - i,
        {
            if rows[i].len() != n {
                return None;
            }
            i += 1;
        }
        let mut cells: Vec<Distance> = Vec::new();
        let mut x: usize = 0;
        while x < n
            invariant
                n == rows@.len(),
                x <= n,
                forall|q: int| 0 <= q < n ==> (#[trigger] rows@[q])@.len() == n,
                cells@.len() == x * n,
                forall|p: nat, q: nat|
                    p < x && q < n ==> ent(cells@, n as nat, p, q) == rows@[p as int]@[q as int],
            decreases n - x,
        {
            let mut y: usize = 0;
            while y < n
                invariant
                    n == rows@.len(),
                    x < n,
                    y <= n,
                    forall|q: int| 0 <= q < n ==> (#[trigger] rows@[q])@.len() == n,
                    cells@.len() == x * n + y,
                    forall|p: nat, q: nat|
                        p < x && q < n ==> ent(cells@, n as nat, p, q) == rows@[p as int]@[q as int],
                    forall|q: nat|
                        q < y ==> ent(cells@, n as nat, x as nat, q) == rows@[x as int]@[q as int],
                decreases n - y,
            {
                let ghost before = cells@;
                cells.push(rows[x][y]);
                proof {
                    assert forall|p: nat, q: nat|
                        p < x && q < n implies ent(cells@, n as nat, p, q)
                        == rows@[p as int]@[q as int] by {
                        lemma_row_major_below(n as nat, p, q, x as nat);
                        assert(ent(before, n as nat, p, q) == rows@[p as int]@[q as int]);
                        assert(cells@[(p * n + q) as int] == before[(p * n + q) as int]);
                    }
                    assert forall|q: nat|
                        q < y + 1 implies ent(cells@, n as nat, x as nat, q)
                        == rows@[x as int]@[q as int] by {
                        if q < y {
                            let rq = rows@[x as int]@[q as int];
                            assert(ent(before, n as nat, x as nat, q) == rq);
                            assert(cells@[(x * n + q) as int] == before[(x * n + q) as int]);
                        } else {
                            assert(cells@[(x * n + y) as int] == rows@[x as int]@[y as int]);
                        }
                    }
                }
                y += 1;
            }
            proof {
                assert(x * n + n == (x + 1) * n) by (nonlinear_arith);
            }
            x += 1;
        }
        Some(Matrix { n, cells })
    }

    /// Fills a fresh `n` by `n` matrix with `fill` in every cell: `None`
    /// exactly when `n * n` does not fit the machine's index type.
    pub fn filled(n: usize, fill: Distance) -> (r: Option<Matrix>)
        ensures
            match r {
                Some(m) => {
                    &&& m.wf()
                    &&& m.dim() == n
                    &&& forall|i: nat, j: nat| i < n && j < n ==> m.at(i, j) == fill
                },
                None => n * n > usize::MAX,
            },
    {
        let total = match n.checked_mul(n) {
            Some(t) => t,
            None => {
                return None;
            },
        };
        let mut cells: Vec<Distance> = Vec::new();
        let mut c: usize = 0;
        while c < total
            invariant
                c <= total,
                cells@.len() == c,
                forall|q: int| 0 <= q < c ==> cells@[q] == fill,
            decreases total - c,
        {
            cells.push(fill);
            c += 1;
        }
        proof {
            assert forall|i: nat, j: nat| i < n && j < n implies ent(cells@, n as nat, i, j)
                == fill by {
                lemma_place_in_range(n as nat, i, j);
            }
        }
        Some(Matrix { n, cells })
    }
}

/// Overwrites the square matrix `a` in place with all-pairs shortest
/// distances: for each intermediate vertex `k` in turn, every cell `(i, j)`
/// is lowered to the cheaper of its current value and the route through `k`.
/// The result is exactly the [`shortest_paths`] fixed point of the input.
pub fn floyd_warshall(a: &mut Matrix)
    requires
        old(a).wf(),
    ensures
        final(a).wf(),
        final(a).dim() == old(a).dim(),
        final(a).entries() == shortest_paths(old(a).entries(), old(a).dim()),
{
    let n = a.n;
    let ghost m0 = a.cells@;
    let mut k: usize = 0;
    while k < n
        invariant
            a.n == n,
            a.cells@.len() == n * n,
            k <= n,
            a.cells@ == passes(m0, n as nat, k as nat),
        decreases n - k,
    {
        let ghost mk = a.cells@;
        let mut i: usize = 0;
        while i < n
            invariant
                a.n == n,
                a.cells@.len() == n * n,
                k < n,
                i <= n,
                mk == passes(m0, n as nat, k as nat),
                a.cells@ == sweep(mk, n as nat, k as nat, i as nat, 0),
            decreases n - i,
        {
            let mut j: usize = 0;
            while j < n
                invariant
                    a.n == n,
                    a.cells@.len() == n * n,
                    k < n,
                    i < n,
                    j <= n,
                    mk == passes(m0, n as nat, k as nat),
                    a.cells@ == sweep(mk, n as nat, k as nat, i as nat, j as nat),
                decreases n - j,
            {
                proof {
                    lemma_place_in_range(n as nat, i as nat, j as nat);
                    lemma_place_in_range(n as nat, i as nat, k as nat);
                    lemma_place_in_range(n as nat, k as nat, j as nat);
                    lemma_len_fits(&a.cells);
                }
                let via = a.cells[i * n + k].add(a.cells[k * n + j]);
                let cur = a.cells[i * n + j];
                let nv = cur.min(via);
                let idx = i * n + j;
                a.cells[idx] = nv;
                proof {
                    let ghost prev = sweep(mk, n as nat, k as nat, i as nat, j as nat);
                    assert(a.cells@ == relax(prev, n as nat, k as nat, i as nat, j as nat));
                    assert(sweep(mk, n as nat, k as nat, i as nat, (j + 1) as nat) == relax(
                        prev,
                        n as nat,
                        k as nat,
                        i as nat,
                        j as nat,
                    ));
                }
                j += 1;
            }
            proof {
                assert(sweep(mk, n as nat, k as nat, (i + 1) as nat, 0) == sweep(
                    mk,
                    n as nat,
                    k as nat,
                    i as nat,
                    n as nat,
                ));
            }
            i += 1;
        }
        proof {
            assert(passes(m0, n as nat, (k + 1) as nat) == pass(mk, n as nat, k as nat));
        }
        k += 1;
    }
}

/// Cell-wise description of a partial pass: every relaxed cell holds the
/// minimum of its old value and the route through `k`, every other cell is
/// untouched, and row `k` and column `k` keep their values throughout (the
/// route through `k` never beats them, since weights are non-negative).
proof fn lemma_sweep(m: Seq<Distance>, n: nat, k: nat, i: nat, j: nat)
    requires
        m.len() == n * n,
        k < n,
        i <= n,
        j <= n,
        i == n ==> j == 0,
    ensures
        sweep(m, n, k, i, j).len() == n * n,
        forall|x: nat, y: nat|
            x < n && y < n && (x < i || (x == i && y < j)) ==> #[trigger] ent(
                sweep(m, n, k, i, j),
                n,
                x,
                y,
            ) == dist_min(ent(m, n, x, y), dist_add(ent(m, n, x, k), ent(m, n, k, y))),
        forall|x: nat, y: nat|
            x < n && y < n && (x > i || (x == i && y >= j)) ==> #[trigger] ent(
                sweep(m, n, k, i, j),
                n,
                x,
                y,
            ) == ent(m, n, x, y),
        forall|x: nat|
            x < n ==> #[trigger] ent(sweep(m, n, k, i, j), n, x, k) == ent(m, n, x, k) && ent(
                sweep(m, n, k, i, j),
                n,
                k,
                x,
            ) == ent(m, n, k, x),
    decreases i, j,
{
    let r = sweep(m, n, k, i, j);
    if j > 0 {
        let jp = (j - 1) as nat;
        let prev = sweep(m, n, k, i, jp);
        lemma_sweep(m, n, k, i, jp);
        lemma_place_in_range(n, i, jp);
        let exy = ent(m, n, i, jp);
        let exk = ent(m, n, i, k);
        let eky = ent(m, n, k, jp);
        let v = dist_min(exy, dist_add(exk, eky));
        assert(ent(prev, n, i, k) == exk);
        assert(ent(prev, n, k, jp) == eky);
        assert(ent(prev, n, i, jp) == exy);
        assert(r == prev.update((i * n + jp) as int, v));
        assert forall|x: nat, y: nat| x < n && y < n && (x, y) != (i, jp) implies ent(r, n, x, y)
            == ent(prev, n, x, y) by {
            lemma_place_in_range(n, x, y);
            if x * n + y == i * n + jp {
                lemma_place_injective(n, x, y, i, jp);
            }
        }
        assert(ent(r, n, i, jp) == v);
        crate::distance::lemma_add_increases(exk, ent(m, n, k, k));
        crate::distance::lemma_add_increases(ent(m, n, k, k), eky);
        assert forall|x: nat|
            x < n implies #[trigger] ent(r, n, x, k) == ent(m, n, x, k) && ent(r, n, k, x) == ent(
            m,
            n,
            k,
            x,
        ) by {
            if (x, k) == (i, jp) {
                assert(v == exk);
            }
            if (k, x) == (i, jp) {
                assert(v == eky);
            }
        }
    } else if i > 0 {
        lemma_sweep(m, n, k, (i - 1) as nat, n);
    }
}

/// One full pass, cell by cell: the simultaneous relaxation through `k`.
proof fn lemma_pass(m: Seq<Distance>, n: nat, k: nat)
    requires
        m.len() == n * n,
        k < n,
    ensures
        pass(m, n, k).len() == n * n,
        forall|x: nat, y: nat|
            x < n && y < n ==> #[trigger] ent(pass(m, n, k), n, x, y) == dist_min(
                ent(m, n, x, y),
                dist_add(ent(m, n, x, k), ent(m, n, k, y)),
            ),
        forall|x: nat|
            x < n ==> #[trigger] ent(pass(m, n, k), n, x, k) == ent(m, n, x, k) && ent(
                pass(m, n, k),
                n,
                k,
                x,
            ) == ent(m, n, k, x),
{
    lemma_sweep(m, n, k, n, 0);
}

/// The triangle inequality restricted to intermediate vertices below `b`:
/// no cell exceeds any two-leg route whose middle vertex is below `b`.
pub open spec fn tri_upto(m: Seq<Distance>, n: nat, b: nat) -> bool {
    forall|x: nat, y: nat, l: nat|
        x < n && y < n && l < b ==> dist_le(
            ent(m, n, x, y),
            #[trigger] dist_add(ent(m, n, x, l), ent(m, n, l, y)),
        )
}

/// The full triangle inequality: `m[x, y] <= m[x, l] + m[l, y]` for every
/// triple of vertices.
pub open spec fn triangle(m: Seq<Distance>, n: nat) -> bool {
    tri_upto(m, n, n)
}

/// A pass with intermediate vertex `k` extends the triangle inequality from
/// the vertices below `k` to those below `k + 1`.
proof fn lemma_pass_tri(m: Seq<Distance>, n: nat, k: nat)
    requires
        m.len() == n * n,
        k < n,
        tri_upto(m, n, k),
    ensures
        tri_upto(pass(m, n, k), n, (k + 1) as nat),
{
    let r = pass(m, n, k);
    lemma_pass(m, n, k);
    assert forall|x: nat, y: nat, l: nat| x < n && y < n && l < k + 1 implies dist_le(
        ent(r, n, x, y),
        #[trigger] dist_add(ent(r, n, x, l), ent(r, n, l, y)),
    ) by {
        let exy = ent(m, n, x, y);
        let exk = ent(m, n, x, k);
        let eky = ent(m, n, k, y);
        let rxy = ent(r, n, x, y);
        assert(rxy == dist_min(exy, dist_add(exk, eky)));
        crate::distance::lemma_min_properties(exy, dist_add(exk, eky), rxy);
        if l == k {
            assert(ent(r, n, x, l) == exk);
            assert(ent(r, n, l, y) == eky);
        } else {
            let exl = ent(m, n, x, l);
            let ely = ent(m, n, l, y);
            let ekl = ent(m, n, k, l);
            let elk = ent(m, n, l, k);
            let rxl = ent(r, n, x, l);
            let rly = ent(r, n, l, y);
            assert(rxl == dist_min(exl, dist_add(exk, ekl)));
            assert(rly == dist_min(ely, dist_add(elk, eky)));
            assert(dist_le(exy, dist_add(exl, ely)));
            assert(dist_le(eky, dist_add(ekl, ely)));
            assert(dist_le(exk, dist_add(exl, elk)));
            if rxl == exl && rly == ely {
                crate::distance::lemma_le_total_order(rxy, exy, dist_add(exl, ely));
            } else if rxl == dist_add(exk, ekl) && rly == ely {
                crate::distance::lemma_add_monotone(eky, dist_add(ekl, ely), exk, exk);
                crate::distance::lemma_add_comm_assoc(exk, ekl, ely);
                crate::distance::lemma_le_total_order(
                    rxy,
                    dist_add(exk, eky),
                    dist_add(rxl, rly),
                );
            } else if rxl == exl && rly == dist_add(elk, eky) {
                crate::distance::lemma_add_monotone(exk, dist_add(exl, elk), eky, eky);
                crate::distance::lemma_add_comm_assoc(exl, elk, eky);
                crate::distance::lemma_le_total_order(
                    rxy,
                    dist_add(exk, eky),
                    dist_add(rxl, rly),
                );
            } else {
                assert(rxl == dist_add(exk, ekl) && rly == dist_add(elk, eky));
                crate::distance::lemma_add_increases(exk, ekl);
                crate::distance::lemma_add_increases(elk, eky);
                crate::distance::lemma_add_monotone(
                    exk,
                    dist_add(exk, ekl),
                    eky,
                    dist_add(elk, eky),
                );
                crate::distance::lemma_le_total_order(
                    rxy,
                    dist_add(exk, eky),
                    dist_add(rxl, rly),
                );
            }
        }
    }
}

/// After the passes with intermediate vertices `0, .., k - 1`, the triangle
/// inequality holds for those vertices, and the shape is unchanged.
proof fn lemma_passes_tri(m: Seq<Distance>, n: nat, k: nat)
    requires
        m.len() == n * n,
        k <= n,
    ensures
        passes(m, n, k).len() == n * n,
        tri_upto(passes(m, n, k), n, k),
    decreases k,
{
    if k > 0 {
        let kp = (k - 1) as nat;
        lemma_passes_tri(m, n, kp);
        lemma_pass_tri(passes(m, n, kp), n, kp);
        lemma_pass(passes(m, n, kp), n, kp);
    }
}

/// The fixed-point postcondition of the engine: the output matrix satisfies
/// the full triangle inequality `out[x, y] <= out[x, l] + out[l, y]`.
pub proof fn lemma_triangle_inequality(m: Seq<Distance>, n: nat)
    requires
        m.len() == n * n,
    ensures
        shortest_paths(m, n).len() == n * n,
        triangle(shortest_paths(m, n), n),
{
    lemma_passes_tri(m, n, n);
}

/// `m1` is cell-wise at most `m2`.
pub open spec fn pointwise_le(m1: Seq<Distance>, m2: Seq<Distance>, n: nat) -> bool {
    forall|x: nat, y: nat|
        x < n && y < n ==> dist_le(#[trigger] ent(m1, n, x, y), ent(m2, n, x, y))
}

/// The passes with intermediate vertices `0, .., k - 1` never increase a
/// cell.
proof fn lemma_passes_mono(m: Seq<Distance>, n: nat, k: nat)
    requires
        m.len() == n * n,
        k <= n,
    ensures
        passes(m, n, k).len() == n * n,
        pointwise_le(passes(m, n, k), m, n),
    decreases k,
{
    if k > 0 {
        let kp = (k - 1) as nat;
        let mp = passes(m, n, kp);
        lemma_passes_mono(m, n, kp);
        lemma_pass(mp, n, kp);
        assert forall|x: nat, y: nat| x < n && y < n implies dist_le(
            #[trigger] ent(passes(m, n, k), n, x, y),
            ent(m, n, x, y),
        ) by {
            let b = dist_add(ent(mp, n, x, kp), ent(mp, n, kp, y));
            crate::distance::lemma_min_properties(ent(mp, n, x, y), b, ent(m, n, x, y));
            crate::distance::lemma_le_total_order(
                ent(passes(m, n, k), n, x, y),
                ent(mp, n, x, y),
                ent(m, n, x, y),
            );
        }
    }
}

/// The engine never increases a distance: every output cell is at most the
/// matching input cell.
pub proof fn lemma_monotone(m: Seq<Distance>, n: nat)
    requires
        m.len() == n * n,
    ensures
        pointwise_le(shortest_paths(m, n), m, n),
{
    lemma_passes_mono(m, n, n);
}

/// A matrix that already satisfies the triangle inequality is a fixed point:
/// every pass leaves it unchanged.
proof fn lemma_passes_fixed(m: Seq<Distance>, n: nat, k: nat)
    requires
        m.len() == n * n,
        k <= n,
        triangle(m, n),
    ensures
        passes(m, n, k) == m,
    decreases k,
{
    if k > 0 {
        let kp = (k - 1) as nat;
        lemma_passes_fixed(m, n, kp);
        lemma_pass(m, n, kp);
        let r = pass(m, n, kp);
        assert forall|c: int| 0 <= c < n * n implies r[c] == m[c] by {
            lemma_place_decompose(n, c as nat);
            let x = (c as nat) / n;
            let y = (c as nat) % n;
            let b = dist_add(ent(m, n, x, kp), ent(m, n, kp, y));
            assert(dist_le(ent(m, n, x, y), b));
            assert(ent(r, n, x, y) == dist_min(ent(m, n, x, y), b));
        }
        assert(r =~= m);
    }
}

/// Splits a flat row-major index into its row and column.
proof fn lemma_place_decompose(n: nat, c: nat)
    by (nonlinear_arith)
    requires
        c < n * n,
    ensures
        c / n < n,
        c % n < n,
        (c / n) * n + c % n == c,
{
}

/// Running the engine on an already-shortened matrix changes nothing: a
/// matrix with the triangle inequality is its own shortest-path matrix.
pub proof fn lemma_already_shortest(m: Seq<Distance>, n: nat)
    requires
        m.len() == n * n,
        triangle(m, n),
    ensures
        shortest_paths(m, n) == m,
{
    lemma_passes_fixed(m, n, n);
}

/// Idempotence: running the engine twice gives the same matrix as running it
/// once, for every input.
pub proof fn lemma_idempotent(m: Seq<Distance>, n: nat)
    requires
        m.len() == n * n,
    ensures
        shortest_paths(shortest_paths(m, n), n) == shortest_paths(m, n),
{
    lemma_triangle_inequality(m, n);
    lemma_already_shortest(shortest_paths(m, n), n);
}

/// With non-negative weights and an all-zero diagonal, the diagonal stays
/// exactly zero: no cycle through other vertices can cost less than nothing.
pub proof fn lemma_zero_diagonal(m: Seq<Distance>, n: nat)
    requires
        m.len() == n * n,
        forall|x: nat| x < n ==> #[trigger] ent(m, n, x, x) == Distance::Finite(0),
    ensures
        forall|x: nat|
            x < n ==> #[trigger] ent(shortest_paths(m, n), n, x, x) == Distance::Finite(0),
{
    lemma_monotone(m, n);
    assert forall|x: nat| x < n implies #[trigger] ent(shortest_paths(m, n), n, x, x)
        == Distance::Finite(0) by {
        let d = ent(shortest_paths(m, n), n, x, x);
        assert(dist_le(d, ent(m, n, x, x)));
        crate::distance::lemma_nonneg(d);
        crate::distance::lemma_le_total_order(d, Distance::Finite(0), d);
    }
}

/// A directed walk in the graph `m`: a non-empty vertex sequence whose
/// consecutive pairs are all joined by finite edges.
pub open spec fn valid_path(m: Seq<Distance>, n: nat, p: Seq<nat>) -> bool {
    &&& p.len() >= 1
    &&& (forall|q: int| 0 <= q < p.len() ==> #[trigger] p[q] < n)
    &&& (forall|q: int| 0 <= q < p.len() - 1 ==> (#[trigger] ent(m, n, p[q], p[q + 1])) is Finite)
}

/// The total weight of a walk: the sum of its edge weights, `Finite(0)` for
/// a single vertex.
pub open spec fn path_weight(m: Seq<Distance>, n: nat, p: Seq<nat>) -> Distance
    decreases p.len(),
{
    if p.len() <= 1 {
        Distance::Finite(0)
    } else {
        dist_add(ent(m, n, p[0], p[1]), path_weight(m, n, p.drop_first()))
    }
}

/// A walk in `m` that starts at `x` and ends at `y`.
pub open spec fn path_from(m: Seq<Distance>, n: nat, p: Seq<nat>, x: nat, y: nat) -> bool {
    valid_path(m, n, p) && p.first() == x && p.last() == y
}

/// Every finite cell of `r` is the weight of some actual walk in the graph
/// `m`: no distance in `r` is invented.
pub open spec fn all_realized(r: Seq<Distance>, m: Seq<Distance>, n: nat) -> bool {
    forall|x: nat, y: nat|
        x < n && y < n && (#[trigger] ent(r, n, x, y)) is Finite ==> exists|p: Seq<nat>|
            #[trigger] path_from(m, n, p, x, y) && path_weight(m, n, p) == ent(r, n, x, y)
}

/// Joining a walk from `x` to `l` with a walk from `l` to `y` gives a walk
/// from `x` to `y` whose weight is the sum of the two.
proof fn lemma_path_concat(m: Seq<Distance>, n: nat, p1: Seq<nat>, p2: Seq<nat>)
    requires
        valid_path(m, n, p1),
        valid_path(m, n, p2),
        p1.last() == p2.first(),
    ensures
        ({
            let p = p1 + p2.drop_first();
            &&& valid_path(m, n, p)
            &&& p.first() == p1.first()
            &&& p.last() == p2.last()
            &&& path_weight(m, n, p) == dist_add(path_weight(m, n, p1), path_weight(m, n, p2))
        }),
    decreases p1.len(),
{
    let p = p1 + p2.drop_first();
    assert(p.len() == p1.len() + p2.len() - 1);
    assert(p.last() == p2.last());
    assert forall|q: int| 0 <= q < p.len() - 1 implies (#[trigger] ent(m, n, p[q], p[q + 1]))
        is Finite by {
        if q < p1.len() - 1 {
            assert(p[q] == p1[q] && p[q + 1] == p1[q + 1]);
        } else if q == p1.len() - 1 {
            assert(p[q] == p1.last() && p[q + 1] == p2[1]);
            assert(ent(m, n, p2[0], p2[1]) is Finite);
        } else {
            assert(p[q] == p2[q - p1.len() + 1] && p[q + 1] == p2[q - p1.len() + 2]);
            let s = q - p1.len() + 1;
            assert(ent(m, n, p2[s], p2[s + 1]) is Finite);
        }
    }
    if p1.len() == 1 {
        assert(p =~= p2);
        crate::distance::lemma_add_zero(path_weight(m, n, p2));
    } else {
        let p1t = p1.drop_first();
        assert forall|q: int| 0 <= q < p1t.len() - 1 implies (#[trigger] ent(
            m,
            n,
            p1t[q],
            p1t[q + 1],
        )) is Finite by {
            assert(p1t[q] == p1[q + 1] && p1t[q + 1] == p1[q + 2]);
            assert(ent(m, n, p1[q + 1], p1[q + 2]) is Finite);
        }
        lemma_path_concat(m, n, p1t, p2);
        assert(p.drop_first() =~= p1t + p2.drop_first());
        let e01 = ent(m, n, p1[0], p1[1]);
        assert(p[0] == p1[0] && p[1] == p1[1]);
        crate::distance::lemma_add_comm_assoc(
            e01,
            path_weight(m, n, p1t),
            path_weight(m, n, p2),
        );
    }
}

/// In the input matrix itself every finite cell is realized: the one-edge
/// walk along that cell.
proof fn lemma_realized_refl(m: Seq<Distance>, n: nat)
    requires
        m.len() == n * n,
    ensures
        all_realized(m, m, n),
{
    assert forall|x: nat, y: nat|
        x < n && y < n && (#[trigger] ent(m, n, x, y)) is Finite implies exists|p: Seq<nat>|
        #[trigger] path_from(m, n, p, x, y) && path_weight(m, n, p) == ent(m, n, x, y) by {
        let p = seq![x, y];
        assert(p.drop_first() =~= seq![y]);
        assert(path_weight(m, n, p.drop_first()) == Distance::Finite(0));
        assert(path_weight(m, n, p) == dist_add(ent(m, n, x, y), Distance::Finite(0)));
        crate::distance::lemma_add_zero(ent(m, n, x, y));
        assert(path_from(m, n, p, x, y) && path_weight(m, n, p) == ent(m, n, x, y));
    }
}

/// A pass invents no distance: every finite cell it writes is still the
/// weight of some walk in the input graph.
proof fn lemma_pass_realized(mp: Seq<Distance>, m: Seq<Distance>, n: nat, k: nat)
    requires
        mp.len() == n * n,
        k < n,
        all_realized(mp, m, n),
    ensures
        all_realized(pass(mp, n, k), m, n),
{
    let r = pass(mp, n, k);
    lemma_pass(mp, n, k);
    assert forall|x: nat, y: nat|
        x < n && y < n && (#[trigger] ent(r, n, x, y)) is Finite implies exists|p: Seq<nat>|
        #[trigger] path_from(m, n, p, x, y) && path_weight(m, n, p) == ent(r, n, x, y) by {
        let a = ent(mp, n, x, y);
        let b = dist_add(ent(mp, n, x, k), ent(mp, n, k, y));
        assert(ent(r, n, x, y) == dist_min(a, b));
        if dist_le(a, b) {
            assert(ent(r, n, x, y) == a);
            let p = choose|p: Seq<nat>|
                #[trigger] path_from(m, n, p, x, y) && path_weight(m, n, p) == a;
            assert(path_from(m, n, p, x, y) && path_weight(m, n, p) == ent(r, n, x, y));
        } else {
            assert(ent(r, n, x, y) == b);
            assert(ent(mp, n, x, k) is Finite && ent(mp, n, k, y) is Finite);
            let p1 = choose|p: Seq<nat>|
                #[trigger] path_from(m, n, p, x, k) && path_weight(m, n, p) == ent(mp, n, x, k);
            let p2 = choose|p: Seq<nat>|
                #[trigger] path_from(m, n, p, k, y) && path_weight(m, n, p) == ent(mp, n, k, y);
            lemma_path_concat(m, n, p1, p2);
            let p = p1 + p2.drop_first();
            assert(path_from(m, n, p, x, y) && path_weight(m, n, p) == ent(r, n, x, y));
        }
    }
}

/// The engine invents no distance: every finite output cell is the weight of
/// an actual walk in the input graph.
pub proof fn lemma_soundness(m: Seq<Distance>, n: nat)
    requires
        m.len() == n * n,
    ensures
        all_realized(shortest_paths(m, n), m, n),
{
    lemma_realized_refl(m, n);
    lemma_passes_realized(m, n, n);
}

proof fn lemma_passes_realized(m: Seq<Distance>, n: nat, k: nat)
    requires
        m.len() == n * n,
        k <= n,
    ensures
        all_realized(passes(m, n, k), m, n),
    decreases k,
{
    if k > 0 {
        let kp = (k - 1) as nat;
        lemma_passes_realized(m, n, kp);
        lemma_passes_tri(m, n, kp);
        lemma_pass_realized(passes(m, n, kp), m, n, kp);
    } else {
        lemma_realized_refl(m, n);
    }
}

/// A matrix with the triangle inequality that is cell-wise below the edge
/// weights of `m` is below the weight of every walk in `m` with at least one
/// edge.
proof fn lemma_tri_mono_bounds_walks(
    r: Seq<Distance>,
    m: Seq<Distance>,
    n: nat,
    p: Seq<nat>,
)
    requires
        triangle(r, n),
        pointwise_le(r, m, n),
        valid_path(m, n, p),
        p.len() >= 2,
    ensures
        dist_le(ent(r, n, p.first(), p.last()), path_weight(m, n, p)),
    decreases p.len(),
{
    let x = p.first();
    let y = p.last();
    let rest = p.drop_first();
    let z = p[1];
    let e0 = ent(m, n, x, z);
    assert(path_weight(m, n, p) == dist_add(e0, path_weight(m, n, rest)));
    if p.len() == 2 {
        assert(path_weight(m, n, rest) == Distance::Finite(0));
        crate::distance::lemma_add_zero(e0);
        assert(dist_le(ent(r, n, x, y), ent(m, n, x, y)));
    } else {
        assert forall|q: int| 0 <= q < rest.len() - 1 implies (#[trigger] ent(
            m,
            n,
            rest[q],
            rest[q + 1],
        )) is Finite by {
            assert(rest[q] == p[q + 1] && rest[q + 1] == p[q + 2]);
            assert(ent(m, n, p[q + 1], p[q + 2]) is Finite);
        }
        lemma_tri_mono_bounds_walks(r, m, n, rest);
        let w = path_weight(m, n, rest);
        assert(dist_le(ent(r, n, x, y), dist_add(ent(r, n, x, z), ent(r, n, z, y))));
        assert(dist_le(ent(r, n, x, z), ent(m, n, x, z)));
        crate::distance::lemma_add_monotone(ent(r, n, x, z), e0, ent(r, n, z, y), w);
        crate::distance::lemma_le_total_order(
            ent(r, n, x, y),
            dist_add(ent(r, n, x, z), ent(r, n, z, y)),
            dist_add(e0, w),
        );
    }
}

/// No walk beats the engine: every walk in the input graph with at least one
/// edge weighs at least the output cell between its endpoints. Together with
/// [`lemma_soundness`] this makes each output cell exactly the cheapest
/// walk weight, or `Inf` where no walk exists.
pub proof fn lemma_completeness(m: Seq<Distance>, n: nat, p: Seq<nat>)
    requires
        m.len() == n * n,
        valid_path(m, n, p),
        p.len() >= 2,
    ensures
        dist_le(ent(shortest_paths(m, n), n, p.first(), p.last()), path_weight(m, n, p)),
{
    lemma_triangle_inequality(m, n);
    lemma_monotone(m, n);
    lemma_tri_mono_bounds_walks(shortest_paths(m, n), m, n, p);
}

/// Unreachability propagates: where the input graph has no walk from `x` to
/// `y`, the output cell is exactly `Inf`.
pub proof fn lemma_unreachable(m: Seq<Distance>, n: nat, x: nat, y: nat)
    requires
        m.len() == n * n,
        x < n,
        y < n,
        forall|p: Seq<nat>| !path_from(m, n, p, x, y),
    ensures
        ent(shortest_paths(m, n), n, x, y) is Inf,
{
    lemma_soundness(m, n);
    if !(ent(shortest_paths(m, n), n, x, y) is Inf) {
        let p = choose|p: Seq<nat>|
            #[trigger] path_from(m, n, p, x, y) && path_weight(m, n, p) == ent(
                shortest_paths(m, n),
                n,
                x,
                y,
            );
        assert(false);
    }
}

} // verus!
