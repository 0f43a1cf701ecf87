//! The backtracking search for word rectangles, and its split into
//! independent tasks at the end of the first row.
use vstd::prelude::*;
use crate::codec::ALPHABET_SIZE;
use crate::index::{
    IndexModel, WordIndex, row_before, col_above, prefix_of_some, next_codes, lemma_prefix_codes,
    lemma_col_cell_bound, lemma_row_start,
};

verus! {

/// Cell `i` of `g` agrees with the words: the cells of its row up to it start
/// some row word, and the cells of its column up to it start some column word.
pub open spec fn cell_ok(m: IndexModel, g: Seq<u8>, i: nat) -> bool {
    &&& prefix_of_some(m.rows, row_before(g, m.width, i).push(g[i as int]))
    &&& prefix_of_some(m.cols, col_above(g, m.width, i).push(g[i as int]))
}

/// Every cell of the partly filled grid `g` agrees with the words.
pub open spec fn viable(m: IndexModel, g: Seq<u8>) -> bool {
    forall|i: nat| i < g.len() ==> #[trigger] cell_ok(m, g, i)
}

/// Every viable grid of `target` cells that starts with `p`, in ascending
/// order of codes, cell by cell.
pub open spec fn extensions(m: IndexModel, p: Seq<u8>, target: nat) -> Seq<Seq<u8>>
    decreases target - p.len(), 33int,
{
    if p.len() >= target {
        if viable(m, p) {
            seq![p]
        } else {
            Seq::empty()
        }
    } else {
        extensions_from(m, p, target, 0)
    }
}

/// The extensions of `p` whose next cell holds a code of at least `c`.
pub open spec fn extensions_from(m: IndexModel, p: Seq<u8>, target: nat, c: nat) -> Seq<Seq<u8>>
    decreases target - p.len(), 32 - c,
{
    if c >= 32 || p.len() >= target {
        Seq::empty()
    } else {
        extensions(m, p.push(c as u8), target) + extensions_from(m, p, target, c + 1)
    }
}

/// The grids held by a list of vectors.
pub open spec fn grids(v: Seq<Vec<u8>>) -> Seq<Seq<u8>> {
    v.map_values(|g: Vec<u8>| g@)
}

/// A cell's agreement depends only on the cells up to it.
proof fn lemma_cell_ok_push(m: IndexModel, g: Seq<u8>, c: u8, i: nat)
    requires
        m.width >= 1,
        i < g.len(),
    ensures
        cell_ok(m, g.push(c), i) == cell_ok(m, g, i),
{
    let h = g.push(c);
    lemma_row_start(i, m.width);
    assert(row_before(h, m.width, i) =~= row_before(g, m.width, i));
    assert forall|k: int| 0 <= k < i / m.width implies col_above(h, m.width, i)[k] == col_above(
        g,
        m.width,
        i,
    )[k] by {
        lemma_col_cell_bound(i, m.width, k);
    }
    assert(col_above(h, m.width, i) =~= col_above(g, m.width, i));
}

/// Adding a cell keeps a grid viable exactly when its code is a candidate.
pub proof fn lemma_viable_push(m: IndexModel, g: Seq<u8>, c: u8)
    requires
        m.width >= 1,
    ensures
        viable(m, g.push(c)) <==> (viable(m, g) && next_codes(
            m.rows,
            row_before(g, m.width, g.len()),
        ).intersect(next_codes(m.cols, col_above(g, m.width, g.len()))).contains(c)),
{
    let h = g.push(c);
    let n = g.len();
    lemma_row_start(n, m.width);
    assert(row_before(h, m.width, n) =~= row_before(g, m.width, n));
    assert forall|k: int| 0 <= k < n / m.width implies col_above(h, m.width, n)[k] == col_above(
        g,
        m.width,
        n,
    )[k] by {
        lemma_col_cell_bound(n, m.width, k);
    }
    assert(col_above(h, m.width, n) =~= col_above(g, m.width, n));
    assert(h[n as int] == c);
    if viable(m, h) {
        assert forall|i: nat| i < g.len() implies #[trigger] cell_ok(m, g, i) by {
            lemma_cell_ok_push(m, g, c, i);
            assert(cell_ok(m, h, i));
        }
        assert(cell_ok(m, h, n));
    }
    if viable(m, g) && cell_ok(m, h, n) {
        assert forall|i: nat| i < h.len() implies #[trigger] cell_ok(m, h, i) by {
            if i < n {
                lemma_cell_ok_push(m, g, c, i);
            }
        }
    }
}

/// A grid that is not viable has no viable extension.
pub proof fn lemma_not_viable_no_extensions(m: IndexModel, p: Seq<u8>, target: nat)
    requires
        m.width >= 1,
        !viable(m, p),
    ensures
        extensions(m, p, target) == Seq::<Seq<u8>>::empty(),
    decreases target - p.len(), 33int,
{
    if p.len() < target {
        lemma_not_viable_no_extensions_from(m, p, target, 0);
    }
}

proof fn lemma_not_viable_no_extensions_from(m: IndexModel, p: Seq<u8>, target: nat, c: nat)
    requires
        m.width >= 1,
        !viable(m, p),
    ensures
        extensions_from(m, p, target, c) == Seq::<Seq<u8>>::empty(),
    decreases target - p.len(), 32 - c,
{
    if c < 32 && p.len() < target {
        lemma_viable_push(m, p, c as u8);
        lemma_not_viable_no_extensions(m, p.push(c as u8), target);
        lemma_not_viable_no_extensions_from(m, p, target, c + 1);
        assert(extensions_from(m, p, target, c) =~= Seq::<Seq<u8>>::empty());
    }
}

/// Appends to `out` every viable grid of `target` cells that extends `grid`,
/// in ascending order; `grid` is handed back as it came.
fn search(index: &WordIndex, grid: &mut Vec<u8>, target: usize, out: &mut Vec<Vec<u8>>)
    requires
        index.wf(),
        old(grid).len() < target <= index@.width * index@.height,
        viable(index@, old(grid)@),
    ensures
        final(grid)@ == old(grid)@,
        grids(final(out)@) == grids(old(out)@) + extensions(index@, old(grid)@, target as nat),
    decreases target - old(grid).len(),
{
    let ghost m = index@;
    let ghost g0 = grid@;
    let ghost out0 = grids(out@);
    let cand = index.cell_candidates(grid);
    let mut c: u8 = 0;
    while c < ALPHABET_SIZE
        invariant
            index.wf(),
            m == index@,
            grid@ == g0,
            old(grid)@ == g0,
            g0.len() < target <= m.width * m.height,
            viable(m, g0),
            c <= 32,
            cand@ == next_codes(m.rows, row_before(g0, m.width, g0.len())).intersect(
                next_codes(m.cols, col_above(g0, m.width, g0.len())),
            ),
            grids(out@) + extensions_from(m, g0, target as nat, c as nat) == out0 + extensions_from(
                m,
                g0,
                target as nat,
                0,
            ),
        decreases 32 - c,
    {
        let ghost before = grids(out@);
        let ghost q = g0.push(c);
        proof {
            lemma_viable_push(m, g0, c);
        }
        if cand.has(c) {
            grid.push(c);
            if grid.len() == target {
                let done = grid.clone();
                assert(done@ == q);
                out.push(done);
                assert(grids(out@) =~= before + extensions(m, q, target as nat));
            } else {
                assert(grid.len() == g0.len() + 1);
                search(index, grid, target, out);
            }
            grid.pop();
            assert(grid@ =~= g0);
        } else {
            proof {
                lemma_not_viable_no_extensions(m, q, target as nat);
            }
            assert(grids(out@) =~= before + extensions(m, q, target as nat));
        }
        assert(extensions_from(m, g0, target as nat, c as nat) == extensions(m, q, target as nat)
            + extensions_from(m, g0, target as nat, c as nat + 1));
        assert(grids(out@) + extensions_from(m, g0, target as nat, c as nat + 1) =~= before
            + extensions_from(m, g0, target as nat, c as nat));
        c = c + 1;
    }
    assert(grids(out@) =~= out0 + extensions_from(m, g0, target as nat, 0));
}

/// A copy of `prefix` when it is viable; `None` when it is not.
pub(crate) fn copy_if_viable(index: &WordIndex, prefix: &Vec<u8>) -> (r: Option<Vec<u8>>)
    requires
        index.wf(),
        prefix.len() <= index@.width * index@.height,
    ensures
        match r {
            Some(g) => g@ == prefix@ && viable(index@, prefix@),
            None => !viable(index@, prefix@),
        },
{
    let ghost m = index@;
    let mut grid: Vec<u8> = Vec::new();
    let mut i: usize = 0;
    while i < prefix.len()
        invariant
            index.wf(),
            m == index@,
            prefix.len() <= m.width * m.height,
            i <= prefix.len(),
            grid@ == prefix@.subrange(0, i as int),
            viable(m, grid@),
        decreases prefix.len() - i,
    {
        let code = prefix[i];
        proof {
            lemma_viable_push(m, grid@, code);
        }
        if code >= 32 {
            proof {
                if viable(m, grid@.push(code)) {
                    let n = grid.len() as nat;
                    assert(cell_ok(m, grid@.push(code), n));
                    lemma_prefix_codes(m.rows, m.width, row_before(grid@.push(code), m.width, n).push(code));
                    let l = row_before(grid@.push(code), m.width, n).len();
                    assert(row_before(grid@.push(code), m.width, n).push(code)[l as int] == code);
                }
                assert(prefix@.subrange(0, i as int + 1) =~= grid@.push(code));
                                lemma_prefix_not_viable(m, prefix@, i as nat + 1, prefix.len() as nat);
            }
            return None;
        }
        let cand = index.cell_candidates(&grid);
        if !cand.has(code) {
            proof {
                assert(prefix@.subrange(0, i as int + 1) =~= grid@.push(code));
                lemma_prefix_not_viable(m, prefix@, i as nat + 1, prefix.len() as nat);
            }
            return None;
        }
        grid.push(code);
        assert(grid@ =~= prefix@.subrange(0, i as int + 1));
        i = i + 1;
    }
    assert(grid@ =~= prefix@);
    Some(grid)
}

/// Every grid of `target` cells that starts with `prefix` and whose every
/// cell agrees with the words, in ascending order of codes, cell by cell. With
/// `target` the whole grid these are the word rectangles that extend
/// `prefix`; with the width of a row they are the possible first rows.
pub fn compute(index: &WordIndex, prefix: &Vec<u8>, target: usize) -> (r: Vec<Vec<u8>>)
    requires
        index.wf(),
        prefix.len() <= target <= index@.width * index@.height,
    ensures
        grids(r@) == extensions(index@, prefix@, target as nat),
{
    let ghost m = index@;
    let mut grid = match copy_if_viable(index, prefix) {
        Some(g) => g,
        None => {
            proof {
                lemma_not_viable_no_extensions(m, prefix@, target as nat);
            }
            return Vec::new();
        },
    };
    let mut out: Vec<Vec<u8>> = Vec::new();
    if grid.len() == target {
        out.push(grid);
        assert(grids(out@) =~= extensions(m, prefix@, target as nat));
    } else {
        search(index, &mut grid, target, &mut out);
        assert(grids(out@) =~= extensions(m, prefix@, target as nat));
    }
    out
}

/// A grid with a prefix that is not viable is not viable, and has no
/// viable extension.
pub(crate) proof fn lemma_prefix_not_viable(m: IndexModel, p: Seq<u8>, k: nat, target: nat)
    requires
        m.width >= 1,
        k <= p.len(),
        !viable(m, p.subrange(0, k as int)),
    ensures
        !viable(m, p),
        extensions(m, p, target) == Seq::<Seq<u8>>::empty(),
{
    let q = p.subrange(0, k as int);
    if viable(m, p) {
        let i = choose|i: nat| i < q.len() && !#[trigger] cell_ok(m, q, i);
        assert(cell_ok(m, p, i));
        lemma_row_start(i, m.width);
        assert(row_before(p, m.width, i) =~= row_before(q, m.width, i));
        assert forall|j: int| 0 <= j < i / m.width implies col_above(p, m.width, i)[j] == col_above(
            q,
            m.width,
            i,
        )[j] by {
            lemma_col_cell_bound(i, m.width, j);
        }
        assert(col_above(p, m.width, i) =~= col_above(q, m.width, i));
    }
    lemma_not_viable_no_extensions(m, p, target);
}

/// Every possible first row of the grid, in ascending order: the tasks into
/// which the search is split.
pub fn first_rows(index: &WordIndex) -> (r: Vec<Vec<u8>>)
    requires
        index.wf(),
    ensures
        grids(r@) == extensions(index@, Seq::empty(), index@.width),
{
    let empty: Vec<u8> = Vec::new();
    assert(index@.width <= index@.width * index@.height) by (nonlinear_arith)
        requires
            index@.height >= 1,
    ;
    let r = compute(index, &empty, index.width());
    assert(empty@ =~= Seq::<u8>::empty());
    r
}

} // verus!
