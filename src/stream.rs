//! The search one grid at a time: the first grid of a task, and the grid
//! that follows a given one, so that grids can be handed on as they are found.
use vstd::prelude::*;
use crate::codec::ALPHABET_SIZE;
use crate::index::{IndexModel, WordIndex, is_prefix, row_before, col_above, next_codes};
use crate::laws::{model_ok, lemma_extensions_members, lemma_extensions_distinct, lemma_viable_codes};
use crate::search::{
    viable, extensions, extensions_from, lemma_viable_push, lemma_not_viable_no_extensions,
    lemma_prefix_not_viable, copy_if_viable,
};

verus! {

/// The extensions of `p` whose next cell holds a code in `lo..hi`.
pub open spec fn extensions_between(m: IndexModel, p: Seq<u8>, target: nat, lo: nat, hi: nat) -> Seq<
    Seq<u8>,
>
    decreases hi - lo,
{
    if lo >= hi || p.len() >= target {
        Seq::empty()
    } else {
        extensions(m, p.push(lo as u8), target) + extensions_between(m, p, target, lo + 1, hi)
    }
}

/// The extensions of `p` that come before the grid `g`, which extends `p`.
pub open spec fn before_grid(m: IndexModel, p: Seq<u8>, g: Seq<u8>, target: nat) -> Seq<Seq<u8>>
    decreases target - p.len(),
{
    if p.len() >= target || p.len() >= g.len() {
        Seq::empty()
    } else {
        extensions_between(m, p, target, 0, g[p.len() as int] as nat) + before_grid(
            m,
            p.push(g[p.len() as int]),
            g,
            target,
        )
    }
}

/// The extensions of `p` that come after the grid `g`, which extends `p`.
pub open spec fn after_grid(m: IndexModel, p: Seq<u8>, g: Seq<u8>, target: nat) -> Seq<Seq<u8>>
    decreases target - p.len(),
{
    if p.len() >= target || p.len() >= g.len() {
        Seq::empty()
    } else {
        after_grid(m, p.push(g[p.len() as int]), g, target) + extensions_from(
            m,
            p,
            target,
            g[p.len() as int] as nat + 1,
        )
    }
}

/// The grids after `g` that extend `p` but not `g`'s first `j` cells.
spec fn after_between(m: IndexModel, p: Seq<u8>, g: Seq<u8>, j: nat, target: nat) -> Seq<Seq<u8>>
    decreases j - p.len(),
{
    if p.len() >= j || p.len() >= g.len() {
        Seq::empty()
    } else {
        after_between(m, p.push(g[p.len() as int]), g, j, target) + extensions_from(
            m,
            p,
            target,
            g[p.len() as int] as nat + 1,
        )
    }
}

proof fn lemma_from_split(m: IndexModel, p: Seq<u8>, target: nat, lo: nat, hi: nat)
    requires
        lo <= hi <= 32,
        p.len() < target,
    ensures
        extensions_from(m, p, target, lo) == extensions_between(m, p, target, lo, hi)
            + extensions_from(m, p, target, hi),
    decreases hi - lo,
{
    if lo < hi {
        lemma_from_split(m, p, target, lo + 1, hi);
        assert(extensions_from(m, p, target, lo) =~= extensions_between(m, p, target, lo, hi)
            + extensions_from(m, p, target, hi));
    } else {
        assert(extensions_between(m, p, target, lo, hi) + extensions_from(m, p, target, hi)
            =~= extensions_from(m, p, target, lo));
    }
}

/// The extensions of `p` are those before `g`, then `g`, then those after.
proof fn lemma_around_grid(m: IndexModel, p: Seq<u8>, g: Seq<u8>, target: nat)
    requires
        model_ok(m),
        g.len() == target,
        is_prefix(p, g),
        viable(m, g),
    ensures
        extensions(m, p, target) == before_grid(m, p, g, target) + seq![g] + after_grid(
            m,
            p,
            g,
            target,
        ),
    decreases target - p.len(),
{
    if p.len() >= target {
        assert(p =~= g);
        assert(extensions(m, p, target) =~= before_grid(m, p, g, target) + seq![g] + after_grid(
            m,
            p,
            g,
            target,
        ));
    } else {
        let n = p.len() as int;
        lemma_viable_codes(m, g);
        let c = g[n];
        assert(c < 32);
        let q = p.push(c);
        assert(q =~= g.subrange(0, n + 1)) by {
            assert(g.subrange(0, n) == p);
        }
        lemma_around_grid(m, q, g, target);
        lemma_from_split(m, p, target, 0, c as nat);
        assert(extensions(m, p, target) == extensions_from(m, p, target, 0));
        assert(extensions_from(m, p, target, c as nat) == extensions(m, q, target) + extensions_from(
            m,
            p,
            target,
            c as nat + 1,
        ));
        assert(extensions(m, p, target) =~= before_grid(m, p, g, target) + seq![g] + after_grid(
            m,
            p,
            g,
            target,
        ));
    }
}

proof fn lemma_after_split(m: IndexModel, p: Seq<u8>, g: Seq<u8>, j: nat, target: nat)
    requires
        g.len() == target,
        is_prefix(p, g),
        p.len() <= j <= target,
    ensures
        after_grid(m, p, g, target) == after_grid(m, g.subrange(0, j as int), g, target)
            + after_between(m, p, g, j, target),
    decreases j - p.len(),
{
    let n = p.len() as int;
    if p.len() >= j {
        assert(p =~= g.subrange(0, j as int)) by {
            assert(g.subrange(0, n) == p);
        }
        assert(after_grid(m, p, g, target) =~= after_grid(m, g.subrange(0, j as int), g, target)
            + after_between(m, p, g, j, target));
    } else {
        let q = p.push(g[n]);
        assert(q =~= g.subrange(0, n + 1)) by {
            assert(g.subrange(0, n) == p);
        }
        lemma_after_split(m, q, g, j, target);
        assert(after_grid(m, p, g, target) =~= after_grid(m, g.subrange(0, j as int), g, target)
            + after_between(m, p, g, j, target));
    }
}

/// The first extension of `grid` whose next cell holds a code of at least
/// `c`, if there is one; `grid` is handed back as it came.
fn first_from(index: &WordIndex, grid: &mut Vec<u8>, target: usize, c: u8) -> (r: Option<Vec<u8>>)
    requires
        index.wf(),
        old(grid).len() < target <= index@.width * index@.height,
        viable(index@, old(grid)@),
    ensures
        final(grid)@ == old(grid)@,
        match r {
            Some(v) => extensions_from(index@, old(grid)@, target as nat, c as nat).len() > 0
                && v@ == extensions_from(index@, old(grid)@, target as nat, c as nat)[0],
            None => extensions_from(index@, old(grid)@, target as nat, c as nat).len() == 0,
        },
    decreases target - old(grid).len(),
{
    let ghost m = index@;
    let ghost g0 = grid@;
    let cand = index.cell_candidates(grid);
    let mut code: u8 = c;
    if code > ALPHABET_SIZE {
        return None;
    }
    while code < ALPHABET_SIZE
        invariant
            index.wf(),
            m == index@,
            grid@ == g0,
            old(grid)@ == g0,
            g0.len() < target <= m.width * m.height,
            viable(m, g0),
            c <= code <= 32,
            cand@ == next_codes(m.rows, row_before(g0, m.width, g0.len())).intersect(
                next_codes(m.cols, col_above(g0, m.width, g0.len())),
            ),
            extensions_from(m, g0, target as nat, c as nat) == extensions_from(
                m,
                g0,
                target as nat,
                code as nat,
            ),
        decreases 32 - code,
    {
        let ghost q = g0.push(code);
        proof {
            lemma_viable_push(m, g0, code);
        }
        assert(extensions_from(m, g0, target as nat, code as nat) == extensions(m, q, target as nat)
            + extensions_from(m, g0, target as nat, code as nat + 1));
        if cand.has(code) {
            grid.push(code);
            if grid.len() == target {
                let found = grid.clone();
                grid.pop();
                assert(grid@ =~= g0);
                assert(extensions(m, q, target as nat) == seq![q]);
                return Some(found);
            }
            assert(grid.len() == g0.len() + 1);
            let r = first_from(index, grid, target, 0);
            grid.pop();
            assert(grid@ =~= g0);
            assert(extensions(m, q, target as nat) == extensions_from(m, q, target as nat, 0));
            match r {
                Some(v) => {
                    return Some(v);
                },
                None => {
                    assert(extensions(m, q, target as nat) =~= Seq::<Seq<u8>>::empty());
                },
            }
        } else {
            proof {
                lemma_not_viable_no_extensions(m, q, target as nat);
            }
        }
        assert(extensions_from(m, g0, target as nat, code as nat) =~= extensions_from(
            m,
            g0,
            target as nat,
            code as nat + 1,
        ));
        code = code + 1;
    }
    None
}

/// The first of the grids that `compute` gives for `prefix` and `target`, if
/// there is one.
pub fn first_solution(index: &WordIndex, prefix: &Vec<u8>, target: usize) -> (r: Option<Vec<u8>>)
    requires
        index.wf(),
        prefix.len() <= target <= index@.width * index@.height,
    ensures
        match r {
            Some(v) => extensions(index@, prefix@, target as nat).len() > 0 && v@ == extensions(
                index@,
                prefix@,
                target as nat,
            )[0],
            None => extensions(index@, prefix@, target as nat).len() == 0,
        },
{
    let ghost m = index@;
    let mut grid = match copy_if_viable(index, prefix) {
        Some(g) => g,
        None => {
            proof {
                lemma_not_viable_no_extensions(m, prefix@, target as nat);
            }
            return None;
        },
    };
    if grid.len() == target {
        return Some(grid);
    }
    assert(extensions(m, prefix@, target as nat) == extensions_from(m, prefix@, target as nat, 0));
    first_from(index, &mut grid, target, 0)
}

/// The grid that follows `g` among the grids that `compute` gives for
/// `prefix` and `target`; `None` when `g` is the last of them.
pub fn next_solution(index: &WordIndex, prefix: &Vec<u8>, g: &Vec<u8>, target: usize) -> (r: Option<
    Vec<u8>,
>)
    requires
        index.wf(),
        prefix.len() <= target <= index@.width * index@.height,
        extensions(index@, prefix@, target as nat).contains(g@),
    ensures
        r is None <==> extensions(index@, prefix@, target as nat).last() == g@,
        r matches Some(v) ==> forall|k: int|
            0 <= k < extensions(index@, prefix@, target as nat).len() && #[trigger] extensions(
                index@,
                prefix@,
                target as nat,
            )[k] == g@ ==> k + 1 < extensions(index@, prefix@, target as nat).len() && extensions(
                index@,
                prefix@,
                target as nat,
            )[k + 1] == v@,
{
    let ghost m = index@;
    let ghost t = target as nat;
    let ghost ext = extensions(m, prefix@, t);
    proof {
        lemma_extensions_members(m, prefix@, t, g@);
        lemma_viable_codes(m, g@);
        lemma_around_grid(m, prefix@, g@, t);
        lemma_extensions_distinct(m, prefix@, t);
        assert(g@.subrange(0, prefix.len() as int) == prefix@);
    }
    let ghost before = before_grid(m, prefix@, g@, t);
    let ghost after = after_grid(m, prefix@, g@, t);
    assert(ext == before + seq![g@] + after);
    assert(ext[before.len() as int] == g@);
    assert forall|k: int| 0 <= k < ext.len() && #[trigger] ext[k] == g@ implies k == before.len() by {
        assert(ext.no_duplicates());
    }
    let mut i: usize = target;
    proof {
        assert(after_grid(m, g@.subrange(0, i as int), g@, t) =~= Seq::<Seq<u8>>::empty());
    }
    while i > prefix.len()
        invariant
            index.wf(),
            m == index@,
            t == target,
            prefix.len() <= i <= target <= m.width * m.height,
            g.len() == target,
            viable(m, g@),
            is_prefix(prefix@, g@),
            crate::index::codes_ok(g@),
            after_grid(m, g@.subrange(0, i as int), g@, t) == Seq::<Seq<u8>>::empty(),
            after == after_grid(m, prefix@, g@, t),
            ext == extensions(m, prefix@, t),
            ext == before + seq![g@] + after,
            forall|k: int| 0 <= k < ext.len() && #[trigger] ext[k] == g@ ==> k == before.len(),
        decreases i,
    {
        let k = i - 1;
        let mut grid: Vec<u8> = Vec::new();
        let mut j: usize = 0;
        while j < k
            invariant
                k < g.len(),
                j <= k,
                grid@ == g@.subrange(0, j as int),
            decreases k - j,
        {
            grid.push(g[j]);
            assert(grid@ =~= g@.subrange(0, j as int + 1));
            j = j + 1;
        }
        proof {
            if !viable(m, grid@) {
                lemma_prefix_not_viable(m, g@, k as nat, t);
            }
            assert(g@.subrange(0, k as int).push(g@[k as int]) =~= g@.subrange(0, i as int));
            assert(after_grid(m, grid@, g@, t) == extensions_from(m, grid@, t, g@[k as int] as nat + 1))
                by {
                assert(after_grid(m, grid@, g@, t) =~= after_grid(m, g@.subrange(0, i as int), g@, t)
                    + extensions_from(m, grid@, t, g@[k as int] as nat + 1));
            }
            lemma_after_split(m, prefix@, g@, k as nat, t);
        }
        assert(g[k as int] < 32);
        let r = first_from(index, &mut grid, target, g[k] + 1);
        match r {
            Some(v) => {
                assert(after.len() > 0 && after[0] == v@);
                assert(ext[before.len() as int + 1] == v@);
                assert(ext.len() == before.len() + 1 + after.len());
                proof {
                    if ext.last() == g@ {
                        assert(ext[ext.len() - 1] == g@);
                    }
                }
                assert forall|kk: int|
                    0 <= kk < ext.len() && #[trigger] ext[kk] == g@ implies kk + 1 < ext.len()
                    && ext[kk + 1] == v@ by {
                    assert(kk == before.len());
                }
                return Some(v);
            },
            None => {
                assert(after_grid(m, g@.subrange(0, k as int), g@, t) =~= Seq::<Seq<u8>>::empty());
            },
        }
        i = k;
    }
    assert(g@.subrange(0, i as int) =~= prefix@);
    assert(after =~= Seq::<Seq<u8>>::empty());
    assert(ext.last() == g@);
    None
}

} // verus!
