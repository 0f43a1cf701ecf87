//! What holds of the search as a whole: it yields exactly the word
//! rectangles, each once, and splitting it at the first row changes nothing.
use vstd::prelude::*;
use vstd::multiset::Multiset;
use vstd::arithmetic::div_mod::lemma_fundamental_div_mod_converse;
use vstd::seq_lib::{lemma_flatten_concat, lemma_multiset_commutative};
use crate::index::{
    IndexModel, WordIndex, accepted, accepted_count, lemma_count_zero_iff_empty, is_prefix, words_shaped, codes_ok, row_before, col_above,
    lemma_prefix_codes, lemma_row_start,
};
use crate::search::{cell_ok, viable, extensions, extensions_from, lemma_not_viable_no_extensions};

verus! {

/// Row `r` of a grid `width` cells wide.
pub open spec fn grid_row(g: Seq<u8>, width: nat, r: nat) -> Seq<u8> {
    g.subrange((r * width) as int, (r * width + width) as int)
}

/// Column `c` of a grid `width` cells wide and `height` cells tall.
pub open spec fn grid_col(g: Seq<u8>, width: nat, height: nat, c: nat) -> Seq<u8> {
    Seq::new(height, |k: int| g[c + k * width])
}

/// `g` fills the grid, every row of it is a row word and every column of it a
/// column word.
pub open spec fn is_word_rectangle(m: IndexModel, g: Seq<u8>) -> bool {
    &&& g.len() == m.width * m.height
    &&& forall|r: nat| r < m.height ==> m.rows.contains(#[trigger] grid_row(g, m.width, r))
    &&& forall|c: nat| c < m.width ==> m.cols.contains(#[trigger] grid_col(g, m.width, m.height, c))
}

/// The model of a well-formed index.
pub open spec fn model_ok(m: IndexModel) -> bool {
    &&& 1 <= m.width
    &&& 1 <= m.height
    &&& words_shaped(m.rows, m.width)
    &&& words_shaped(m.cols, m.height)
}

/// A viable grid holds letter codes only.
pub(crate) proof fn lemma_viable_codes(m: IndexModel, g: Seq<u8>)
    requires
        model_ok(m),
        viable(m, g),
    ensures
        codes_ok(g),
{
    assert forall|i: int| 0 <= i < g.len() implies #[trigger] g[i] < 32 by {
        assert(cell_ok(m, g, i as nat));
        let p = row_before(g, m.width, i as nat).push(g[i]);
        lemma_prefix_codes(m.rows, m.width, p);
        assert(p[p.len() - 1] == g[i]);
    }
}

/// The extensions of `p` are the viable grids of `target` cells that start
/// with `p`.
pub proof fn lemma_extensions_members(m: IndexModel, p: Seq<u8>, target: nat, g: Seq<u8>)
    requires
        model_ok(m),
        p.len() <= target,
    ensures
        extensions(m, p, target).contains(g) <==> (g.len() == target && is_prefix(p, g) && viable(
            m,
            g,
        )),
    decreases target - p.len(), 33int,
{
    if p.len() >= target {
        if is_prefix(p, g) && g.len() == target {
            assert(g =~= p);
            if viable(m, g) {
                assert(extensions(m, p, target)[0] == g);
            }
        }
        if extensions(m, p, target).contains(g) {
            assert(g == p);
            assert(p.subrange(0, p.len() as int) =~= p);
        }
    } else {
        lemma_extensions_from_members(m, p, target, 0, g);
        assert(extensions(m, p, target) == extensions_from(m, p, target, 0));
    }
}

proof fn lemma_extensions_from_members(m: IndexModel, p: Seq<u8>, target: nat, c: nat, g: Seq<u8>)
    requires
        model_ok(m),
        p.len() < target,
    ensures
        extensions_from(m, p, target, c).contains(g) <==> (g.len() == target && is_prefix(p, g)
            && viable(m, g) && g[p.len() as int] >= c),
    decreases target - p.len(), 32 - c,
{
    let n = p.len() as int;
    if c >= 32 {
        if g.len() == target && viable(m, g) {
            lemma_viable_codes(m, g);
            assert(g[n] < 32);
        }
    } else {
        let q = p.push(c as u8);
        lemma_extensions_members(m, q, target, g);
        lemma_extensions_from_members(m, p, target, c + 1, g);
        let s = extensions_from(m, p, target, c);
        assert(s == extensions(m, q, target) + extensions_from(m, p, target, c + 1));
        if g.len() == target && g.len() > n {
            assert(is_prefix(q, g) <==> (is_prefix(p, g) && g[n] == c)) by {
                if is_prefix(q, g) {
                    assert(g.subrange(0, n) =~= g.subrange(0, n + 1).subrange(0, n));
                    assert(q.subrange(0, n) =~= p);
                    assert(g[n] == g.subrange(0, n + 1)[n]);
                }
                if is_prefix(p, g) && g[n] == c {
                    assert(g.subrange(0, n + 1) =~= q);
                }
            }
        }
        if s.contains(g) {
            let k = choose|k: int| 0 <= k < s.len() && s[k] == g;
            if k < extensions(m, q, target).len() {
                assert(extensions(m, q, target).contains(g));
            } else {
                assert(extensions_from(m, p, target, c + 1)[k - extensions(m, q, target).len()] == g);
                assert(extensions_from(m, p, target, c + 1).contains(g));
            }
        }
        if g.len() == target && is_prefix(p, g) && viable(m, g) && g[n] >= c {
            let a = extensions(m, q, target);
            let b = extensions_from(m, p, target, c + 1);
            if g[n] == c {
                assert(a.contains(g));
                let k = choose|k: int| 0 <= k < a.len() && #[trigger] a[k] == g;
                assert(s[k] == g);
            } else {
                assert(b.contains(g));
                let k = choose|k: int| 0 <= k < b.len() && #[trigger] b[k] == g;
                assert(s[k + a.len()] == g);
            }
        }
    }
}

/// The extensions of `p` hold no grid twice.
pub(crate) proof fn lemma_extensions_distinct(m: IndexModel, p: Seq<u8>, target: nat)
    requires
        model_ok(m),
        p.len() <= target,
    ensures
        extensions(m, p, target).no_duplicates(),
    decreases target - p.len(), 33int,
{
    if p.len() < target {
        lemma_extensions_from_distinct(m, p, target, 0);
    }
}

proof fn lemma_extensions_from_distinct(m: IndexModel, p: Seq<u8>, target: nat, c: nat)
    requires
        model_ok(m),
        p.len() < target,
    ensures
        extensions_from(m, p, target, c).no_duplicates(),
    decreases target - p.len(), 32 - c,
{
    if c < 32 {
        let n = p.len() as int;
        let q = p.push(c as u8);
        let a = extensions(m, q, target);
        let b = extensions_from(m, p, target, c + 1);
        lemma_extensions_distinct(m, q, target);
        lemma_extensions_from_distinct(m, p, target, c + 1);
        let s = a + b;
        assert forall|i: int, j: int| 0 <= i < s.len() && 0 <= j < s.len() && i != j implies s[i]
            != s[j] by {
            if i < a.len() && j >= a.len() {
                lemma_extensions_members(m, q, target, s[i]);
                lemma_extensions_from_members(m, p, target, c + 1, s[j]);
                assert(a.contains(s[i]));
                assert(b[j - a.len()] == s[j]);
                assert(b.contains(s[j]));
                assert(s[i][n] == q[n]) by {
                    assert(s[i].subrange(0, n + 1)[n] == s[i][n]);
                }
            } else if j < a.len() && i >= a.len() {
                lemma_extensions_members(m, q, target, s[j]);
                lemma_extensions_from_members(m, p, target, c + 1, s[i]);
                assert(a.contains(s[j]));
                assert(b[i - a.len()] == s[i]);
                assert(b.contains(s[i]));
                assert(s[j][n] == q[n]) by {
                    assert(s[j].subrange(0, n + 1)[n] == s[j][n]);
                }
            } else if i >= a.len() {
                assert(b[i - a.len()] == s[i]);
                assert(b[j - a.len()] == s[j]);
            }
        }
        assert(extensions_from(m, p, target, c) == s);
    }
}

proof fn lemma_div_mod_of(i: nat, width: nat, r: nat, c: nat)
    requires
        width >= 1,
        c < width,
        i == r * width + c,
    ensures
        i / width == r,
        i % width == c,
{
    lemma_fundamental_div_mod_converse(i as int, width as int, r as int, c as int);
}

/// A filled grid is viable exactly when it is a word rectangle.
pub proof fn lemma_viable_full_grid(m: IndexModel, g: Seq<u8>)
    requires
        model_ok(m),
        g.len() == m.width * m.height,
    ensures
        viable(m, g) <==> is_word_rectangle(m, g),
{
    let w = m.width;
    let h = m.height;
    assert(w * h == h * w) by (nonlinear_arith);
    if viable(m, g) {
        assert forall|r: nat| r < h implies m.rows.contains(#[trigger] grid_row(g, w, r)) by {
            let i = r * w + (w - 1);
            lemma_div_mod_of(i as nat, w, r, (w - 1) as nat);
            assert(r * w + w <= h * w) by (nonlinear_arith)
                requires
                    r < h,
            ;
            assert(cell_ok(m, g, i as nat));
            let p = row_before(g, w, i as nat).push(g[i as int]);
            assert(p =~= grid_row(g, w, r));
            let x = choose|x: Seq<u8>| #[trigger] m.rows.contains(x) && is_prefix(p, x);
            assert(x.len() == w);
            assert(x.subrange(0, w as int) =~= x);
        }
        assert forall|c: nat| c < w implies m.cols.contains(#[trigger] grid_col(g, w, h, c)) by {
            let i = (h - 1) * w + c;
            lemma_div_mod_of(i as nat, w, (h - 1) as nat, c);
            assert(i < h * w) by (nonlinear_arith)
                requires
                    c < w,
                    i == (h - 1) * w + c,
                    h >= 1,
            ;
            assert(cell_ok(m, g, i as nat));
            let p = col_above(g, w, i as nat).push(g[i as int]);
            assert(p =~= grid_col(g, w, h, c));
            let x = choose|x: Seq<u8>| #[trigger] m.cols.contains(x) && is_prefix(p, x);
            assert(x.len() == h);
            assert(x.subrange(0, h as int) =~= x);
        }
    }
    if is_word_rectangle(m, g) {
        assert forall|i: nat| i < g.len() implies #[trigger] cell_ok(m, g, i) by {
            let r = i / w;
            let c = i % w;
            assert(i == r * w + c && c < w) by (nonlinear_arith)
                requires
                    w >= 1,
                    r == i / w,
                    c == i % w,
            ;
            assert(r < h) by (nonlinear_arith)
                requires
                    i == r * w + c,
                    i < w * h,
                    w >= 1,
            ;
            assert(r * w + w <= h * w) by (nonlinear_arith)
                requires
                    r < h,
            ;
            lemma_row_start(i, w);
            let rw = grid_row(g, w, r);
            assert(m.rows.contains(rw));
            assert(row_before(g, w, i) == g.subrange((r * w) as int, i as int));
            let p = row_before(g, w, i).push(g[i as int]);
            assert(p.len() == c + 1);
            assert forall|k: int| 0 <= k < c + 1 implies rw[k] == #[trigger] p[k] by {
                if k < c {
                    assert(p[k] == g[r * w + k]);
                } else {
                    assert(p[k] == g[i as int]);
                }
                assert(rw[k] == g[r * w + k]);
            }
            assert(rw.subrange(0, p.len() as int) =~= p);
            let cw = grid_col(g, w, h, c);
            assert(m.cols.contains(cw));
            let q = col_above(g, w, i).push(g[i as int]);
            assert(cw.subrange(0, q.len() as int) =~= q);
        }
    }
}

/// The search over the whole grid yields each word rectangle, once, and
/// nothing else; so every grid it yields has row words for rows and column
/// words for columns.
pub proof fn lemma_search_exact(index: &WordIndex)
    requires
        index.wf(),
    ensures
        forall|g: Seq<u8>|
            #[trigger] extensions(index@, Seq::empty(), index@.width * index@.height).contains(g)
                <==> is_word_rectangle(index@, g),
        extensions(index@, Seq::empty(), index@.width * index@.height).no_duplicates(),
{
    let m = index@;
    let t = m.width * m.height;
    assert forall|g: Seq<u8>| #[trigger]
        extensions(m, Seq::empty(), t).contains(g) <==> is_word_rectangle(m, g) by {
        lemma_extensions_members(m, Seq::empty(), t, g);
        assert(Seq::<u8>::empty().len() == 0);
        assert(g.subrange(0, 0) =~= Seq::<u8>::empty());
        if g.len() == t {
            lemma_viable_full_grid(m, g);
        }
    }
    lemma_extensions_distinct(m, Seq::empty(), t);
}

/// The grids that the search yields from each of `tasks`, task by task.
pub open spec fn task_results(m: IndexModel, tasks: Seq<Seq<u8>>, target: nat) -> Seq<
    Seq<Seq<u8>>,
> {
    tasks.map_values(|q: Seq<u8>| extensions(m, q, target))
}

proof fn lemma_split(m: IndexModel, p: Seq<u8>, mid: nat, target: nat)
    requires
        model_ok(m),
        p.len() <= mid <= target,
    ensures
        extensions(m, p, target) == task_results(m, extensions(m, p, mid), target).flatten(),
    decreases mid - p.len(), 33int,
{
    if p.len() >= mid {
        if viable(m, p) {
            let r = task_results(m, extensions(m, p, mid), target);
            assert(r =~= seq![extensions(m, p, target)]);
            r.lemma_flatten_singleton();
        } else {
            lemma_not_viable_no_extensions(m, p, target);
            assert(task_results(m, extensions(m, p, mid), target) =~= Seq::<Seq<Seq<u8>>>::empty());
            assert(Seq::<Seq<Seq<u8>>>::empty().flatten() =~= Seq::<Seq<u8>>::empty());
        }
    } else {
        lemma_split_from(m, p, mid, target, 0);
    }
}

proof fn lemma_split_from(m: IndexModel, p: Seq<u8>, mid: nat, target: nat, c: nat)
    requires
        model_ok(m),
        p.len() < mid <= target,
    ensures
        extensions_from(m, p, target, c) == task_results(
            m,
            extensions_from(m, p, mid, c),
            target,
        ).flatten(),
    decreases mid - p.len(), 32 - c,
{
    if c < 32 {
        let q = p.push(c as u8);
        lemma_split(m, q, mid, target);
        lemma_split_from(m, p, mid, target, c + 1);
        let a = extensions(m, q, mid);
        let b = extensions_from(m, p, mid, c + 1);
        assert(task_results(m, a + b, target) =~= task_results(m, a, target) + task_results(
            m,
            b,
            target,
        ));
        lemma_flatten_concat(task_results(m, a, target), task_results(m, b, target));
    } else {
        assert(task_results(m, extensions_from(m, p, mid, c), target) =~= Seq::<
            Seq<Seq<u8>>,
        >::empty());
        assert(Seq::<Seq<Seq<u8>>>::empty().flatten() =~= Seq::<Seq<u8>>::empty());
    }
}

/// Splitting the search into one task per possible first row, each then
/// searched to the whole grid, loses and adds nothing: the tasks' grids, put
/// together in the order of the tasks, are the grids of the search over the
/// whole grid. So whichever worker runs which task, the grids found are the
/// same; only the order in which they come out may differ.
pub proof fn lemma_split_at_first_row(index: &WordIndex)
    requires
        index.wf(),
    ensures
        extensions(index@, Seq::empty(), index@.width * index@.height) == task_results(
            index@,
            extensions(index@, Seq::empty(), index@.width),
            index@.width * index@.height,
        ).flatten(),
{
    let m = index@;
    assert(m.width <= m.width * m.height) by (nonlinear_arith)
        requires
            m.height >= 1,
    ;
    lemma_split(m, Seq::empty(), m.width, m.width * m.height);
}

/// The search depends on nothing but the words, the dimensions, the prefix
/// and the target: two indexes of the same words give the same grids, in the
/// same order.
pub proof fn lemma_search_deterministic(a: &WordIndex, b: &WordIndex, p: Seq<u8>, target: nat)
    requires
        a.wf(),
        b.wf(),
        a@ == b@,
    ensures
        extensions(a@, p, target) == extensions(b@, p, target),
{
}

/// All the grids that the tasks `tasks` yield, whatever their order.
pub open spec fn pooled(m: IndexModel, tasks: Seq<Seq<u8>>, target: nat) -> Multiset<Seq<u8>> {
    task_results(m, tasks, target).flatten().to_multiset()
}

proof fn lemma_pooled_push(m: IndexModel, tasks: Seq<Seq<u8>>, x: Seq<u8>, target: nat)
    ensures
        pooled(m, tasks.push(x), target) == pooled(m, tasks, target).add(
            extensions(m, x, target).to_multiset(),
        ),
{
    let r = task_results(m, tasks, target);
    assert(task_results(m, tasks.push(x), target) =~= r.push(extensions(m, x, target)));
    r.lemma_flatten_push(extensions(m, x, target));
    lemma_multiset_commutative(r.flatten(), extensions(m, x, target));
}

proof fn lemma_pooled_remove(m: IndexModel, tasks: Seq<Seq<u8>>, j: int, target: nat)
    requires
        0 <= j < tasks.len(),
    ensures
        pooled(m, tasks, target) == pooled(m, tasks.remove(j), target).add(
            extensions(m, tasks[j], target).to_multiset(),
        ),
    decreases tasks.len(),
{
    let dl = tasks.drop_last();
    let x = tasks.last();
    assert(tasks =~= dl.push(x));
    lemma_pooled_push(m, dl, x, target);
    if j == tasks.len() - 1 {
        assert(tasks.remove(j) =~= dl);
    } else {
        lemma_pooled_remove(m, dl, j, target);
        assert(tasks.remove(j) =~= dl.remove(j).push(x));
        lemma_pooled_push(m, dl.remove(j), x, target);
        assert(dl[j] == tasks[j]);
        let a = pooled(m, dl.remove(j), target);
        let b = extensions(m, tasks[j], target).to_multiset();
        let c = extensions(m, x, target).to_multiset();
        assert(a.add(b).add(c) =~= a.add(c).add(b));
    }
}

proof fn lemma_pooled_reorder(m: IndexModel, s1: Seq<Seq<u8>>, s2: Seq<Seq<u8>>, target: nat)
    requires
        s1.to_multiset() == s2.to_multiset(),
    ensures
        pooled(m, s1, target) == pooled(m, s2, target),
    decreases s1.len(),
{
    broadcast use vstd::seq_lib::group_to_multiset_ensures;

    vstd::seq_lib::to_multiset_len(s1);
    vstd::seq_lib::to_multiset_len(s2);
    if s1.len() == 0 {
        assert(s2.len() == 0);
        assert(s1 =~= s2);
    } else {
        let x = s1.last();
        let dl = s1.drop_last();
        assert(s1 =~= dl.push(x));
        assert(s1.to_multiset().count(x) > 0);
        assert(s2.contains(x));
        let j = choose|j: int| 0 <= j < s2.len() && s2[j] == x;
        assert(dl.to_multiset() =~= s2.remove(j).to_multiset());
        lemma_pooled_reorder(m, dl, s2.remove(j), target);
        lemma_pooled_push(m, dl, x, target);
        lemma_pooled_remove(m, s2, j, target);
    }
}

/// However the first-row tasks are ordered or shared out, the grids that
/// they yield together are the grids of the search over the whole grid, as a
/// multiset.
pub proof fn lemma_any_task_order(index: &WordIndex, order: Seq<Seq<u8>>)
    requires
        index.wf(),
        order.to_multiset() == extensions(index@, Seq::empty(), index@.width).to_multiset(),
    ensures
        pooled(index@, order, index@.width * index@.height) == extensions(
            index@,
            Seq::empty(),
            index@.width * index@.height,
        ).to_multiset(),
{
    lemma_split_at_first_row(index);
    lemma_pooled_reorder(
        index@,
        order,
        extensions(index@, Seq::empty(), index@.width),
        index@.width * index@.height,
    );
}

/// A word list gives counts on which `require_words` stops the run exactly
/// when it has no accepted word of the row length or none of the column
/// length.
pub proof fn lemma_no_words_is_fatal(words: Seq<String>, width: nat, height: nat)
    ensures
        (accepted_count(words, width) == 0 || accepted_count(words, height) == 0) <==> (accepted(
            words,
            width,
        ) == Set::<Seq<u8>>::empty() || accepted(words, height) == Set::<Seq<u8>>::empty()),
{
    lemma_count_zero_iff_empty(words, width);
    lemma_count_zero_iff_empty(words, height);
}

/// `a` comes before `b` in row-major code order: they agree up to a cell
/// where `a` holds the smaller code.
pub open spec fn code_order_less(a: Seq<u8>, b: Seq<u8>) -> bool {
    exists|k: int|
        0 <= k < a.len() && k < b.len() && a.subrange(0, k) == b.subrange(0, k) && #[trigger] a[k]
            < b[k]
}

/// Each grid of `s` comes before every later one.
pub open spec fn ascending(s: Seq<Seq<u8>>) -> bool {
    forall|i: int, j: int| 0 <= i < j < s.len() ==> code_order_less(#[trigger] s[i], #[trigger] s[j])
}

proof fn lemma_extensions_ascending(m: IndexModel, p: Seq<u8>, target: nat)
    requires
        model_ok(m),
        p.len() <= target,
    ensures
        ascending(extensions(m, p, target)),
    decreases target - p.len(), 33int,
{
    if p.len() < target {
        lemma_extensions_from_ascending(m, p, target, 0);
    }
}

proof fn lemma_extensions_from_ascending(m: IndexModel, p: Seq<u8>, target: nat, c: nat)
    requires
        model_ok(m),
        p.len() < target,
    ensures
        ascending(extensions_from(m, p, target, c)),
    decreases target - p.len(), 32 - c,
{
    if c < 32 {
        let n = p.len() as int;
        let q = p.push(c as u8);
        let a = extensions(m, q, target);
        let b = extensions_from(m, p, target, c + 1);
        lemma_extensions_ascending(m, q, target);
        lemma_extensions_from_ascending(m, p, target, c + 1);
        let s = a + b;
        assert forall|i: int, j: int| 0 <= i < j < s.len() implies code_order_less(
            #[trigger] s[i],
            #[trigger] s[j],
        ) by {
            if j < a.len() {
                assert(s[i] == a[i] && s[j] == a[j]);
            } else if i >= a.len() {
                assert(s[i] == b[i - a.len()] && s[j] == b[j - a.len()]);
            } else {
                let x = s[i];
                let y = s[j];
                assert(a.contains(x));
                assert(b[j - a.len()] == y);
                assert(b.contains(y));
                lemma_extensions_members(m, q, target, x);
                lemma_extensions_from_members(m, p, target, c + 1, y);
                assert(x.subrange(0, n) =~= x.subrange(0, n + 1).subrange(0, n));
                assert(q.subrange(0, n) =~= p);
                assert(x[n] == x.subrange(0, n + 1)[n]);
                assert(x.subrange(0, n) == y.subrange(0, n));
                assert(x[n] < y[n]);
            }
        }
        assert(extensions_from(m, p, target, c) == s);
    }
}

/// The grids of a search come in strictly ascending row-major code order,
/// so none comes twice.
pub proof fn lemma_search_ascending(index: &WordIndex, p: Seq<u8>, target: nat)
    requires
        index.wf(),
        p.len() <= target,
    ensures
        ascending(extensions(index@, p, target)),
{
    lemma_extensions_ascending(index@, p, target);
}

} // verus!
