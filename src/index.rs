//! The word index: for each dimension, a table from word prefixes to the set
//! of codes that follow that prefix in some accepted word.
use vstd::prelude::*;
use crate::charset::CharSet;
use crate::words::{word_codes, encode_word};

verus! {

/// The longest side a grid may have: a prefix of that many codes, packed
/// five bits per code behind a leading one, still fits a `u128` key.
pub const MAX_SIDE: usize = 24;

#[verifier::external_type_specification]
#[verifier::external_body]
pub struct ExFnvHasher(fnv::FnvHasher);

#[verifier::external_type_specification]
#[verifier::external_body]
#[verifier::reject_recursive_types(H)]
pub struct ExBuildHasherDefault<H>(std::hash::BuildHasherDefault<H>);

/// A prefix table: packed prefix to the codes that may follow it.
pub type PrefixTable = fnv::FnvHashMap<u128, CharSet>;

/// Relies on `HashMap::get` with fnv's hasher, which is deterministic: the
/// value stored under `k`, if any.
#[verifier::external_body]
fn table_get(m: &PrefixTable, k: u128) -> (r: Option<CharSet>)
    ensures
        r == (if m@.contains_key(k) { Some(m@[k]) } else { None::<CharSet> }),
{
    m.get(&k).copied()
}

/// Relies on `HashMap::insert` with fnv's hasher, which is deterministic:
/// `k` maps to `v` afterwards, every other key as before.
#[verifier::external_body]
fn table_insert(m: &mut PrefixTable, k: u128, v: CharSet)
    ensures
        final(m)@ == old(m)@.insert(k, v),
{
    m.insert(k, v);
}

/// Every code of `s` is a letter code.
pub open spec fn codes_ok(s: Seq<u8>) -> bool {
    forall|i: int| 0 <= i < s.len() ==> #[trigger] s[i] < 32
}

/// `p` is a prefix of `w`.
pub open spec fn is_prefix(p: Seq<u8>, w: Seq<u8>) -> bool {
    p.len() <= w.len() && w.subrange(0, p.len() as int) == p
}

/// Some word of `ws` starts with `p`.
pub open spec fn prefix_of_some(ws: Set<Seq<u8>>, p: Seq<u8>) -> bool {
    exists|w: Seq<u8>| #[trigger] ws.contains(w) && is_prefix(p, w)
}

/// The codes that follow `p` in the words of `ws` that start with `p`.
pub open spec fn next_codes(ws: Set<Seq<u8>>, p: Seq<u8>) -> Set<u8> {
    Set::new(|c: u8| prefix_of_some(ws, p.push(c)))
}

/// Every word of `ws` has length `n` and only letter codes.
pub open spec fn words_shaped(ws: Set<Seq<u8>>, n: nat) -> bool {
    forall|w: Seq<u8>| #[trigger] ws.contains(w) ==> w.len() == n && codes_ok(w)
}

/// The words of length `n` among the codes of `words`.
pub open spec fn accepted(words: Seq<String>, n: nat) -> Set<Seq<u8>> {
    Set::new(
        |e: Seq<u8>|
            e.len() == n && exists|i: int|
                0 <= i < words.len() && #[trigger] word_codes(words[i]@) == Some(e),
    )
}

/// How many entries of `words` are accepted at length `n`, repeats included.
pub open spec fn accepted_count(words: Seq<String>, n: nat) -> nat
    decreases words.len(),
{
    if words.len() == 0 {
        0
    } else {
        accepted_count(words.drop_last(), n) + match word_codes(words.last()@) {
            Some(e) => if e.len() == n {
                1nat
            } else {
                0nat
            },
            None => 0nat,
        }
    }
}

/// The key of a prefix: a leading one, then five bits per code.
pub open spec fn pack(p: Seq<u8>) -> int
    decreases p.len(),
{
    if p.len() == 0 {
        1
    } else {
        pack(p.drop_last()) * 32 + p.last()
    }
}

/// The largest key of a prefix of length `n`.
pub open spec fn key_bound(n: nat) -> int
    decreases n,
{
    if n == 0 {
        1
    } else {
        key_bound((n - 1) as nat) * 32 + 31
    }
}

proof fn lemma_pack_bound(p: Seq<u8>)
    requires
        codes_ok(p),
    ensures
        1 <= pack(p) <= key_bound(p.len()),
    decreases p.len(),
{
    if p.len() > 0 {
        assert(codes_ok(p.drop_last()));
        lemma_pack_bound(p.drop_last());
        assert(p.last() < 32);
    }
}

proof fn lemma_key_bound_mono(a: nat, b: nat)
    requires
        a <= b,
    ensures
        key_bound(a) <= key_bound(b),
    decreases b - a,
{
    if a < b {
        lemma_key_bound_mono(a, (b - 1) as nat);
        assert(key_bound(b) == key_bound((b - 1) as nat) * 32 + 31);
        assert(key_bound((b - 1) as nat) >= 1) by {
            lemma_key_bound_pos((b - 1) as nat);
        }
    }
}

proof fn lemma_key_bound_pos(n: nat)
    ensures
        key_bound(n) >= 1,
    decreases n,
{
    if n > 0 {
        lemma_key_bound_pos((n - 1) as nat);
    }
}

proof fn lemma_key_fits(n: nat)
    requires
        n <= MAX_SIDE,
    ensures
        key_bound(n) <= u128::MAX,
{
    lemma_key_bound_mono(n, MAX_SIDE as nat);
    reveal_with_fuel(key_bound, 26);
    assert(key_bound(24) < u128::MAX);
}

/// Distinct prefixes of letter codes have distinct keys.
proof fn lemma_pack_injective(p: Seq<u8>, q: Seq<u8>)
    requires
        codes_ok(p),
        codes_ok(q),
        pack(p) == pack(q),
    ensures
        p == q,
    decreases p.len() + q.len(),
{
    if p.len() == 0 && q.len() == 0 {
        assert(p =~= q);
    } else if p.len() == 0 {
        assert(codes_ok(q.drop_last()));
        lemma_pack_bound(q.drop_last());
    } else if q.len() == 0 {
        assert(codes_ok(p.drop_last()));
        lemma_pack_bound(p.drop_last());
    } else {
        assert(codes_ok(p.drop_last()));
        assert(codes_ok(q.drop_last()));
        let a = pack(p.drop_last());
        let b = pack(q.drop_last());
        assert(p.last() < 32 && q.last() < 32);
        assert(a * 32 + p.last() == b * 32 + q.last());
        assert(a == b && p.last() == q.last()) by (nonlinear_arith)
            requires
                a * 32 + p.last() == b * 32 + q.last(),
                0 <= p.last() < 32,
                0 <= q.last() < 32,
        ;
        lemma_pack_injective(p.drop_last(), q.drop_last());
        assert(p =~= p.drop_last().push(p.last()));
        assert(q =~= q.drop_last().push(q.last()));
    }
}

/// The table entry of `p` is right for the words `ws`: present exactly when
/// some word starts with `p`, and then holding the codes that follow `p`.
pub open spec fn entry_ok(m: Map<u128, CharSet>, ws: Set<Seq<u8>>, p: Seq<u8>) -> bool {
    &&& m.contains_key(pack(p) as u128) == prefix_of_some(ws, p)
    &&& prefix_of_some(ws, p) ==> m[pack(p) as u128]@ == next_codes(ws, p)
}

/// Every prefix shorter than `n` has a right entry.
pub open spec fn table_ok(m: Map<u128, CharSet>, ws: Set<Seq<u8>>, n: nat) -> bool {
    forall|p: Seq<u8>| p.len() < n && codes_ok(p) ==> #[trigger] entry_ok(m, ws, p)
}

/// What a `WordIndex` stands for: its dimensions and its accepted words.
pub struct IndexModel {
    pub width: nat,
    pub height: nat,
    pub rows: Set<Seq<u8>>,
    pub cols: Set<Seq<u8>>,
}

/// The prefix tables of the row words and of the column words. Built once by
/// `make_words_index` and read-only afterwards.
pub struct WordIndex {
    width: usize,
    height: usize,
    inner_rows: PrefixTable,
    inner_cols: PrefixTable,
    row_words: Ghost<Set<Seq<u8>>>,
    col_words: Ghost<Set<Seq<u8>>>,
}

impl View for WordIndex {
    type V = IndexModel;

    closed spec fn view(&self) -> IndexModel {
        IndexModel {
            width: self.width as nat,
            height: self.height as nat,
            rows: self.row_words@,
            cols: self.col_words@,
        }
    }
}

#[derive(Debug, Clone, Copy, PartialEq, Eq, Structural)]
pub enum IndexError {
    /// No accepted word has the length of a row.
    NoRowWords,
    /// No accepted word has the length of a column.
    NoColumnWords,
}

impl WordIndex {
    /// The tables are right for the accepted words.
    pub closed spec fn tables_ok(&self) -> bool {
        &&& table_ok(self.inner_rows@, self.row_words@, self.width as nat)
        &&& table_ok(self.inner_cols@, self.col_words@, self.height as nat)
    }

    pub open spec fn wf(&self) -> bool {
        &&& 1 <= self@.width <= MAX_SIDE
        &&& 1 <= self@.height <= MAX_SIDE
        &&& words_shaped(self@.rows, self@.width)
        &&& words_shaped(self@.cols, self@.height)
        &&& self.tables_ok()
    }

    pub fn width(&self) -> (r: usize)
        ensures
            r == self@.width,
    {
        self.width
    }

    pub fn height(&self) -> (r: usize)
        ensures
            r == self@.height,
    {
        self.height
    }
}

/// The key of `p`.
fn prefix_key(p: &Vec<u8>) -> (r: u128)
    requires
        p.len() <= MAX_SIDE,
        codes_ok(p@),
    ensures
        r == pack(p@),
{
    let mut key: u128 = 1;
    let mut k: usize = 0;
    while k < p.len()
        invariant
            k <= p.len() <= MAX_SIDE,
            codes_ok(p@),
            key == pack(p@.subrange(0, k as int)),
        decreases p.len() - k,
    {
        let ghost q = p@.subrange(0, k as int + 1);
        assert(q.drop_last() =~= p@.subrange(0, k as int));
        assert(codes_ok(q));
        proof {
            lemma_pack_bound(q);
            lemma_key_fits(q.len());
        }
        key = key * 32 + p[k] as u128;
        k = k + 1;
    }
    assert(p@.subrange(0, k as int) =~= p@);
    key
}

/// A word `w` changes the entry of `p` only when `p` is a proper prefix of it.
proof fn lemma_other_prefix_unchanged(ws: Set<Seq<u8>>, w: Seq<u8>, p: Seq<u8>)
    requires
        !(is_prefix(p, w) && p.len() < w.len()),
    ensures
        next_codes(ws.insert(w), p) == next_codes(ws, p),
        p.len() < w.len() ==> prefix_of_some(ws.insert(w), p) == prefix_of_some(ws, p),
{
    assert forall|c: u8| prefix_of_some(ws.insert(w), p.push(c)) implies prefix_of_some(ws, p.push(c)) by {
        let x = choose|x: Seq<u8>| #[trigger] ws.insert(w).contains(x) && is_prefix(p.push(c), x);
        if x == w {
            assert(w.subrange(0, p.len() as int) =~= p.push(c).subrange(0, p.len() as int));
            assert(p.push(c).subrange(0, p.len() as int) =~= p);
            assert(false);
        }
    }
    assert forall|c: u8| prefix_of_some(ws, p.push(c)) implies prefix_of_some(ws.insert(w), p.push(c)) by {
        let x = choose|x: Seq<u8>| #[trigger] ws.contains(x) && is_prefix(p.push(c), x);
        assert(ws.insert(w).contains(x));
    }
    assert(next_codes(ws.insert(w), p) =~= next_codes(ws, p));
    if p.len() < w.len() {
        if prefix_of_some(ws.insert(w), p) {
            let x = choose|x: Seq<u8>| #[trigger] ws.insert(w).contains(x) && is_prefix(p, x);
            assert(x != w);
            assert(ws.contains(x));
        }
        if prefix_of_some(ws, p) {
            let x = choose|x: Seq<u8>| #[trigger] ws.contains(x) && is_prefix(p, x);
            assert(ws.insert(w).contains(x));
        }
    }
}

/// The words whose entry for `p` is in place once the first `k` proper
/// prefixes of `w` have been recorded.
spec fn words_at(ws: Set<Seq<u8>>, w: Seq<u8>, k: nat, p: Seq<u8>) -> Set<Seq<u8>> {
    if is_prefix(p, w) && p.len() < k {
        ws.insert(w)
    } else {
        ws
    }
}

/// Records the word `w` in the table `m` of the words of length `w.len()`.
fn add_word(m: &mut PrefixTable, w: &Vec<u8>, Ghost(ws): Ghost<Set<Seq<u8>>>)
    requires
        1 <= w.len() <= MAX_SIDE,
        codes_ok(w@),
        words_shaped(ws, w.len() as nat),
        table_ok(old(m)@, ws, w.len() as nat),
    ensures
        table_ok(final(m)@, ws.insert(w@), w.len() as nat),
{
    let ghost n = w.len() as nat;
    let ghost ws2 = ws.insert(w@);
    let mut key: u128 = 1;
    let mut k: usize = 0;
    while k < w.len()
        invariant
            k <= w.len() <= MAX_SIDE,
            n == w.len(),
            ws2 == ws.insert(w@),
            codes_ok(w@),
            words_shaped(ws, n),
            key == pack(w@.subrange(0, k as int)),
            forall|p: Seq<u8>|
                p.len() < n && codes_ok(p) ==> #[trigger] entry_ok(m@, words_at(ws, w@, k as nat, p), p),
        decreases w.len() - k,
    {
        let ghost m0 = m@;
        let ghost p0 = w@.subrange(0, k as int);
        let code = w[k];
        assert(codes_ok(p0));
        assert(is_prefix(p0, w@));
        assert(entry_ok(m0, words_at(ws, w@, k as nat, p0), p0));
        let mut cur = match table_get(m, key) {
            Some(cs) => cs,
            None => CharSet::default(),
        };
        let ghost before = cur@;
        cur.add(code);
        table_insert(m, key, cur);
        proof {
            // the entry of p0 now holds the codes after p0 in ws2
            assert(w@.subrange(0, k as int + 1) =~= p0.push(code));
            assert(prefix_of_some(ws2, p0.push(code))) by {
                assert(ws2.contains(w@));
                assert(is_prefix(p0.push(code), w@));
            }
            assert(prefix_of_some(ws2, p0)) by {
                assert(ws2.contains(w@));
            }
            assert forall|c: u8| #[trigger] next_codes(ws2, p0).contains(c) <==> cur@.contains(c) by {
                if c != code {
                    if prefix_of_some(ws2, p0.push(c)) {
                        let x = choose|x: Seq<u8>| #[trigger] ws2.contains(x) && is_prefix(p0.push(c), x);
                        if x == w@ {
                            assert(w@[k as int] == p0.push(c)[k as int]);
                            assert(x.subrange(0, k as int + 1)[k as int] == x[k as int]);
                            assert(false);
                        }
                        assert(ws.contains(x));
                        assert(prefix_of_some(ws, p0.push(c)));
                        assert(prefix_of_some(ws, p0)) by {
                            assert(x.subrange(0, k as int) =~= p0);
                        }
                    }
                    if prefix_of_some(ws, p0.push(c)) {
                        let x = choose|x: Seq<u8>| #[trigger] ws.contains(x) && is_prefix(p0.push(c), x);
                        assert(ws2.contains(x));
                        assert(prefix_of_some(ws, p0)) by {
                            assert(x.subrange(0, k as int) =~= p0);
                        }
                    }
                }
            }
            assert(next_codes(ws2, p0) =~= cur@);
            assert(entry_ok(m@, ws2, p0));
            assert forall|p: Seq<u8>|
                p.len() < n && codes_ok(p) implies #[trigger] entry_ok(m@, words_at(ws, w@, k as nat + 1, p), p) by {
                if p != p0 {
                    assert(entry_ok(m0, words_at(ws, w@, k as nat, p), p));
                    if pack(p) == pack(p0) {
                        lemma_pack_injective(p, p0);
                    }
                    lemma_pack_bound(p);
                    lemma_pack_bound(p0);
                    lemma_key_fits(p.len());
                    lemma_key_fits(p0.len());
                    assert(pack(p) as u128 != pack(p0) as u128);
                    if is_prefix(p, w@) && p.len() == k {
                        assert(p =~= p0);
                    }
                }
            }
            lemma_pack_bound(w@.subrange(0, k as int + 1));
            lemma_key_fits(k as nat + 1);
            assert(w@.subrange(0, k as int + 1).drop_last() =~= p0);
        }
        key = key * 32 + code as u128;
        k = k + 1;
    }
    assert forall|p: Seq<u8>| p.len() < n && codes_ok(p) implies #[trigger] entry_ok(m@, ws2, p) by {
        assert(entry_ok(m@, words_at(ws, w@, k as nat, p), p));
        if !(is_prefix(p, w@) && p.len() < k) {
            lemma_other_prefix_unchanged(ws, w@, p);
        }
    }
}

proof fn lemma_word_codes_ok(s: Seq<char>)
    requires
        word_codes(s) is Some,
    ensures
        codes_ok(word_codes(s)->0),
        word_codes(s)->0.len() == s.len(),
{
    crate::codec::lemma_codec_round_trip();
    let e = word_codes(s)->0;
    assert forall|i: int| 0 <= i < e.len() implies #[trigger] e[i] < 32 by {
        assert(crate::codec::code_of(s[i]) is Some);
    }
}

proof fn lemma_accepted_shaped(words: Seq<String>, n: nat)
    ensures
        words_shaped(accepted(words, n), n),
{
    assert forall|w: Seq<u8>| #[trigger] accepted(words, n).contains(w) implies w.len() == n && codes_ok(w) by {
        let i = choose|i: int| 0 <= i < words.len() && #[trigger] word_codes(words[i]@) == Some(w);
        lemma_word_codes_ok(words[i]@);
    }
}

/// Taking one more entry of `words` adds its codes, when accepted at `n`.
proof fn lemma_accepted_push(words: Seq<String>, i: int, n: nat)
    requires
        0 <= i < words.len(),
    ensures
        accepted(words.subrange(0, i + 1), n) == (match word_codes(words[i]@) {
            Some(e) => if e.len() == n {
                accepted(words.subrange(0, i), n).insert(e)
            } else {
                accepted(words.subrange(0, i), n)
            },
            None => accepted(words.subrange(0, i), n),
        }),
        accepted_count(words.subrange(0, i + 1), n) == accepted_count(words.subrange(0, i), n) + (
        match word_codes(words[i]@) {
            Some(e) => if e.len() == n {
                1nat
            } else {
                0nat
            },
            None => 0nat,
        }),
{
    let a = words.subrange(0, i);
    let b = words.subrange(0, i + 1);
    assert(b.drop_last() =~= a);
    let target = match word_codes(words[i]@) {
        Some(e) => if e.len() == n {
            accepted(a, n).insert(e)
        } else {
            accepted(a, n)
        },
        None => accepted(a, n),
    };
    assert forall|e: Seq<u8>| accepted(b, n).contains(e) <==> #[trigger] target.contains(e) by {
        if accepted(b, n).contains(e) {
            let j = choose|j: int| 0 <= j < b.len() && #[trigger] word_codes(b[j]@) == Some(e);
            if j < i {
                assert(a[j] == b[j]);
                assert(accepted(a, n).contains(e));
            }
        }
        if accepted(a, n).contains(e) {
            let j = choose|j: int| 0 <= j < a.len() && #[trigger] word_codes(a[j]@) == Some(e);
            assert(b[j] == a[j]);
            assert(accepted(b, n).contains(e));
        }
        if word_codes(words[i]@) == Some(e) && e.len() == n {
            assert(b[i] == words[i]);
            assert(accepted(b, n).contains(e));
        }
    }
    assert(accepted(b, n) =~= target);
}

/// Builds the index of the rows and columns of a `width` by `height` grid
/// from a list of words. Words of another length, or with a character that is
/// not a letter of the alphabet, are left out. Also returns how many entries
/// were accepted as row words and as column words.
pub fn make_words_index(words: &Vec<String>, width: usize, height: usize) -> (r: (
    usize,
    usize,
    WordIndex,
))
    requires
        1 <= width <= MAX_SIDE,
        1 <= height <= MAX_SIDE,
    ensures
        r.2.wf(),
        r.2@.width == width,
        r.2@.height == height,
        r.2@.rows == accepted(words@, width as nat),
        r.2@.cols == accepted(words@, height as nat),
        r.0 == accepted_count(words@, width as nat),
        r.1 == accepted_count(words@, height as nat),
        r.0 == 0 <==> accepted(words@, width as nat) == Set::<Seq<u8>>::empty(),
        r.1 == 0 <==> accepted(words@, height as nat) == Set::<Seq<u8>>::empty(),
{
    let mut rows: PrefixTable = fnv::FnvHashMap::default();
    let mut cols: PrefixTable = fnv::FnvHashMap::default();
    let mut count_rows: usize = 0;
    let mut count_cols: usize = 0;
    let mut i: usize = 0;
    proof {
        assert(accepted(words@.subrange(0, 0), width as nat) =~= Set::<Seq<u8>>::empty());
        assert(accepted(words@.subrange(0, 0), height as nat) =~= Set::<Seq<u8>>::empty());
        assert(accepted_count(words@.subrange(0, 0), width as nat) == 0);
        assert(accepted_count(words@.subrange(0, 0), height as nat) == 0);
    }
    while i < words.len()
        invariant
            i <= words.len(),
            1 <= width <= MAX_SIDE,
            1 <= height <= MAX_SIDE,
            count_rows <= i,
            count_cols <= i,
            table_ok(rows@, accepted(words@.subrange(0, i as int), width as nat), width as nat),
            table_ok(cols@, accepted(words@.subrange(0, i as int), height as nat), height as nat),
            count_rows == accepted_count(words@.subrange(0, i as int), width as nat),
            count_cols == accepted_count(words@.subrange(0, i as int), height as nat),
            count_rows == 0 <==> accepted(words@.subrange(0, i as int), width as nat) == Set::<
                Seq<u8>,
            >::empty(),
            count_cols == 0 <==> accepted(words@.subrange(0, i as int), height as nat) == Set::<
                Seq<u8>,
            >::empty(),
        decreases words.len() - i,
    {
        let ghost sub = words@.subrange(0, i as int);
        proof {
            lemma_accepted_push(words@, i as int, width as nat);
            lemma_accepted_push(words@, i as int, height as nat);
            lemma_accepted_shaped(sub, width as nat);
            lemma_accepted_shaped(sub, height as nat);
        }
        match encode_word(words[i].as_str()) {
            Some(codes) => {
                proof {
                    lemma_word_codes_ok(words@[i as int]@);
                }
                if codes.len() == width {
                    add_word(&mut rows, &codes, Ghost(accepted(sub, width as nat)));
                    count_rows = count_rows + 1;
                    assert(accepted(words@.subrange(0, i as int + 1), width as nat).contains(codes@));
                }
                if codes.len() == height {
                    add_word(&mut cols, &codes, Ghost(accepted(sub, height as nat)));
                    count_cols = count_cols + 1;
                    assert(accepted(words@.subrange(0, i as int + 1), height as nat).contains(codes@));
                }
            },
            None => {},
        }
        i = i + 1;
    }
    assert(words@.subrange(0, i as int) =~= words@);
    proof {
        lemma_accepted_shaped(words@, width as nat);
        lemma_accepted_shaped(words@, height as nat);
    }
    let index = WordIndex {
        width,
        height,
        inner_rows: rows,
        inner_cols: cols,
        row_words: Ghost(accepted(words@, width as nat)),
        col_words: Ghost(accepted(words@, height as nat)),
    };
    (count_rows, count_cols, index)
}

/// No entry of `words` is accepted at length `n` exactly when the set of
/// accepted words of that length is empty.
pub proof fn lemma_count_zero_iff_empty(words: Seq<String>, n: nat)
    ensures
        accepted_count(words, n) == 0 <==> accepted(words, n) == Set::<Seq<u8>>::empty(),
    decreases words.len(),
{
    if words.len() == 0 {
        assert(accepted(words, n) =~= Set::<Seq<u8>>::empty());
    } else {
        let i = words.len() - 1;
        lemma_accepted_push(words, i, n);
        assert(words.subrange(0, i + 1) =~= words);
        assert(words.subrange(0, i) =~= words.drop_last());
        lemma_count_zero_iff_empty(words.drop_last(), n);
        if let Some(e) = word_codes(words[i]@) {
            if e.len() == n {
                assert(accepted(words, n).contains(e));
            }
        }
    }
}

/// The search needs at least one row word and one column word: given the
/// counts of accepted row and column words, the error to stop on, if any.
pub fn require_words(count_rows: usize, count_cols: usize) -> (r: Result<(), IndexError>)
    ensures
        r == Err::<(), IndexError>(IndexError::NoRowWords) <==> count_rows == 0,
        r == Err::<(), IndexError>(IndexError::NoColumnWords) <==> (count_rows > 0 && count_cols
            == 0),
        r is Ok <==> (count_rows > 0 && count_cols > 0),
{
    if count_rows == 0 {
        Err(IndexError::NoRowWords)
    } else if count_cols == 0 {
        Err(IndexError::NoColumnWords)
    } else {
        Ok(())
    }
}

/// A word prefix extends a shorter prefix that some word starts with.
pub proof fn lemma_prefix_closed(ws: Set<Seq<u8>>, p: Seq<u8>, c: u8)
    requires
        prefix_of_some(ws, p.push(c)),
    ensures
        prefix_of_some(ws, p),
{
    let w = choose|w: Seq<u8>| #[trigger] ws.contains(w) && is_prefix(p.push(c), w);
    assert(w.subrange(0, p.len() as int) =~= w.subrange(0, p.len() as int + 1).subrange(0, p.len() as int));
    assert(p.push(c).subrange(0, p.len() as int) =~= p);
}

/// A prefix of words of letter codes holds letter codes only.
pub proof fn lemma_prefix_codes(ws: Set<Seq<u8>>, n: nat, p: Seq<u8>)
    requires
        words_shaped(ws, n),
        prefix_of_some(ws, p),
    ensures
        codes_ok(p),
        p.len() <= n,
{
    let w = choose|w: Seq<u8>| #[trigger] ws.contains(w) && is_prefix(p, w);
    assert forall|i: int| 0 <= i < p.len() implies #[trigger] p[i] < 32 by {
        assert(p[i] == w.subrange(0, p.len() as int)[i]);
    }
}

/// The codes of `p`, when each of them is a letter code.
fn all_codes(p: &Vec<u8>) -> (r: bool)
    ensures
        r == codes_ok(p@),
{
    let mut k: usize = 0;
    while k < p.len()
        invariant
            k <= p.len(),
            forall|i: int| 0 <= i < k ==> #[trigger] p@[i] < 32,
        decreases p.len() - k,
    {
        if p[k] >= 32 {
            return false;
        }
        k = k + 1;
    }
    true
}

/// The codes that follow `p` in the words of `ws`, looked up in `m`.
fn lookup(m: &PrefixTable, Ghost(ws): Ghost<Set<Seq<u8>>>, Ghost(n): Ghost<nat>, p: &Vec<u8>) -> (r:
    CharSet)
    requires
        table_ok(m@, ws, n),
        words_shaped(ws, n),
        n <= MAX_SIDE,
        p.len() < n,
    ensures
        r@ == next_codes(ws, p@),
{
    if !all_codes(p) {
        let r = CharSet::default();
        assert forall|c: u8| !#[trigger] next_codes(ws, p@).contains(c) by {
            if prefix_of_some(ws, p@.push(c)) {
                lemma_prefix_closed(ws, p@, c);
                lemma_prefix_codes(ws, n, p@);
            }
        }
        assert(r@ =~= next_codes(ws, p@));
        return r;
    }
    assert(entry_ok(m@, ws, p@));
    match table_get(m, prefix_key(p)) {
        Some(cs) => cs,
        None => {
            let r = CharSet::default();
            assert forall|c: u8| !#[trigger] next_codes(ws, p@).contains(c) by {
                if prefix_of_some(ws, p@.push(c)) {
                    lemma_prefix_closed(ws, p@, c);
                }
            }
            assert(r@ =~= next_codes(ws, p@));
            r
        },
    }
}

/// The cells of `g` in the row of cell `i`, left of it.
pub open spec fn row_before(g: Seq<u8>, width: nat, i: nat) -> Seq<u8> {
    g.subrange(i - i % width, i as int)
}

/// The cells of `g` in the column of cell `i`, above it.
pub open spec fn col_above(g: Seq<u8>, width: nat, i: nat) -> Seq<u8> {
    Seq::new(i / width, |k: int| g[(i % width) + k * width])
}

pub proof fn lemma_row_start(i: nat, width: nat)
    requires
        width >= 1,
    ensures
        0 <= i % width <= i,
{
    assert(0 <= i % width <= i) by (nonlinear_arith)
        requires
            width >= 1,
    ;
}

pub proof fn lemma_col_cell_bound(i: nat, width: nat, k: int)
    requires
        width >= 1,
        0 <= k < i / width,
    ensures
        0 <= (i % width) + k * width < i,
        (i % width) + k * width == i - (i / width - k) * width,
{
    assert(i == (i / width) * width + i % width) by (nonlinear_arith)
        requires
            width >= 1,
    ;
    assert(0 <= i % width < width) by (nonlinear_arith)
        requires
            width >= 1,
    ;
    assert(k * width <= (i / width - 1) * width) by (nonlinear_arith)
        requires
            width >= 1,
            k <= i / width - 1,
    ;
    assert(0 <= k * width) by (nonlinear_arith)
        requires
            width >= 1,
            k >= 0,
    ;
    assert((i / width - k) * width == (i / width) * width - k * width) by (nonlinear_arith);
    assert((i / width - 1) * width == (i / width) * width - width) by (nonlinear_arith);
}

impl WordIndex {
    /// The codes that follow `prefix` in the row words.
    pub fn row_candidates(&self, prefix: &Vec<u8>) -> (r: CharSet)
        requires
            self.wf(),
            prefix.len() < self@.width,
        ensures
            r@ == next_codes(self@.rows, prefix@),
    {
        lookup(&self.inner_rows, Ghost(self.row_words@), Ghost(self.width as nat), prefix)
    }

    /// The codes that follow `prefix` in the column words.
    pub fn col_candidates(&self, prefix: &Vec<u8>) -> (r: CharSet)
        requires
            self.wf(),
            prefix.len() < self@.height,
        ensures
            r@ == next_codes(self@.cols, prefix@),
    {
        lookup(&self.inner_cols, Ghost(self.col_words@), Ghost(self.height as nat), prefix)
    }

    /// The codes that the next cell of the partly filled grid `g` may take:
    /// those that follow both the cells left of it in its row among the row
    /// words and the cells above it in its column among the column words.
    pub fn cell_candidates(&self, g: &Vec<u8>) -> (r: CharSet)
        requires
            self.wf(),
            g.len() < self@.width * self@.height,
        ensures
            r@ == next_codes(self@.rows, row_before(g@, self@.width, g.len() as nat)).intersect(
                next_codes(self@.cols, col_above(g@, self@.width, g.len() as nat)),
            ),
    {
        let w = self.width;
        let at = g.len();
        let row_idx = at / w;
        let col_idx = at % w;
        assert(col_idx <= at) by (nonlinear_arith)
            requires
                col_idx == at % w,
                w >= 1,
        ;
        let mut row_word: Vec<u8> = Vec::new();
        let mut k: usize = at - col_idx;
        while k < at
            invariant
                at == g.len(),
                col_idx <= at,
                at - col_idx <= k <= at,
                col_idx == at % w,
                row_word@ == g@.subrange(at - col_idx, k as int),
            decreases at - k,
        {
            row_word.push(g[k]);
            assert(row_word@ =~= g@.subrange(at - col_idx, k as int + 1));
            k = k + 1;
        }
        assert(col_idx < w) by (nonlinear_arith)
            requires
                col_idx == at % w,
                w >= 1,
        ;
        assert(row_idx < self.height) by (nonlinear_arith)
            requires
                row_idx == at / w,
                at < w * self.height,
                w >= 1,
        ;
        let mut col_word: Vec<u8> = Vec::new();
        let mut j: usize = 0;
        while j < row_idx
            invariant
                at == g.len(),
                w >= 1,
                j <= row_idx,
                row_idx == at / w,
                col_idx == at % w,
                col_word@ == col_above(g@, w as nat, at as nat).subrange(0, j as int),
            decreases row_idx - j,
        {
            proof {
                lemma_col_cell_bound(at as nat, w as nat, j as int);
            }
            col_word.push(g[col_idx + j * w]);
            assert(col_word@ =~= col_above(g@, w as nat, at as nat).subrange(0, j as int + 1));
            j = j + 1;
        }
        assert(col_word@ =~= col_above(g@, w as nat, at as nat));
        let rs = self.row_candidates(&row_word);
        let cs = self.col_candidates(&col_word);
        rs.and(&cs)
    }
}

} // verus!
