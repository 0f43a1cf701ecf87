//! Text in and out: a solution as one line, and the word of one line of a
//! word list.
use vstd::prelude::*;
use crate::codec::{char_of, code_of, decode, lemma_codec_round_trip};
use crate::index::codes_ok;
use crate::laws::grid_row;
use crate::words::{folded_word, filter_word, push_char};

verus! {

/// The letters of the codes `s`.
pub open spec fn decoded(s: Seq<u8>) -> Seq<char> {
    s.map_values(|c: u8| char_of(c)->0)
}

/// The first `rows` rows of `g`, each as its word, joined by `-`.
pub open spec fn square_text(g: Seq<u8>, width: nat, rows: nat) -> Seq<char>
    decreases rows,
{
    if rows == 0 {
        Seq::empty()
    } else {
        square_text(g, width, (rows - 1) as nat) + (if rows > 1 {
            seq!['-']
        } else {
            Seq::empty()
        }) + decoded(grid_row(g, width, (rows - 1) as nat))
    }
}

/// A solution as one line: the word of each row, joined by `-`.
pub fn format_square(sq: &Vec<u8>, width: usize, height: usize) -> (r: String)
    requires
        width >= 1,
        sq.len() == width * height,
        codes_ok(sq@),
    ensures
        r@ == square_text(sq@, width as nat, height as nat),
{
    let mut out = String::new();
    let mut r: usize = 0;
    while r < height
        invariant
            width >= 1,
            sq.len() == width * height,
            codes_ok(sq@),
            r <= height,
            out@ == square_text(sq@, width as nat, r as nat),
        decreases height - r,
    {
        if r > 0 {
            push_char(&mut out, '-');
        }
        let ghost base = out@;
        assert(r * width + width <= width * height) by (nonlinear_arith)
            requires
                r < height,
        ;
        let mut j: usize = 0;
        while j < width
            invariant
                width >= 1,
                sq.len() == width * height,
                codes_ok(sq@),
                r < height,
                r * width + width <= width * height,
                j <= width,
                out@ == base + decoded(sq@.subrange((r * width) as int, (r * width + j) as int)),
            decreases width - j,
        {
            let code = sq[r * width + j];
            assert(code < 32);
            let c = decode(code).unwrap();
            push_char(&mut out, c);
            assert(decoded(sq@.subrange((r * width) as int, (r * width + j + 1) as int)) =~= decoded(
                sq@.subrange((r * width) as int, (r * width + j) as int),
            ).push(c));
            j = j + 1;
        }
        assert(out@ =~= square_text(sq@, width as nat, r as nat + 1));
        r = r + 1;
    }
    out
}

/// Cell `k` of `s` is its one tab.
pub open spec fn only_tab_at(s: Seq<char>, k: int) -> bool {
    &&& 0 <= k < s.len()
    &&& s[k] == '\t'
    &&& forall|j: int| 0 <= j < s.len() && j != k ==> s[j] != '\t'
}

/// `s` holds a tab.
pub open spec fn has_tab(s: Seq<char>) -> bool {
    exists|k: int| 0 <= k < s.len() && s[k] == '\t'
}

/// `x` is `s` folded onto the alphabet, or `None` when `s` cannot be.
pub open spec fn folds_to(x: Option<String>, s: Seq<char>) -> bool {
    match x {
        Some(t) => folded_word(s) == Some(t@),
        None => folded_word(s) is None,
    }
}

#[derive(Debug, Clone, Copy, PartialEq, Eq, Structural)]
pub enum LineError {
    /// A line of a two-column list without a tab.
    MissingTab,
    /// A line of a two-column list with more than one tab.
    ExtraTab,
}

/// The word of one line of a word list, folded onto the alphabet: the whole
/// line in a plain list, the part after the one tab in a two-column list.
/// `Ok(None)` when the word cannot be folded.
pub fn preprocess_line(line: &str, two_columns: bool) -> (r: Result<Option<String>, LineError>)
    ensures
        !two_columns ==> (r matches Ok(x) && folds_to(x, line@)),
        two_columns ==> (r == Err::<Option<String>, LineError>(LineError::MissingTab) <==> !has_tab(
            line@,
        )),
        two_columns ==> (r == Err::<Option<String>, LineError>(LineError::ExtraTab) <==> (has_tab(
            line@,
        ) && !exists|k: int| only_tab_at(line@, k))),
        two_columns ==> forall|k: int|
            only_tab_at(line@, k) ==> (r matches Ok(x) && folds_to(
                x,
                line@.subrange(k + 1, line@.len() as int),
            )),
{
    if !two_columns {
        return Ok(filter_word(line));
    }
    let mut after = String::new();
    let mut seen_tab: bool = false;
    let mut extra: bool = false;
    let ghost mut k: int = 0;
    for c in it: line.chars()
        invariant
            it.seq() == line@,
            !seen_tab ==> after@.len() == 0,
            !seen_tab ==> !extra && forall|j: int| 0 <= j < it.index() ==> line@[j] != '\t',
            seen_tab ==> {
                &&& 0 <= k < it.index()
                &&& line@[k] == '\t'
                &&& forall|j: int| 0 <= j < k ==> line@[j] != '\t'
                &&& after@ == line@.subrange(k + 1, it.index() as int)
                &&& extra <==> exists|j: int| k < j < it.index() && line@[j] == '\t'
            },
    {
        let ghost i = it.index() as int;
        assert(c == line@[i]);
        if !seen_tab {
            if c == '\t' {
                seen_tab = true;
                proof {
                    k = i;
                }
                assert(after@ =~= line@.subrange(i + 1, i + 1));
            }
        } else {
            if c == '\t' {
                extra = true;
            }
            push_char(&mut after, c);
            assert(after@ =~= line@.subrange(k + 1, i + 1));
        }
    }
    if !seen_tab {
        return Err(LineError::MissingTab);
    }
    if extra {
        return Err(LineError::ExtraTab);
    }
    assert(only_tab_at(line@, k));
    assert forall|j: int| only_tab_at(line@, j) implies j == k by {}
    assert(after@ =~= line@.subrange(k + 1, line@.len() as int));
    Ok(filter_word(after.as_str()))
}

/// Where cell `j` of row `r` stands in a printed grid `width` cells wide.
pub open spec fn text_pos(width: nat, r: nat, j: nat) -> int {
    (r * (width + 1) + j) as int
}

/// A printed grid reads back: its rows are `width` letters apart from one
/// `-` to the next, and each letter encodes to the code of its cell.
pub proof fn lemma_square_text_reads_back(g: Seq<u8>, width: nat, rows: nat)
    requires
        width >= 1,
        rows * width <= g.len(),
        codes_ok(g),
    ensures
        square_text(g, width, rows).len() == (if rows == 0 {
            0
        } else {
            rows * (width + 1) - 1
        }),
        forall|r: nat, j: nat|
            r < rows && j < width ==> code_of(
                #[trigger] square_text(g, width, rows)[text_pos(width, r, j)],
            ) == Some(g[(r * width + j) as int]),
        forall|r: nat| 0 < r < rows ==> #[trigger] square_text(g, width, rows)[text_pos(width, r, 0) - 1] == '-',
    decreases rows,
{
    if rows > 0 {
        let k = (rows - 1) as nat;
        assert(k * width + width <= g.len()) by (nonlinear_arith)
            requires
                rows * width <= g.len(),
                k == rows - 1,
        ;
        assert(k * width <= g.len()) by (nonlinear_arith)
            requires
                k * width + width <= g.len(),
        ;
        lemma_square_text_reads_back(g, width, k);
        lemma_codec_round_trip();
        let prev = square_text(g, width, k);
        let row = decoded(crate::laws::grid_row(g, width, k));
        let sep: Seq<char> = if rows > 1 {
            seq!['-']
        } else {
            Seq::empty()
        };
        let t = square_text(g, width, rows);
        assert(t == prev + sep + row);
        let base = prev.len() + sep.len();
        assert(base == text_pos(width, k, 0)) by (nonlinear_arith)
            requires
                base == prev.len() + sep.len(),
                prev.len() == (if k == 0 {
                    0
                } else {
                    k * (width + 1) - 1
                }),
                sep.len() == (if k > 0 {
                    1int
                } else {
                    0
                }),
        ;
        assert(t.len() == rows * (width + 1) - 1) by (nonlinear_arith)
            requires
                t.len() == base + width,
                base == k * (width + 1),
                k == rows - 1,
        ;
        assert forall|r: nat, j: nat| r < rows && j < width implies code_of(
            #[trigger] t[text_pos(width, r, j)],
        ) == Some(g[(r * width + j) as int]) by {
            if r < k {
                assert(text_pos(width, r, j) < prev.len()) by (nonlinear_arith)
                    requires
                        r < k,
                        j < width,
                        prev.len() == k * (width + 1) - 1,
                ;
                assert(t[text_pos(width, r, j)] == prev[text_pos(width, r, j)]);
            } else {
                assert(r == k);
                assert(text_pos(width, r, j) == base + j);
                assert(r * width + j < g.len());
                assert(t[base + j as int] == row[j as int]);
                assert(g[(r * width + j) as int] < 32);
            }
        }
        assert forall|r: nat| 0 < r < rows implies #[trigger] t[text_pos(width, r, 0) - 1] == '-' by {
            if r < k {
                assert(0 <= text_pos(width, r, 0) - 1 < prev.len()) by (nonlinear_arith)
                    requires
                        0 < r < k,
                        prev.len() == k * (width + 1) - 1,
                ;
                assert(t[text_pos(width, r, 0) - 1] == prev[text_pos(width, r, 0) - 1]);
            } else {
                assert(r == k);
                assert(t[base - 1] == sep[0]);
            }
        }
    }
}

} // verus!
