use word_rectangles::index::{make_words_index, require_words, IndexError, WordIndex};
use word_rectangles::search::{compute, first_rows};
use word_rectangles::stream::{first_solution, next_solution};
use word_rectangles::text::format_square;
use word_rectangles::words::encode_word;

fn words(list: &[&str]) -> Vec<String> {
    list.iter().map(|s| s.to_string()).collect()
}

fn index_of(list: &[&str], width: usize, height: usize) -> WordIndex {
    let (rows, cols, index) = make_words_index(&words(list), width, height);
    assert_eq!(require_words(rows, cols), Ok(()));
    index
}

fn codes(s: &str) -> Vec<u8> {
    encode_word(s).unwrap()
}

fn letters(sq: &[u8]) -> Vec<u8> {
    sq.to_vec()
}

/// Every grid built from `height` row words whose columns are all column words.
fn brute_force(rows: &[&str], cols: &[&str], width: usize, height: usize) -> Vec<Vec<u8>> {
    let row_codes: Vec<Vec<u8>> = rows.iter().map(|w| codes(w)).filter(|c| c.len() == width).collect();
    let col_codes: Vec<Vec<u8>> = cols.iter().map(|w| codes(w)).filter(|c| c.len() == height).collect();
    let mut grids: Vec<Vec<u8>> = vec![vec![]];
    for _ in 0..height {
        let mut next = Vec::new();
        for g in &grids {
            for r in &row_codes {
                let mut h = g.clone();
                h.extend_from_slice(r);
                next.push(h);
            }
        }
        grids = next;
    }
    let mut out: Vec<Vec<u8>> = grids
        .into_iter()
        .filter(|g| {
            (0..width).all(|c| {
                let col: Vec<u8> = (0..height).map(|k| g[c + k * width]).collect();
                col_codes.contains(&col)
            })
        })
        .collect();
    out.sort();
    out.dedup();
    out
}

#[test]
fn index_candidates_for_prefixes() {
    let index = index_of(&["cat", "car", "cow"], 3, 3);
    let c = codes("c")[0];
    let a = codes("a")[0];
    let o = codes("o")[0];
    let t = codes("t")[0];
    let r = codes("r")[0];
    assert_eq!(index.row_candidates(&vec![]).internal, 1u32 << c);
    assert_eq!(index.row_candidates(&vec![c]).internal, (1u32 << a) | (1u32 << o));
    assert_eq!(index.row_candidates(&vec![c, a]).internal, (1u32 << t) | (1u32 << r));
    assert_eq!(index.row_candidates(&vec![c, o]).internal, 1u32 << codes("w")[0]);
    assert_eq!(index.row_candidates(&vec![a]).internal, 0);
    assert_eq!(index.col_candidates(&vec![c, a]).internal, (1u32 << t) | (1u32 << r));
}

#[test]
fn index_counts_and_skips() {
    let list = words(&["cat", "car", "cow", "ca t", "cats", "at", "cat"]);
    let (rows, cols, index) = make_words_index(&list, 3, 2);
    assert_eq!(rows, 4);
    assert_eq!(cols, 1);
    assert_eq!(index.width(), 3);
    assert_eq!(index.height(), 2);
    assert_eq!(index.col_candidates(&vec![]).internal, 1u32 << codes("a")[0]);
}

#[test]
fn empty_row_words_is_an_error() {
    let (rows, cols, index) = make_words_index(&words(&["ab", "ba"]), 3, 2);
    assert_eq!((rows, cols), (0, 2));
    assert_eq!(require_words(rows, cols), Err(IndexError::NoRowWords));
    assert_eq!(index.row_candidates(&vec![]).internal, 0);
    assert!(compute(&index, &vec![], 6).is_empty());
    let (rows, cols, _) = make_words_index(&words(&[]), 2, 2);
    assert_eq!(require_words(rows, cols), Err(IndexError::NoRowWords));
}

#[test]
fn empty_column_words_is_an_error() {
    let (rows, cols, _) = make_words_index(&words(&["abc"]), 3, 2);
    assert_eq!((rows, cols), (1, 0));
    assert_eq!(require_words(rows, cols), Err(IndexError::NoColumnWords));
}

#[test]
fn two_by_two_matches_brute_force() {
    let dict = ["ab", "ba"];
    let index = index_of(&dict, 2, 2);
    let found = compute(&index, &vec![], 4);
    let expected = brute_force(&dict, &dict, 2, 2);
    assert_eq!(found, expected);
    let ab_ba: Vec<u8> = [codes("ab"), codes("ba")].concat();
    let ba_ab: Vec<u8> = [codes("ba"), codes("ab")].concat();
    assert_eq!(found, vec![ab_ba, ba_ab]);
}

#[test]
fn rectangle_matches_brute_force() {
    let dict = [
        "cat", "car", "cot", "arc", "ate", "tea", "toe", "eat", "at", "ta", "ca", "re", "to", "oe",
        "ar", "ce",
    ];
    let index = index_of(&dict, 3, 2);
    let found = compute(&index, &vec![], 6);
    let expected = brute_force(&dict, &dict, 3, 2);
    assert!(!expected.is_empty());
    let mut sorted = found.clone();
    sorted.sort();
    sorted.dedup();
    assert_eq!(sorted.len(), found.len());
    assert_eq!(sorted, expected);
}

#[test]
fn solutions_are_made_of_words() {
    let dict = ["tea", "eat", "ate", "tee", "eta", "aet", "tat", "ate", "eee"];
    let index = index_of(&dict, 3, 3);
    let dict_codes: Vec<Vec<u8>> = dict.iter().map(|w| codes(w)).collect();
    let found = compute(&index, &vec![], 9);
    assert!(!found.is_empty());
    for sq in &found {
        for r in 0..3 {
            assert!(dict_codes.contains(&letters(&sq[r * 3..r * 3 + 3])));
        }
        for c in 0..3 {
            let col: Vec<u8> = (0..3).map(|k| sq[c + k * 3]).collect();
            assert!(dict_codes.contains(&col));
        }
    }
}

#[test]
fn search_is_deterministic() {
    let dict = ["tea", "eat", "ate", "tee", "eta", "tat", "eee"];
    let a = compute(&index_of(&dict, 3, 3), &vec![], 9);
    let b = compute(&index_of(&dict, 3, 3), &vec![], 9);
    assert_eq!(a, b);
}

#[test]
fn split_at_first_row_changes_nothing() {
    let dict = ["tea", "eat", "ate", "tee", "eta", "tat", "eee"];
    let index = index_of(&dict, 3, 3);
    let whole = compute(&index, &vec![], 9);
    let tasks = first_rows(&index);
    assert!(tasks.iter().all(|t| t.len() == 3));
    let mut joined = Vec::new();
    for t in &tasks {
        joined.extend(compute(&index, t, 9));
    }
    assert_eq!(joined, whole);
    let mut reversed = Vec::new();
    for t in tasks.iter().rev() {
        reversed.extend(compute(&index, t, 9));
    }
    reversed.sort();
    let mut sorted = whole.clone();
    sorted.sort();
    assert_eq!(reversed, sorted);
}

#[test]
fn solutions_come_in_ascending_order() {
    let dict = ["tea", "eat", "ate", "tee", "eta", "tat", "eee"];
    let found = compute(&index_of(&dict, 3, 3), &vec![], 9);
    for pair in found.windows(2) {
        assert!(pair[0] < pair[1]);
    }
}

#[test]
fn prefix_that_breaks_words_has_no_solutions() {
    let index = index_of(&["ab", "ba"], 2, 2);
    assert!(compute(&index, &codes("aa"), 4).is_empty());
    assert!(compute(&index, &vec![40], 4).is_empty());
    assert_eq!(compute(&index, &codes("ab"), 2), vec![codes("ab")]);
}

#[test]
fn format_joins_rows() {
    let sq: Vec<u8> = [codes("ab"), codes("ba")].concat();
    assert_eq!(format_square(&sq, 2, 2), "ab-ba");
    let sq: Vec<u8> = [codes("cat"), codes("are")].concat();
    assert_eq!(format_square(&sq, 3, 2), "cat-are");
}

#[test]
fn cell_candidates_meet_row_and_column() {
    let index = index_of(&["ab", "ba", "aa"], 2, 2);
    let a = codes("a")[0];
    let b = codes("b")[0];
    // First cell: any first letter of a word.
    assert_eq!(index.cell_candidates(&vec![]).internal, (1u32 << a) | (1u32 << b));
    // Cell below "b": the column starts with b, so only "ba" fits it.
    assert_eq!(index.cell_candidates(&vec![b, a]).internal, 1u32 << a);
    // Cell after "b": only "ba" starts with b.
    assert_eq!(index.cell_candidates(&vec![b]).internal, 1u32 << a);
}

#[test]
fn first_rows_are_the_row_words_in_order() {
    let index = index_of(&["ba", "ab", "aa"], 2, 2);
    assert_eq!(first_rows(&index), vec![codes("aa"), codes("ab"), codes("ba")]);
}

#[test]
fn stepping_gives_the_same_grids_as_compute() {
    let dict = ["tea", "eat", "ate", "tee", "eta", "tat", "eee"];
    let index = index_of(&dict, 3, 3);
    for prefix in [vec![], codes("tea"), codes("eee"), codes("tat")] {
        let all = compute(&index, &prefix, 9);
        let mut stepped = Vec::new();
        let mut found = first_solution(&index, &prefix, 9);
        while let Some(sq) = found {
            found = next_solution(&index, &prefix, &sq, 9);
            stepped.push(sq);
        }
        assert_eq!(stepped, all);
    }
}

#[test]
fn stepping_past_the_last_grid_ends() {
    let index = index_of(&["ab", "ba"], 2, 2);
    let first = first_solution(&index, &vec![], 4).unwrap();
    assert_eq!(first, [codes("ab"), codes("ba")].concat());
    let second = next_solution(&index, &vec![], &first, 4).unwrap();
    assert_eq!(second, [codes("ba"), codes("ab")].concat());
    assert_eq!(next_solution(&index, &vec![], &second, 4), None);
    assert_eq!(first_solution(&index, &codes("aa"), 4), None);
}
