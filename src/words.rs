//! Words as code sequences, and the folding of raw dictionary words onto the
//! alphabet.
use vstd::prelude::*;
use crate::codec::{code_of, encode};
use unicode_skeleton::UnicodeSkeleton;

verus! {

/// The codes of `s`, when every character of it is a letter of the alphabet.
pub open spec fn word_codes(s: Seq<char>) -> Option<Seq<u8>> {
    if forall|i: int| 0 <= i < s.len() ==> #[trigger] code_of(s[i]) is Some {
        Some(s.map_values(|c: char| code_of(c)->0))
    } else {
        None
    }
}

/// The confusable skeleton of the one-character string `c` (Unicode TR39).
pub uninterp spec fn skeleton_of(c: char) -> Seq<char>;

/// Relies on `unicode_skeleton::UnicodeSkeleton::skeleton_chars`: the
/// characters of the skeleton of `c`, a function of `c` alone.
#[verifier::external_body]
fn skeleton_chars_of(c: char) -> (r: Vec<char>)
    ensures
        r@ == skeleton_of(c),
{
    c.to_string().skeleton_chars().collect()
}

/// Relies on `String::push`: appends one character.
#[verifier::external_body]
pub(crate) fn push_char(s: &mut String, c: char)
    ensures
        final(s)@ == old(s)@.push(c),
{
    s.push(c)
}

/// The letter of the alphabet that `c` folds onto: `c` itself when it is a
/// letter, else the single character of its skeleton when that is a letter.
pub open spec fn fold_char(c: char) -> Option<char> {
    if code_of(c) is Some {
        Some(c)
    } else if skeleton_of(c).len() == 1 && code_of(skeleton_of(c)[0]) is Some {
        Some(skeleton_of(c)[0])
    } else {
        None
    }
}

/// `s` with each character folded onto the alphabet, when each one can be.
pub open spec fn folded_word(s: Seq<char>) -> Option<Seq<char>> {
    if forall|i: int| 0 <= i < s.len() ==> #[trigger] fold_char(s[i]) is Some {
        Some(s.map_values(|c: char| fold_char(c)->0))
    } else {
        None
    }
}

/// The codes of `word`, or `None` when a character of it is not a letter of
/// the alphabet.
pub fn encode_word(word: &str) -> (r: Option<Vec<u8>>)
    ensures
        r matches Some(v) ==> word_codes(word@) == Some(v@),
        r is None ==> word_codes(word@) is None,
{
    let mut codes: Vec<u8> = Vec::new();
    let mut ok: bool = true;
    for c in it: word.chars()
        invariant
            it.seq() == word@,
            ok ==> codes@.len() == it.index(),
            ok ==> forall|i: int| 0 <= i < it.index() ==> code_of(word@[i]) == Some(#[trigger] codes@[i]),
            !ok ==> exists|i: int| 0 <= i < it.index() && #[trigger] code_of(word@[i]) is None,
    {
        match encode(c) {
            Some(code) => {
                if ok {
                    codes.push(code);
                }
            },
            None => {
                ok = false;
            },
        }
    }
    if ok {
        assert(forall|i: int| 0 <= i < word@.len() ==> #[trigger] code_of(word@[i]) is Some) by {
            assert forall|i: int| 0 <= i < word@.len() implies #[trigger] code_of(word@[i]) is Some by {
                assert(code_of(word@[i]) == Some(codes@[i]));
            }
        }
        assert(codes@ =~= word@.map_values(|c: char| code_of(c)->0));
        Some(codes)
    } else {
        None
    }
}

/// `word` folded onto the alphabet, or `None` when some character of it
/// cannot be.
pub fn filter_word(word: &str) -> (r: Option<String>)
    ensures
        r matches Some(s) ==> folded_word(word@) == Some(s@),
        r is None ==> folded_word(word@) is None,
{
    let mut out = String::new();
    let mut ok: bool = true;
    for c in it: word.chars()
        invariant
            it.seq() == word@,
            ok ==> out@.len() == it.index(),
            ok ==> forall|i: int| 0 <= i < it.index() ==> fold_char(word@[i]) == Some(#[trigger] out@[i]),
            !ok ==> exists|i: int| 0 <= i < it.index() && #[trigger] fold_char(word@[i]) is None,
    {
        assert(c == word@[it.index() as int]);
        let folded: Option<char> = match encode(c) {
            Some(_) => Some(c),
            None => {
                let chars = skeleton_chars_of(c);
                if chars.len() != 1 {
                    None
                } else {
                    match encode(chars[0]) {
                        Some(_) => Some(chars[0]),
                        None => None,
                    }
                }
            },
        };
        assert(folded == fold_char(c));
        match folded {
            Some(f) => {
                if ok {
                    push_char(&mut out, f);
                }
            },
            None => {
                assert(fold_char(word@[it.index() as int]) is None);
                ok = false;
            },
        }
    }
    if ok {
        assert(forall|i: int| 0 <= i < word@.len() ==> #[trigger] fold_char(word@[i]) is Some) by {
            assert forall|i: int| 0 <= i < word@.len() implies #[trigger] fold_char(word@[i]) is Some by {
                assert(fold_char(word@[i]) == Some(out@[i]));
            }
        }
        assert(out@ =~= word@.map_values(|c: char| fold_char(c)->0));
        Some(out)
    } else {
        None
    }
}

} // verus!
