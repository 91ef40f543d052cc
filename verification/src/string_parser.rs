//! Matching of one whole literal string against the whole input.

use crate::series_parser::common_prefix_len;
use crate::series_parser::is_prefix_at;
use crate::series_parser::lemma_common_prefix_len_is;
use crate::series_parser::series_parser;
use vstd::prelude::*;

verus! {

/// The characters of a string, in order.
pub fn chars_of(s: &String) -> (r: Vec<char>)
    ensures
        r@ == s@,
{
    let n = s.as_str().unicode_len();
    let mut r: Vec<char> = Vec::new();
    let mut i: usize = 0;
    while i < n
        invariant
            n == s@.len(),
            0 <= i <= n,
            r@ == s@.subrange(0, i as int),
        decreases n - i,
    {
        r.push(s.as_str().get_char(i));
        proof {
            assert(r@ =~= s@.subrange(0, i + 1));
        }
        i = i + 1;
    }
    proof {
        assert(r@ =~= s@);
    }
    r
}

/// Succeeds exactly when the input is the literal word, character for
/// character, and returns the matched characters; otherwise reports the
/// first position at which the input stops agreeing with the word.
pub fn string_parser(word: &String, input: &String) -> (r: Result<Vec<char>, usize>)
    ensures
        match r {
            Ok(v) => input@ == word@ && v@ == word@,
            Err(e) => input@ != word@ && e == common_prefix_len(word@, input@),
        },
{
    let wchars = chars_of(word);
    let ichars = chars_of(input);
    proof {
        assert(ichars@.skip(0) =~= input@);
    }
    match series_parser(&wchars, &ichars, 0) {
        Ok((v, p)) => {
            if p == ichars.len() {
                proof {
                    if word@.len() == 0 {
                        assert(input@ =~= word@);
                    } else {
                        assert(is_prefix_at(word@, input@, 0));
                        assert(input@ =~= word@);
                    }
                }
                Ok(v)
            } else {
                proof {
                    assert(word@.len() != 0);
                    assert(is_prefix_at(word@, input@, 0));
                    assert(input@.len() != word@.len());
                    lemma_common_prefix_len_is(word@, input@, word@.len() as int);
                }
                Err(p)
            }
        },
        Err(e) => {
            proof {
                if word@.len() == 0 {
                    assert(input@.len() > 0);
                    lemma_common_prefix_len_is(word@, input@, 0);
                } else {
                    assert(!is_prefix_at(word@, input@, 0));
                    if input@ == word@ {
                        assert(is_prefix_at(word@, input@, 0));
                    }
                }
            }
            Err(e)
        },
    }
}

} // verus!
