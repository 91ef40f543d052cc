//! Sequential matching of an ordered list of literal character matchers
//! against the front of the remaining input.

use vstd::prelude::*;

verus! {

/// Length of the longest common prefix of two character sequences.
pub open spec fn common_prefix_len(a: Seq<char>, b: Seq<char>) -> int
    decreases a.len(),
{
    if a.len() == 0 || b.len() == 0 || a[0] != b[0] {
        0
    } else {
        1 + common_prefix_len(a.drop_first(), b.drop_first())
    }
}

/// The characters of `c` occur contiguously in `t` starting at offset `pos`.
pub open spec fn is_prefix_at(c: Seq<char>, t: Seq<char>, pos: int) -> bool {
    &&& 0 <= pos
    &&& pos + c.len() <= t.len()
    &&& forall|k: int| 0 <= k < c.len() ==> t[pos + k] == c[k]
}

pub proof fn lemma_common_prefix_len(a: Seq<char>, b: Seq<char>)
    ensures
        0 <= common_prefix_len(a, b) <= a.len(),
        common_prefix_len(a, b) <= b.len(),
        forall|i: int| 0 <= i < common_prefix_len(a, b) ==> a[i] == b[i],
        common_prefix_len(a, b) < a.len() && common_prefix_len(a, b) < b.len() ==> a[common_prefix_len(
            a,
            b,
        )] != b[common_prefix_len(a, b)],
    decreases a.len(),
{
    if a.len() == 0 || b.len() == 0 || a[0] != b[0] {
    } else {
        lemma_common_prefix_len(a.drop_first(), b.drop_first());
        let n = common_prefix_len(a, b);
        assert forall|i: int| 0 <= i < n implies a[i] == b[i] by {
            if i > 0 {
                assert(a.drop_first()[i - 1] == b.drop_first()[i - 1]);
            }
        }
        if n < a.len() && n < b.len() {
            assert(a.drop_first()[n - 1] != b.drop_first()[n - 1]);
        }
    }
}

/// The common-prefix length is the unique cut `k` below which the two
/// sequences agree and at which they end or differ.
pub proof fn lemma_common_prefix_len_is(a: Seq<char>, b: Seq<char>, k: int)
    requires
        0 <= k <= a.len(),
        k <= b.len(),
        forall|i: int| 0 <= i < k ==> a[i] == b[i],
        k == a.len() || k == b.len() || a[k] != b[k],
    ensures
        common_prefix_len(a, b) == k,
{
    lemma_common_prefix_len(a, b);
    let n = common_prefix_len(a, b);
    if n < k {
        assert(a[n] == b[n]);
    }
    if n > k {
        assert(a[k] == b[k]);
    }
}

/// Matches the expected characters, in order, against `input` starting at
/// `pos`. An empty list of matchers succeeds only when the input is already
/// exhausted; a non-empty list succeeds exactly when it is a prefix of the
/// remaining input, consuming that prefix. On failure the offending input
/// position is reported.
pub fn series_parser(expected: &Vec<char>, input: &Vec<char>, pos: usize) -> (r: Result<
    (Vec<char>, usize),
    usize,
>)
    requires
        pos <= input@.len(),
    ensures
        match r {
            Ok(p) => {
                &&& if expected@.len() == 0 {
                    pos == input@.len()
                } else {
                    is_prefix_at(expected@, input@, pos as int)
                }
                &&& p.0@ == expected@
                &&& p.1 == pos + expected@.len()
            },
            Err(e) => {
                if expected@.len() == 0 {
                    &&& pos < input@.len()
                    &&& e == pos
                } else {
                    &&& !is_prefix_at(expected@, input@, pos as int)
                    &&& e == pos + common_prefix_len(expected@, input@.skip(pos as int))
                }
            },
        },
{
    if expected.len() == 0 {
        if pos == input.len() {
            Ok((Vec::new(), pos))
        } else {
            Err(pos)
        }
    } else {
        let ghost exp = expected@;
        let ghost suffix = input@.skip(pos as int);
        let ilen = input.len();
        let mut k: usize = 0;
        let mut out: Vec<char> = Vec::new();
        loop
            invariant
                exp.len() > 0,
                0 <= k <= exp.len(),
                ilen == input@.len(),
                pos <= input@.len(),
                pos + k <= ilen,
                exp == expected@,
                suffix == input@.skip(pos as int),
                out@ == exp.subrange(0, k as int),
                forall|m: int| 0 <= m < k ==> input@[pos + m] == exp[m],
            decreases exp.len() - k,
        {
            if k == expected.len() {
                proof {
                    assert(out@ =~= exp);
                    assert(is_prefix_at(exp, input@, pos as int));
                }
                return Ok((out, pos + k));
            }
            if pos + k == ilen {
                proof {
                    assert(forall|i: int| 0 <= i < k ==> exp[i] == suffix[i]);
                    lemma_common_prefix_len_is(exp, suffix, k as int);
                    assert(!is_prefix_at(exp, input@, pos as int));
                }
                return Err(pos + k);
            }
            let c = input[pos + k];
            if c != expected[k] {
                proof {
                    assert(forall|i: int| 0 <= i < k ==> exp[i] == suffix[i]);
                    assert(exp[k as int] != suffix[k as int]);
                    lemma_common_prefix_len_is(exp, suffix, k as int);
                    assert(!is_prefix_at(exp, input@, pos as int)) by {
                        assert(input@[pos + k] != exp[k as int]);
                    }
                }
                return Err(pos + k);
            }
            out.push(c);
            proof {
                assert(out@ =~= exp.subrange(0, k + 1));
            }
            k = k + 1;
        }
    }
}

} // verus!
