//! The alignment engine: a backtracking search that assigns to each segment
//! of the word exactly one of its candidate readings so that the chosen
//! readings concatenate to the target string.

use crate::series_parser::is_prefix_at;
use vstd::prelude::*;

verus! {

/// Where the search bottomed out: the segment it could not get past and the
/// target position it had reached there.
#[derive(Debug, Clone, Copy, PartialEq, Eq, Structural)]
pub struct MatchFailure {
    pub segment: usize,
    pub position: usize,
}

/// Concatenation of the chosen readings of an assignment.
pub open spec fn cat_readings(asn: Seq<(char, Seq<char>)>) -> Seq<char>
    decreases asn.len(),
{
    if asn.len() == 0 {
        Seq::empty()
    } else {
        asn[0].1 + cat_readings(asn.drop_first())
    }
}

/// `asn` assigns to each segment of `groups[i..]` one of its candidate
/// readings, keeps every anchor, and its readings concatenate to exactly the
/// part of `target` from `pos` on.
pub open spec fn valid_assignment_from(
    groups: Seq<(char, Seq<Seq<char>>)>,
    target: Seq<char>,
    i: int,
    pos: int,
    asn: Seq<(char, Seq<char>)>,
) -> bool {
    &&& asn.len() == groups.len() - i
    &&& forall|k: int|
        0 <= k < asn.len() ==> (#[trigger] asn[k]).0 == groups[i + k].0 && groups[i
            + k].1.contains(asn[k].1)
    &&& cat_readings(asn) == target.skip(pos)
}

/// `asn` assigns one candidate per segment, in order, and its readings
/// concatenate to exactly `target`.
pub open spec fn valid_assignment(
    groups: Seq<(char, Seq<Seq<char>>)>,
    target: Seq<char>,
    asn: Seq<(char, Seq<char>)>,
) -> bool {
    valid_assignment_from(groups, target, 0, 0, asn)
}

/// The later of two failure points, segment first, then target position.
pub open spec fn fail_max(a: (int, int), b: (int, int)) -> (int, int) {
    if a.0 > b.0 || (a.0 == b.0 && a.1 >= b.1) {
        a
    } else {
        b
    }
}

/// The deterministic search over segments `i..` of `groups` against `target`
/// from `pos`: the base case succeeds only on exhausted input; otherwise the
/// segment's candidates are tried in order. Failures carry the deepest point
/// reached.
pub open spec fn search_at(
    groups: Seq<(char, Seq<Seq<char>>)>,
    target: Seq<char>,
    i: int,
    pos: int,
) -> Result<Seq<(char, Seq<char>)>, (int, int)>
    decreases groups.len() - i, 1int, 0int,
    when 0 <= i <= groups.len()
{
    if i == groups.len() {
        if pos == target.len() {
            Ok(Seq::empty())
        } else {
            Err((i, pos))
        }
    } else {
        try_candidates(groups, target, i, pos, groups[i].1, 0)
    }
}

/// Tries the candidates of segment `i` from index `j` on: the first
/// candidate that both occurs at `pos` of the target and lets the remaining
/// segments finish is committed; all others are passed over.
pub open spec fn try_candidates(
    groups: Seq<(char, Seq<Seq<char>>)>,
    target: Seq<char>,
    i: int,
    pos: int,
    cands: Seq<Seq<char>>,
    j: int,
) -> Result<Seq<(char, Seq<char>)>, (int, int)>
    decreases groups.len() - i, 0int, cands.len() - j,
    when 0 <= i < groups.len() && 0 <= j <= cands.len()
{
    if j >= cands.len() {
        Err((i, pos))
    } else if is_prefix_at(cands[j], target, pos) {
        match search_at(groups, target, i + 1, pos + cands[j].len()) {
            Ok(rest) => Ok(seq![(groups[i].0, cands[j])] + rest),
            Err(e) => match try_candidates(groups, target, i, pos, cands, j + 1) {
                Ok(rest) => Ok(rest),
                Err(e2) => Err(fail_max(e, e2)),
            },
        }
    } else {
        try_candidates(groups, target, i, pos, cands, j + 1)
    }
}

/// One candidate inserted into a list already ordered by descending length:
/// it goes before the first strictly shorter entry.
pub open spec fn insert_desc(x: Seq<char>, s: Seq<Seq<char>>) -> Seq<Seq<char>>
    decreases s.len(),
{
    if s.len() == 0 {
        seq![x]
    } else if x.len() > s[0].len() {
        seq![x] + s
    } else {
        seq![s[0]] + insert_desc(x, s.drop_first())
    }
}

/// The candidates ordered by descending length, entries of equal length
/// keeping their relative order.
pub open spec fn sort_desc(s: Seq<Seq<char>>) -> Seq<Seq<char>>
    decreases s.len(),
{
    if s.len() == 0 {
        s
    } else {
        insert_desc(s[0], sort_desc(s.drop_first()))
    }
}

/// Every segment's candidate list ordered by descending length.
pub open spec fn sort_groups(groups: Seq<(char, Seq<Seq<char>>)>) -> Seq<(char, Seq<Seq<char>>)> {
    Seq::new(groups.len(), |i: int| (groups[i].0, sort_desc(groups[i].1)))
}

/// The whole search: longer candidates of each segment are preferred, and
/// the first assignment reached under that fixed order is the result.
pub open spec fn word_search(groups: Seq<(char, Seq<Seq<char>>)>, target: Seq<char>) -> Result<
    Seq<(char, Seq<char>)>,
    (int, int),
> {
    search_at(sort_groups(groups), target, 0, 0)
}

/// Concatenation of two candidate lists holds exactly the members of either.
proof fn lemma_concat_contains(a: Seq<Seq<char>>, b: Seq<Seq<char>>, y: Seq<char>)
    ensures
        (a + b).contains(y) <==> a.contains(y) || b.contains(y),
{
    if (a + b).contains(y) {
        let k = choose|k: int| 0 <= k < (a + b).len() && (a + b)[k] == y;
        if k < a.len() {
            assert(a[k] == y);
        } else {
            assert(b[k - a.len()] == y);
        }
    }
    if a.contains(y) {
        let k = choose|k: int| 0 <= k < a.len() && a[k] == y;
        assert((a + b)[k] == y);
    }
    if b.contains(y) {
        let k = choose|k: int| 0 <= k < b.len() && b[k] == y;
        assert((a + b)[a.len() + k] == y);
    }
}

/// Inserting a candidate adds exactly that candidate to the members.
proof fn lemma_insert_desc_contains(x: Seq<char>, s: Seq<Seq<char>>, y: Seq<char>)
    ensures
        insert_desc(x, s).contains(y) <==> (y == x || s.contains(y)),
    decreases s.len(),
{
    if s.len() == 0 {
        assert(seq![x][0] == x);
        if insert_desc(x, s).contains(y) {
            let k = choose|k: int| 0 <= k < seq![x].len() && seq![x][k] == y;
            assert(k == 0);
        }
    } else if x.len() > s[0].len() {
        lemma_concat_contains(seq![x], s, y);
        assert(seq![x][0] == x);
        if seq![x].contains(y) {
            let k = choose|k: int| 0 <= k < seq![x].len() && seq![x][k] == y;
            assert(k == 0);
        }
        if y == x {
            assert(seq![x].contains(y));
        }
    } else {
        let rest = s.drop_first();
        lemma_insert_desc_contains(x, rest, y);
        lemma_concat_contains(seq![s[0]], insert_desc(x, rest), y);
        assert(seq![s[0]][0] == s[0]);
        if seq![s[0]].contains(y) {
            let k = choose|k: int| 0 <= k < seq![s[0]].len() && seq![s[0]][k] == y;
            assert(k == 0);
        }
        assert(s.contains(y) <==> (y == s[0] || rest.contains(y))) by {
            if s.contains(y) {
                let k = choose|k: int| 0 <= k < s.len() && s[k] == y;
                if k > 0 {
                    assert(rest[k - 1] == y);
                }
            }
            if rest.contains(y) {
                let k = choose|k: int| 0 <= k < rest.len() && rest[k] == y;
                assert(s[k + 1] == y);
            }
        }
    }
}

/// Ordering the candidates changes no membership.
proof fn lemma_sort_desc_contains(s: Seq<Seq<char>>, y: Seq<char>)
    ensures
        sort_desc(s).contains(y) <==> s.contains(y),
    decreases s.len(),
{
    if s.len() == 0 {
    } else {
        let rest = s.drop_first();
        lemma_sort_desc_contains(rest, y);
        lemma_insert_desc_contains(s[0], sort_desc(rest), y);
        assert(s.contains(y) <==> (y == s[0] || rest.contains(y))) by {
            if s.contains(y) {
                let k = choose|k: int| 0 <= k < s.len() && s[k] == y;
                if k > 0 {
                    assert(rest[k - 1] == y);
                }
            }
            if rest.contains(y) {
                let k = choose|k: int| 0 <= k < rest.len() && rest[k] == y;
                assert(s[k + 1] == y);
            }
            if y == s[0] {
                assert(s[0] == y);
            }
        }
    }
}

/// An assignment is valid against the segments with ordered candidates
/// exactly when it is valid against the segments as given.
pub proof fn lemma_sorted_valid(
    groups: Seq<(char, Seq<Seq<char>>)>,
    target: Seq<char>,
    asn: Seq<(char, Seq<char>)>,
)
    ensures
        valid_assignment(sort_groups(groups), target, asn) <==> valid_assignment(
            groups,
            target,
            asn,
        ),
{
    let sg = sort_groups(groups);
    assert(sg.len() == groups.len());
    if valid_assignment(sg, target, asn) {
        assert forall|k: int|
            0 <= k < asn.len() implies (#[trigger] asn[k]).0 == groups[k].0 && groups[
            k
        ].1.contains(asn[k].1) by {
            lemma_sort_desc_contains(groups[k].1, asn[k].1);
        }
    }
    if valid_assignment(groups, target, asn) {
        assert forall|k: int|
            0 <= k < asn.len() implies (#[trigger] asn[k]).0 == sg[k].0 && sg[k].1.contains(
            asn[k].1,
        ) by {
            lemma_sort_desc_contains(groups[k].1, asn[k].1);
        }
    }
}

/// A valid assignment starts with a candidate of the first open segment that
/// occurs at the current offset, and its tail is valid for the rest.
proof fn lemma_valid_unfold(
    groups: Seq<(char, Seq<Seq<char>>)>,
    target: Seq<char>,
    i: int,
    pos: int,
    asn: Seq<(char, Seq<char>)>,
)
    requires
        0 <= i < groups.len(),
        0 <= pos <= target.len(),
        valid_assignment_from(groups, target, i, pos, asn),
    ensures
        asn.len() > 0,
        asn[0].0 == groups[i].0,
        groups[i].1.contains(asn[0].1),
        is_prefix_at(asn[0].1, target, pos),
        pos + asn[0].1.len() <= target.len(),
        valid_assignment_from(
            groups,
            target,
            i + 1,
            pos + asn[0].1.len(),
            asn.drop_first(),
        ),
{
    let c = asn[0].1;
    let rest = asn.drop_first();
    let cat = cat_readings(asn);
    assert(cat == c + cat_readings(rest));
    assert(cat.len() == target.len() - pos) by {
        assert(cat == target.skip(pos));
    }
    assert(is_prefix_at(c, target, pos)) by {
        assert forall|k: int| 0 <= k < c.len() implies target[pos + k] == c[k] by {
            assert(target.skip(pos)[k] == target[pos + k]);
            assert(cat[k] == c[k]);
        }
    }
    assert(cat_readings(rest) =~= target.skip(pos + c.len())) by {
        assert forall|k: int| 0 <= k < cat_readings(rest).len() implies cat_readings(rest)[k]
            == target.skip(pos + c.len())[k] by {
            assert(cat[c.len() + k] == cat_readings(rest)[k]);
            assert(target.skip(pos)[c.len() + k] == target[pos + c.len() + k]);
        }
    }
    assert forall|k: int|
        0 <= k < rest.len() implies (#[trigger] rest[k]).0 == groups[i + 1 + k].0 && groups[i + 1
        + k].1.contains(rest[k].1) by {
        assert(rest[k] == asn[k + 1]);
    }
}

/// Whatever assignment the search returns is valid.
proof fn lemma_search_sound(groups: Seq<(char, Seq<Seq<char>>)>, target: Seq<char>, i: int, pos: int)
    requires
        0 <= i <= groups.len(),
        0 <= pos <= target.len(),
        search_at(groups, target, i, pos) is Ok,
    ensures
        valid_assignment_from(groups, target, i, pos, search_at(groups, target, i, pos)->Ok_0),
    decreases groups.len() - i, 1int, 0int,
{
    if i == groups.len() {
        assert(cat_readings(Seq::empty()) =~= target.skip(pos));
    } else {
        lemma_try_sound(groups, target, i, pos, 0);
    }
}

/// Whatever assignment trying the candidates from `j` on returns is valid.
proof fn lemma_try_sound(
    groups: Seq<(char, Seq<Seq<char>>)>,
    target: Seq<char>,
    i: int,
    pos: int,
    j: int,
)
    requires
        0 <= i < groups.len(),
        0 <= pos <= target.len(),
        0 <= j <= groups[i].1.len(),
        try_candidates(groups, target, i, pos, groups[i].1, j) is Ok,
    ensures
        valid_assignment_from(
            groups,
            target,
            i,
            pos,
            try_candidates(groups, target, i, pos, groups[i].1, j)->Ok_0,
        ),
    decreases groups.len() - i, 0int, groups[i].1.len() - j,
{
    let cands = groups[i].1;
    if j >= cands.len() {
    } else if is_prefix_at(cands[j], target, pos) {
        let c = cands[j];
        match search_at(groups, target, i + 1, pos + c.len()) {
            Ok(rest) => {
                lemma_search_sound(groups, target, i + 1, pos + c.len());
                let asn = seq![(groups[i].0, c)] + rest;
                assert(asn[0] == (groups[i].0, c));
                assert(cands.contains(c)) by {
                    assert(cands[j] == c);
                }
                assert(asn.drop_first() =~= rest);
                assert(cat_readings(asn) == c + cat_readings(rest));
                assert(c + target.skip(pos + c.len()) =~= target.skip(pos)) by {
                    assert forall|k: int|
                        0 <= k < target.len() - pos implies (c + target.skip(pos + c.len()))[k]
                        == target.skip(pos)[k] by {
                        if k < c.len() {
                            assert(target[pos + k] == c[k]);
                        } else {
                            assert(target.skip(pos + c.len())[k - c.len()] == target[pos + k]);
                        }
                    }
                }
                assert forall|k: int|
                    0 <= k < asn.len() implies (#[trigger] asn[k]).0 == groups[i + k].0 && groups[
                    i + k
                ].1.contains(asn[k].1) by {
                    if k > 0 {
                        assert(asn[k] == rest[k - 1]);
                    }
                }
            },
            Err(_) => {
                lemma_try_sound(groups, target, i, pos, j + 1);
            },
        }
    } else {
        lemma_try_sound(groups, target, i, pos, j + 1);
    }
}

/// The search is complete: where a valid assignment exists, it finds one.
proof fn lemma_search_complete(
    groups: Seq<(char, Seq<Seq<char>>)>,
    target: Seq<char>,
    i: int,
    pos: int,
    asn: Seq<(char, Seq<char>)>,
)
    requires
        0 <= i <= groups.len(),
        0 <= pos <= target.len(),
        valid_assignment_from(groups, target, i, pos, asn),
    ensures
        search_at(groups, target, i, pos) is Ok,
    decreases groups.len() - i, 1int, 0int,
{
    if i == groups.len() {
        assert(target.skip(pos).len() == 0);
    } else {
        lemma_valid_unfold(groups, target, i, pos, asn);
        let cands = groups[i].1;
        let idx = choose|m: int| 0 <= m < cands.len() && cands[m] == asn[0].1;
        lemma_try_complete(groups, target, i, pos, 0, asn, idx);
    }
}

/// Trying the candidates from `j` on succeeds whenever a valid assignment
/// picks candidate `idx >= j`.
proof fn lemma_try_complete(
    groups: Seq<(char, Seq<Seq<char>>)>,
    target: Seq<char>,
    i: int,
    pos: int,
    j: int,
    asn: Seq<(char, Seq<char>)>,
    idx: int,
)
    requires
        0 <= i < groups.len(),
        0 <= pos <= target.len(),
        0 <= j <= idx < groups[i].1.len(),
        groups[i].1[idx] == asn[0].1,
        valid_assignment_from(groups, target, i, pos, asn),
    ensures
        try_candidates(groups, target, i, pos, groups[i].1, j) is Ok,
    decreases groups.len() - i, 0int, groups[i].1.len() - j,
{
    let cands = groups[i].1;
    lemma_valid_unfold(groups, target, i, pos, asn);
    if is_prefix_at(cands[j], target, pos) {
        match search_at(groups, target, i + 1, pos + cands[j].len()) {
            Ok(_) => {},
            Err(_) => {
                if idx == j {
                    lemma_search_complete(
                        groups,
                        target,
                        i + 1,
                        pos + cands[j].len(),
                        asn.drop_first(),
                    );
                } else {
                    lemma_try_complete(groups, target, i, pos, j + 1, asn, idx);
                }
            },
        }
    } else {
        if idx == j {
            assert(is_prefix_at(asn[0].1, target, pos));
        } else {
            lemma_try_complete(groups, target, i, pos, j + 1, asn, idx);
        }
    }
}

/// Inserting before the first strictly shorter entry is insertion at the
/// index of that entry.
proof fn lemma_insert_desc_at(x: Seq<char>, s: Seq<Seq<char>>, j: int)
    requires
        0 <= j <= s.len(),
        forall|m: int| 0 <= m < j ==> !(x.len() > (#[trigger] s[m]).len()),
        j < s.len() ==> x.len() > s[j].len(),
    ensures
        insert_desc(x, s) == s.insert(j, x),
    decreases s.len(),
{
    s.insert_ensures(j, x);
    if s.len() == 0 {
        assert(insert_desc(x, s) =~= s.insert(0, x));
    } else if x.len() > s[0].len() {
        assert(j == 0);
        assert(seq![x] + s =~= s.insert(0, x));
    } else {
        assert(j >= 1);
        let rest = s.drop_first();
        assert(forall|m: int| 0 <= m < j - 1 ==> !(x.len() > (#[trigger] rest[m]).len()));
        lemma_insert_desc_at(x, rest, j - 1);
        rest.insert_ensures(j - 1, x);
        assert(seq![s[0]] + rest.insert(j - 1, x) =~= s.insert(j, x));
    }
}

/// One candidate placed into a list of candidates already ordered by
/// descending character length.
fn insert_by_len(v: Vec<String>, x: String) -> (r: Vec<String>)
    ensures
        r.deep_view() == insert_desc(x@, v.deep_view()),
{
    let xlen = x.as_str().unicode_len();
    let mut j: usize = 0;
    while j < v.len() && xlen <= v[j].as_str().unicode_len()
        invariant
            0 <= j <= v@.len(),
            xlen == x@.len(),
            forall|m: int| 0 <= m < j ==> !(x@.len() > (#[trigger] v.deep_view()[m]).len()),
        decreases v@.len() - j,
    {
        j = j + 1;
    }
    proof {
        lemma_insert_desc_at(x@, v.deep_view(), j as int);
    }
    let ghost old_v = v;
    let mut v = v;
    v.insert(j, x);
    proof {
        old_v.deep_view().insert_ensures(j as int, x@);
        old_v@.insert_ensures(j as int, x);
        assert(v.deep_view() =~= old_v.deep_view().insert(j as int, x@));
    }
    v
}

/// The candidates of one segment, ordered by descending character length,
/// ties keeping their relative order.
fn sorted_candidates(cands: &Vec<String>) -> (r: Vec<String>)
    ensures
        r.deep_view() == sort_desc(cands.deep_view()),
{
    let mut r: Vec<String> = Vec::new();
    let mut i: usize = cands.len();
    proof {
        assert(cands.deep_view().skip(i as int) =~= Seq::<Seq<char>>::empty());
    }
    while i > 0
        invariant
            0 <= i <= cands@.len(),
            r.deep_view() == sort_desc(cands.deep_view().skip(i as int)),
        decreases i,
    {
        i = i - 1;
        let r2 = insert_by_len(r, cands[i].clone());
        proof {
            let c = cands.deep_view();
            assert(c.skip(i as int).drop_first() =~= c.skip(i + 1));
            assert(c.skip(i as int)[0] == c[i as int]);
        }
        r = r2;
    }
    proof {
        assert(cands.deep_view().skip(0) =~= cands.deep_view());
    }
    r
}

/// Every segment with its candidates ordered by descending length.
fn sorted_groups(groups: &Vec<(char, Vec<String>)>) -> (r: Vec<(char, Vec<String>)>)
    ensures
        r.deep_view() == sort_groups(groups.deep_view()),
{
    let mut r: Vec<(char, Vec<String>)> = Vec::new();
    let mut i: usize = 0;
    while i < groups.len()
        invariant
            0 <= i <= groups@.len(),
            r@.len() == i,
            r.deep_view() =~= sort_groups(groups.deep_view()).take(i as int),
        decreases groups@.len() - i,
    {
        let anchor = groups[i].0;
        let cands = sorted_candidates(&groups[i].1);
        let entry = (anchor, cands);
        let ghost ed = entry.deep_view();
        r.push(entry);
        proof {
            let g = groups.deep_view();
            assert(g[i as int] == (groups@[i as int].0, groups@[i as int].1.deep_view()));
            assert(r.deep_view()[i as int] == ed);
            assert(ed == sort_groups(g)[i as int]);
            assert(r.deep_view() =~= sort_groups(g).take(i + 1));
        }
        i = i + 1;
    }
    proof {
        assert(sort_groups(groups.deep_view()).take(groups@.len() as int) =~= sort_groups(
            groups.deep_view(),
        ));
    }
    r
}

/// The executable result carries exactly the contents of the specified one.
pub open spec fn outcome_matches(
    r: Result<Vec<(char, String)>, MatchFailure>,
    s: Result<Seq<(char, Seq<char>)>, (int, int)>,
) -> bool {
    match r {
        Ok(v) => s is Ok && v.deep_view() == s->Ok_0,
        Err(f) => s is Err && f.segment as int == s->Err_0.0 && f.position as int == s->Err_0.1,
    }
}

/// The candidate occurs at offset `pos` of the target.
fn match_prefix(cand: &String, target: &Vec<char>, pos: usize) -> (r: bool)
    requires
        pos <= target@.len(),
    ensures
        r == is_prefix_at(cand@, target@, pos as int),
{
    let n = cand.as_str().unicode_len();
    let tlen = target.len();
    if n > tlen - pos {
        return false;
    }
    let mut k: usize = 0;
    while k < n
        invariant
            n == cand@.len(),
            tlen == target@.len(),
            pos + n <= tlen,
            0 <= k <= n,
            forall|m: int| 0 <= m < k ==> target@[pos + m] == cand@[m],
        decreases n - k,
    {
        if target[pos + k] != cand.as_str().get_char(k) {
            proof {
                assert(target@[pos + k] != cand@[k as int]);
            }
            return false;
        }
        k = k + 1;
    }
    true
}

/// The later of two failure points, segment first, then target position.
fn later_failure(a: MatchFailure, b: MatchFailure) -> (r: MatchFailure)
    ensures
        (r.segment as int, r.position as int) == fail_max(
            (a.segment as int, a.position as int),
            (b.segment as int, b.position as int),
        ),
{
    if a.segment > b.segment || (a.segment == b.segment && a.position >= b.position) {
        a
    } else {
        b
    }
}

/// The search from segment `i` and target offset `pos` on.
fn align_at(groups: &Vec<(char, Vec<String>)>, target: &Vec<char>, i: usize, pos: usize) -> (r:
    Result<Vec<(char, String)>, MatchFailure>)
    requires
        i <= groups@.len(),
        pos <= target@.len(),
    ensures
        outcome_matches(r, search_at(groups.deep_view(), target@, i as int, pos as int)),
    decreases groups@.len() - i, 1int, 0int,
{
    if i == groups.len() {
        if pos == target.len() {
            let v: Vec<(char, String)> = Vec::new();
            proof {
                assert(v.deep_view() =~= Seq::<(char, Seq<char>)>::empty());
            }
            Ok(v)
        } else {
            Err(MatchFailure { segment: i, position: pos })
        }
    } else {
        try_align(groups, target, i, pos, 0)
    }
}

/// Tries the candidates of segment `i` from index `j` on, committing the
/// first one that occurs at `pos` and lets the remaining segments finish.
fn try_align(
    groups: &Vec<(char, Vec<String>)>,
    target: &Vec<char>,
    i: usize,
    pos: usize,
    j: usize,
) -> (r: Result<Vec<(char, String)>, MatchFailure>)
    requires
        i < groups@.len(),
        pos <= target@.len(),
        j <= groups.deep_view()[i as int].1.len(),
    ensures
        outcome_matches(
            r,
            try_candidates(
                groups.deep_view(),
                target@,
                i as int,
                pos as int,
                groups.deep_view()[i as int].1,
                j as int,
            ),
        ),
    decreases groups@.len() - i, 0int, groups.deep_view()[i as int].1.len() - j,
{
    let ghost g = groups.deep_view();
    let cands = &groups[i].1;
    proof {
        assert(g[i as int].1 == cands.deep_view());
    }
    if j == cands.len() {
        Err(MatchFailure { segment: i, position: pos })
    } else {
        let cand = &cands[j];
        proof {
            assert(g[i as int].1[j as int] == cand@);
        }
        if match_prefix(cand, target, pos) {
            let clen = cand.as_str().unicode_len();
            let tlen = target.len();
            let glen = groups.len();
            proof {
                assert(pos + clen <= tlen);
                assert(i < glen);
            }
            match align_at(groups, target, i + 1, pos + clen) {
                Ok(rest) => {
                    let ghost rv = rest.deep_view();
                    let mut out: Vec<(char, String)> = Vec::new();
                    out.push((groups[i].0, cand.clone()));
                    let ghost ov = out.deep_view();
                    proof {
                        assert(ov =~= seq![(g[i as int].0, cand@)]);
                    }
                    let mut rest = rest;
                    out.append(&mut rest);
                    proof {
                        assert(out.deep_view() =~= ov + rv);
                    }
                    Ok(out)
                },
                Err(e) => {
                    match try_align(groups, target, i, pos, j + 1) {
                        Ok(v) => Ok(v),
                        Err(e2) => Err(later_failure(e, e2)),
                    }
                },
            }
        } else {
            try_align(groups, target, i, pos, j + 1)
        }
    }
}

/// Finds an assignment of one candidate reading per segment, longer
/// candidates of a segment being preferred, whose readings concatenate to
/// exactly the target; reports the deepest point the search reached when
/// there is none.
pub fn word_parser(groups: Vec<(char, Vec<String>)>, target: &String) -> (r: Result<
    Vec<(char, String)>,
    MatchFailure,
>)
    ensures
        outcome_matches(r, word_search(groups.deep_view(), target@)),
        r matches Ok(v) ==> valid_assignment(groups.deep_view(), target@, v.deep_view()),
        r is Err ==> forall|asn: Seq<(char, Seq<char>)>|
            !valid_assignment(groups.deep_view(), target@, asn),
{
    let tchars = crate::string_parser::chars_of(target);
    let sorted = sorted_groups(&groups);
    let r = align_at(&sorted, &tchars, 0, 0);
    proof {
        let g = groups.deep_view();
        let sg = sort_groups(g);
        match &r {
            Ok(v) => {
                lemma_search_sound(sg, target@, 0, 0);
                assert(target@.skip(0) =~= target@);
                lemma_sorted_valid(g, target@, v.deep_view());
            },
            Err(_) => {
                assert forall|asn: Seq<(char, Seq<char>)>|
                    !valid_assignment(g, target@, asn) by {
                    if valid_assignment(g, target@, asn) {
                        lemma_sorted_valid(g, target@, asn);
                        lemma_search_complete(sg, target@, 0, 0, asn);
                    }
                }
            },
        }
    }
    r
}

/// Law: any valid assignment reproduces the target exactly, reading for
/// reading, and keeps every anchor of the segment sequence in place.
pub proof fn lemma_round_trip(
    groups: Seq<(char, Seq<Seq<char>>)>,
    target: Seq<char>,
    asn: Seq<(char, Seq<char>)>,
)
    requires
        valid_assignment(groups, target, asn),
    ensures
        cat_readings(asn) == target,
        asn.len() == groups.len(),
        forall|k: int| 0 <= k < asn.len() ==> (#[trigger] asn[k]).0 == groups[k].0,
{
    assert(target.skip(0) =~= target);
}

/// Law: a segment whose candidate list is a single reading is paired, in any
/// valid assignment, with exactly that reading.
pub proof fn lemma_literal_passthrough(
    groups: Seq<(char, Seq<Seq<char>>)>,
    target: Seq<char>,
    asn: Seq<(char, Seq<char>)>,
    k: int,
)
    requires
        valid_assignment(groups, target, asn),
        0 <= k < groups.len(),
        groups[k].1.len() == 1,
    ensures
        asn[k].1 == groups[k].1[0],
{
    assert(groups[k].1.contains(asn[k].1));
    let m = choose|m: int| 0 <= m < groups[k].1.len() && groups[k].1[m] == asn[k].1;
    assert(m == 0);
}

/// Law: the search is a function of its inputs alone: two results that both
/// carry the specified outcome for the same segments and target carry the
/// same assignment, or the same failure point.
pub proof fn lemma_deterministic(
    groups: Seq<(char, Seq<Seq<char>>)>,
    target: Seq<char>,
    r1: Result<Vec<(char, String)>, MatchFailure>,
    r2: Result<Vec<(char, String)>, MatchFailure>,
)
    requires
        outcome_matches(r1, word_search(groups, target)),
        outcome_matches(r2, word_search(groups, target)),
    ensures
        r1 is Ok <==> r2 is Ok,
        r1 matches Ok(v1) ==> r2 matches Ok(v2) && v1.deep_view() == v2.deep_view(),
        r1 matches Err(e1) ==> r2 matches Err(e2) && e1 == e2,
{
}

} // verus!
