use vstd::prelude::*;

verus! {

// ------------------------------------------------------------------
// Incremental matching: is the needle a subsequence of the haystack?
// ------------------------------------------------------------------

/// The needle occurs in `hay` as a (not necessarily contiguous) subsequence.
pub open spec fn is_subsequence(needle: Seq<char>, hay: Seq<char>) -> bool
    decreases hay.len(),
{
    if needle.len() == 0 {
        true
    } else if hay.len() == 0 {
        false
    } else {
        (hay[0] == needle[0] && is_subsequence(needle.skip(1), hay.skip(1))) || is_subsequence(
            needle,
            hay.skip(1),
        )
    }
}

/// Greedy left-to-right matching: how many needle characters are matched
/// after scanning `hay`, having already matched the first `k`.
pub open spec fn greedy_count(needle: Seq<char>, hay: Seq<char>, k: nat) -> nat
    decreases hay.len(),
{
    if k >= needle.len() || hay.len() == 0 {
        k
    } else if hay[0] == needle[k as int] {
        greedy_count(needle, hay.skip(1), (k + 1) as nat)
    } else {
        greedy_count(needle, hay.skip(1), k)
    }
}

pub proof fn lemma_greedy_bounds(needle: Seq<char>, hay: Seq<char>, k: nat)
    requires
        k <= needle.len(),
    ensures
        k <= greedy_count(needle, hay, k) <= needle.len(),
    decreases hay.len(),
{
    if k < needle.len() && hay.len() > 0 {
        if hay[0] == needle[k as int] {
            lemma_greedy_bounds(needle, hay.skip(1), (k + 1) as nat);
        } else {
            lemma_greedy_bounds(needle, hay.skip(1), k);
        }
    }
}

/// A subsequence stays a subsequence after dropping its first character.
proof fn lemma_subsequence_drop_first(needle: Seq<char>, hay: Seq<char>)
    requires
        needle.len() > 0,
        is_subsequence(needle, hay),
    ensures
        is_subsequence(needle.skip(1), hay),
    decreases hay.len(),
{
    if needle.len() == 1 {
        assert(needle.skip(1).len() == 0);
    } else {
        assert(hay.len() > 0);
        if hay[0] == needle[0] && is_subsequence(needle.skip(1), hay.skip(1)) {
            assert(is_subsequence(needle.skip(1), hay));
        } else {
            assert(is_subsequence(needle, hay.skip(1)));
            lemma_subsequence_drop_first(needle, hay.skip(1));
            assert(is_subsequence(needle.skip(1), hay.skip(1)));
        }
    }
}

/// Greedy matching is complete: scanning `hay` greedily matches the whole
/// needle exactly when the unmatched part of the needle occurs in `hay` as a
/// subsequence.
pub proof fn lemma_greedy_complete(needle: Seq<char>, hay: Seq<char>, k: nat)
    requires
        k <= needle.len(),
    ensures
        greedy_count(needle, hay, k) == needle.len() <==> is_subsequence(
            needle.skip(k as int),
            hay,
        ),
    decreases hay.len(),
{
    let rest = needle.skip(k as int);
    if k == needle.len() {
        assert(rest.len() == 0);
    } else if hay.len() == 0 {
        assert(rest.len() > 0);
        lemma_greedy_bounds(needle, hay, k);
    } else {
        assert(rest.len() > 0);
        assert(rest[0] == needle[k as int]);
        assert(rest.skip(1) =~= needle.skip(k + 1 as int));
        if hay[0] == needle[k as int] {
            lemma_greedy_complete(needle, hay.skip(1), (k + 1) as nat);
            if is_subsequence(rest, hay) && !(hay[0] == rest[0] && is_subsequence(
                rest.skip(1),
                hay.skip(1),
            )) {
                assert(is_subsequence(rest, hay.skip(1)));
                lemma_subsequence_drop_first(rest, hay.skip(1));
            }
        } else {
            lemma_greedy_complete(needle, hay.skip(1), k);
            assert(is_subsequence(rest, hay) == is_subsequence(rest, hay.skip(1)));
        }
    }
}


/// Matching incrementally is sound: scanning a path one name segment at a
/// time, each push continuing from the previous matched count, yields the
/// same count as scanning the concatenated segments in one pass.
pub proof fn lemma_greedy_append(needle: Seq<char>, a: Seq<char>, b: Seq<char>, k: nat)
    requires
        k <= needle.len(),
    ensures
        greedy_count(needle, a + b, k) == greedy_count(needle, b, greedy_count(needle, a, k)),
    decreases a.len(),
{
    if a.len() == 0 {
        assert(a + b =~= b);
    } else {
        assert((a + b)[0] == a[0]);
        assert((a + b).skip(1) =~= a.skip(1) + b);
        if k >= needle.len() {
        } else if a[0] == needle[k as int] {
            lemma_greedy_append(needle, a.skip(1), b, (k + 1) as nat);
        } else {
            lemma_greedy_append(needle, a.skip(1), b, k);
        }
    }
}

/// The greedy matched count after scanning one more name, starting from `k`
/// already-matched needle characters.
pub fn greedy_advance(needle: &Vec<char>, name: &Vec<char>, k: usize) -> (r: usize)
    requires
        k <= needle@.len(),
    ensures
        r == greedy_count(needle@, name@, k as nat),
        k <= r <= needle@.len(),
{
    let n = name.len();
    let mut cur: usize = k;
    let mut i: usize = 0;
    proof {
        assert(name@.skip(0) =~= name@);
    }
    while i < n
        invariant
            i <= n,
            n == name@.len(),
            k <= cur <= needle@.len(),
            greedy_count(needle@, name@.skip(i as int), cur as nat) == greedy_count(
                needle@,
                name@,
                k as nat,
            ),
        decreases n - i,
    {
        let ghost pre = name@.skip(i as int);
        proof {
            assert(pre[0] == name@[i as int]);
            assert(pre.skip(1) =~= name@.skip(i + 1 as int));
        }
        if cur < needle.len() && name[i] == needle[cur] {
            cur += 1;
        }
        i += 1;
    }
    proof {
        assert(name@.skip(n as int) =~= Seq::<char>::empty());
        lemma_greedy_bounds(needle@, name@, k as nat);
    }
    cur
}

// ------------------------------------------------------------------
// Scoring: the best-scoring alignment of the needle inside a path.
// ------------------------------------------------------------------

/// An alignment of the whole needle inside a haystack: its score and the
/// haystack positions at which the needle characters matched.
pub ghost struct Alignment {
    pub score: int,
    pub positions: Seq<int>,
}

/// Characters that begin a new word inside a path.
pub open spec fn boundary_char(c: char) -> bool {
    c == '/' || c == '-' || c == '_' || c == '.' || c == ' '
}

/// A small penalty for matching late in the path, capped so that every
/// per-character contribution stays within a fixed range.
pub open spec fn position_discount(j: int) -> int {
    if j < 5000 {
        j
    } else {
        5000
    }
}

/// The value of matching a needle character at haystack position `j`, when
/// the previous needle character matched at `last` (-1 when none has):
/// consecutive matches score highest, then matches at the start of a word,
/// then everything else; later positions are discounted slightly.
pub open spec fn char_contrib(hay: Seq<char>, j: int, last: int) -> int {
    (if last >= 0 && j == last + 1 {
        10000int
    } else if j == 0 || boundary_char(hay[j - 1]) {
        8000int
    } else {
        5000int
    }) - position_discount(j)
}

/// The best-scoring alignment of `needle[i..]` within `hay[j..]`, with the
/// previous match at `last`; `None` when no alignment exists. Among equal
/// scores the alignment matching earliest is preferred.
pub open spec fn best_alignment(
    needle: Seq<char>,
    hay: Seq<char>,
    i: int,
    j: int,
    last: int,
) -> Option<Alignment>
    decreases hay.len() - j,
{
    if i >= needle.len() {
        Some(Alignment { score: 0, positions: Seq::empty() })
    } else if j < 0 || j >= hay.len() {
        None
    } else {
        let skipped = best_alignment(needle, hay, i, j + 1, last);
        if hay[j] == needle[i] {
            match best_alignment(needle, hay, i + 1, j + 1, j) {
                Some(rest) => {
                    let taken = Alignment {
                        score: char_contrib(hay, j, last) + rest.score,
                        positions: seq![j] + rest.positions,
                    };
                    match skipped {
                        Some(other) => if taken.score >= other.score {
                            Some(taken)
                        } else {
                            Some(other)
                        },
                        None => Some(taken),
                    }
                },
                None => skipped,
            }
        } else {
            skipped
        }
    }
}

/// Every alignment matches the whole remaining needle, in ascending haystack
/// positions, character for character, with a score in a fixed per-character
/// range.
pub proof fn lemma_alignment_props(needle: Seq<char>, hay: Seq<char>, i: int, j: int, last: int)
    requires
        0 <= i <= needle.len(),
        0 <= j <= hay.len(),
        best_alignment(needle, hay, i, j, last) is Some,
    ensures
        ({
            let a = best_alignment(needle, hay, i, j, last)->Some_0;
            &&& a.positions.len() == needle.len() - i
            &&& (forall|t: int|
                0 <= t < a.positions.len() ==> j <= #[trigger] a.positions[t] < hay.len())
            &&& (forall|t: int|
                0 <= t < a.positions.len() ==> hay[#[trigger] a.positions[t]] == needle[i + t])
            &&& (forall|t: int|
                0 < t < a.positions.len() ==> #[trigger] a.positions[t - 1] < a.positions[t])
            &&& 0 <= a.score <= 10000 * (needle.len() - i)
        }),
    decreases hay.len() - j,
{
    let a = best_alignment(needle, hay, i, j, last)->Some_0;
    if i >= needle.len() {
    } else {
        assert(j < hay.len());
        let skipped = best_alignment(needle, hay, i, j + 1, last);
        if skipped is Some {
            lemma_alignment_props(needle, hay, i, j + 1, last);
        }
        if hay[j] == needle[i] {
            let rest_opt = best_alignment(needle, hay, i + 1, j + 1, j);
            if rest_opt is Some {
                lemma_alignment_props(needle, hay, i + 1, j + 1, j);
                let rest = rest_opt->Some_0;
                let taken = Alignment {
                    score: char_contrib(hay, j, last) + rest.score,
                    positions: seq![j] + rest.positions,
                };
                assert(taken.positions.len() == needle.len() - i);
                assert(forall|t: int|
                    0 < t < taken.positions.len() ==> #[trigger] taken.positions[t]
                        == rest.positions[t - 1]);
                assert(taken.positions[0] == j);
            }
        }
    }
}

/// The integer sequence behind a vector of indices.
pub open spec fn usize_seq(v: Seq<usize>) -> Seq<int> {
    Seq::new(v.len(), |t: int| v[t] as int)
}

pub open spec fn spec_last_index(last: Option<usize>) -> int {
    match last {
        Some(l) => l as int,
        None => -1,
    }
}

/// The best-scoring alignment of `needle[i..]` within `hay[j..]`, computed
/// exactly as `best_alignment` states it.
pub fn best_alignment_exec(
    needle: &Vec<char>,
    hay: &Vec<char>,
    i: usize,
    j: usize,
    last: Option<usize>,
) -> (r: Option<(i128, Vec<usize>)>)
    requires
        i <= needle@.len(),
        j <= hay@.len(),
        spec_last_index(last) < j,
    ensures
        ({
            let a = best_alignment(needle@, hay@, i as int, j as int, spec_last_index(last));
            match r {
                Some(p) => a is Some && p.0 == a->Some_0.score && usize_seq(p.1@)
                    =~= a->Some_0.positions,
                None => a is None,
            }
        }),
    decreases hay@.len() - j,
{
    let ghost g_last = spec_last_index(last);
    if i >= needle.len() {
        return Some((0, Vec::new()));
    }
    if j >= hay.len() {
        return None;
    }
    let skipped = best_alignment_exec(needle, hay, i, j + 1, last);
    if hay[j] == needle[i] {
        match best_alignment_exec(needle, hay, i + 1, j + 1, Some(j)) {
            Some((rest_score, rest_positions)) => {
                proof {
                    lemma_alignment_props(needle@, hay@, i + 1 as int, j + 1 as int, j as int);
                    assert(10000 * (needle@.len() - i - 1) <= 10000 * (usize::MAX as int)) by (nonlinear_arith)
                        requires
                            needle@.len() - i - 1 <= usize::MAX as int,
                    ;
                }
                let step_value: i128 = char_contrib_exec(hay, j, last);
                let take_score: i128 = step_value + rest_score;
                let mut take_positions = rest_positions;
                take_positions.insert(0, j);
                proof {
                    let a_rest = best_alignment(
                        needle@,
                        hay@,
                        i + 1 as int,
                        j + 1 as int,
                        j as int,
                    )->Some_0;
                    assert(usize_seq(take_positions@) =~= seq![j as int] + a_rest.positions);
                }
                match skipped {
                    Some((other_score, other_positions)) => {
                        if take_score >= other_score {
                            Some((take_score, take_positions))
                        } else {
                            Some((other_score, other_positions))
                        }
                    },
                    None => Some((take_score, take_positions)),
                }
            },
            None => skipped,
        }
    } else {
        skipped
    }
}

/// The per-character value, as `char_contrib` states it.
fn char_contrib_exec(hay: &Vec<char>, j: usize, last: Option<usize>) -> (r: i128)
    requires
        j < hay@.len(),
        spec_last_index(last) < j,
    ensures
        r == char_contrib(hay@, j as int, spec_last_index(last)),
        0 <= r <= 10000,
{
    let base: i128 = match last {
        Some(l) if j == l + 1 => 10000,
        _ => {
            if j == 0 {
                8000
            } else {
                let prev = hay[j - 1];
                if prev == '/' || prev == '-' || prev == '_' || prev == '.' || prev == ' ' {
                    8000
                } else {
                    5000
                }
            }
        },
    };
    let discount: i128 = if j < 5000 {
        j as i128
    } else {
        5000
    };
    base - discount
}

/// The score and match positions of the best alignment of `needle` within the
/// whole of `hay`, less a discount that favours shorter paths; `None` when
/// the needle does not occur in `hay` as a subsequence.
pub open spec fn match_score(needle: Seq<char>, hay: Seq<char>) -> Option<Alignment> {
    match best_alignment(needle, hay, 0, 0, -1) {
        Some(a) => Some(
            Alignment {
                score: a.score - 100 * position_discount(hay.len() as int),
                positions: a.positions,
            },
        ),
        None => None,
    }
}

/// Scores `needle` against the full path `hay`, as `match_score` states it.
pub fn match_score_exec(needle: &Vec<char>, hay: &Vec<char>) -> (r: Option<(i128, Vec<usize>)>)
    ensures
        ({
            let a = match_score(needle@, hay@);
            match r {
                Some(p) => a is Some && p.0 == a->Some_0.score && usize_seq(p.1@)
                    =~= a->Some_0.positions,
                None => a is None,
            }
        }),
{
    let needle_len = needle.len();
    match best_alignment_exec(needle, hay, 0, 0, None) {
        Some((score, positions)) => {
            let discount: i128 = if hay.len() < 5000 {
                hay.len() as i128
            } else {
                5000
            };
            proof {
                lemma_alignment_props(needle@, hay@, 0, 0, -1);
                assert(10000 * (needle@.len() - 0) <= 10000 * (usize::MAX as int)) by (nonlinear_arith)
                    requires
                        needle@.len() <= usize::MAX as int,
                ;
            }
            Some((score - 100 * discount, positions))
        },
        None => None,
    }
}

} // verus!
