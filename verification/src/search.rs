use vstd::prelude::*;
use crate::fuzzy::{greedy_advance, greedy_count, match_score, match_score_exec};
use crate::paths::{chars_to_string, CrossPath};
use crate::status::{
    PathSearchResult, PathSearchStatus, ResultView, SearchObserver, WeakStatusCell,
};
use crate::tree::{entry_wf, name_char_vec, spec_name_chars, tree_wf, Tree, TreeView};

verus! {

/// A marker recorded against an entry identity during the find-matches
/// phase: either the entry's own name completed a match of the needle, or
/// some descendant of the entry did.
#[derive(Clone, Debug)]
pub enum MatchMarker {
    ContainsMatch,
    IsMatch,
}

// ------------------------------------------------------------------
// Phase 1 specification: which entries are marked, walking the tree
// depth-first, skipping ignored entries unconditionally.
// ------------------------------------------------------------------

/// The markers and subtree-match flag after visiting entry `i`, having
/// already matched `k` needle characters along the path to it. A matched
/// entry is marked `IsMatch` and not descended; a directory whose subtree
/// produced a match is marked `ContainsMatch`.
pub open spec fn mark_node(
    t: TreeView,
    needle: Seq<char>,
    marks: Seq<Option<MatchMarker>>,
    i: int,
    k: nat,
) -> (Seq<Option<MatchMarker>>, bool)
    decreases t.entries.len() - i, 1int, 0int,
        when 0 <= i < t.entries.len()
{
    let e = t.entries[i];
    if e.is_ignored {
        (marks, false)
    } else {
        let k2 = greedy_count(needle, spec_name_chars(e), k);
        if k2 == needle.len() {
            (marks.update(i, Some(MatchMarker::IsMatch)), true)
        } else if e.is_dir {
            let walked = mark_children(t, needle, marks, i, 0, k2);
            if walked.1 {
                (walked.0.update(i, Some(MatchMarker::ContainsMatch)), true)
            } else {
                (walked.0, false)
            }
        } else {
            (marks, false)
        }
    }
}

/// Folds `mark_node` over the children of `parent` from position `j` on,
/// or-ing their subtree-match flags.
pub open spec fn mark_children(
    t: TreeView,
    needle: Seq<char>,
    marks: Seq<Option<MatchMarker>>,
    parent: int,
    j: int,
    k: nat,
) -> (Seq<Option<MatchMarker>>, bool)
    decreases t.entries.len() - parent, 0int, t.entries[parent].children.len() - j,
        when 0 <= parent < t.entries.len() && 0 <= j && entry_wf(t, parent)
{
    if j >= t.entries[parent].children.len() {
        (marks, false)
    } else {
        let c = t.entries[parent].children[j];
        let first = mark_node(t, needle, marks, c, k);
        let rest = mark_children(t, needle, first.0, parent, j + 1, k);
        (rest.0, first.1 || rest.1)
    }
}

/// How many entries the find-matches walk visits at and below entry `i` —
/// one liveness probe fires per visited entry.
pub open spec fn mark_node_steps(t: TreeView, needle: Seq<char>, i: int, k: nat) -> nat
    decreases t.entries.len() - i, 1int, 0int,
        when 0 <= i < t.entries.len()
{
    let e = t.entries[i];
    if e.is_ignored {
        1
    } else {
        let k2 = greedy_count(needle, spec_name_chars(e), k);
        if k2 == needle.len() {
            1
        } else if e.is_dir {
            1 + mark_children_steps(t, needle, i, 0, k2)
        } else {
            1
        }
    }
}

/// The visits of the find-matches walk over the children of `parent` from
/// position `j` on.
pub open spec fn mark_children_steps(t: TreeView, needle: Seq<char>, parent: int, j: int, k: nat) -> nat
    decreases t.entries.len() - parent, 0int, t.entries[parent].children.len() - j,
        when 0 <= parent < t.entries.len() && 0 <= j && entry_wf(t, parent)
{
    if j >= t.entries[parent].children.len() {
        0
    } else {
        let c = t.entries[parent].children[j];
        mark_node_steps(t, needle, c, k) + mark_children_steps(t, needle, parent, j + 1, k)
    }
}

/// No markers at all.
pub open spec fn empty_marks(t: TreeView) -> Seq<Option<MatchMarker>> {
    Seq::new(t.entries.len(), |i: int| None::<MatchMarker>)
}

/// The phase-1 markers for one tree. With a single root the walk starts at
/// the root's children (the root name is not part of any matched path); with
/// several roots each root is itself walked as an entry.
pub open spec fn tree_marks(t: TreeView, needle: Seq<char>, single_root: bool) -> Seq<
    Option<MatchMarker>,
> {
    if single_root {
        mark_children(t, needle, empty_marks(t), 0, 0, 0).0
    } else {
        mark_node(t, needle, empty_marks(t), 0, 0).0
    }
}

// ------------------------------------------------------------------
// Top-K admission: results kept sorted by descending score; an equal
// score ranks behind earlier admissions, so ties are deterministic.
// ------------------------------------------------------------------

/// Inserts `c` in front of the first kept result with a strictly smaller
/// score.
pub open spec fn insert_ranked(acc: Seq<ResultView>, c: ResultView) -> Seq<ResultView>
    decreases acc.len(),
{
    if acc.len() == 0 {
        seq![c]
    } else if c.score > acc[0].score {
        seq![c] + acc
    } else {
        seq![acc[0]] + insert_ranked(acc.skip(1), c)
    }
}

/// The admission rule: a candidate enters while fewer than `max` results are
/// kept, or by strictly beating the worst kept score, which evicts the worst.
pub open spec fn spec_offer(acc: Seq<ResultView>, c: ResultView, max: int) -> Seq<ResultView> {
    if acc.len() < max {
        insert_ranked(acc, c)
    } else if max >= 1 && c.score > acc.last().score {
        insert_ranked(acc.take(acc.len() - 1), c)
    } else {
        acc
    }
}

/// Scores never increase along the list.
pub open spec fn sorted_descending(acc: Seq<ResultView>) -> bool {
    forall|p: int, q: int| 0 <= p <= q < acc.len() ==> #[trigger] acc[p].score >= #[trigger] acc[q].score
}

pub proof fn lemma_insert_ranked_sorted(acc: Seq<ResultView>, c: ResultView)
    requires
        sorted_descending(acc),
    ensures
        sorted_descending(insert_ranked(acc, c)),
        insert_ranked(acc, c).len() == acc.len() + 1,
    decreases acc.len(),
{
    let out = insert_ranked(acc, c);
    if acc.len() == 0 {
    } else if c.score > acc[0].score {
        assert forall|p: int, q: int| 0 <= p <= q < out.len() implies #[trigger] out[p].score
            >= #[trigger] out[q].score by {
            if p > 0 {
                assert(out[p] == acc[p - 1]);
                assert(out[q] == acc[q - 1]);
            } else if q > 0 {
                assert(out[q] == acc[q - 1]);
                assert(acc[0].score >= acc[q - 1].score);
            }
        }
    } else {
        assert(sorted_descending(acc.skip(1)));
        lemma_insert_ranked_sorted(acc.skip(1), c);
        let inner = insert_ranked(acc.skip(1), c);
        assert forall|p: int, q: int| 0 <= p <= q < out.len() implies #[trigger] out[p].score
            >= #[trigger] out[q].score by {
            if p > 0 {
                assert(out[p] == inner[p - 1]);
                assert(out[q] == inner[q - 1]);
            } else if q > 0 {
                assert(out[q] == inner[q - 1]);
                if inner.len() > 0 {
                    if q - 1 == 0 {
                        if !(c.score > acc[0].score) {
                            if acc.skip(1).len() == 0 {
                                assert(inner[0] == c);
                            } else if c.score > acc.skip(1)[0].score {
                                assert(inner[0] == c);
                            } else {
                                assert(inner[0] == acc.skip(1)[0]);
                                assert(acc[0].score >= acc[1].score);
                            }
                        }
                    } else {
                        assert(inner[0].score >= inner[q - 1].score);
                        if acc.skip(1).len() == 0 {
                            assert(inner[0] == c);
                        } else if c.score > acc.skip(1)[0].score {
                            assert(inner[0] == c);
                        } else {
                            assert(inner[0] == acc.skip(1)[0]);
                        }
                    }
                }
            }
        }
    }
}

pub proof fn lemma_offer_sorted(acc: Seq<ResultView>, c: ResultView, max: int)
    requires
        sorted_descending(acc),
    ensures
        sorted_descending(spec_offer(acc, c, max)),
        spec_offer(acc, c, max).len() <= if acc.len() < max {
            acc.len() + 1
        } else {
            acc.len()
        },
    decreases acc.len(),
{
    if acc.len() < max {
        lemma_insert_ranked_sorted(acc, c);
    } else if max >= 1 && c.score > acc.last().score {
        let trimmed = acc.take(acc.len() - 1);
        assert(sorted_descending(trimmed));
        lemma_insert_ranked_sorted(trimmed, c);
    }
}

/// The result views of kept search hits, in order.
pub open spec fn results_view(items: Seq<PathSearchResult>) -> Seq<ResultView> {
    Seq::new(items.len(), |i: int| items[i]@)
}

/// A worst-out-last collection of at most `max` results, kept sorted by
/// descending score; equal scores keep their admission order.
pub struct TopK {
    pub max: usize,
    pub items: Vec<PathSearchResult>,
}

impl TopK {
    pub fn new(max: usize) -> (r: Self)
        requires
            max >= 1,
        ensures
            r.max == max,
            r.items@.len() == 0,
    {
        TopK { max, items: Vec::new() }
    }

    /// Inserts `c` in front of the first kept result with a strictly smaller
    /// score.
    fn insert_sorted(&mut self, c: PathSearchResult)
        requires
            old(self).items@.len() < old(self).max,
        ensures
            final(self).max == old(self).max,
            results_view(final(self).items@) =~= insert_ranked(
                results_view(old(self).items@),
                c@,
            ),
            final(self).items@.len() == old(self).items@.len() + 1,
    {
        let ghost full = results_view(self.items@);
        let n = self.items.len();
        let mut idx: usize = 0;
        proof {
            assert(full.skip(0) =~= full);
            assert(insert_ranked(full, c@) =~= full.take(0) + insert_ranked(full.skip(0), c@));
        }
        while idx < n && !(c.score > self.items[idx].score)
            invariant
                idx <= n,
                n == self.items@.len(),
                n < self.max,
                self == old(self),
                insert_ranked(results_view(self.items@), c@) =~= results_view(
                    self.items@,
                ).take(idx as int) + insert_ranked(
                    results_view(self.items@).skip(idx as int),
                    c@,
                ),
            decreases n - idx,
        {
            let ghost view_all = results_view(self.items@);
            let ghost tail = view_all.skip(idx as int);
            proof {
                assert(tail[0] == view_all[idx as int]);
                assert(!(c@.score > tail[0].score));
                assert(insert_ranked(tail, c@) =~= seq![tail[0]] + insert_ranked(
                    tail.skip(1),
                    c@,
                ));
                assert(tail.skip(1) =~= view_all.skip(idx + 1 as int));
                assert(view_all.take(idx as int) + seq![tail[0]] =~= view_all.take(
                    idx + 1 as int,
                ));
                assert(view_all.take(idx as int) + insert_ranked(tail, c@) =~= view_all.take(
                    idx + 1 as int,
                ) + insert_ranked(view_all.skip(idx + 1 as int), c@));
            }
            idx += 1;
        }
        let ghost view_all = results_view(self.items@);
        self.items.insert(idx, c);
        proof {
            let tail = view_all.skip(idx as int);
            if idx < n {
                assert(tail[0] == view_all[idx as int]);
                assert(c@.score > tail[0].score);
                assert(insert_ranked(tail, c@) =~= seq![c@] + tail);
            } else {
                assert(tail =~= Seq::<ResultView>::empty());
                assert(insert_ranked(tail, c@) =~= seq![c@]);
            }
            assert(results_view(self.items@) =~= view_all.take(idx as int) + seq![c@]
                + view_all.skip(idx as int));
            assert(results_view(self.items@) =~= insert_ranked(view_all, c@));
        }
    }

    /// Admits `c` if it qualifies: either the collection is not full, or `c`
    /// strictly beats the worst kept score (which is then evicted).
    pub fn offer(&mut self, c: PathSearchResult)
        requires
            old(self).max >= 1,
            old(self).items@.len() <= old(self).max,
        ensures
            final(self).max == old(self).max,
            final(self).items@.len() <= final(self).max,
            results_view(final(self).items@) =~= spec_offer(
                results_view(old(self).items@),
                c@,
                old(self).max as int,
            ),
    {
        let n = self.items.len();
        if n < self.max {
            self.insert_sorted(c);
        } else if c.score > self.items[n - 1].score {
            let ghost before = results_view(self.items@);
            let _ = self.items.pop();
            proof {
                assert(before.last() == before[n - 1]);
                assert(results_view(self.items@) =~= before.take(n - 1 as int));
            }
            self.insert_sorted(c);
        }
    }
}

// ------------------------------------------------------------------
// Phase 2 specification: rank the marked entries, walking the trees
// again, honouring `include_ignored`, scoring candidate files and
// admitting them into the top-K list.
// ------------------------------------------------------------------

/// The fixed inputs of the rank walk over one tree.
pub ghost struct RankEnv {
    pub t: TreeView,
    pub marks: Seq<Option<MatchMarker>>,
    pub needle: Seq<char>,
    pub include_ignored: bool,
    pub repo_id: int,
    pub max_results: int,
}

/// The kept results after visiting entry `i` of the rank walk. `in_match`
/// says whether a matched ancestor put the whole subtree in scope; `rel` and
/// `disp` are the relative-path components and display characters
/// accumulated above this entry; `skip_rel` excludes this entry's own name
/// from relative paths (used for the root entries of a multi-root walk).
pub open spec fn rank_node(
    env: RankEnv,
    i: int,
    in_match: bool,
    skip_rel: bool,
    rel: Seq<Seq<char>>,
    disp: Seq<char>,
    acc: Seq<ResultView>,
) -> Seq<ResultView>
    decreases env.t.entries.len() - i, 1int, 0int,
        when 0 <= i < env.t.entries.len()
{
    let e = env.t.entries[i];
    if e.is_ignored && !env.include_ignored {
        acc
    } else if e.is_dir {
        let is_match = in_match || env.marks[i] == Some(MatchMarker::IsMatch);
        let descend = in_match || env.marks[i] is Some;
        if descend {
            rank_children(
                env,
                i,
                0,
                is_match,
                if skip_rel {
                    rel
                } else {
                    rel.push(e.name)
                },
                disp + spec_name_chars(e),
                acc,
            )
        } else {
            acc
        }
    } else {
        if in_match || env.marks[i] is Some {
            let full = disp + e.name;
            match match_score(env.needle, full) {
                Some(a) => spec_offer(
                    acc,
                    ResultView {
                        score: a.score,
                        positions: a.positions,
                        repo_id: env.repo_id,
                        relative_path: rel.push(e.name),
                        display_path: full,
                    },
                    env.max_results,
                ),
                None => acc,
            }
        } else {
            acc
        }
    }
}

/// Folds `rank_node` over the children of `parent` from position `j` on.
pub open spec fn rank_children(
    env: RankEnv,
    parent: int,
    j: int,
    in_match: bool,
    rel: Seq<Seq<char>>,
    disp: Seq<char>,
    acc: Seq<ResultView>,
) -> Seq<ResultView>
    decreases env.t.entries.len() - parent, 0int, env.t.entries[parent].children.len() - j,
        when 0 <= parent < env.t.entries.len() && 0 <= j && entry_wf(env.t, parent)
{
    if j >= env.t.entries[parent].children.len() {
        acc
    } else {
        let c = env.t.entries[parent].children[j];
        let acc2 = rank_node(env, c, in_match, false, rel, disp, acc);
        rank_children(env, parent, j + 1, in_match, rel, disp, acc2)
    }
}

/// How many entries the rank walk visits at and below entry `i` — one
/// liveness probe fires per visited entry.
pub open spec fn rank_node_steps(env: RankEnv, i: int, in_match: bool) -> nat
    decreases env.t.entries.len() - i, 1int, 0int,
        when 0 <= i < env.t.entries.len()
{
    let e = env.t.entries[i];
    if e.is_ignored && !env.include_ignored {
        1
    } else if e.is_dir {
        if in_match || env.marks[i] is Some {
            1 + rank_children_steps(env, i, 0, in_match || env.marks[i] == Some(
                MatchMarker::IsMatch,
            ))
        } else {
            1
        }
    } else {
        1
    }
}

/// The visits of the rank walk over the children of `parent` from position
/// `j` on.
pub open spec fn rank_children_steps(env: RankEnv, parent: int, j: int, in_match: bool) -> nat
    decreases env.t.entries.len() - parent, 0int, env.t.entries[parent].children.len() - j,
        when 0 <= parent < env.t.entries.len() && 0 <= j && entry_wf(env.t, parent)
{
    if j >= env.t.entries[parent].children.len() {
        0
    } else {
        let c = env.t.entries[parent].children[j];
        rank_node_steps(env, c, in_match) + rank_children_steps(env, parent, j + 1, in_match)
    }
}

// ------------------------------------------------------------------
// The whole search as one mathematical function of its snapshot.
// ------------------------------------------------------------------

/// The snapshot a path search runs on.
pub ghost struct SearchView {
    pub repo_ids: Seq<int>,
    pub trees: Seq<TreeView>,
    pub needle: Seq<char>,
    pub max_results: int,
    pub include_ignored: bool,
}

pub open spec fn search_wf(s: SearchView) -> bool {
    &&& s.repo_ids.len() == s.trees.len()
    &&& s.max_results >= 1
    &&& forall|t: int| 0 <= t < s.trees.len() ==> tree_wf(#[trigger] s.trees[t])
}

/// The phase-1 markers of every tree of the snapshot.
pub open spec fn all_marks(s: SearchView) -> Seq<Seq<Option<MatchMarker>>> {
    Seq::new(s.trees.len(), |t: int| tree_marks(s.trees[t], s.needle, s.trees.len() == 1))
}

pub open spec fn rank_env(
    s: SearchView,
    marks: Seq<Seq<Option<MatchMarker>>>,
    t: int,
) -> RankEnv {
    RankEnv {
        t: s.trees[t],
        marks: marks[t],
        needle: s.needle,
        include_ignored: s.include_ignored,
        repo_id: s.repo_ids[t],
        max_results: s.max_results,
    }
}

/// Folds the rank walk over the root entries of a multi-root snapshot: each
/// root's name appears in display paths but not in relative paths.
pub open spec fn rank_roots(
    s: SearchView,
    marks: Seq<Seq<Option<MatchMarker>>>,
    t: int,
    acc: Seq<ResultView>,
) -> Seq<ResultView>
    decreases s.trees.len() - t,
        when 0 <= t
{
    if t >= s.trees.len() {
        acc
    } else {
        rank_roots(
            s,
            marks,
            t + 1,
            rank_node(
                rank_env(s, marks, t),
                0,
                false,
                true,
                Seq::empty(),
                Seq::empty(),
                acc,
            ),
        )
    }
}

/// The ranked results of a search given its phase-1 markers, best first.
pub open spec fn spec_ranked(s: SearchView, marks: Seq<Seq<Option<MatchMarker>>>) -> Seq<
    ResultView,
> {
    if s.trees.len() == 1 {
        rank_children(rank_env(s, marks, 0), 0, 0, false, Seq::empty(), Seq::empty(), Seq::empty())
    } else {
        rank_roots(s, marks, 0, Seq::empty())
    }
}

/// The complete published results of a search: empty for an empty needle,
/// otherwise both phases run over the snapshot.
pub open spec fn spec_search_results(s: SearchView) -> Seq<ResultView> {
    if s.needle.len() == 0 {
        Seq::empty()
    } else {
        spec_ranked(s, all_marks(s))
    }
}

/// The find-matches visits of the root entries from `t` on.
pub open spec fn find_roots_steps(s: SearchView, t: int) -> nat
    decreases s.trees.len() - t,
        when 0 <= t
{
    if t >= s.trees.len() {
        0
    } else {
        mark_node_steps(s.trees[t], s.needle, 0, 0) + find_roots_steps(s, t + 1)
    }
}

/// How many entries the whole find-matches phase visits.
pub open spec fn find_phase_steps(s: SearchView) -> nat {
    if s.trees.len() == 1 {
        mark_children_steps(s.trees[0], s.needle, 0, 0, 0)
    } else {
        find_roots_steps(s, 0)
    }
}

/// The rank visits of the root entries from `t` on.
pub open spec fn rank_roots_steps(s: SearchView, marks: Seq<Seq<Option<MatchMarker>>>, t: int) -> nat
    decreases s.trees.len() - t,
        when 0 <= t
{
    if t >= s.trees.len() {
        0
    } else {
        rank_node_steps(rank_env(s, marks, t), 0, false) + rank_roots_steps(s, marks, t + 1)
    }
}

/// How many entries the whole rank phase visits.
pub open spec fn rank_phase_steps(s: SearchView, marks: Seq<Seq<Option<MatchMarker>>>) -> nat {
    if s.trees.len() == 1 {
        rank_children_steps(rank_env(s, marks, 0), 0, 0, false)
    } else {
        rank_roots_steps(s, marks, 0)
    }
}

// ------------------------------------------------------------------
// The executable search.
// ------------------------------------------------------------------

/// How many walk steps pass between observer-liveness checks in each phase;
/// scoring is more expensive per step, so the rank phase checks more often.
pub const FIND_CHECK_PERIOD: usize = 10000;

pub const RANK_CHECK_PERIOD: usize = 1000;

/// Counts one walk step and, every `period` steps, probes whether any
/// observer is left, reporting cancellation if none is. Below the period no
/// probe happens and the counter just advances; a passed probe resets it.
fn check_cancellation(steps: &mut usize, period: usize, updates: &WeakStatusCell) -> (r: Result<
    (),
    (),
>)
    requires
        *old(steps) < period,
    ensures
        r is Ok ==> *final(steps) < period,
        *old(steps) + 1 < period ==> (r is Ok && *final(steps) == *old(steps) + 1),
        r is Ok ==> (*final(steps) == *old(steps) + 1 || (*old(steps) + 1 == period
            && *final(steps) == 0)),
        r is Err ==> (*old(steps) + 1 == period && *final(steps) == period),
{
    *steps += 1;
    if *steps == period {
        if updates.has_observers() {
            *steps = 0;
            Ok(())
        } else {
            Err(())
        }
    } else {
        Ok(())
    }
}

/// A copy of a character vector.
fn copy_chars(v: &Vec<char>) -> (r: Vec<char>)
    ensures
        r@ == v@,
{
    let mut out: Vec<char> = Vec::new();
    let n = v.len();
    let mut i: usize = 0;
    while i < n
        invariant
            i <= n,
            n == v@.len(),
            out@ =~= v@.take(i as int),
        decreases n - i,
    {
        out.push(v[i]);
        i += 1;
        proof {
            assert(v@.take(i as int) =~= v@.take(i - 1 as int).push(v@[i - 1]));
        }
    }
    proof {
        assert(v@.take(n as int) =~= v@);
    }
    out
}

/// Visits entry `i` of the find-matches walk, as `mark_node` states it;
/// `Err` reports cancellation.
fn mark_node_exec(
    tree: &Tree,
    needle: &Vec<char>,
    marks: &mut Vec<Option<MatchMarker>>,
    i: usize,
    k: usize,
    steps: &mut usize,
    updates: &WeakStatusCell,
) -> (r: Result<bool, ()>)
    requires
        tree_wf(tree@),
        i < tree@.entries.len(),
        old(marks)@.len() == tree@.entries.len(),
        k <= needle@.len(),
        *old(steps) < FIND_CHECK_PERIOD,
    ensures
        final(marks)@.len() == tree@.entries.len(),
        r is Ok ==> *final(steps) < FIND_CHECK_PERIOD,
        r is Ok ==> ({
            let m = mark_node(tree@, needle@, old(marks)@, i as int, k as nat);
            final(marks)@ == m.0 && r->Ok_0 == m.1
        }),
        *old(steps) + mark_node_steps(tree@, needle@, i as int, k as nat) < FIND_CHECK_PERIOD
            ==> (r is Ok && *final(steps) == *old(steps) + mark_node_steps(
            tree@,
            needle@,
            i as int,
            k as nat,
        )),
    decreases tree@.entries.len() - i, 1int, 0int,
{
    proof {
        assert(mark_node_steps(tree@, needle@, i as int, k as nat) >= 1);
    }
    match check_cancellation(steps, FIND_CHECK_PERIOD, updates) {
        Ok(()) => {},
        Err(()) => {
            return Err(());
        },
    }
    let e = &tree.entries[i];
    proof {
        assert(tree@.entries[i as int] == e@);
    }
    if e.is_ignored {
        return Ok(false);
    }
    let name = name_char_vec(e);
    let k2 = greedy_advance(needle, &name, k);
    if k2 == needle.len() {
        marks[i] = Some(MatchMarker::IsMatch);
        return Ok(true);
    }
    if e.is_dir {
        let found = match mark_children_exec(tree, needle, marks, i, k2, steps, updates) {
            Ok(f) => f,
            Err(()) => {
                return Err(());
            },
        };
        if found {
            marks[i] = Some(MatchMarker::ContainsMatch);
            return Ok(true);
        }
        return Ok(false);
    }
    Ok(false)
}

/// Walks the children of directory `parent` in the find-matches phase, as
/// `mark_children` states it.
fn mark_children_exec(
    tree: &Tree,
    needle: &Vec<char>,
    marks: &mut Vec<Option<MatchMarker>>,
    parent: usize,
    k: usize,
    steps: &mut usize,
    updates: &WeakStatusCell,
) -> (r: Result<bool, ()>)
    requires
        tree_wf(tree@),
        parent < tree@.entries.len(),
        old(marks)@.len() == tree@.entries.len(),
        k <= needle@.len(),
        *old(steps) < FIND_CHECK_PERIOD,
    ensures
        final(marks)@.len() == tree@.entries.len(),
        r is Ok ==> *final(steps) < FIND_CHECK_PERIOD,
        r is Ok ==> ({
            let m = mark_children(tree@, needle@, old(marks)@, parent as int, 0, k as nat);
            final(marks)@ == m.0 && r->Ok_0 == m.1
        }),
        *old(steps) + mark_children_steps(tree@, needle@, parent as int, 0, k as nat)
            < FIND_CHECK_PERIOD ==> (r is Ok && *final(steps) == *old(steps)
            + mark_children_steps(tree@, needle@, parent as int, 0, k as nat)),
    decreases tree@.entries.len() - parent, 0int, tree@.entries[parent as int].children.len() + 1,
{
    proof {
        assert(entry_wf(tree@, parent as int));
    }
    let ghost budget_ok = *old(steps) + mark_children_steps(
        tree@,
        needle@,
        parent as int,
        0,
        k as nat,
    ) < FIND_CHECK_PERIOD;
    let ghost target = *old(steps) + mark_children_steps(
        tree@,
        needle@,
        parent as int,
        0,
        k as nat,
    );
    let ghost m0 = marks@;
    let n = tree.entries[parent].children.len();
    let mut j: usize = 0;
    let mut found = false;
    while j < n
        invariant
            j <= n,
            n == tree@.entries[parent as int].children.len(),
            tree_wf(tree@),
            parent < tree@.entries.len(),
            k <= needle@.len(),
            marks@.len() == tree@.entries.len(),
            *steps < FIND_CHECK_PERIOD,
            ({
                let full = mark_children(tree@, needle@, m0, parent as int, 0, k as nat);
                let rest = mark_children(tree@, needle@, marks@, parent as int, j as int, k as nat);
                rest.0 == full.0 && (found || rest.1) == full.1
            }),
            budget_ok == (*old(steps) + mark_children_steps(tree@, needle@, parent as int, 0, k as nat)
                < FIND_CHECK_PERIOD),
            target == *old(steps) + mark_children_steps(tree@, needle@, parent as int, 0, k as nat),
            budget_ok ==> *steps + mark_children_steps(tree@, needle@, parent as int, j as int, k as nat)
                == target && target < FIND_CHECK_PERIOD,
        decreases n - j,
    {
        let c = tree.entries[parent].children[j];
        proof {
            assert(tree@.entries[parent as int].children[j as int] == c as int);
            assert(entry_wf(tree@, parent as int));
            assert(parent < c < tree@.entries.len());
            assert(mark_children_steps(tree@, needle@, parent as int, j as int, k as nat)
                == mark_node_steps(tree@, needle@, c as int, k as nat) + mark_children_steps(
                tree@,
                needle@,
                parent as int,
                j + 1 as int,
                k as nat,
            ));
        }
        let ghost pre = marks@;
        let ghost steps_at_call = *steps;
        let child_found = match mark_node_exec(tree, needle, marks, c, k, steps, updates) {
            Ok(f) => f,
            Err(()) => {
                proof {
                    if budget_ok {
                        assert(steps_at_call + mark_node_steps(tree@, needle@, c as int, k as nat)
                            < FIND_CHECK_PERIOD);
                        assert(false);
                    }
                }
                return Err(());
            },
        };
        found = found || child_found;
        j += 1;
        proof {
            let stepped = mark_node(tree@, needle@, pre, c as int, k as nat);
            assert(marks@ == stepped.0 && child_found == stepped.1);
            assert(mark_children(tree@, needle@, pre, parent as int, j - 1 as int, k as nat)
                == (mark_children(tree@, needle@, stepped.0, parent as int, j as int, k as nat).0,
            stepped.1 || mark_children(
                tree@,
                needle@,
                stepped.0,
                parent as int,
                j as int,
                k as nat,
            ).1));
        }
    }
    proof {
        assert(mark_children(tree@, needle@, marks@, parent as int, n as int, k as nat) == (
        marks@,
        false,
        ));
        assert(mark_children_steps(tree@, needle@, parent as int, n as int, k as nat) == 0);
    }
    Ok(found)
}

pub open spec fn exec_env(
    t: TreeView,
    marks: Seq<Option<MatchMarker>>,
    needle: Seq<char>,
    include_ignored: bool,
    repo_id: int,
    max_results: int,
) -> RankEnv {
    RankEnv { t, marks, needle, include_ignored, repo_id, max_results }
}

/// Visits entry `i` of the rank walk, as `rank_node` states it; `Err`
/// reports cancellation.
fn rank_node_exec(
    tree: &Tree,
    marks: &Vec<Option<MatchMarker>>,
    needle: &Vec<char>,
    include_ignored: bool,
    repo_id: usize,
    i: usize,
    in_match: bool,
    skip_rel: bool,
    rel: &CrossPath,
    disp: &Vec<char>,
    results: &mut TopK,
    steps: &mut usize,
    updates: &WeakStatusCell,
) -> (r: Result<(), ()>)
    requires
        tree_wf(tree@),
        i < tree@.entries.len(),
        marks@.len() == tree@.entries.len(),
        old(results).max >= 1,
        old(results).items@.len() <= old(results).max,
        *old(steps) < RANK_CHECK_PERIOD,
    ensures
        final(results).max == old(results).max,
        final(results).items@.len() <= final(results).max,
        r is Ok ==> *final(steps) < RANK_CHECK_PERIOD,
        r is Ok ==> results_view(final(results).items@) == rank_node(
            exec_env(
                tree@,
                marks@,
                needle@,
                include_ignored,
                repo_id as int,
                old(results).max as int,
            ),
            i as int,
            in_match,
            skip_rel,
            rel@,
            disp@,
            results_view(old(results).items@),
        ),
        *old(steps) + rank_node_steps(
            exec_env(
                tree@,
                marks@,
                needle@,
                include_ignored,
                repo_id as int,
                old(results).max as int,
            ),
            i as int,
            in_match,
        ) < RANK_CHECK_PERIOD ==> (r is Ok && *final(steps) == *old(steps) + rank_node_steps(
            exec_env(
                tree@,
                marks@,
                needle@,
                include_ignored,
                repo_id as int,
                old(results).max as int,
            ),
            i as int,
            in_match,
        )),
    decreases tree@.entries.len() - i, 1int, 0int,
{
    proof {
        assert(rank_node_steps(
            exec_env(
                tree@,
                marks@,
                needle@,
                include_ignored,
                repo_id as int,
                old(results).max as int,
            ),
            i as int,
            in_match,
        ) >= 1);
    }
    let ghost env = exec_env(
        tree@,
        marks@,
        needle@,
        include_ignored,
        repo_id as int,
        old(results).max as int,
    );
    match check_cancellation(steps, RANK_CHECK_PERIOD, updates) {
        Ok(()) => {},
        Err(()) => {
            return Err(());
        },
    }
    let e = &tree.entries[i];
    proof {
        assert(tree@.entries[i as int] == e@);
    }
    if e.is_ignored && !include_ignored {
        return Ok(());
    }
    if e.is_dir {
        let is_match = if in_match {
            true
        } else {
            match &marks[i] {
                Some(MatchMarker::IsMatch) => true,
                _ => false,
            }
        };
        let descend = if in_match {
            true
        } else {
            match &marks[i] {
                Some(_) => true,
                None => false,
            }
        };
        proof {
            assert(is_match == (in_match || env.marks[i as int] == Some(MatchMarker::IsMatch)));
            assert(descend == (in_match || env.marks[i as int] is Some));
        }
        if descend {
            let mut rel2 = rel.duplicate();
            if !skip_rel {
                rel2.push(e.name.clone());
            }
            let mut disp2 = copy_chars(disp);
            let mut name = name_char_vec(e);
            disp2.append(&mut name);
            proof {
                assert(disp2@ == disp@ + spec_name_chars(e@));
                if skip_rel {
                    assert(rel2@ =~= rel@);
                    assert(rel2@ == rel@);
                } else {
                    assert(rel2@ =~= rel@.push(e@.name));
                    assert(rel2@ == rel@.push(e@.name));
                }
            }
            match rank_children_exec(
                tree,
                marks,
                needle,
                include_ignored,
                repo_id,
                i,
                is_match,
                &rel2,
                &disp2,
                results,
                steps,
                updates,
            ) {
                Ok(()) => Ok(()),
                Err(()) => Err(()),
            }
        } else {
            Ok(())
        }
    } else {
        let marked = match &marks[i] {
            Some(_) => true,
            None => false,
        };
        proof {
            assert(marked == (env.marks[i as int] is Some));
        }
        if in_match || marked {
            let mut full = copy_chars(disp);
            let mut name = name_char_vec(e);
            full.append(&mut name);
            proof {
                assert(spec_name_chars(e@) == e@.name);
                assert(full@ == disp@ + e@.name);
            }
            match match_score_exec(needle, &full) {
                Some((score, positions)) => {
                    let mut rel2 = rel.duplicate();
                    rel2.push(e.name.clone());
                    let display_path = chars_to_string(&full);
                    let candidate = PathSearchResult {
                        score,
                        positions,
                        repo_id,
                        relative_path: rel2,
                        display_path,
                    };
                    proof {
                        let a = match_score(needle@, full@)->Some_0;
                        assert(candidate@.positions =~= a.positions);
                        assert(candidate@.relative_path =~= rel@.push(e@.name));
                        assert(candidate@ == ResultView {
                            score: a.score,
                            positions: a.positions,
                            repo_id: repo_id as int,
                            relative_path: rel@.push(e@.name),
                            display_path: full@,
                        });
                    }
                    results.offer(candidate);
                },
                None => {},
            }
            Ok(())
        } else {
            Ok(())
        }
    }
}

/// Walks the children of directory `parent` in the rank phase, as
/// `rank_children` states it.
fn rank_children_exec(
    tree: &Tree,
    marks: &Vec<Option<MatchMarker>>,
    needle: &Vec<char>,
    include_ignored: bool,
    repo_id: usize,
    parent: usize,
    in_match: bool,
    rel: &CrossPath,
    disp: &Vec<char>,
    results: &mut TopK,
    steps: &mut usize,
    updates: &WeakStatusCell,
) -> (r: Result<(), ()>)
    requires
        tree_wf(tree@),
        parent < tree@.entries.len(),
        marks@.len() == tree@.entries.len(),
        old(results).max >= 1,
        old(results).items@.len() <= old(results).max,
        *old(steps) < RANK_CHECK_PERIOD,
    ensures
        final(results).max == old(results).max,
        final(results).items@.len() <= final(results).max,
        r is Ok ==> *final(steps) < RANK_CHECK_PERIOD,
        r is Ok ==> results_view(final(results).items@) == rank_children(
            exec_env(
                tree@,
                marks@,
                needle@,
                include_ignored,
                repo_id as int,
                old(results).max as int,
            ),
            parent as int,
            0,
            in_match,
            rel@,
            disp@,
            results_view(old(results).items@),
        ),
        *old(steps) + rank_children_steps(
            exec_env(
                tree@,
                marks@,
                needle@,
                include_ignored,
                repo_id as int,
                old(results).max as int,
            ),
            parent as int,
            0,
            in_match,
        ) < RANK_CHECK_PERIOD ==> (r is Ok && *final(steps) == *old(steps) + rank_children_steps(
            exec_env(
                tree@,
                marks@,
                needle@,
                include_ignored,
                repo_id as int,
                old(results).max as int,
            ),
            parent as int,
            0,
            in_match,
        )),
    decreases tree@.entries.len() - parent, 0int, tree@.entries[parent as int].children.len() + 1,
{
    proof {
        assert(entry_wf(tree@, parent as int));
    }
    let ghost env = exec_env(
        tree@,
        marks@,
        needle@,
        include_ignored,
        repo_id as int,
        old(results).max as int,
    );
    let ghost acc0 = results_view(results.items@);
    let n = tree.entries[parent].children.len();
    let mut j: usize = 0;
    while j < n
        invariant
            j <= n,
            n == tree@.entries[parent as int].children.len(),
            tree_wf(tree@),
            parent < tree@.entries.len(),
            marks@.len() == tree@.entries.len(),
            results.max == old(results).max,
            results.max >= 1,
            results.items@.len() <= results.max,
            *steps < RANK_CHECK_PERIOD,
            entry_wf(tree@, parent as int),
            env == exec_env(
                tree@,
                marks@,
                needle@,
                include_ignored,
                repo_id as int,
                results.max as int,
            ),
            rank_children(env, parent as int, j as int, in_match, rel@, disp@, results_view(
                results.items@,
            )) == rank_children(env, parent as int, 0, in_match, rel@, disp@, acc0),
            *old(steps) + rank_children_steps(env, parent as int, 0, in_match) < RANK_CHECK_PERIOD
                ==> *steps + rank_children_steps(env, parent as int, j as int, in_match)
                == *old(steps) + rank_children_steps(env, parent as int, 0, in_match),
        decreases n - j,
    {
        let c = tree.entries[parent].children[j];
        proof {
            assert(tree@.entries[parent as int].children[j as int] == c as int);
            assert(parent < c < tree@.entries.len());
            assert(rank_children_steps(env, parent as int, j as int, in_match) == rank_node_steps(
                env,
                c as int,
                in_match,
            ) + rank_children_steps(env, parent as int, j + 1 as int, in_match));
        }
        let ghost steps_at_call = *steps;
        let ghost pre = results_view(results.items@);
        match rank_node_exec(
            tree,
            marks,
            needle,
            include_ignored,
            repo_id,
            c,
            in_match,
            false,
            rel,
            disp,
            results,
            steps,
            updates,
        ) {
            Ok(()) => {},
            Err(()) => {
                proof {
                    if *old(steps) + rank_children_steps(env, parent as int, 0, in_match)
                        < RANK_CHECK_PERIOD {
                        assert(steps_at_call + rank_node_steps(env, c as int, in_match)
                            < RANK_CHECK_PERIOD);
                        assert(false);
                    }
                }
                return Err(());
            },
        }
        j += 1;
        proof {
            assert(results_view(results.items@) == rank_node(
                env,
                c as int,
                in_match,
                false,
                rel@,
                disp@,
                pre,
            ));
            assert(rank_children(env, parent as int, j - 1 as int, in_match, rel@, disp@, pre)
                == rank_children(env, parent as int, j as int, in_match, rel@, disp@, results_view(
                results.items@,
            )));
        }
    }
    proof {
        assert(rank_children(env, parent as int, n as int, in_match, rel@, disp@, results_view(
            results.items@,
        )) == results_view(results.items@));
        assert(rank_children_steps(env, parent as int, n as int, in_match) == 0);
    }
    Ok(())
}

/// The markers of each tree, as the find-matches phase records them.
pub open spec fn marks_matrix(v: Seq<Vec<Option<MatchMarker>>>) -> Seq<Seq<Option<MatchMarker>>> {
    Seq::new(v.len(), |t: int| v[t]@)
}

/// A cancellable, incremental fuzzy path search over a snapshot of the trees
/// of a project: the repo id and root entries of every tree, the needle, the
/// result bound, and a weak handle on the status cell whose observer keeps
/// the search alive.
pub struct PathSearch {
    pub repo_ids: Vec<usize>,
    pub trees: Vec<Tree>,
    pub needle: Vec<char>,
    pub max_results: usize,
    pub include_ignored: bool,
    pub updates: WeakStatusCell,
}

impl View for PathSearch {
    type V = SearchView;

    open spec fn view(&self) -> SearchView {
        SearchView {
            repo_ids: Seq::new(self.repo_ids@.len(), |t: int| self.repo_ids@[t] as int),
            trees: Seq::new(self.trees@.len(), |t: int| self.trees@[t]@),
            needle: self.needle@,
            max_results: self.max_results as int,
            include_ignored: self.include_ignored,
        }
    }
}

impl PathSearch {
    /// Whether this search's snapshot is well-formed, exactly as `search_wf`
    /// states it: one repository id per tree, a positive result bound, and
    /// well-formed trees.
    pub fn is_well_formed(&self) -> (r: bool)
        ensures
            r == search_wf(self@),
    {
        if self.repo_ids.len() != self.trees.len() {
            return false;
        }
        if self.max_results < 1 {
            return false;
        }
        let n = self.trees.len();
        let mut t: usize = 0;
        while t < n
            invariant
                t <= n,
                n == self.trees@.len(),
                self.repo_ids@.len() == self.trees@.len(),
                self.max_results >= 1,
                forall|k: int| 0 <= k < t ==> tree_wf(#[trigger] self@.trees[k]),
            decreases n - t,
        {
            let ok = self.trees[t].check_wf();
            proof {
                assert(self.trees@[t as int]@ == self@.trees[t as int]);
            }
            if !ok {
                proof {
                    assert(!tree_wf(self@.trees[t as int]));
                }
                return false;
            }
            t += 1;
        }
        true
    }

    /// Phase 1: walks every entry (ignored entries skipped unconditionally)
    /// and records the match markers of every tree, as `all_marks` states
    /// them. `Err` reports cancellation.
    pub fn find_matches(&self, steps: &mut usize) -> (r: Result<Vec<Vec<Option<MatchMarker>>>, ()>)
        requires
            search_wf(self@),
            *old(steps) < FIND_CHECK_PERIOD,
        ensures
            r is Ok ==> ({
                let m = r->Ok_0;
                &&& m@.len() == self@.trees.len()
                &&& (forall|t: int|
                    0 <= t < m@.len() ==> (#[trigger] m@[t])@.len()
                        == self@.trees[t].entries.len())
                &&& marks_matrix(m@) == all_marks(self@)
            }),
            *old(steps) + find_phase_steps(self@) < FIND_CHECK_PERIOD ==> r is Ok,
    {
        let tree_count = self.trees.len();
        let mut out: Vec<Vec<Option<MatchMarker>>> = Vec::new();
        if tree_count == 1 {
            let tree = &self.trees[0];
            proof {
                assert(tree_wf(self@.trees[0]));
                assert(tree@ == self@.trees[0]);
                assert(find_phase_steps(self@) == mark_children_steps(tree@, self.needle@, 0, 0, 0));
            }
            let mut marks: Vec<Option<MatchMarker>> = vec![None;tree.entries.len()];
            proof {
                assert(marks@ =~= empty_marks(tree@));
            }
            match mark_children_exec(tree, &self.needle, &mut marks, 0, 0, steps, &self.updates) {
                Ok(_) => {},
                Err(()) => {
                    return Err(());
                },
            }
            out.push(marks);
            proof {
                assert(marks_matrix(out@) =~= all_marks(self@));
            }
            Ok(out)
        } else {
            let mut t: usize = 0;
            while t < tree_count
                invariant
                    t <= tree_count,
                    tree_count == self@.trees.len(),
                    tree_count != 1,
                    search_wf(self@),
                    *steps < FIND_CHECK_PERIOD,
                    out@.len() == t,
                    forall|q: int|
                        0 <= q < t ==> (#[trigger] out@[q])@ == all_marks(self@)[q],
                    forall|q: int|
                        0 <= q < t ==> (#[trigger] out@[q])@.len()
                            == self@.trees[q].entries.len(),
                    *old(steps) + find_phase_steps(self@) < FIND_CHECK_PERIOD ==> *steps
                        + find_roots_steps(self@, t as int) == *old(steps) + find_phase_steps(
                        self@,
                    ),
                decreases tree_count - t,
            {
                let tree = &self.trees[t];
                proof {
                    assert(tree_wf(self@.trees[t as int]));
                    assert(tree@ == self@.trees[t as int]);
                    assert(find_roots_steps(self@, t as int) == mark_node_steps(
                        tree@,
                        self.needle@,
                        0,
                        0,
                    ) + find_roots_steps(self@, t + 1 as int));
                }
                let mut marks: Vec<Option<MatchMarker>> = vec![None;tree.entries.len()];
                proof {
                    assert(marks@ =~= empty_marks(tree@));
                }
                let ghost steps_at_call = *steps;
                match mark_node_exec(tree, &self.needle, &mut marks, 0, 0, steps, &self.updates) {
                    Ok(_) => {},
                    Err(()) => {
                        proof {
                            if *old(steps) + find_phase_steps(self@) < FIND_CHECK_PERIOD {
                                assert(steps_at_call + mark_node_steps(tree@, self.needle@, 0, 0)
                                    < FIND_CHECK_PERIOD);
                                assert(false);
                            }
                        }
                        return Err(());
                    },
                }
                out.push(marks);
                t += 1;
            }
            proof {
                assert(find_roots_steps(self@, tree_count as int) == 0);
            }
            proof {
                assert(marks_matrix(out@) =~= all_marks(self@));
            }
            Ok(out)
        }
    }

    /// Phase 2: ranks the marked entries (honouring `include_ignored`) into
    /// the top-K list, as `spec_ranked` states it. `Err` reports
    /// cancellation.
    pub fn rank_matches(&self, marks: &Vec<Vec<Option<MatchMarker>>>, steps: &mut usize) -> (r:
        Result<Vec<PathSearchResult>, ()>)
        requires
            search_wf(self@),
            *old(steps) < RANK_CHECK_PERIOD,
            marks@.len() == self@.trees.len(),
            marks_matrix(marks@) == all_marks(self@),
            forall|t: int|
                0 <= t < marks@.len() ==> (#[trigger] marks@[t])@.len()
                    == self@.trees[t].entries.len(),
        ensures
            r is Ok ==> results_view(r->Ok_0@) == spec_ranked(self@, all_marks(self@)),
            *old(steps) + rank_phase_steps(self@, all_marks(self@)) < RANK_CHECK_PERIOD ==> r
                is Ok,
    {
        let mut results = TopK::new(self.max_results);
        let tree_count = self.trees.len();
        let rel = CrossPath::new();
        let disp: Vec<char> = Vec::new();
        proof {
            assert(rel@ =~= Seq::<Seq<char>>::empty());
            assert(disp@ =~= Seq::<char>::empty());
            assert(results_view(results.items@) =~= Seq::<ResultView>::empty());
        }
        if tree_count == 1 {
            let tree = &self.trees[0];
            proof {
                assert(tree_wf(self@.trees[0]));
                assert(marks@[0]@ == all_marks(self@)[0]);
                assert(tree@ == self@.trees[0]);
                assert(exec_env(
                    tree@,
                    marks@[0]@,
                    self.needle@,
                    self.include_ignored,
                    self.repo_ids@[0] as int,
                    results.max as int,
                ) == rank_env(self@, all_marks(self@), 0));
                assert(rank_phase_steps(self@, all_marks(self@)) == rank_children_steps(
                    rank_env(self@, all_marks(self@), 0),
                    0,
                    0,
                    false,
                ));
            }
            let ghost acc0 = results_view(results.items@);
            match rank_children_exec(
                tree,
                &marks[0],
                &self.needle,
                self.include_ignored,
                self.repo_ids[0],
                0,
                false,
                &rel,
                &disp,
                &mut results,
                steps,
                &self.updates,
            ) {
                Ok(()) => {},
                Err(()) => {
                    proof {
                        if *old(steps) + rank_phase_steps(self@, all_marks(self@))
                            < RANK_CHECK_PERIOD {
                            assert(false);
                        }
                    }
                    return Err(());
                },
            }
            proof {
                assert(exec_env(
                    tree@,
                    marks@[0]@,
                    self.needle@,
                    self.include_ignored,
                    self.repo_ids@[0] as int,
                    self.max_results as int,
                ) == rank_env(self@, all_marks(self@), 0));
                assert(rel@ =~= Seq::<Seq<char>>::empty());
                assert(results_view(results.items@) == spec_ranked(self@, all_marks(self@)));
            }
            Ok(results.items)
        } else {
            let ghost s = self@;
            let ghost m = all_marks(self@);
            let mut t: usize = 0;
            while t < tree_count
                invariant
                    t <= tree_count,
                    tree_count == s.trees.len(),
                    tree_count != 1,
                    s == self@,
                    m == all_marks(self@),
                    search_wf(s),
                    marks@.len() == s.trees.len(),
                    marks_matrix(marks@) == m,
                    forall|q: int|
                        0 <= q < marks@.len() ==> (#[trigger] marks@[q])@.len()
                            == s.trees[q].entries.len(),
                    *steps < RANK_CHECK_PERIOD,
                    results.max == self.max_results,
                    results.max >= 1,
                    results.items@.len() <= results.max,
                    rel@ =~= Seq::<Seq<char>>::empty(),
                    disp@ =~= Seq::<char>::empty(),
                    rank_roots(s, m, t as int, results_view(results.items@)) == rank_roots(
                        s,
                        m,
                        0,
                        Seq::empty(),
                    ),
                    *old(steps) + rank_phase_steps(s, m) < RANK_CHECK_PERIOD ==> *steps
                        + rank_roots_steps(s, m, t as int) == *old(steps) + rank_phase_steps(s, m),
                decreases tree_count - t,
            {
                let tree = &self.trees[t];
                proof {
                    assert(tree_wf(s.trees[t as int]));
                    assert(marks@[t as int]@ == m[t as int]);
                    assert(exec_env(
                        tree@,
                        marks@[t as int]@,
                        self.needle@,
                        self.include_ignored,
                        self.repo_ids@[t as int] as int,
                        results.max as int,
                    ) == rank_env(s, m, t as int));
                    assert(rank_roots_steps(s, m, t as int) == rank_node_steps(
                        rank_env(s, m, t as int),
                        0,
                        false,
                    ) + rank_roots_steps(s, m, t + 1 as int));
                }
                let ghost steps_at_call = *steps;
                let ghost pre = results_view(results.items@);
                match rank_node_exec(
                    tree,
                    &marks[t],
                    &self.needle,
                    self.include_ignored,
                    self.repo_ids[t],
                    0,
                    false,
                    true,
                    &rel,
                    &disp,
                    &mut results,
                    steps,
                    &self.updates,
                ) {
                    Ok(()) => {},
                    Err(()) => {
                        proof {
                            if *old(steps) + rank_phase_steps(s, m) < RANK_CHECK_PERIOD {
                                assert(steps_at_call + rank_node_steps(
                                    rank_env(s, m, t as int),
                                    0,
                                    false,
                                ) < RANK_CHECK_PERIOD);
                                assert(false);
                            }
                        }
                        return Err(());
                    },
                }
                t += 1;
                proof {
                    assert(exec_env(
                        tree@,
                        marks@[t - 1 as int]@,
                        self.needle@,
                        self.include_ignored,
                        self.repo_ids@[t - 1 as int] as int,
                        results.max as int,
                    ) == rank_env(s, m, t - 1 as int));
                    assert(results_view(results.items@) == rank_node(
                        rank_env(s, m, t - 1 as int),
                        0,
                        false,
                        true,
                        Seq::empty(),
                        Seq::empty(),
                        pre,
                    ));
                    assert(rank_roots(s, m, t - 1 as int, pre) == rank_roots(
                        s,
                        m,
                        t as int,
                        results_view(results.items@),
                    ));
                }
            }
            proof {
                assert(rank_roots(s, m, tree_count as int, results_view(results.items@))
                    == results_view(results.items@));
                assert(rank_roots_steps(s, m, tree_count as int) == 0);
            }
            Ok(results.items)
        }
    }

    /// Runs both phases to completion and returns the ranked results, best
    /// first; an empty needle yields the empty list without any walk. `Err`
    /// reports cancellation: the observer was dropped.
    pub fn compute(&self) -> (r: Result<Vec<PathSearchResult>, ()>)
        requires
            search_wf(self@),
        ensures
            r is Ok ==> results_view(r->Ok_0@) == spec_search_results(self@),
            self@.needle.len() == 0 ==> r is Ok && r->Ok_0@.len() == 0,
            find_phase_steps(self@) < FIND_CHECK_PERIOD && rank_phase_steps(
                self@,
                all_marks(self@),
            ) < RANK_CHECK_PERIOD ==> r is Ok,
    {
        if self.needle.len() == 0 {
            let empty: Vec<PathSearchResult> = Vec::new();
            proof {
                assert(results_view(empty@) =~= spec_search_results(self@));
            }
            return Ok(empty);
        }
        let mut find_steps: usize = 0;
        let marks = match self.find_matches(&mut find_steps) {
            Ok(m) => m,
            Err(()) => {
                return Err(());
            },
        };
        let mut rank_steps: usize = 0;
        match self.rank_matches(&marks, &mut rank_steps) {
            Ok(v) => Ok(v),
            Err(()) => Err(()),
        }
    }

    /// A single poll runs the search to completion and publishes the result
    /// in one atomic status update: `Ready([])` for an empty needle, and
    /// `Ready(results)` otherwise. `Err` reports that the observer was
    /// dropped before the walk finished: the search is cancelled and nothing
    /// is published.
    pub fn poll(&mut self) -> (r: Result<(), ()>)
        requires
            search_wf(old(self)@),
        ensures
            *final(self) == *old(self),
            old(self)@.needle.len() == 0 ==> r is Ok,
            find_phase_steps(old(self)@) < FIND_CHECK_PERIOD && rank_phase_steps(
                old(self)@,
                all_marks(old(self)@),
            ) < RANK_CHECK_PERIOD ==> r is Ok,
    {
        match self.compute() {
            Ok(results) => {
                let _ = self.updates.try_set(PathSearchStatus::Ready(results));
                Ok(())
            },
            Err(()) => Err(()),
        }
    }
}

} // verus!
