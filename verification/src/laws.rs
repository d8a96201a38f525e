use vstd::prelude::*;
use crate::fuzzy::{lemma_alignment_props, match_score};
use crate::search::{
    all_marks, insert_ranked, lemma_offer_sorted, rank_children, rank_env, rank_node, rank_roots,
    search_wf, sorted_descending, spec_offer, spec_search_results, RankEnv, SearchView,
};
use crate::status::ResultView;
use crate::tree::{entry_wf, tree_wf, TreeView};

verus! {

// ------------------------------------------------------------------
// Ordering: published results come best first.
// ------------------------------------------------------------------

proof fn lemma_rank_node_sorted(
    env: RankEnv,
    i: int,
    in_match: bool,
    skip_rel: bool,
    rel: Seq<Seq<char>>,
    disp: Seq<char>,
    acc: Seq<ResultView>,
)
    requires
        sorted_descending(acc),
        tree_wf(env.t),
        0 <= i < env.t.entries.len(),
    ensures
        sorted_descending(rank_node(env, i, in_match, skip_rel, rel, disp, acc)),
    decreases env.t.entries.len() - i, 1int, 0int,
{
    let e = env.t.entries[i];
    assert(entry_wf(env.t, i));
    if e.is_ignored && !env.include_ignored {
    } else if e.is_dir {
        let descend = in_match || env.marks[i] is Some;
        if descend {
            let is_match = in_match || env.marks[i] == Some(crate::search::MatchMarker::IsMatch);
            lemma_rank_children_sorted(
                env,
                i,
                0,
                is_match,
                if skip_rel {
                    rel
                } else {
                    rel.push(e.name)
                },
                disp + crate::tree::spec_name_chars(e),
                acc,
            );
        }
    } else {
        if in_match || env.marks[i] is Some {
            let full = disp + e.name;
            match match_score(env.needle, full) {
                Some(a) => {
                    let candidate = ResultView {
                        score: a.score,
                        positions: a.positions,
                        repo_id: env.repo_id,
                        relative_path: rel.push(e.name),
                        display_path: full,
                    };
                    lemma_offer_sorted(acc, candidate, env.max_results);
                },
                None => {},
            }
        }
    }
}

proof fn lemma_rank_children_sorted(
    env: RankEnv,
    parent: int,
    j: int,
    in_match: bool,
    rel: Seq<Seq<char>>,
    disp: Seq<char>,
    acc: Seq<ResultView>,
)
    requires
        sorted_descending(acc),
        tree_wf(env.t),
        0 <= parent < env.t.entries.len(),
        0 <= j,
    ensures
        sorted_descending(rank_children(env, parent, j, in_match, rel, disp, acc)),
    decreases env.t.entries.len() - parent, 0int, env.t.entries[parent].children.len() - j,
{
    assert(entry_wf(env.t, parent));
    if j >= env.t.entries[parent].children.len() {
    } else {
        let c = env.t.entries[parent].children[j];
        lemma_rank_node_sorted(env, c, in_match, false, rel, disp, acc);
        lemma_rank_children_sorted(
            env,
            parent,
            j + 1,
            in_match,
            rel,
            disp,
            rank_node(env, c, in_match, false, rel, disp, acc),
        );
    }
}

proof fn lemma_rank_roots_sorted(
    s: SearchView,
    marks: Seq<Seq<Option<crate::search::MatchMarker>>>,
    t: int,
    acc: Seq<ResultView>,
)
    requires
        sorted_descending(acc),
        search_wf(s),
        0 <= t,
    ensures
        sorted_descending(rank_roots(s, marks, t, acc)),
    decreases s.trees.len() - t,
{
    if t >= s.trees.len() {
    } else {
        assert(tree_wf(s.trees[t]));
        lemma_rank_node_sorted(
            rank_env(s, marks, t),
            0,
            false,
            true,
            Seq::empty(),
            Seq::empty(),
            acc,
        );
        lemma_rank_roots_sorted(
            s,
            marks,
            t + 1,
            rank_node(rank_env(s, marks, t), 0, false, true, Seq::empty(), Seq::empty(), acc),
        );
    }
}

/// Every published result list is ordered by descending score: each result's
/// score is at least the score of every result after it.
pub proof fn lemma_search_results_sorted(s: SearchView)
    requires
        search_wf(s),
    ensures
        sorted_descending(spec_search_results(s)),
{
    if s.needle.len() == 0 {
    } else {
        let marks = all_marks(s);
        if s.trees.len() == 1 {
            assert(tree_wf(s.trees[0]));
            lemma_rank_children_sorted(
                rank_env(s, marks, 0),
                0,
                0,
                false,
                Seq::empty(),
                Seq::empty(),
                Seq::empty(),
            );
        } else {
            lemma_rank_roots_sorted(s, marks, 0, Seq::empty());
        }
    }
}

// ------------------------------------------------------------------
// Positions: each result's positions are the ascending character
// indices within its display path at which the needle characters
// matched, one per needle character.
// ------------------------------------------------------------------

/// The positions of `rv` are exactly one strictly ascending index into its
/// display path per needle character, and the display path holds the needle
/// characters at those indices.
pub open spec fn result_positions_ok(needle: Seq<char>, rv: ResultView) -> bool {
    &&& rv.positions.len() == needle.len()
    &&& (forall|t: int|
        0 <= t < rv.positions.len() ==> 0 <= #[trigger] rv.positions[t] < rv.display_path.len())
    &&& (forall|t: int|
        0 <= t < rv.positions.len() ==> rv.display_path[#[trigger] rv.positions[t]] == needle[t])
    &&& (forall|t: int| 0 < t < rv.positions.len() ==> #[trigger] rv.positions[t - 1] < rv.positions[t])
}

proof fn lemma_insert_ranked_membership(acc: Seq<ResultView>, c: ResultView)
    ensures
        forall|x: ResultView|
            #[trigger] insert_ranked(acc, c).contains(x) ==> acc.contains(x) || x == c,
    decreases acc.len(),
{
    let out = insert_ranked(acc, c);
    if acc.len() == 0 {
        assert forall|x: ResultView| #[trigger] out.contains(x) implies acc.contains(x) || x == c by {
            assert(out =~= seq![c]);
        }
    } else if c.score > acc[0].score {
        assert forall|x: ResultView| #[trigger] out.contains(x) implies acc.contains(x) || x == c by {
            let idx = choose|idx: int| 0 <= idx < out.len() && out[idx] == x;
            if idx > 0 {
                assert(acc[idx - 1] == x);
                assert(acc.contains(x));
            }
        }
    } else {
        lemma_insert_ranked_membership(acc.skip(1), c);
        let inner = insert_ranked(acc.skip(1), c);
        assert forall|x: ResultView| #[trigger] out.contains(x) implies acc.contains(x) || x == c by {
            let idx = choose|idx: int| 0 <= idx < out.len() && out[idx] == x;
            if idx == 0 {
                assert(acc[0] == x);
                assert(acc.contains(x));
            } else {
                assert(inner[idx - 1] == x);
                assert(inner.contains(x));
                if acc.skip(1).contains(x) {
                    let q = choose|q: int| 0 <= q < acc.skip(1).len() && acc.skip(1)[q] == x;
                    assert(acc[q + 1] == x);
                    assert(acc.contains(x));
                }
            }
        }
    }
}

proof fn lemma_offer_membership(acc: Seq<ResultView>, c: ResultView, max: int)
    ensures
        forall|x: ResultView|
            #[trigger] spec_offer(acc, c, max).contains(x) ==> acc.contains(x) || x == c,
{
    let out = spec_offer(acc, c, max);
    if acc.len() < max {
        lemma_insert_ranked_membership(acc, c);
    } else if max >= 1 && c.score > acc.last().score {
        let trimmed = acc.take(acc.len() - 1);
        lemma_insert_ranked_membership(trimmed, c);
        assert forall|x: ResultView| #[trigger] out.contains(x) implies acc.contains(x) || x == c by {
            if insert_ranked(trimmed, c).contains(x) && x != c && trimmed.contains(x) {
                let q = choose|q: int| 0 <= q < trimmed.len() && trimmed[q] == x;
                assert(acc[q] == x);
                assert(acc.contains(x));
            }
        }
    }
}

/// A scored candidate's positions are ascending indices of the needle's
/// characters inside the scored path.
proof fn lemma_match_positions(needle: Seq<char>, hay: Seq<char>)
    requires
        match_score(needle, hay) is Some,
    ensures
        ({
            let a = match_score(needle, hay)->Some_0;
            &&& a.positions.len() == needle.len()
            &&& (forall|t: int|
                0 <= t < a.positions.len() ==> 0 <= #[trigger] a.positions[t] < hay.len())
            &&& (forall|t: int|
                0 <= t < a.positions.len() ==> hay[#[trigger] a.positions[t]] == needle[t])
            &&& (forall|t: int|
                0 < t < a.positions.len() ==> #[trigger] a.positions[t - 1] < a.positions[t])
        }),
{
    lemma_alignment_props(needle, hay, 0, 0, -1);
}

proof fn lemma_rank_node_positions(
    env: RankEnv,
    i: int,
    in_match: bool,
    skip_rel: bool,
    rel: Seq<Seq<char>>,
    disp: Seq<char>,
    acc: Seq<ResultView>,
)
    requires
        tree_wf(env.t),
        0 <= i < env.t.entries.len(),
        forall|x: ResultView| #[trigger] acc.contains(x) ==> result_positions_ok(env.needle, x),
    ensures
        forall|x: ResultView|
            #[trigger] rank_node(env, i, in_match, skip_rel, rel, disp, acc).contains(x)
                ==> result_positions_ok(env.needle, x),
    decreases env.t.entries.len() - i, 1int, 0int,
{
    let e = env.t.entries[i];
    assert(entry_wf(env.t, i));
    let out = rank_node(env, i, in_match, skip_rel, rel, disp, acc);
    if e.is_ignored && !env.include_ignored {
    } else if e.is_dir {
        let descend = in_match || env.marks[i] is Some;
        if descend {
            let is_match = in_match || env.marks[i] == Some(crate::search::MatchMarker::IsMatch);
            let rel2 = if skip_rel {
                rel
            } else {
                rel.push(e.name)
            };
            let disp2 = disp + crate::tree::spec_name_chars(e);
            lemma_rank_children_positions(env, i, 0, is_match, rel2, disp2, acc);
            assert forall|x: ResultView| #[trigger] out.contains(x) implies result_positions_ok(
                env.needle,
                x,
            ) by {
                assert(rank_children(env, i, 0, is_match, rel2, disp2, acc).contains(x));
            }
        }
    } else {
        if in_match || env.marks[i] is Some {
            let full = disp + e.name;
            match match_score(env.needle, full) {
                Some(a) => {
                    let candidate = ResultView {
                        score: a.score,
                        positions: a.positions,
                        repo_id: env.repo_id,
                        relative_path: rel.push(e.name),
                        display_path: full,
                    };
                    lemma_match_positions(env.needle, full);
                    assert(result_positions_ok(env.needle, candidate));
                    lemma_offer_membership(acc, candidate, env.max_results);
                    assert forall|x: ResultView| #[trigger] out.contains(x) implies
                        result_positions_ok(env.needle, x) by {
                        assert(spec_offer(acc, candidate, env.max_results).contains(x));
                    }
                },
                None => {},
            }
        }
    }
}

proof fn lemma_rank_children_positions(
    env: RankEnv,
    parent: int,
    j: int,
    in_match: bool,
    rel: Seq<Seq<char>>,
    disp: Seq<char>,
    acc: Seq<ResultView>,
)
    requires
        tree_wf(env.t),
        0 <= parent < env.t.entries.len(),
        0 <= j,
        forall|x: ResultView| #[trigger] acc.contains(x) ==> result_positions_ok(env.needle, x),
    ensures
        forall|x: ResultView|
            #[trigger] rank_children(env, parent, j, in_match, rel, disp, acc).contains(x)
                ==> result_positions_ok(env.needle, x),
    decreases env.t.entries.len() - parent, 0int, env.t.entries[parent].children.len() - j,
{
    assert(entry_wf(env.t, parent));
    let out = rank_children(env, parent, j, in_match, rel, disp, acc);
    if j >= env.t.entries[parent].children.len() {
    } else {
        let c = env.t.entries[parent].children[j];
        let acc2 = rank_node(env, c, in_match, false, rel, disp, acc);
        lemma_rank_node_positions(env, c, in_match, false, rel, disp, acc);
        assert forall|x: ResultView| #[trigger] acc2.contains(x) implies result_positions_ok(
            env.needle,
            x,
        ) by {
            assert(rank_node(env, c, in_match, false, rel, disp, acc).contains(x));
        }
        lemma_rank_children_positions(env, parent, j + 1, in_match, rel, disp, acc2);
        assert forall|x: ResultView| #[trigger] out.contains(x) implies result_positions_ok(
            env.needle,
            x,
        ) by {
            assert(rank_children(env, parent, j + 1, in_match, rel, disp, acc2).contains(x));
        }
    }
}

proof fn lemma_rank_roots_positions(
    s: SearchView,
    marks: Seq<Seq<Option<crate::search::MatchMarker>>>,
    t: int,
    acc: Seq<ResultView>,
)
    requires
        search_wf(s),
        0 <= t,
        forall|x: ResultView| #[trigger] acc.contains(x) ==> result_positions_ok(s.needle, x),
    ensures
        forall|x: ResultView|
            #[trigger] rank_roots(s, marks, t, acc).contains(x) ==> result_positions_ok(
                s.needle,
                x,
            ),
    decreases s.trees.len() - t,
{
    let out = rank_roots(s, marks, t, acc);
    if t >= s.trees.len() {
    } else {
        assert(tree_wf(s.trees[t]));
        let acc2 = rank_node(rank_env(s, marks, t), 0, false, true, Seq::empty(), Seq::empty(), acc);
        lemma_rank_node_positions(
            rank_env(s, marks, t),
            0,
            false,
            true,
            Seq::empty(),
            Seq::empty(),
            acc,
        );
        assert forall|x: ResultView| #[trigger] acc2.contains(x) implies result_positions_ok(
            s.needle,
            x,
        ) by {
            assert(rank_node(rank_env(s, marks, t), 0, false, true, Seq::empty(), Seq::empty(), acc).contains(x));
        }
        lemma_rank_roots_positions(s, marks, t + 1, acc2);
        assert forall|x: ResultView| #[trigger] out.contains(x) implies result_positions_ok(
            s.needle,
            x,
        ) by {
            assert(rank_roots(s, marks, t + 1, acc2).contains(x));
        }
    }
}

/// Every published result carries one match position per needle character:
/// strictly ascending character indices within its display path, at which
/// the display path spells out the needle.
pub proof fn lemma_search_results_positions(s: SearchView)
    requires
        search_wf(s),
    ensures
        forall|x: ResultView|
            #[trigger] spec_search_results(s).contains(x) ==> result_positions_ok(s.needle, x),
{
    if s.needle.len() == 0 {
    } else {
        let marks = all_marks(s);
        if s.trees.len() == 1 {
            assert(tree_wf(s.trees[0]));
            lemma_rank_children_positions(
                rank_env(s, marks, 0),
                0,
                0,
                false,
                Seq::empty(),
                Seq::empty(),
                Seq::empty(),
            );
        } else {
            lemma_rank_roots_positions(s, marks, 0, Seq::empty());
        }
    }
}

// ------------------------------------------------------------------
// Remote/local equivalence.
// ------------------------------------------------------------------

/// For the same tree contents, needle, bound and ignore flag, a remote
/// project's search publishes exactly what a local project's publishes: the
/// results are a function of the snapshot alone.
pub proof fn lemma_remote_local_equivalence(a: SearchView, b: SearchView)
    requires
        a.repo_ids == b.repo_ids,
        a.trees == b.trees,
        a.needle == b.needle,
        a.max_results == b.max_results,
        a.include_ignored == b.include_ignored,
    ensures
        spec_search_results(a) == spec_search_results(b),
{
    assert(a == b);
}

// ------------------------------------------------------------------
// Ignored entries: with `include_ignored` off, every result comes
// from a chain of non-ignored entries.
// ------------------------------------------------------------------

/// The display characters `tail` are spelled, from entry `i` downward, by a
/// chain of entries none of which is ignored: the entry's own display name,
/// followed (for a directory) by a clean chain through one of its children.
pub open spec fn clean_chain(t: TreeView, i: int, tail: Seq<char>) -> bool
    decreases t.entries.len() - i, 1int, 0int,
        when 0 <= i < t.entries.len()
{
    let e = t.entries[i];
    &&& !e.is_ignored
    &&& if e.is_dir {
        exists|rest: Seq<char>|
            #![auto]
            tail == crate::tree::spec_name_chars(e) + rest && clean_child(t, i, rest)
    } else {
        tail == e.name
    }
}

/// `tail` is spelled by a clean chain starting at some child of `parent`.
pub open spec fn clean_child(t: TreeView, parent: int, tail: Seq<char>) -> bool
    decreases t.entries.len() - parent, 0int, 0int,
        when 0 <= parent < t.entries.len() && entry_wf(t, parent)
{
    exists|j: int|
        #![auto]
        0 <= j < t.entries[parent].children.len() && clean_chain(
            t,
            t.entries[parent].children[j],
            tail,
        )
}

proof fn lemma_rank_node_clean(
    env: RankEnv,
    i: int,
    in_match: bool,
    skip_rel: bool,
    rel: Seq<Seq<char>>,
    disp: Seq<char>,
    acc: Seq<ResultView>,
)
    requires
        tree_wf(env.t),
        0 <= i < env.t.entries.len(),
        !env.include_ignored,
    ensures
        forall|x: ResultView|
            #[trigger] rank_node(env, i, in_match, skip_rel, rel, disp, acc).contains(x)
                ==> acc.contains(x) || (exists|rest: Seq<char>|
                #![auto]
                x.display_path == disp + rest && clean_chain(env.t, i, rest)),
    decreases env.t.entries.len() - i, 1int, 0int,
{
    let e = env.t.entries[i];
    assert(entry_wf(env.t, i));
    let out = rank_node(env, i, in_match, skip_rel, rel, disp, acc);
    if e.is_ignored && !env.include_ignored {
    } else if e.is_dir {
        let descend = in_match || env.marks[i] is Some;
        if descend {
            let is_match = in_match || env.marks[i] == Some(crate::search::MatchMarker::IsMatch);
            let rel2 = if skip_rel {
                rel
            } else {
                rel.push(e.name)
            };
            let disp2 = disp + crate::tree::spec_name_chars(e);
            lemma_rank_children_clean(env, i, 0, is_match, rel2, disp2, acc);
            assert forall|x: ResultView| #[trigger] out.contains(x) implies acc.contains(x) || (
            exists|rest: Seq<char>|
                #![auto]
                x.display_path == disp + rest && clean_chain(env.t, i, rest)) by {
                assert(rank_children(env, i, 0, is_match, rel2, disp2, acc).contains(x));
                if !acc.contains(x) {
                    let rest2 = choose|rest2: Seq<char>|
                        #![auto]
                        x.display_path == disp2 + rest2 && clean_child(env.t, i, rest2);
                    let rest = crate::tree::spec_name_chars(e) + rest2;
                    assert(x.display_path =~= disp + rest);
                    assert(clean_chain(env.t, i, rest));
                }
            }
        }
    } else {
        if in_match || env.marks[i] is Some {
            let full = disp + e.name;
            match match_score(env.needle, full) {
                Some(a) => {
                    let candidate = ResultView {
                        score: a.score,
                        positions: a.positions,
                        repo_id: env.repo_id,
                        relative_path: rel.push(e.name),
                        display_path: full,
                    };
                    lemma_offer_membership(acc, candidate, env.max_results);
                    assert forall|x: ResultView| #[trigger] out.contains(x) implies acc.contains(x)
                        || (exists|rest: Seq<char>|
                        #![auto]
                        x.display_path == disp + rest && clean_chain(env.t, i, rest)) by {
                        assert(spec_offer(acc, candidate, env.max_results).contains(x));
                        if !acc.contains(x) {
                            assert(x == candidate);
                            assert(x.display_path == disp + e.name);
                            assert(clean_chain(env.t, i, e.name));
                        }
                    }
                },
                None => {},
            }
        }
    }
}

proof fn lemma_rank_children_clean(
    env: RankEnv,
    parent: int,
    j: int,
    in_match: bool,
    rel: Seq<Seq<char>>,
    disp: Seq<char>,
    acc: Seq<ResultView>,
)
    requires
        tree_wf(env.t),
        0 <= parent < env.t.entries.len(),
        0 <= j,
        !env.include_ignored,
    ensures
        forall|x: ResultView|
            #[trigger] rank_children(env, parent, j, in_match, rel, disp, acc).contains(x)
                ==> acc.contains(x) || (exists|rest: Seq<char>|
                #![auto]
                x.display_path == disp + rest && clean_child(env.t, parent, rest)),
    decreases env.t.entries.len() - parent, 0int, env.t.entries[parent].children.len() - j,
{
    assert(entry_wf(env.t, parent));
    let out = rank_children(env, parent, j, in_match, rel, disp, acc);
    if j >= env.t.entries[parent].children.len() {
    } else {
        let c = env.t.entries[parent].children[j];
        let acc2 = rank_node(env, c, in_match, false, rel, disp, acc);
        lemma_rank_node_clean(env, c, in_match, false, rel, disp, acc);
        lemma_rank_children_clean(env, parent, j + 1, in_match, rel, disp, acc2);
        assert forall|x: ResultView| #[trigger] out.contains(x) implies acc.contains(x) || (
        exists|rest: Seq<char>|
            #![auto]
            x.display_path == disp + rest && clean_child(env.t, parent, rest)) by {
            assert(rank_children(env, parent, j + 1, in_match, rel, disp, acc2).contains(x));
            if !acc.contains(x) {
                if acc2.contains(x) {
                    assert(rank_node(env, c, in_match, false, rel, disp, acc).contains(x));
                    let rest = choose|rest: Seq<char>|
                        #![auto]
                        x.display_path == disp + rest && clean_chain(env.t, c, rest);
                    assert(clean_chain(env.t, env.t.entries[parent].children[j], rest));
                    assert(clean_child(env.t, parent, rest));
                } else {
                    let rest = choose|rest: Seq<char>|
                        #![auto]
                        x.display_path == disp + rest && clean_child(env.t, parent, rest);
                    assert(clean_child(env.t, parent, rest));
                }
            }
        }
    }
}

/// Where a result of a search can come from, in terms of chains of entries:
/// from a clean chain below the single root, or (with several roots) from a
/// clean chain starting at one of the root entries.
pub open spec fn result_from_clean_entries(s: SearchView, rv: ResultView) -> bool {
    if s.trees.len() == 1 {
        clean_child(s.trees[0], 0, rv.display_path)
    } else {
        exists|u: int|
            #![auto]
            0 <= u < s.trees.len() && clean_chain(s.trees[u], 0, rv.display_path)
    }
}

proof fn lemma_rank_roots_clean(
    s: SearchView,
    marks: Seq<Seq<Option<crate::search::MatchMarker>>>,
    t: int,
    acc: Seq<ResultView>,
)
    requires
        search_wf(s),
        0 <= t,
        !s.include_ignored,
    ensures
        forall|x: ResultView|
            #[trigger] rank_roots(s, marks, t, acc).contains(x) ==> acc.contains(x) || (exists|
                u: int,
            |
                #![auto]
                0 <= u < s.trees.len() && clean_chain(s.trees[u], 0, x.display_path)),
    decreases s.trees.len() - t,
{
    let out = rank_roots(s, marks, t, acc);
    if t >= s.trees.len() {
    } else {
        assert(tree_wf(s.trees[t]));
        let env = rank_env(s, marks, t);
        let acc2 = rank_node(env, 0, false, true, Seq::empty(), Seq::empty(), acc);
        lemma_rank_node_clean(env, 0, false, true, Seq::empty(), Seq::empty(), acc);
        lemma_rank_roots_clean(s, marks, t + 1, acc2);
        assert forall|x: ResultView| #[trigger] out.contains(x) implies acc.contains(x) || (exists|
            u: int,
        |
            #![auto]
            0 <= u < s.trees.len() && clean_chain(s.trees[u], 0, x.display_path)) by {
            assert(rank_roots(s, marks, t + 1, acc2).contains(x));
            if !acc.contains(x) {
                if acc2.contains(x) {
                    assert(rank_node(env, 0, false, true, Seq::empty(), Seq::empty(), acc).contains(
                        x,
                    ));
                    let rest = choose|rest: Seq<char>|
                        #![auto]
                        x.display_path == Seq::<char>::empty() + rest && clean_chain(env.t, 0, rest);
                    assert(x.display_path =~= rest);
                    assert(clean_chain(s.trees[t], 0, x.display_path));
                }
            }
        }
    }
}

/// With `include_ignored` off, no published result has an ignored ancestor:
/// every result's display path is spelled by a chain of entries, from a root
/// of the snapshot down to the result's file, none of which is ignored.
pub proof fn lemma_no_ignored_ancestors(s: SearchView)
    requires
        search_wf(s),
        !s.include_ignored,
    ensures
        forall|x: ResultView|
            #[trigger] spec_search_results(s).contains(x) ==> result_from_clean_entries(s, x),
{
    if s.needle.len() == 0 {
    } else {
        let marks = all_marks(s);
        if s.trees.len() == 1 {
            assert(tree_wf(s.trees[0]));
            let env = rank_env(s, marks, 0);
            lemma_rank_children_clean(env, 0, 0, false, Seq::empty(), Seq::empty(), Seq::empty());
            assert forall|x: ResultView| #[trigger] spec_search_results(s).contains(x) implies
                result_from_clean_entries(s, x) by {
                assert(rank_children(env, 0, 0, false, Seq::empty(), Seq::empty(), Seq::empty())
                    .contains(x));
                let rest = choose|rest: Seq<char>|
                    #![auto]
                    x.display_path == Seq::<char>::empty() + rest && clean_child(env.t, 0, rest);
                assert(x.display_path =~= rest);
                assert(clean_child(s.trees[0], 0, x.display_path));
            }
        } else {
            lemma_rank_roots_clean(s, marks, 0, Seq::empty());
            assert forall|x: ResultView| #[trigger] spec_search_results(s).contains(x) implies
                result_from_clean_entries(s, x) by {
                assert(rank_roots(s, marks, 0, Seq::empty()).contains(x));
            }
        }
    }
}

} // verus!
