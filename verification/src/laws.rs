//! The library's general laws, stated and proved once and for all: size
//! accounting, depth and height decomposition, the render round trip, and
//! determinism of rendering.

use vstd::prelude::*;

use crate::builder::{built_from, expand, levels_of, node_matches, placeholder_count, Entry};
use crate::render::{line_infos_from, spec_render, LineInfo};
use crate::tree::{range_seq, GenTree, Heading};

verus! {

/// The expansion plans one node per heading plus one per missing level.
proof fn lemma_expand_len(lc: int, levels: Seq<int>, k: int)
    requires
        0 <= k <= levels.len(),
    ensures
        expand(lc, levels, k).len() == (levels.len() - k) + placeholder_count(lc, levels, k),
        0 <= placeholder_count(lc, levels, k),
    decreases levels.len() - k,
{
    if k < levels.len() {
        lemma_expand_len(levels[k], levels, k + 1);
    }
}

/// Size accounting: a built tree holds the root, one node per real heading,
/// and one per placeholder inserted to bridge a gap — nothing else.
pub proof fn lemma_size_accounting(t: GenTree, base: int, hs: Seq<Heading>)
    requires
        built_from(t, base, hs),
    ensures
        t.size == 1 + hs.len() + placeholder_count(base, levels_of(hs), 0),
{
    lemma_expand_len(base, levels_of(hs), 0);
}

/// The synthetic root sits at depth 1.
pub proof fn lemma_depth_root(t: GenTree)
    requires
        t.wf(),
    ensures
        t.depth(0) == 1,
{
}

/// Depth grows by exactly one along every parent/child pair.
pub proof fn lemma_depth_parent_child(t: GenTree, i: int, k: int)
    requires
        t.wf(),
        0 <= i < t.n_nodes(),
        0 <= k < t.child_seq(i).len(),
    ensures
        t.depth(t.child_seq(i)[k] as int) == t.depth(i) + 1,
{
    let c = t.child_seq(i)[k] as int;
    assert(t.parent_idx(c) == Some(i as usize));
    assert(c != 0);
}

/// The running maximum over a child suffix is what its name says: no child
/// exceeds it, and some child reaches it whenever there is one.
proof fn lemma_kids_height_max(t: GenTree, i: int, k: int)
    requires
        t.wf(),
        0 <= i < t.n_nodes(),
        0 <= k <= t.child_seq(i).len(),
    ensures
        forall|k2: int|
            k <= k2 < t.child_seq(i).len() ==> t.height(#[trigger] t.child_seq(i)[k2] as int)
                <= t.kids_height(i, k),
        k < t.child_seq(i).len() ==> exists|k2: int|
            k <= k2 < t.child_seq(i).len() && t.kids_height(i, k) == t.height(
                #[trigger] t.child_seq(i)[k2] as int,
            ),
    decreases t.child_seq(i).len() - k,
{
    if k < t.child_seq(i).len() {
        lemma_kids_height_max(t, i, k + 1);
        let c = t.child_seq(i)[k] as int;
        t.lemma_height_bound(c);
        if t.kids_height(i, k) == t.height(c) {
            assert(k <= k < t.child_seq(i).len() && t.kids_height(i, k) == t.height(
                #[trigger] t.child_seq(i)[k] as int,
            ));
        } else {
            assert(t.kids_height(i, k) == t.kids_height(i, k + 1));
            assert(k + 1 < t.child_seq(i).len());
            let w = choose|k2: int|
                k + 1 <= k2 < t.child_seq(i).len() && t.kids_height(i, k + 1) == t.height(
                    #[trigger] t.child_seq(i)[k2] as int,
                );
            assert(k <= w < t.child_seq(i).len() && t.kids_height(i, k) == t.height(
                #[trigger] t.child_seq(i)[w] as int,
            ));
        }
    }
}

/// Height decomposition: a childless node has height 1, and any other node
/// stands one above its tallest child — `kids_height(i, 0)` is exactly the
/// largest child height.
pub proof fn lemma_height_decomposition(t: GenTree, i: int)
    requires
        t.wf(),
        0 <= i < t.n_nodes(),
    ensures
        t.height(i) == 1 + t.kids_height(i, 0),
        t.child_seq(i).len() == 0 ==> t.height(i) == 1,
        forall|k: int|
            0 <= k < t.child_seq(i).len() ==> t.height(#[trigger] t.child_seq(i)[k] as int)
                <= t.kids_height(i, 0),
        t.child_seq(i).len() > 0 ==> exists|k: int|
            0 <= k < t.child_seq(i).len() && t.kids_height(i, 0) == t.height(
                #[trigger] t.child_seq(i)[k] as int,
            ),
{
    lemma_kids_height_max(t, i, 0);
}

/// Rendering is a function of the name and the tree alone: two renderings
/// of the same tree under the same name are identical, character for
/// character.
pub proof fn lemma_render_deterministic(name: Seq<char>, t: GenTree, out1: Seq<char>, out2: Seq<
    char,
>)
    requires
        out1 == spec_render(name, t),
        out2 == spec_render(name, t),
    ensures
        out1 == out2,
{
}

/// A level list with no gaps: each level steps up by at most one from its
/// predecessor (from `lc` for the first).
pub open spec fn gap_free_from(lc: int, levels: Seq<int>, k: int) -> bool {
    forall|k2: int|
        k <= k2 < levels.len() ==> #[trigger] levels[k2] <= (if k2 == k {
            lc
        } else {
            levels[k2 - 1]
        }) + 1
}

/// With no gaps there is nothing to bridge: the expansion is one real entry
/// per heading, in order.
proof fn lemma_expand_gap_free(lc: int, levels: Seq<int>, k: int)
    requires
        0 <= k <= levels.len(),
        gap_free_from(lc, levels, k),
    ensures
        expand(lc, levels, k) == Seq::new(
            (levels.len() - k) as nat,
            |m: int| Entry { slot: levels[k + m], source: Some(k + m) },
        ),
    decreases levels.len() - k,
{
    if k < levels.len() {
        assert(levels[k] <= lc + 1);
        assert(gap_free_from(levels[k], levels, k + 1)) by {
            assert forall|k2: int|
                k + 1 <= k2 < levels.len() implies #[trigger] levels[k2] <= (if k2 == k + 1 {
                levels[k]
            } else {
                levels[k2 - 1]
            }) + 1 by {
                assert(levels[k2] <= levels[k2 - 1] + 1);
            }
        }
        lemma_expand_gap_free(levels[k], levels, k + 1);
        assert(expand(lc, levels, k) =~= Seq::new(
            (levels.len() - k) as nat,
            |m: int| Entry { slot: levels[k + m], source: Some(k + m) },
        ));
    } else {
        assert(expand(lc, levels, k) =~= Seq::new(
            (levels.len() - k) as nat,
            |m: int| Entry { slot: levels[k + m], source: Some(k + m) },
        ));
    }
}

/// The titles carried by a list of planned lines.
pub open spec fn info_titles(ls: Seq<LineInfo>) -> Seq<Seq<char>> {
    ls.map_values(|li: LineInfo| li.title)
}

/// The titles of a list of node handles.
pub open spec fn node_titles(t: GenTree, js: Seq<int>) -> Seq<Seq<char>> {
    js.map_values(|j: int| t.title_at(j))
}

/// Taking titles distributes over concatenation of line lists.
proof fn lemma_info_titles_concat(a: Seq<LineInfo>, b: Seq<LineInfo>)
    ensures
        info_titles(a + b) == info_titles(a) + info_titles(b),
{
    assert(info_titles(a + b) =~= info_titles(a) + info_titles(b));
}

/// Taking titles distributes over concatenation of handle lists.
proof fn lemma_node_titles_concat(t: GenTree, a: Seq<int>, b: Seq<int>)
    ensures
        node_titles(t, a + b) == node_titles(t, a) + node_titles(t, b),
{
    assert(node_titles(t, a + b) =~= node_titles(t, a) + node_titles(t, b));
}

/// The rendered lines visit exactly the nodes of the preorder traversal,
/// in the same order, one line per node.
#[verifier::rlimit(100)]
proof fn lemma_lines_match_preorder(t: GenTree, i: int, k: int, prefix: Seq<char>)
    requires
        t.wf(),
        0 <= i < t.n_nodes(),
        0 <= k <= t.child_seq(i).len(),
    ensures
        info_titles(line_infos_from(t, i, k, prefix)) == node_titles(t, t.kids_preorder(i, k)),
    decreases t.n_nodes() - i, t.child_seq(i).len() - k,
{
    if k < t.child_seq(i).len() {
        let c = t.child_seq(i)[k] as int;
        let last = k == t.child_seq(i).len() - 1;
        let deeper = prefix + (if last {
            "    "@
        } else {
            "│   "@
        });
        let li = LineInfo { prefix, is_last: last, title: t.title_at(c) };
        lemma_lines_match_preorder(t, c, 0, deeper);
        lemma_lines_match_preorder(t, i, k + 1, prefix);
        let sub = line_infos_from(t, c, 0, deeper);
        let rest = line_infos_from(t, i, k + 1, prefix);
        assert(line_infos_from(t, i, k, prefix) == seq![li] + sub + rest);
        assert(t.kids_preorder(i, k) == t.preorder(c) + t.kids_preorder(i, k + 1));
        assert(t.preorder(c) == seq![c] + t.kids_preorder(c, 0));
        lemma_info_titles_concat(seq![li] + sub, rest);
        lemma_info_titles_concat(seq![li], sub);
        lemma_node_titles_concat(t, t.preorder(c), t.kids_preorder(i, k + 1));
        lemma_node_titles_concat(t, seq![c], t.kids_preorder(c, 0));
        assert(info_titles(seq![li]) =~= node_titles(t, seq![c]));
        assert(info_titles(line_infos_from(t, i, k, prefix)) =~= node_titles(
            t,
            t.kids_preorder(i, k),
        ));
    } else {
        assert(info_titles(line_infos_from(t, i, k, prefix)) =~= node_titles(
            t,
            t.kids_preorder(i, k),
        ));
    }
}

/// Round trip: a tree built from a heading list with no level gaps and no
/// level at or above the base renders exactly one line per input heading,
/// in input order — the line of heading `m` carries its title.
#[verifier::rlimit(100)]
pub proof fn lemma_render_round_trip(t: GenTree, base: int, hs: Seq<Heading>)
    requires
        built_from(t, base, hs),
        gap_free_from(base, levels_of(hs), 0),
        forall|k: int| 0 <= k < hs.len() ==> #[trigger] levels_of(hs)[k] > base,
    ensures
        info_titles(line_infos_from(t, 0, 0, Seq::empty())).len() == hs.len(),
        info_titles(line_infos_from(t, 0, 0, Seq::empty())) == hs.map_values(
            |h: Heading| h.title@,
        ),
{
    let n = t.n_nodes();
    let levels = levels_of(hs);
    lemma_expand_gap_free(base, levels, 0);
    let e = expand(base, levels, 0);
    assert(e.len() == hs.len());
    assert(n == 1 + hs.len());
    assert(t.preorder(0) == range_seq(0, n));
    assert(t.preorder(0) == seq![0int] + t.kids_preorder(0, 0));
    assert(t.kids_preorder(0, 0) =~= range_seq(1, n)) by {
        assert forall|m: int|
            0 <= m < t.kids_preorder(0, 0).len() implies t.kids_preorder(0, 0)[m] == 1 + m by {
            assert(t.preorder(0)[m + 1] == t.kids_preorder(0, 0)[m]);
            assert(range_seq(0, n)[m + 1] == 1 + m);
        }
        assert(t.kids_preorder(0, 0).len() == n - 1);
    }
    lemma_lines_match_preorder(t, 0, 0, Seq::empty());
    assert forall|j: int| 1 <= j < n implies t.title_at(j) == hs[j - 1].title@ by {
        assert(node_matches(t, hs, e[j - 1], j));
        assert(e[j - 1].source == Some(j - 1));
    }
    assert(node_titles(t, range_seq(1, n)) =~= hs.map_values(|h: Heading| h.title@));
}

} // verus!
