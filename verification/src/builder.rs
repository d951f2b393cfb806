//! The tree builder: one forward pass over an ordered `(level, title)` list.
//!
//! The intended shape of the result is captured declaratively: the level list
//! is first *expanded* by bridging every level gap with placeholder entries,
//! giving each node (real or placeholder) a *slot* — the level at which it
//! sits. A node's parent is then the most recently stored node whose slot is
//! exactly one smaller. The builder's contract states exactly that, plus the
//! fact that storage order coincides with preorder.

use vstd::prelude::*;

use crate::tree::{GenTree, Heading, Node, range_seq};

verus! {

/// The error for a heading sequence that would climb above the root:
/// placing such a heading would need an ancestor the tree does not have.
#[derive(Clone, Copy, PartialEq, Eq, Structural, Debug)]
pub struct StructureError;

/// One planned node of the tree under construction: the level it sits at,
/// and the index of the heading it stands for — none for a placeholder.
pub struct Entry {
    pub slot: int,
    pub source: Option<int>,
}

/// The levels of a heading list, as mathematical integers.
pub open spec fn levels_of(hs: Seq<Heading>) -> Seq<int> {
    hs.map_values(|h: Heading| h.level as int)
}

/// Expands the level list from position `k` on, with the cursor at level
/// `lc`: a gap of more than one level is bridged by placeholder entries at
/// the missing levels, and every heading contributes one real entry.
pub open spec fn expand(lc: int, levels: Seq<int>, k: int) -> Seq<Entry>
    decreases levels.len() - k,
        when 0 <= k <= levels.len()
{
    if k >= levels.len() {
        Seq::empty()
    } else {
        let l = levels[k];
        let bridge = if l > lc + 1 {
            Seq::new((l - lc - 1) as nat, |m: int| Entry { slot: lc + 1 + m, source: None })
        } else {
            Seq::empty()
        };
        bridge + seq![Entry { slot: l, source: Some(k) }] + expand(l, levels, k + 1)
    }
}

/// The slot of every stored node, in storage order: the root sits at the
/// base level, node `j >= 1` at the slot of its planned entry.
pub open spec fn slots_of(base: int, ents: Seq<Entry>) -> Seq<int> {
    seq![base] + ents.map_values(|e: Entry| e.slot)
}

/// The largest position `<= from` holding `target`, or -1 if there is none.
pub open spec fn last_at(slots: Seq<int>, target: int, from: int) -> int
    decreases from + 1,
        when from < slots.len()
{
    if from < 0 {
        -1
    } else if slots[from] == target {
        from
    } else {
        last_at(slots, target, from - 1)
    }
}

/// How many placeholder entries the expansion inserts from position `k` on.
pub open spec fn placeholder_count(lc: int, levels: Seq<int>, k: int) -> int
    decreases levels.len() - k,
        when 0 <= k <= levels.len()
{
    if k >= levels.len() {
        0
    } else {
        (if levels[k] > lc + 1 {
            levels[k] - lc - 1
        } else {
            0
        }) + placeholder_count(levels[k], levels, k + 1)
    }
}

/// Does node `j` of `t` carry the payload its planned entry calls for —
/// the heading `hs[k]` for a real entry, the `"[]"` marker for a placeholder?
pub open spec fn node_matches(t: GenTree, hs: Seq<Heading>, ent: Entry, j: int) -> bool {
    &&& (ent.source matches Some(k) ==> {
        &&& 0 <= k < hs.len()
        &&& (t.data_at(j) matches Some(h) && h.title@ == hs[k].title@ && h.level == hs[k].level)
    })
    &&& (ent.source is None ==> (t.data_at(j) matches Some(h) && h.title@ == "[]"@ && h.level
        == 0))
}

/// The full contract of a finished build from base level `base` and heading
/// list `hs`: a well-formed tree of exactly the planned nodes, in storage
/// order, each under the most recent node one slot above it, with storage
/// order equal to preorder.
pub open spec fn built_from(t: GenTree, base: int, hs: Seq<Heading>) -> bool {
    let e = expand(base, levels_of(hs), 0);
    let slots = slots_of(base, e);
    &&& t.wf()
    &&& t.n_nodes() == 1 + e.len()
    &&& t.size == t.n_nodes()
    &&& (t.data_at(0) matches Some(h) && h.title@ == "ROOT"@ && h.level == 0)
    &&& forall|j: int| 1 <= j < t.n_nodes() ==> #[trigger] node_matches(t, hs, e[j - 1], j)
    &&& forall|j: int|
        1 <= j < t.n_nodes() ==> {
            let pj = last_at(slots, slots[j] - 1, j - 1);
            0 <= pj && #[trigger] t.parent_idx(j) == Some(pj as usize)
        }
    &&& t.preorder(0) == range_seq(0, t.n_nodes())
}

/// `last_at` only reads positions up to `from`, so any extension of the
/// sequence beyond them leaves it unchanged.
proof fn lemma_last_at_extend(s1: Seq<int>, s2: Seq<int>, target: int, from: int)
    requires
        s1.len() <= s2.len(),
        forall|i: int| 0 <= i < s1.len() ==> s1[i] == #[trigger] s2[i],
        from < s1.len() as int,
    ensures
        last_at(s2, target, from) == last_at(s1, target, from),
    decreases from + 1,
{
    if from >= 0 && s1[from] != target {
        lemma_last_at_extend(s1, s2, target, from - 1);
    }
}

/// `last_at` lands exactly on a known hit with no later hit before `from`.
proof fn lemma_last_at_hit(slots: Seq<int>, target: int, m: int, from: int)
    requires
        0 <= m <= from < slots.len(),
        slots[m] == target,
        forall|j: int| m < j <= from ==> #[trigger] slots[j] != target,
    ensures
        last_at(slots, target, from) == m,
    decreases from - m,
{
    if from > m {
        lemma_last_at_hit(slots, target, m, from - 1);
    }
}

/// Membership distributes over sequence concatenation.
proof fn lemma_concat_contains(s1: Seq<int>, s2: Seq<int>, x: int)
    ensures
        (s1 + s2).contains(x) <==> (s1.contains(x) || s2.contains(x)),
{
    if s1.contains(x) {
        let w = choose|w: int| 0 <= w < s1.len() && s1[w] == x;
        assert((s1 + s2)[w] == x);
    }
    if s2.contains(x) {
        let w = choose|w: int| 0 <= w < s2.len() && s2[w] == x;
        assert((s1 + s2)[s1.len() as int + w] == x);
    }
    if (s1 + s2).contains(x) {
        let w = choose|w: int| 0 <= w < (s1 + s2).len() && (s1 + s2)[w] == x;
        if w < s1.len() {
            assert(s1[w] == x);
        } else {
            assert(s2[w - s1.len()] == x);
        }
    }
}

/// A contiguous range contains exactly the integers between its bounds.
proof fn lemma_range_contains(a: int, b: int, x: int)
    ensures
        range_seq(a, b).contains(x) <==> a <= x < b,
{
    if a <= x < b {
        assert(range_seq(a, b).len() == b - a);
        assert(range_seq(a, b)[x - a] == x);
        assert(range_seq(a, b).contains(x));
    }
    if range_seq(a, b).contains(x) {
        let w = choose|w: int| 0 <= w < range_seq(a, b).len() && range_seq(a, b)[w] == x;
        assert(x == a + w);
        assert(a <= x < b);
    }
}

/// The standing invariant of a build in progress. `ents` plans the nodes
/// stored so far; `spine` is the path of handles from the root down to the
/// cursor, one per slot from `base` upward. Every spine node is the last
/// child of its predecessor and the most recent node at its slot, and roots
/// a subtree holding exactly the handles from its own up to the end of the
/// arena — in other words, storage order is preorder.
spec fn building_inv(t: GenTree, base: int, ents: Seq<Entry>, spine: Seq<int>) -> bool {
    let n = t.n_nodes();
    let slots = slots_of(base, ents);
    &&& t.wf()
    &&& n == 1 + ents.len()
    &&& 1 <= spine.len()
    &&& spine[0] == 0
    &&& forall|u: int| 0 <= u < spine.len() ==> 0 <= #[trigger] spine[u] < n
    &&& forall|u1: int, u2: int|
        0 <= u1 < u2 < spine.len() ==> #[trigger] spine[u1] < #[trigger] spine[u2]
    &&& forall|u: int| 0 <= u < spine.len() ==> slots[#[trigger] spine[u]] == base + u
    &&& forall|u: int|
        0 <= u < spine.len() - 1 ==> t.parent_idx(#[trigger] spine[u + 1]) == Some(
            spine[u] as usize,
        )
    &&& forall|u: int|
        0 <= u < spine.len() - 1 ==> {
            let ch = t.child_seq(#[trigger] spine[u]);
            ch.len() > 0 && ch[ch.len() - 1] as int == spine[u + 1]
        }
    &&& forall|u: int, j: int|
        0 <= u < spine.len() && #[trigger] spine[u] < j < n ==> #[trigger] slots[j] != base + u
    &&& forall|j: int|
        1 <= j < n ==> {
            let pj = last_at(slots, slots[j] - 1, j - 1);
            0 <= pj && #[trigger] t.parent_idx(j) == Some(pj as usize)
        }
    &&& forall|u: int|
        0 <= u < spine.len() ==> t.preorder(#[trigger] spine[u]) == range_seq(spine[u], n)
}

/// The handle right after child `k` of `i` in storage order: the next
/// child's handle, or the arena's end for the last child.
spec fn kid_lo(t: GenTree, i: int, k: int) -> int {
    if k < t.child_seq(i).len() {
        t.child_seq(i)[k] as int
    } else {
        t.n_nodes()
    }
}

/// A tree edit that only touches the child list of `a` leaves the preorder
/// of any subtree that does not reach `a` unchanged.
proof fn lemma_frame_preorder(t1: GenTree, t2: GenTree, i: int, a: int)
    requires
        t1.wf(),
        t2.wf(),
        0 <= i < t1.n_nodes(),
        t1.n_nodes() <= t2.n_nodes(),
        0 <= a < t1.n_nodes(),
        forall|x: int|
            0 <= x < t1.n_nodes() && x != a ==> #[trigger] t2.child_seq(x) == t1.child_seq(x),
        !t1.preorder(i).contains(a),
    ensures
        t2.preorder(i) == t1.preorder(i),
    decreases t1.n_nodes() - i, t1.child_seq(i).len() + 2,
{
    assert(t1.preorder(i) == seq![i] + t1.kids_preorder(i, 0));
    assert(t1.preorder(i)[0] == i);
    assert(t1.preorder(i).contains(i));
    assert(i != a);
    lemma_concat_contains(seq![i], t1.kids_preorder(i, 0), a);
    lemma_frame_kids(t1, t2, i, 0, a);
    assert(t2.preorder(i) == seq![i] + t2.kids_preorder(i, 0));
}

/// The child-suffix form of the frame property above.
proof fn lemma_frame_kids(t1: GenTree, t2: GenTree, i: int, k: int, a: int)
    requires
        t1.wf(),
        t2.wf(),
        0 <= i < t1.n_nodes(),
        t1.n_nodes() <= t2.n_nodes(),
        0 <= a < t1.n_nodes(),
        forall|x: int|
            0 <= x < t1.n_nodes() && x != a ==> #[trigger] t2.child_seq(x) == t1.child_seq(x),
        i != a,
        0 <= k <= t1.child_seq(i).len(),
        !t1.kids_preorder(i, k).contains(a),
    ensures
        t2.kids_preorder(i, k) == t1.kids_preorder(i, k),
    decreases t1.n_nodes() - i, t1.child_seq(i).len() - k + 1,
{
    assert(t2.child_seq(i) == t1.child_seq(i));
    if k < t1.child_seq(i).len() {
        let c = t1.child_seq(i)[k] as int;
        assert(t1.kids_preorder(i, k) == t1.preorder(c) + t1.kids_preorder(i, k + 1));
        lemma_concat_contains(t1.preorder(c), t1.kids_preorder(i, k + 1), a);
        lemma_frame_preorder(t1, t2, c, a);
        lemma_frame_kids(t1, t2, i, k + 1, a);
        assert(t2.kids_preorder(i, k) == t2.preorder(c) + t2.kids_preorder(i, k + 1));
    }
}

/// Where the concatenated child preorders form one contiguous range, each
/// child's own preorder is the slice from its handle up to the next one.
proof fn lemma_kids_ranges(t: GenTree, i: int, k: int, b: int)
    requires
        t.wf(),
        0 <= i < t.n_nodes(),
        0 <= k <= t.child_seq(i).len(),
        b <= t.n_nodes(),
        t.kids_preorder(i, k) == range_seq(b, t.n_nodes()),
    ensures
        forall|k2: int|
            k <= k2 < t.child_seq(i).len() ==> #[trigger] t.preorder(t.child_seq(i)[k2] as int)
                == range_seq(t.child_seq(i)[k2] as int, kid_lo(t, i, k2 + 1)),
    decreases t.child_seq(i).len() - k,
{
    if k < t.child_seq(i).len() {
        let n = t.n_nodes();
        let c = t.child_seq(i)[k] as int;
        let pre_c = t.preorder(c);
        let rest = t.kids_preorder(i, k + 1);
        assert(t.kids_preorder(i, k) == pre_c + rest);
        assert(pre_c == seq![c] + t.kids_preorder(c, 0));
        assert(pre_c[0] == c);
        assert((pre_c + rest)[0] == c);
        assert(range_seq(b, n)[0] == b);
        assert(c == b);
        let len_c = pre_c.len() as int;
        assert(pre_c.len() + rest.len() == n - b);
        assert(pre_c =~= range_seq(c, c + len_c)) by {
            assert forall|m: int| 0 <= m < len_c implies pre_c[m] == c + m by {
                assert(pre_c[m] == (pre_c + rest)[m]);
            }
        }
        assert(rest =~= range_seq(c + len_c, n)) by {
            assert forall|m: int| 0 <= m < rest.len() implies rest[m] == c + len_c + m by {
                assert(rest[m] == (pre_c + rest)[len_c + m]);
            }
        }
        lemma_kids_ranges(t, i, k + 1, c + len_c);
        if k + 1 < t.child_seq(i).len() {
            let c2 = t.child_seq(i)[k + 1] as int;
            assert(rest == t.preorder(c2) + t.kids_preorder(i, k + 2));
            assert(t.preorder(c2) == seq![c2] + t.kids_preorder(c2, 0));
            assert(t.preorder(c2)[0] == c2);
            assert(rest[0] == c2);
            assert(c2 == c + len_c);
            assert(kid_lo(t, i, k + 1) == c + len_c);
        } else {
            assert(rest.len() == 0);
            assert(c + len_c == n);
            assert(kid_lo(t, i, k + 1) == c + len_c);
        }
        assert(t.preorder(c) == range_seq(c, kid_lo(t, i, k + 1)));
    }
}

/// The relation between the arena before an attachment (`t0`) and after it
/// (`t2`): one fresh node `n` was stored and then linked as the new last
/// child of the spine node at position `u`; nothing else moved.
spec fn attach_ctx(
    t0: GenTree,
    t2: GenTree,
    base: int,
    ents: Seq<Entry>,
    spine: Seq<int>,
    u: int,
) -> bool {
    let n = t0.n_nodes();
    &&& building_inv(t0, base, ents, spine)
    &&& 0 <= u < spine.len()
    &&& t2.wf()
    &&& t2.n_nodes() == n + 1
    &&& n + 1 <= usize::MAX
    &&& forall|x: int|
        0 <= x < n && x != spine[u] ==> #[trigger] t2.child_seq(x) == t0.child_seq(x)
    &&& forall|x: int| 0 <= x < n ==> #[trigger] t2.parent_idx(x) == t0.parent_idx(x)
    &&& forall|x: int| 0 <= x < n ==> #[trigger] t2.data_at(x) == t0.data_at(x)
    &&& t2.child_seq(spine[u]) == t0.child_seq(spine[u]).push(n as usize)
    &&& t2.child_seq(n) == Seq::<usize>::empty()
    &&& t2.parent_idx(n) == Some(spine[u] as usize)
}

/// A node whose subtree is a contiguous block passes the block on to its
/// children: their subtrees slice it up, starting right after the node.
#[verifier::rlimit(100)]
proof fn lemma_block_kids(t: GenTree, s: int)
    requires
        t.wf(),
        0 <= s < t.n_nodes(),
        t.preorder(s) == range_seq(s, t.n_nodes()),
    ensures
        t.kids_preorder(s, 0) == range_seq(s + 1, t.n_nodes()),
        forall|k2: int|
            0 <= k2 < t.child_seq(s).len() ==> #[trigger] t.preorder(t.child_seq(s)[k2] as int)
                == range_seq(t.child_seq(s)[k2] as int, kid_lo(t, s, k2 + 1)),
        kid_lo(t, s, 0) == s + 1,
        t.child_seq(s).len() == 0 ==> t.n_nodes() == s + 1,
{
    let n = t.n_nodes();
    assert(t.preorder(s) == seq![s] + t.kids_preorder(s, 0));
    assert(t.kids_preorder(s, 0) =~= range_seq(s + 1, n)) by {
        assert forall|m: int|
            0 <= m < t.kids_preorder(s, 0).len() implies t.kids_preorder(s, 0)[m] == s + 1
            + m by {
            assert(t.preorder(s)[m + 1] == t.kids_preorder(s, 0)[m]);
            assert(range_seq(s, n)[m + 1] == s + 1 + m);
        }
        assert(t.kids_preorder(s, 0).len() == n - s - 1);
    }
    lemma_kids_ranges(t, s, 0, s + 1);
    if t.child_seq(s).len() == 0 {
        assert(range_seq(s + 1, n).len() == 0);
        assert(n == s + 1);
    } else {
        let c0 = t.child_seq(s)[0] as int;
        assert(t.kids_preorder(s, 0) == t.preorder(c0) + t.kids_preorder(s, 1));
        assert(t.preorder(c0) == seq![c0] + t.kids_preorder(c0, 0));
        assert(t.kids_preorder(s, 0)[0] == c0);
        assert(range_seq(s + 1, n)[0] == s + 1);
        assert(c0 == s + 1);
    }
}

/// After the attachment, the subtree of the spine node at position `v <= u`
/// again holds one contiguous block of handles, now closed by the new node.
#[verifier::rlimit(100)]
proof fn lemma_attach_preorder(
    t0: GenTree,
    t2: GenTree,
    base: int,
    ents: Seq<Entry>,
    spine: Seq<int>,
    u: int,
    v: int,
)
    requires
        attach_ctx(t0, t2, base, ents, spine, u),
        0 <= v <= u,
    ensures
        t2.preorder(spine[v]) == range_seq(spine[v], t0.n_nodes() + 1),
    decreases u - v, t0.child_seq(spine[v]).len() + 2,
{
    let n = t0.n_nodes();
    let s = spine[v];
    assert(t0.preorder(s) == range_seq(s, n));
    lemma_block_kids(t0, s);
    if v == u {
        lemma_attach_kids_target(t0, t2, base, ents, spine, u, 0);
        assert(t2.kids_preorder(s, 0) == range_seq(kid_lo(t0, s, 0), n + 1));
        assert(t2.preorder(s) == seq![s] + t2.kids_preorder(s, 0));
        assert(t2.preorder(s) =~= range_seq(s, n + 1));
    } else {
        assert(t0.child_seq(s).len() > 0);
        assert(t0.child_seq(s)[0] as int == s + 1);
        lemma_attach_kids_spine(t0, t2, base, ents, spine, u, v, 0);
        assert(t2.kids_preorder(s, 0) == range_seq(s + 1, n + 1));
        assert(t2.child_seq(s) == t0.child_seq(s));
        assert(t2.preorder(s) == seq![s] + t2.kids_preorder(s, 0));
        assert(t2.preorder(s) =~= range_seq(s, n + 1));
    }
}

/// Child-suffix reassembly for the attachment target itself: its old
/// children keep their blocks, and the fresh node closes the row.
proof fn lemma_attach_kids_target(
    t0: GenTree,
    t2: GenTree,
    base: int,
    ents: Seq<Entry>,
    spine: Seq<int>,
    u: int,
    k: int,
)
    requires
        attach_ctx(t0, t2, base, ents, spine, u),
        0 <= k <= t0.child_seq(spine[u]).len(),
        forall|k2: int|
            0 <= k2 < t0.child_seq(spine[u]).len() ==> #[trigger] t0.preorder(
                t0.child_seq(spine[u])[k2] as int,
            ) == range_seq(t0.child_seq(spine[u])[k2] as int, kid_lo(t0, spine[u], k2 + 1)),
    ensures
        t2.kids_preorder(spine[u], k) == range_seq(kid_lo(t0, spine[u], k), t0.n_nodes() + 1),
    decreases t0.child_seq(spine[u]).len() - k,
{
    let n = t0.n_nodes();
    let a = spine[u];
    let old_len = t0.child_seq(a).len() as int;
    assert(t2.child_seq(a) == t0.child_seq(a).push(n as usize));
    assert(t2.child_seq(a).len() == old_len + 1);
    if k == old_len {
        assert(t2.child_seq(a)[k] == n as usize);
        assert(t2.kids_preorder(a, k) == t2.preorder(n) + t2.kids_preorder(a, k + 1));
        assert(t2.kids_preorder(a, k + 1) == Seq::<int>::empty());
        assert(t2.preorder(n) == seq![n] + t2.kids_preorder(n, 0));
        assert(t2.kids_preorder(n, 0) == Seq::<int>::empty());
        assert(t2.kids_preorder(a, k) =~= range_seq(n, n + 1));
    } else {
        let c = t0.child_seq(a)[k] as int;
        assert(t2.child_seq(a)[k] as int == c);
        assert(t0.preorder(c) == range_seq(c, kid_lo(t0, a, k + 1)));
        assert(a < c) by {
            assert(t0.child_seq(a)[k] == t0.child_seq(a)[k]);
        }
        assert(!t0.preorder(c).contains(a)) by {
            lemma_range_contains(c, kid_lo(t0, a, k + 1), a);
        }
        lemma_frame_preorder(t0, t2, c, a);
        lemma_attach_kids_target(t0, t2, base, ents, spine, u, k + 1);
        assert(t2.kids_preorder(a, k) == t2.preorder(c) + t2.kids_preorder(a, k + 1));
        assert(t0.preorder(c)[0] == c);
        assert(c < kid_lo(t0, a, k + 1)) by {
            assert(t0.preorder(c) == seq![c] + t0.kids_preorder(c, 0));
            assert(range_seq(c, kid_lo(t0, a, k + 1)).len() > 0);
        }
        assert(t2.kids_preorder(a, k) =~= range_seq(c, n + 1));
    }
}

/// Child-suffix reassembly for a spine node strictly above the target: only
/// the last child's block grows, by exactly the fresh node.
proof fn lemma_attach_kids_spine(
    t0: GenTree,
    t2: GenTree,
    base: int,
    ents: Seq<Entry>,
    spine: Seq<int>,
    u: int,
    v: int,
    k: int,
)
    requires
        attach_ctx(t0, t2, base, ents, spine, u),
        0 <= v < u,
        0 <= k < t0.child_seq(spine[v]).len(),
        forall|k2: int|
            0 <= k2 < t0.child_seq(spine[v]).len() ==> #[trigger] t0.preorder(
                t0.child_seq(spine[v])[k2] as int,
            ) == range_seq(t0.child_seq(spine[v])[k2] as int, kid_lo(t0, spine[v], k2 + 1)),
    ensures
        t2.kids_preorder(spine[v], k) == range_seq(
            t0.child_seq(spine[v])[k] as int,
            t0.n_nodes() + 1,
        ),
    decreases u - v, t0.child_seq(spine[v]).len() - k,
{
    let n = t0.n_nodes();
    let s = spine[v];
    let len = t0.child_seq(s).len() as int;
    assert(s != spine[u]);
    assert(t2.child_seq(s) == t0.child_seq(s));
    let c = t0.child_seq(s)[k] as int;
    assert(t2.kids_preorder(s, k) == t2.preorder(c) + t2.kids_preorder(s, k + 1));
    if k == len - 1 {
        assert(c == spine[v + 1]) by {
            assert(t0.child_seq(s)[len - 1] as int == spine[v + 1]);
        }
        lemma_attach_preorder(t0, t2, base, ents, spine, u, v + 1);
        assert(t2.preorder(c) == range_seq(c, n + 1));
        assert(t2.kids_preorder(s, k + 1) == Seq::<int>::empty());
        assert(t2.kids_preorder(s, k) =~= range_seq(c, n + 1));
    } else {
        let c2 = t0.child_seq(s)[k + 1] as int;
        assert(t0.preorder(c) == range_seq(c, c2));
        assert(!t0.preorder(c).contains(spine[u])) by {
            assert(c2 <= t0.child_seq(s)[len - 1] as int) by {
                assert(t0.child_seq(s)[k + 1] <= t0.child_seq(s)[len - 1]);
            }
            assert(t0.child_seq(s)[len - 1] as int == spine[v + 1]);
            assert(spine[v + 1] <= spine[u]);
            lemma_range_contains(c, c2, spine[u]);
        }
        lemma_frame_preorder(t0, t2, c, spine[u]);
        lemma_attach_kids_spine(t0, t2, base, ents, spine, u, v, k + 1);
        assert(t2.kids_preorder(s, k) =~= range_seq(c, n + 1)) by {
            assert(t2.preorder(c) == range_seq(c, c2));
            assert(t2.kids_preorder(s, k + 1) == range_seq(c2, n + 1));
            assert(c <= c2) by {
                assert(t0.preorder(c)[0] == c);
                assert(t0.preorder(c) == seq![c] + t0.kids_preorder(c, 0));
            }
        }
    }
}

/// After an attachment, the nodes already present still hang under the most
/// recent node one slot above them: the plan grew only past them.
#[verifier::rlimit(100)]
proof fn lemma_attach_parents_old(
    t0: GenTree,
    t2: GenTree,
    base: int,
    ents: Seq<Entry>,
    spine: Seq<int>,
    u: int,
    ent: Entry,
)
    requires
        attach_ctx(t0, t2, base, ents, spine, u),
        ent.slot == base + u + 1,
    ensures
        forall|j: int|
            1 <= j < t0.n_nodes() ==> {
                let slots2 = slots_of(base, ents.push(ent));
                let pj = last_at(slots2, slots2[j] - 1, j - 1);
                0 <= pj && #[trigger] t2.parent_idx(j) == Some(pj as usize)
            },
{
    let n = t0.n_nodes();
    let slots = slots_of(base, ents);
    let slots2 = slots_of(base, ents.push(ent));
    assert(slots2 =~= slots.push(ent.slot));
    assert(slots.len() == n);
    assert(forall|x: int| 0 <= x < n ==> #[trigger] slots2[x] == slots[x]);
    assert forall|j: int|
        1 <= j < n implies {
            let pj = last_at(slots2, slots2[j] - 1, j - 1);
            0 <= pj && #[trigger] t2.parent_idx(j) == Some(pj as usize)
        } by {
        lemma_last_at_extend(slots, slots2, slots[j] - 1, j - 1);
        assert(t2.parent_idx(j) == t0.parent_idx(j));
    }
}

/// In an extended slot sequence whose last hit for `s_at` is at `a`, the
/// search one slot below the new end lands exactly on `a`.
proof fn lemma_attach_parents_new(slots: Seq<int>, slots2: Seq<int>, a: int, n: int, s_at: int)
    requires
        slots.len() == n,
        slots2.len() == n + 1,
        forall|x: int| 0 <= x < n ==> #[trigger] slots2[x] == slots[x],
        slots2[n] == s_at + 1,
        0 <= a < n,
        slots[a] == s_at,
        forall|x: int| a < x < n ==> #[trigger] slots[x] != s_at,
    ensures
        last_at(slots2, slots2[n] - 1, n - 1) == a,
{
    assert(slots2[a] == s_at);
    assert forall|x: int| a < x <= n - 1 implies #[trigger] slots2[x] != s_at by {
        assert(slots[x] != s_at);
    }
    lemma_last_at_hit(slots2, s_at, a, n - 1);
}

/// After an attachment, every node still hangs under the most recent node
/// one slot above it — the fresh node included.
#[verifier::rlimit(100)]
proof fn lemma_attach_parents(
    t0: GenTree,
    t2: GenTree,
    base: int,
    ents: Seq<Entry>,
    spine: Seq<int>,
    u: int,
    ent: Entry,
)
    requires
        attach_ctx(t0, t2, base, ents, spine, u),
        ent.slot == base + u + 1,
    ensures
        forall|j: int|
            1 <= j < t2.n_nodes() ==> {
                let slots2 = slots_of(base, ents.push(ent));
                let pj = last_at(slots2, slots2[j] - 1, j - 1);
                0 <= pj && #[trigger] t2.parent_idx(j) == Some(pj as usize)
            },
{
    let n = t0.n_nodes();
    let a = spine[u];
    let slots = slots_of(base, ents);
    let slots2 = slots_of(base, ents.push(ent));
    lemma_attach_parents_old(t0, t2, base, ents, spine, u, ent);
    assert(slots2 =~= slots.push(ent.slot));
    assert(slots.len() == n);
    assert(slots[a] == base + u);
    assert forall|x: int| a < x < n implies #[trigger] slots[x] != base + u by {}
    lemma_attach_parents_new(slots, slots2, a, n, base + u);
    assert forall|j: int|
        1 <= j < t2.n_nodes() implies {
            let pj = last_at(slots2, slots2[j] - 1, j - 1);
            0 <= pj && #[trigger] t2.parent_idx(j) == Some(pj as usize)
        } by {
        if j == n {
            assert(last_at(slots2, slots2[n] - 1, n - 1) == a);
            assert(t2.parent_idx(n) == Some(spine[u] as usize));
        }
    }
}

/// After an attachment, every node of the new spine again roots a
/// contiguous block of handles reaching to the end of the arena.
#[verifier::rlimit(100)]
proof fn lemma_attach_blocks(
    t0: GenTree,
    t2: GenTree,
    base: int,
    ents: Seq<Entry>,
    spine: Seq<int>,
    u: int,
)
    requires
        attach_ctx(t0, t2, base, ents, spine, u),
    ensures
        forall|w: int|
            0 <= w < spine.take(u + 1).push(t0.n_nodes()).len() ==> t2.preorder(
                #[trigger] spine.take(u + 1).push(t0.n_nodes())[w],
            ) == range_seq(spine.take(u + 1).push(t0.n_nodes())[w], t2.n_nodes()),
{
    let n = t0.n_nodes();
    let spine2 = spine.take(u + 1).push(n);
    assert forall|w: int|
        0 <= w < spine2.len() implies t2.preorder(#[trigger] spine2[w]) == range_seq(
        spine2[w],
        t2.n_nodes(),
    ) by {
        if w <= u {
            assert(spine2[w] == spine[w]);
            lemma_attach_preorder(t0, t2, base, ents, spine, u, w);
        } else {
            assert(spine2[w] == n);
            assert(t2.preorder(n) == seq![n] + t2.kids_preorder(n, 0));
            assert(t2.kids_preorder(n, 0) == Seq::<int>::empty());
            assert(t2.preorder(n) =~= range_seq(n, n + 1));
        }
    }
}

/// One attachment preserves the whole building invariant: the new node joins
/// the plan at slot `base + u + 1`, and the spine is cut back to the target
/// and extended by the new node.
#[verifier::rlimit(100)]
proof fn lemma_attach_step(
    t0: GenTree,
    t2: GenTree,
    base: int,
    ents: Seq<Entry>,
    spine: Seq<int>,
    u: int,
    ent: Entry,
)
    requires
        attach_ctx(t0, t2, base, ents, spine, u),
        ent.slot == base + u + 1,
    ensures
        building_inv(t2, base, ents.push(ent), spine.take(u + 1).push(t0.n_nodes())),
{
    let n = t0.n_nodes();
    let a = spine[u];
    let ents2 = ents.push(ent);
    let spine2 = spine.take(u + 1).push(n);
    let slots = slots_of(base, ents);
    let slots2 = slots_of(base, ents2);
    assert(slots2 =~= slots.push(ent.slot));
    assert(slots.len() == n);
    assert(forall|x: int| 0 <= x < n ==> #[trigger] slots2[x] == slots[x]);
    assert(slots2[n] == base + u + 1);
    assert(spine2.len() == u + 2);
    assert(forall|w: int| 0 <= w <= u ==> #[trigger] spine2[w] == spine[w]);
    assert(spine2[u + 1] == n);

    // spine handles valid and increasing
    assert forall|w: int| 0 <= w < spine2.len() implies 0 <= #[trigger] spine2[w]
        < t2.n_nodes() by {
        if w <= u {
            assert(spine2[w] == spine[w]);
        }
    }
    assert forall|w1: int, w2: int|
        0 <= w1 < w2 < spine2.len() implies #[trigger] spine2[w1] < #[trigger] spine2[w2] by {
        if w2 <= u {
            assert(spine2[w1] == spine[w1] && spine2[w2] == spine[w2]);
        } else {
            assert(spine2[w1] == spine[w1] && spine[w1] < n);
        }
    }

    // slots of spine nodes
    assert forall|w: int| 0 <= w < spine2.len() implies slots2[#[trigger] spine2[w]] == base
        + w by {
        if w <= u {
            assert(spine2[w] == spine[w]);
            assert(slots[spine[w]] == base + w);
        }
    }

    // parent links along the spine
    assert forall|w: int|
        0 <= w < spine2.len() - 1 implies t2.parent_idx(#[trigger] spine2[w + 1]) == Some(
        spine2[w] as usize,
    ) by {
        if w < u {
            assert(spine2[w + 1] == spine[w + 1]);
            assert(t2.parent_idx(spine[w + 1]) == t0.parent_idx(spine[w + 1]));
        }
    }

    // each spine node is the last child of its predecessor
    assert forall|w: int|
        0 <= w < spine2.len() - 1 implies {
            let ch = t2.child_seq(#[trigger] spine2[w]);
            ch.len() > 0 && ch[ch.len() - 1] as int == spine2[w + 1]
        } by {
        if w < u {
            assert(spine2[w] == spine[w] && spine[w] != a);
            assert(t2.child_seq(spine[w]) == t0.child_seq(spine[w]));
        } else {
            assert(spine2[w] == a);
            assert(t2.child_seq(a) == t0.child_seq(a).push(n as usize));
        }
    }

    // most-recent-at-slot
    assert forall|w: int, j: int|
        0 <= w < spine2.len() && #[trigger] spine2[w] < j < t2.n_nodes() implies #[trigger] slots2[j]
        != base + w by {
        if j < n {
            assert(slots2[j] == slots[j]);
            if w <= u {
                assert(spine2[w] == spine[w]);
            }
        } else {
            assert(slots2[j] == base + u + 1);
        }
    }

    // parent characterization
    lemma_attach_parents(t0, t2, base, ents, spine, u, ent);

    // preorder blocks along the new spine
    lemma_attach_blocks(t0, t2, base, ents, spine, u);
}

/// Unfolds one step of the expansion: a gapped heading sheds one placeholder
/// entry; an ungapped one contributes its own entry and moves on.
proof fn lemma_expand_step(lc: int, levels: Seq<int>, k: int)
    requires
        0 <= k < levels.len(),
    ensures
        levels[k] > lc + 1 ==> expand(lc, levels, k) == seq![
            Entry { slot: lc + 1, source: None },
        ] + expand(lc + 1, levels, k),
        levels[k] <= lc + 1 ==> expand(lc, levels, k) == seq![
            Entry { slot: levels[k], source: Some(k) },
        ] + expand(levels[k], levels, k + 1),
{
    let l = levels[k];
    let own = seq![Entry { slot: l, source: Some(k) }];
    let rest = expand(l, levels, k + 1);
    if l > lc + 1 {
        let b1 = Seq::new((l - lc - 1) as nat, |m: int| Entry { slot: lc + 1 + m, source: None });
        assert(expand(lc, levels, k) == b1 + own + rest);
        if l > lc + 2 {
            let b2 = Seq::new(
                (l - lc - 2) as nat,
                |m: int| Entry { slot: lc + 2 + m, source: None },
            );
            assert(expand(lc + 1, levels, k) == b2 + own + rest);
            assert(expand(lc, levels, k) =~= seq![Entry { slot: lc + 1, source: None }] + expand(
                lc + 1,
                levels,
                k,
            ));
        } else {
            assert(expand(lc + 1, levels, k) == Seq::<Entry>::empty() + own + rest);
            assert(expand(lc, levels, k) =~= seq![Entry { slot: lc + 1, source: None }] + expand(
                lc + 1,
                levels,
                k,
            ));
        }
    } else {
        assert(expand(lc, levels, k) == Seq::<Entry>::empty() + own + rest);
        assert(expand(lc, levels, k) =~= own + rest);
    }
}

/// One planning step: pushing the entry the expansion begins with moves
/// the split point of the plan one entry forward.
proof fn lemma_plan_step(ents: Seq<Entry>, lc: int, levels: Seq<int>, k: int, ent: Entry)
    requires
        0 <= k < levels.len(),
        levels[k] > lc + 1 ==> ent == (Entry { slot: lc + 1, source: None::<int> }),
        levels[k] <= lc + 1 ==> ent == (Entry { slot: levels[k], source: Some(k) }),
    ensures
        levels[k] > lc + 1 ==> ents + expand(lc, levels, k) == ents.push(ent) + expand(
            lc + 1,
            levels,
            k,
        ),
        levels[k] <= lc + 1 ==> ents + expand(lc, levels, k) == ents.push(ent) + expand(
            levels[k],
            levels,
            k + 1,
        ),
{
    lemma_expand_step(lc, levels, k);
    if levels[k] > lc + 1 {
        let rest = expand(lc + 1, levels, k);
        assert(ents + (seq![ent] + rest) =~= ents.push(ent) + rest);
    } else {
        let rest = expand(levels[k], levels, k + 1);
        assert(ents + (seq![ent] + rest) =~= ents.push(ent) + rest);
    }
}

/// Stores one fresh node holding `payload` and links it as the new last
/// child of the spine node at position `u`, keeping the building invariant;
/// the node joins the plan at slot `base + u + 1` with source `src`.
fn attach_planned(
    tree: &mut GenTree,
    target: usize,
    payload: Heading,
    Ghost(hs): Ghost<Seq<Heading>>,
    Ghost(base): Ghost<int>,
    Ghost(ents): Ghost<Seq<Entry>>,
    Ghost(spine): Ghost<Seq<int>>,
    Ghost(u): Ghost<int>,
    Ghost(src): Ghost<Option<int>>,
) -> (n: usize)
    requires
        building_inv(*old(tree), base, ents, spine),
        old(tree).size == old(tree).n_nodes(),
        0 <= u < spine.len(),
        target as int == spine[u],
        forall|j: int|
            1 <= j < old(tree).n_nodes() ==> #[trigger] node_matches(
                *old(tree),
                hs,
                ents[j - 1],
                j,
            ),
        (old(tree).data_at(0) matches Some(h) && h.title@ == "ROOT"@ && h.level == 0),
        (src matches Some(kx) ==> 0 <= kx < hs.len() && payload.title@ == hs[kx].title@
            && payload.level == hs[kx].level),
        (src is None ==> payload.title@ == "[]"@ && payload.level == 0),
    ensures
        building_inv(
            *final(tree),
            base,
            ents.push(Entry { slot: base + u + 1, source: src }),
            spine.take(u + 1).push(old(tree).n_nodes()),
        ),
        final(tree).size == final(tree).n_nodes(),
        final(tree).n_nodes() == old(tree).n_nodes() + 1,
        final(tree).n_nodes() <= usize::MAX,
        n as int == old(tree).n_nodes(),
        forall|j: int|
            1 <= j < final(tree).n_nodes() ==> #[trigger] node_matches(
                *final(tree),
                hs,
                ents.push(Entry { slot: base + u + 1, source: src })[j - 1],
                j,
            ),
        (final(tree).data_at(0) matches Some(h) && h.title@ == "ROOT"@ && h.level == 0),
{
    let ghost t0 = *tree;
    let n = tree.store(Node::build(Some(payload)));
    proof {
        assert(0 <= spine[u] < t0.n_nodes());
        assert(tree.valid(target as int));
        assert(tree.child_seq(target as int) == t0.child_seq(target as int));
        assert forall|k3: int|
            0 <= k3 < tree.child_seq(target as int).len() implies #[trigger] tree.child_seq(
            target as int,
        )[k3] < n by {
            assert((t0.child_seq(target as int)[k3] as int) < t0.n_nodes());
        }
        assert(tree.size < usize::MAX);
    }
    tree.add_child(Some(target), Some(n));
    proof {
        let t2 = *tree;
        let nn = t0.n_nodes();
        assert(attach_ctx(t0, t2, base, ents, spine, u)) by {
            assert forall|x: int|
                0 <= x < nn && x != spine[u] implies #[trigger] t2.child_seq(x) == t0.child_seq(
                x,
            ) by {
                assert(t2.nodes@[x] == t0.nodes@[x]);
            }
            assert forall|x: int| 0 <= x < nn implies #[trigger] t2.parent_idx(x)
                == t0.parent_idx(x) by {
                if x != spine[u] {
                    assert(t2.nodes@[x] == t0.nodes@[x]);
                }
            }
            assert forall|x: int| 0 <= x < nn implies #[trigger] t2.data_at(x) == t0.data_at(
                x,
            ) by {
                if x != spine[u] {
                    assert(t2.nodes@[x] == t0.nodes@[x]);
                }
            }
            assert(t2.child_seq(spine[u]) == t0.child_seq(spine[u]).push(n as usize));
            assert(t2.child_seq(nn) == Seq::<usize>::empty());
            assert(t2.parent_idx(nn) == Some(spine[u] as usize));
        }
        lemma_attach_step(t0, t2, base, ents, spine, u, Entry { slot: base + u + 1, source: src });
        let ents2 = ents.push(Entry { slot: base + u + 1, source: src });
        assert forall|j: int|
            1 <= j < t2.n_nodes() implies #[trigger] node_matches(t2, hs, ents2[j - 1], j) by {
            if j < t2.n_nodes() - 1 {
                assert(node_matches(t0, hs, ents[j - 1], j));
                assert(t2.data_at(j) == t0.data_at(j));
                assert(ents2[j - 1] == ents[j - 1]);
            } else {
                assert(t2.data_at(j) == Some(payload));
            }
        }
        assert(t2.data_at(0) == t0.data_at(0));
    }
    n
}
/// The loop state of a build after the first `k` headings have been
/// placed: the invariant holds, payloads follow the plan, the spine spans
/// the slots from the base up to the cursor level and ends at the cursor,
/// and the plan splits into the entries stored so far and the expansion of
/// the remaining headings.
spec fn step_state(
    t: GenTree,
    base: int,
    hs: Seq<Heading>,
    ents: Seq<Entry>,
    spine: Seq<int>,
    lc: int,
    pc: int,
    k: int,
) -> bool {
    &&& building_inv(t, base, ents, spine)
    &&& t.size == t.n_nodes()
    &&& (t.data_at(0) matches Some(h) && h.title@ == "ROOT"@ && h.level == 0)
    &&& forall|j: int| 1 <= j < t.n_nodes() ==> #[trigger] node_matches(t, hs, ents[j - 1], j)
    &&& spine.len() == lc - base + 1
    &&& spine[spine.len() - 1] == pc
    &&& 0 <= k <= hs.len()
    &&& expand(base, levels_of(hs), 0) == ents + expand(lc, levels_of(hs), k)
}

/// Case: the heading sits below the cursor level. Bridges any
/// multi-generational skip with placeholder nodes, then attaches the
/// heading as a child of the (by then deepened) cursor.
fn descend_case(
    tree: &mut GenTree,
    level: usize,
    level_cursor: usize,
    position_cursor: usize,
    payload: Heading,
    Ghost(hs): Ghost<Seq<Heading>>,
    Ghost(k): Ghost<int>,
    Ghost(ents0): Ghost<Seq<Entry>>,
    Ghost(spine0): Ghost<Seq<int>>,
) -> (r: (usize, usize, Ghost<Seq<Entry>>, Ghost<Seq<int>>))
    requires
        step_state(
            *old(tree),
            level as int,
            hs,
            ents0,
            spine0,
            level_cursor as int,
            position_cursor as int,
            k,
        ),
        0 <= k < hs.len(),
        payload.level == hs[k].level,
        payload.title@ == hs[k].title@,
        payload.level > level_cursor,
    ensures
        step_state(*final(tree), level as int, hs, r.2@, r.3@, r.0 as int, r.1 as int, k + 1),
        r.0 == payload.level,
{
    let ghost levels = levels_of(hs);
    let current_level = payload.level;
    let mut lc = level_cursor;
    let mut pc = position_cursor;
    let ghost mut ents = ents0;
    let ghost mut spine = spine0;
    while lc + 1 < current_level
        invariant
            step_state(*tree, level as int, hs, ents, spine, lc as int, pc as int, k),
            levels == levels_of(hs),
            0 <= k < hs.len(),
            current_level == payload.level,
            current_level as int == levels[k],
            lc < current_level,
        decreases current_level - lc,
    {
        let ghost t_before = *tree;
        let ghost ents_before = ents;
        let ghost spine_before = spine;
        let ghost u = spine.len() - 1;
        let ph = Heading::new(String::from_str("[]"), 0);
        let n = attach_planned(
            tree,
            pc,
            ph,
            Ghost(hs),
            Ghost(level as int),
            Ghost(ents),
            Ghost(spine),
            Ghost(u),
            Ghost(None),
        );
        proof {
            let ent = Entry { slot: level as int + u + 1, source: None };
            ents = ents.push(ent);
            spine = spine.take(u + 1).push(t_before.n_nodes());
            assert(spine_before.take(u + 1) =~= spine_before);
            assert(ent.slot == lc as int + 1);
            assert(levels.len() == hs.len());
            lemma_plan_step(ents_before, lc as int, levels, k, ent);
        }
        pc = n;
        lc = lc + 1;
    }
    let ghost t_before = *tree;
    let ghost ents_before = ents;
    let ghost spine_before = spine;
    let ghost u = spine.len() - 1;
    let n = attach_planned(
        tree,
        pc,
        payload,
        Ghost(hs),
        Ghost(level as int),
        Ghost(ents),
        Ghost(spine),
        Ghost(u),
        Ghost(Some(k)),
    );
    proof {
        let ent = Entry { slot: level as int + u + 1, source: Some(k) };
        ents = ents.push(ent);
        spine = spine.take(u + 1).push(t_before.n_nodes());
        assert(spine_before.take(u + 1) =~= spine_before);
        assert(ent.slot == current_level as int);
        assert(levels.len() == hs.len());
        lemma_plan_step(ents_before, lc as int, levels, k, ent);
    }
    (current_level, n, Ghost(ents), Ghost(spine))
}

/// Case: the heading repeats the cursor level. Attaches it as a child of
/// the cursor's parent, so that it lands alongside the cursor.
fn sibling_case(
    tree: &mut GenTree,
    level: usize,
    level_cursor: usize,
    position_cursor: usize,
    payload: Heading,
    Ghost(hs): Ghost<Seq<Heading>>,
    Ghost(k): Ghost<int>,
    Ghost(ents0): Ghost<Seq<Entry>>,
    Ghost(spine0): Ghost<Seq<int>>,
) -> (r: (usize, usize, Ghost<Seq<Entry>>, Ghost<Seq<int>>))
    requires
        step_state(
            *old(tree),
            level as int,
            hs,
            ents0,
            spine0,
            level_cursor as int,
            position_cursor as int,
            k,
        ),
        0 <= k < hs.len(),
        payload.level == hs[k].level,
        payload.title@ == hs[k].title@,
        payload.level == level_cursor,
        payload.level > level,
    ensures
        step_state(*final(tree), level as int, hs, r.2@, r.3@, r.0 as int, r.1 as int, k + 1),
        r.0 == payload.level,
{
    let ghost levels = levels_of(hs);
    let ghost t_before = *tree;
    let ghost u = spine0.len() - 2;
    proof {
        assert(spine0.len() >= 2);
        assert(tree.parent_idx(spine0[spine0.len() - 1]) == Some(
            spine0[spine0.len() - 2] as usize,
        ));
    }
    let target = parent_handle(tree, position_cursor);
    let n = attach_planned(
        tree,
        target,
        payload,
        Ghost(hs),
        Ghost(level as int),
        Ghost(ents0),
        Ghost(spine0),
        Ghost(u),
        Ghost(Some(k)),
    );
    let ghost ents = ents0.push(Entry { slot: level as int + u + 1, source: Some(k) });
    let ghost spine = spine0.take(u + 1).push(t_before.n_nodes());
    proof {
        let ent = Entry { slot: level as int + u + 1, source: Some(k) };
        assert(ent.slot == level_cursor as int);
        assert(levels.len() == hs.len());
        lemma_plan_step(ents0, level_cursor as int, levels, k, ent);
    }
    (level_cursor, n, Ghost(ents), Ghost(spine))
}

/// Case: the heading sits above the cursor level. Walks the cursor up one
/// generation, then one more per level of difference, and attaches the
/// heading as a child of the ancestor found there.
fn ascend_case(
    tree: &mut GenTree,
    level: usize,
    level_cursor: usize,
    position_cursor: usize,
    payload: Heading,
    Ghost(hs): Ghost<Seq<Heading>>,
    Ghost(k): Ghost<int>,
    Ghost(ents0): Ghost<Seq<Entry>>,
    Ghost(spine0): Ghost<Seq<int>>,
) -> (r: (usize, usize, Ghost<Seq<Entry>>, Ghost<Seq<int>>))
    requires
        step_state(
            *old(tree),
            level as int,
            hs,
            ents0,
            spine0,
            level_cursor as int,
            position_cursor as int,
            k,
        ),
        0 <= k < hs.len(),
        payload.level == hs[k].level,
        payload.title@ == hs[k].title@,
        payload.level < level_cursor,
        payload.level > level,
    ensures
        step_state(*final(tree), level as int, hs, r.2@, r.3@, r.0 as int, r.1 as int, k + 1),
        r.0 == payload.level,
{
    let ghost levels = levels_of(hs);
    let ghost t_before = *tree;
    let current_level = payload.level;
    let diff = level_cursor - current_level;
    let ghost u = current_level as int - level as int - 1;
    proof {
        assert(spine0.len() >= 2);
        assert(tree.parent_idx(spine0[spine0.len() - 1]) == Some(
            spine0[spine0.len() - 2] as usize,
        ));
    }
    let mut walk = parent_handle(tree, position_cursor);
    let mut steps: usize = 0;
    while steps < diff
        invariant
            step_state(
                *tree,
                level as int,
                hs,
                ents0,
                spine0,
                level_cursor as int,
                position_cursor as int,
                k,
            ),
            diff == level_cursor - current_level,
            current_level as int > level as int,
            current_level < level_cursor,
            steps <= diff,
            walk as int == spine0[spine0.len() - 2 - steps as int],
        decreases diff - steps,
    {
        let ghost idx = spine0.len() - 2 - steps as int;
        proof {
            assert(idx >= 1);
            assert(tree.parent_idx(spine0[idx]) == Some(spine0[idx - 1] as usize));
        }
        walk = parent_handle(tree, walk);
        steps = steps + 1;
    }
    proof {
        assert(walk as int == spine0[u]);
    }
    let n = attach_planned(
        tree,
        walk,
        payload,
        Ghost(hs),
        Ghost(level as int),
        Ghost(ents0),
        Ghost(spine0),
        Ghost(u),
        Ghost(Some(k)),
    );
    let ghost ents = ents0.push(Entry { slot: level as int + u + 1, source: Some(k) });
    let ghost spine = spine0.take(u + 1).push(t_before.n_nodes());
    proof {
        let ent = Entry { slot: level as int + u + 1, source: Some(k) };
        assert(ent.slot == current_level as int);
        assert(levels.len() == hs.len());
        lemma_plan_step(ents0, level_cursor as int, levels, k, ent);
    }
    (current_level, n, Ghost(ents), Ghost(spine))
}

/// Constructs a tree of `Heading` payloads from the ordered heading list,
/// relative to the base level `level`. Succeeds exactly when every heading
/// sits strictly below the base level; a heading at or above it would have
/// to attach above the root, which is a structural error.
#[verifier::rlimit(100)]
pub fn construct(level: usize, data: Vec<Heading>) -> (r: Result<GenTree, StructureError>)
    ensures
        (r is Ok) <==> (forall|k: int|
            0 <= k < data@.len() ==> (#[trigger] data@[k].level) as int > level as int),
        (r matches Ok(t) ==> built_from(t, level as int, data@)),
{
    let ghost base = level as int;
    let ghost levels = levels_of(data@);
    let ghost e_full = expand(base, levels, 0);

    // Instantiates a tree with a synthetic root and traversal positioning
    let mut tree = GenTree::new();
    let mut level_cursor: usize = level;
    let mut position_cursor: usize = 0;

    let ghost mut ents: Seq<Entry> = Seq::empty();
    let ghost mut spine: Seq<int> = seq![0int];

    proof {
        assert(tree.preorder(0) == seq![0int] + tree.kids_preorder(0, 0));
        assert(tree.kids_preorder(0, 0) == Seq::<int>::empty());
        assert(tree.preorder(0) =~= range_seq(0, 1));
        assert(slots_of(base, ents) =~= seq![base]);
        assert(building_inv(tree, base, ents, spine));
        assert(ents + expand(base, levels, 0) =~= expand(base, levels, 0));
    }

    let n_heads = data.len();
    let mut k: usize = 0;
    while k < n_heads
        invariant
            n_heads == data@.len(),
            base == level as int,
            levels == levels_of(data@),
            e_full == expand(base, levels, 0),
            k <= n_heads,
            step_state(
                tree,
                base,
                data@,
                ents,
                spine,
                level_cursor as int,
                position_cursor as int,
                k as int,
            ),
            forall|k2: int| 0 <= k2 < k ==> #[trigger] levels[k2] > base,
        decreases n_heads - k,
    {
        let current_level = data[k].level;
        proof {
            assert(levels[k as int] == current_level as int);
        }
        if current_level <= level {
            proof {
                assert(0 <= (k as int) < data@.len() && (data@[k as int].level as int) <= base);
            }
            return Err(StructureError);
        }
        let title = String::from_str(data[k].title.as_str());
        let node_payload = Heading::new(title, current_level);
        let ghost kk = k as int;

        let placed = if current_level > level_cursor {
            // Case: adds a child to the current parent, bridging any
            // multi-generational skip with placeholder nodes
            descend_case(
                &mut tree,
                level,
                level_cursor,
                position_cursor,
                node_payload,
                Ghost(data@),
                Ghost(kk),
                Ghost(ents),
                Ghost(spine),
            )
        } else if current_level == level_cursor {
            // Case: adds a sibling to the current parent
            sibling_case(
                &mut tree,
                level,
                level_cursor,
                position_cursor,
                node_payload,
                Ghost(data@),
                Ghost(kk),
                Ghost(ents),
                Ghost(spine),
            )
        } else {
            // Case: adds a child to the appropriate ancestor, ensuring
            // proper generational skips
            ascend_case(
                &mut tree,
                level,
                level_cursor,
                position_cursor,
                node_payload,
                Ghost(data@),
                Ghost(kk),
                Ghost(ents),
                Ghost(spine),
            )
        };
        // Updates the most recent addition
        level_cursor = placed.0;
        position_cursor = placed.1;
        proof {
            ents = placed.2@;
            spine = placed.3@;
        }
        k = k + 1;
    }
    proof {
        assert(expand(level_cursor as int, levels, n_heads as int) == Seq::<Entry>::empty());
        assert(ents + Seq::<Entry>::empty() =~= ents);
        assert(e_full == ents);
        assert(tree.preorder(spine[0]) == range_seq(spine[0], tree.n_nodes()));
        assert(built_from(tree, level as int, data@));
        assert forall|k2: int|
            0 <= k2 < data@.len() implies (#[trigger] data@[k2].level) as int > level as int by {
            assert(levels[k2] > base);
        }
    }
    Ok(tree)
}

/// The stored parent handle of an attached, non-root node.
fn parent_handle(tree: &GenTree, node: usize) -> (p: usize)
    requires
        tree.wf(),
        tree.valid(node as int),
        tree.parent_idx(node as int) is Some,
    ensures
        Some(p) == tree.parent_idx(node as int),
{
    tree.nodes[node].parent.unwrap()
}

} // verus!
