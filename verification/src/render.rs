//! The renderer: a preorder walk producing the indented, box-drawn outline.
//!
//! The walk is specified in two steps: the traversal yields one `LineInfo`
//! per visited node (prefix, connector choice, title), and a separate
//! formatting step joins them into text. The executable renderer is proved
//! to produce exactly that text.

use vstd::prelude::*;

use crate::tree::{GenTree, Pos};

verus! {

/// One line of the outline, before formatting: the indentation prefix, the
/// choice of connector (is the node its parent's last child?), and the
/// node's title.
pub struct LineInfo {
    pub prefix: Seq<char>,
    pub is_last: bool,
    pub title: Seq<char>,
}

/// The formatted text of one line: a tab, the prefix, the connector chosen
/// by the last-child flag, the title, and a newline.
pub open spec fn line_text(li: LineInfo) -> Seq<char> {
    "\t"@ + li.prefix + (if li.is_last {
        "└── "@
    } else {
        "├── "@
    }) + li.title + "\n"@
}

/// The lines of the sub-outline under node `i`, children from `k` on:
/// each child contributes its own line and then, indented one step deeper,
/// the lines of its subtree. A last child extends the prefix with blanks,
/// any other with a vertical continuation guide.
pub open spec fn line_infos_from(t: GenTree, i: int, k: int, prefix: Seq<char>) -> Seq<LineInfo>
    decreases t.n_nodes() - i, t.child_seq(i).len() - k,
        when t.wf() && 0 <= i < t.n_nodes() && 0 <= k <= t.child_seq(i).len()
{
    if k >= t.child_seq(i).len() {
        Seq::empty()
    } else {
        let c = t.child_seq(i)[k] as int;
        let last = k == t.child_seq(i).len() - 1;
        let deeper = prefix + (if last {
            "    "@
        } else {
            "│   "@
        });
        seq![LineInfo { prefix, is_last: last, title: t.title_at(c) }] + line_infos_from(
            t,
            c,
            0,
            deeper,
        ) + line_infos_from(t, i, k + 1, prefix)
    }
}

/// The concatenated text of a list of lines.
pub open spec fn lines_text(ls: Seq<LineInfo>) -> Seq<char>
    decreases ls.len(),
{
    if ls.len() == 0 {
        Seq::empty()
    } else {
        line_text(ls[0]) + lines_text(ls.drop_first())
    }
}

/// The complete rendering of a tree under a document name: the name line,
/// then an empty marker for a childless root, or a vertical lead-in and the
/// outline, and a blank line to close.
pub open spec fn spec_render(name: Seq<char>, t: GenTree) -> Seq<char> {
    if t.child_seq(0).len() == 0 {
        "📄 "@ + name + "\n\t[]\n"@ + "\n"@
    } else {
        "📄 "@ + name + "\n\t│\n"@ + lines_text(line_infos_from(t, 0, 0, Seq::empty())) + "\n"@
    }
}

/// Formatting distributes over concatenation of line lists.
proof fn lemma_lines_text_concat(s1: Seq<LineInfo>, s2: Seq<LineInfo>)
    ensures
        lines_text(s1 + s2) == lines_text(s1) + lines_text(s2),
    decreases s1.len(),
{
    if s1.len() == 0 {
        assert(s1 + s2 =~= s2);
        assert(lines_text(s1) + lines_text(s2) =~= lines_text(s2));
    } else {
        assert((s1 + s2).drop_first() =~= s1.drop_first() + s2);
        lemma_lines_text_concat(s1.drop_first(), s2);
        assert((s1 + s2)[0] == s1[0]);
        assert(lines_text(s1) + lines_text(s2) =~= line_text(s1[0]) + (lines_text(s1.drop_first())
            + lines_text(s2)));
    }
}

/// Preorder traversal that walks the tree recursively, rendering each
/// node's title and children with the fitting box-drawing connectors.
pub fn preorder(tree: &GenTree, position: &Pos, prefix: &str) -> (out: String)
    requires
        tree.wf(),
        (*position matches Some(p) ==> tree.valid(p as int)),
    ensures
        out@ == (match *position {
            Some(p) => lines_text(line_infos_from(*tree, p as int, 0, prefix@)),
            None => "Not a valid position\n"@,
        }),
    decreases (match *position {
        Some(p) => tree.n_nodes() - p as int,
        None => 0int,
    }),
{
    let mut out = String::new();
    if let Some(p) = *position {
        let ghost pi = p as int;
        let num = tree.nodes[p].children.len();
        let mut k: usize = 0;
        while k < num
            invariant
                tree.wf(),
                tree.valid(pi),
                p as int == pi,
                num == tree.child_seq(pi).len(),
                *position == Some(p),
                k <= num,
                lines_text(line_infos_from(*tree, pi, 0, prefix@)) == out@ + lines_text(
                    line_infos_from(*tree, pi, k as int, prefix@),
                ),
            decreases num - k,
        {
            let ghost out_prev = out@;
            let c = tree.nodes[p].children[k];
            proof {
                assert(tree.child_seq(pi)[k as int] == c);
            }
            let h = tree.get(&Some(c)).unwrap();
            out.append("\t");
            out.append(prefix);
            if k == num - 1 {
                out.append("└── ");
            } else {
                out.append("├── ");
            }
            out.append(h.title.as_str());
            out.append("\n");
            let mut deeper = String::from_str(prefix);
            if k == num - 1 {
                deeper.append("    ");
            } else {
                deeper.append("│   ");
            }
            let sub = preorder(tree, &Some(c), deeper.as_str());
            out.append(sub.as_str());
            proof {
                let last = k as int == num as int - 1;
                let li = LineInfo { prefix: prefix@, is_last: last, title: tree.title_at(c as int) };
                let sub_infos = line_infos_from(*tree, c as int, 0, deeper@);
                let rest = line_infos_from(*tree, pi, k as int + 1, prefix@);
                assert(line_infos_from(*tree, pi, k as int, prefix@) == seq![li] + sub_infos
                    + rest);
                lemma_lines_text_concat(seq![li] + sub_infos, rest);
                lemma_lines_text_concat(seq![li], sub_infos);
                assert(seq![li].drop_first() =~= Seq::<LineInfo>::empty());
                assert(lines_text(seq![li]) == line_text(seq![li][0]) + lines_text(
                    seq![li].drop_first(),
                ));
                assert(seq![li][0] == li);
                assert(lines_text(Seq::<LineInfo>::empty()) == Seq::<char>::empty());
                assert(lines_text(seq![li]) =~= line_text(li));
                assert(out@ =~= out_prev + line_text(li) + sub@);
                assert(lines_text(line_infos_from(*tree, pi, k as int, prefix@)) =~= line_text(li)
                    + sub@ + lines_text(rest));
            }
            k = k + 1;
        }
        proof {
            assert(line_infos_from(*tree, pi, num as int, prefix@) == Seq::<LineInfo>::empty());
            assert(out@ + lines_text(Seq::<LineInfo>::empty()) =~= out@);
        }
    } else {
        out.append("Not a valid position\n");
        proof {
            assert(out@ =~= "Not a valid position\n"@);
        }
    }
    out
}

/// A wrapper for the recursive preorder traversal: renders the document
/// name, an empty marker for trees with no headings, and otherwise the
/// whole outline under a vertical lead-in.
pub fn pretty_print(name: &str, tree: &GenTree) -> (out: String)
    requires
        tree.wf(),
    ensures
        out@ == spec_render(name@, *tree),
{
    let mut out = String::new();
    out.append("📄 ");
    out.append(name);
    let root_children = tree.nodes[0].children.len();
    if root_children == 0 {
        out.append("\n\t[]\n");
        out.append("\n");
        proof {
            assert(out@ =~= spec_render(name@, *tree));
        }
    } else {
        out.append("\n\t│\n");
        let body = preorder(tree, &Some(0), "");
        out.append(body.as_str());
        out.append("\n");
        proof {
            reveal_strlit("");
            assert(""@ =~= Seq::<char>::empty());
            assert(line_infos_from(*tree, 0, 0, ""@) == line_infos_from(
                *tree,
                0,
                0,
                Seq::empty(),
            ));
            assert(out@ =~= spec_render(name@, *tree));
        }
    }
    out
}

} // verus!
