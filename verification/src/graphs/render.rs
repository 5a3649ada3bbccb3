use vstd::prelude::*;

use crate::graphs::graph::{Graph, Node, NodeView};
use vstd::string::StringExecFns;

verus! {

/// The character of one decimal digit (`d` below ten).
pub open spec fn digit_char(d: nat) -> char {
    if d == 0 {
        '0'
    } else if d == 1 {
        '1'
    } else if d == 2 {
        '2'
    } else if d == 3 {
        '3'
    } else if d == 4 {
        '4'
    } else if d == 5 {
        '5'
    } else if d == 6 {
        '6'
    } else if d == 7 {
        '7'
    } else if d == 8 {
        '8'
    } else {
        '9'
    }
}

/// The decimal representation of a natural number, most significant digit
/// first, with no leading zeroes (zero itself is `"0"`).
pub open spec fn dec_chars(m: nat) -> Seq<char>
    decreases m,
{
    if m < 10 {
        seq![digit_char(m)]
    } else {
        dec_chars(m / 10).push(digit_char(m % 10))
    }
}

/// The textual form of a node label: the text itself, or the integer in
/// decimal with a leading minus sign when negative.
pub open spec fn label_chars(l: NodeView) -> Seq<char> {
    match l {
        NodeView::Str(s) => s,
        NodeView::Int(i) => if i < 0 {
            seq!['-'] + dec_chars((-i) as nat)
        } else {
            dec_chars(i as nat)
        },
    }
}

/// The textual dump of a node table: each label followed by `", "`.
pub open spec fn nodes_chars(ls: Seq<NodeView>) -> Seq<char>
    decreases ls.len(),
{
    if ls.len() == 0 {
        Seq::<char>::empty()
    } else {
        nodes_chars(ls.drop_last()) + label_chars(ls.last()) + ", "@
    }
}

/// The textual dump of an edge list: each pair as `a--b` followed by `", "`.
pub open spec fn edges_chars(es: Seq<(usize, usize)>) -> Seq<char>
    decreases es.len(),
{
    if es.len() == 0 {
        Seq::<char>::empty()
    } else {
        edges_chars(es.drop_last()) + dec_chars(es.last().0 as nat) + "--"@ + dec_chars(
            es.last().1 as nat,
        ) + ", "@
    }
}

/// The whole textual dump of a graph with node table `ls` and edge list `es`.
pub open spec fn render_chars(ls: Seq<NodeView>, es: Seq<(usize, usize)>) -> Seq<char> {
    "{ Nodes: "@ + nodes_chars(ls) + "\n"@ + "Edges: "@ + edges_chars(es) + "}"@
}

/// One decimal digit as a string.
fn digit_str(d: u64) -> (s: String)
    requires
        d < 10,
    ensures
        s@ == seq![digit_char(d as nat)],
{
    proof {
        reveal_strlit("0");
        reveal_strlit("1");
        reveal_strlit("2");
        reveal_strlit("3");
        reveal_strlit("4");
        reveal_strlit("5");
        reveal_strlit("6");
        reveal_strlit("7");
        reveal_strlit("8");
        reveal_strlit("9");
    }
    let s = if d == 0 {
        String::from_str("0")
    } else if d == 1 {
        String::from_str("1")
    } else if d == 2 {
        String::from_str("2")
    } else if d == 3 {
        String::from_str("3")
    } else if d == 4 {
        String::from_str("4")
    } else if d == 5 {
        String::from_str("5")
    } else if d == 6 {
        String::from_str("6")
    } else if d == 7 {
        String::from_str("7")
    } else if d == 8 {
        String::from_str("8")
    } else {
        String::from_str("9")
    };
    proof {
        assert(s@ =~= seq![digit_char(d as nat)]);
    }
    s
}

/// The decimal form of a number, built digit by digit.
fn u64_dec_string(m: u64) -> (s: String)
    ensures
        s@ == dec_chars(m as nat),
    decreases m,
{
    if m < 10 {
        digit_str(m)
    } else {
        let mut s = u64_dec_string(m / 10);
        let d = digit_str(m % 10);
        s.append(d.as_str());
        proof {
            assert(s@ =~= dec_chars((m / 10) as nat).push(digit_char((m % 10) as nat)));
        }
        s
    }
}

impl Graph {
    /// The human-readable form of a node value: the text label itself, or
    /// the integer label written in decimal.
    pub fn extract_node(&self, node: Node) -> (s: String)
        ensures
            s@ == label_chars(node@),
    {
        match node {
            Node::Str(s) => s,
            Node::Int(v) => {
                if v < 0 {
                    let wide: i128 = v as i128;
                    let mag: u64 = (-wide) as u64;
                    let mut s = String::from_str("-");
                    let d = u64_dec_string(mag);
                    s.append(d.as_str());
                    proof {
                        reveal_strlit("-");
                        assert(mag as nat == (-(v as int)) as nat);
                        assert(s@ =~= seq!['-'] + dec_chars((-(v as int)) as nat));
                    }
                    s
                } else {
                    let s = u64_dec_string(v as u64);
                    s
                }
            },
        }
    }

    /// A human-readable dump of the whole store: every node value exactly
    /// once, then every edge exactly once as an `a--b` pair of handles.
    pub fn to_display_string(&self) -> (s: String)
        requires
            self.wf(),
        ensures
            exists|es: Seq<(usize, usize)>|
                #[trigger] self.edge_list_exact(es) && s@ == render_chars(self.labels(), es),
    {
        let mut s = String::from_str("{ Nodes: ");
        proof {
            reveal_strlit("{ Nodes: ");
            assert(self.labels().take(0) =~= Seq::<NodeView>::empty());
            assert(s@ =~= "{ Nodes: "@ + nodes_chars(self.labels().take(0)));
        }
        let n = self.nodes_len();
        proof {
            self.lemma_view_lens();
        }
        let mut i: usize = 0;
        while i < n
            invariant
                self.wf(),
                n == self.n(),
                self.labels().len() == n,
                0 <= i <= n,
                s@ == "{ Nodes: "@ + nodes_chars(self.labels().take(i as int)),
            decreases n - i,
        {
            let label = self.extract_node(self.node_at(i));
            s.append(label.as_str());
            s.append(", ");
            proof {
                reveal_strlit(", ");
                assert(self.labels().take(i as int + 1).drop_last() =~= self.labels().take(
                    i as int,
                ));
                assert(self.labels().take(i as int + 1).last() == self.labels()[i as int]);
                assert(s@ =~= "{ Nodes: "@ + nodes_chars(self.labels().take(i as int + 1)));
            }
            i += 1;
        }
        s.append("\n");
        s.append("Edges: ");
        let es = self.edges();
        let m = es.len();
        proof {
            reveal_strlit("\n");
            reveal_strlit("Edges: ");
            assert(self.labels().take(n as int) =~= self.labels());
            assert(es@.take(0) =~= Seq::<(usize, usize)>::empty());
            assert(s@ =~= "{ Nodes: "@ + nodes_chars(self.labels()) + "\n"@ + "Edges: "@
                + edges_chars(es@.take(0)));
        }
        let mut k: usize = 0;
        while k < m
            invariant
                m == es@.len(),
                0 <= k <= m,
                s@ == "{ Nodes: "@ + nodes_chars(self.labels()) + "\n"@ + "Edges: "@
                    + edges_chars(es@.take(k as int)),
            decreases m - k,
        {
            let a: usize = es[k].0;
            let b: usize = es[k].1;
            let sa = u64_dec_string(a as u64);
            s.append(sa.as_str());
            s.append("--");
            let sb = u64_dec_string(b as u64);
            s.append(sb.as_str());
            s.append(", ");
            proof {
                reveal_strlit("--");
                reveal_strlit(", ");
                assert(es@.take(k as int + 1).drop_last() =~= es@.take(k as int));
                assert(es@.take(k as int + 1).last() == es@[k as int]);
                assert(s@ =~= "{ Nodes: "@ + nodes_chars(self.labels()) + "\n"@ + "Edges: "@
                    + edges_chars(es@.take(k as int + 1)));
            }
            k += 1;
        }
        s.append("}");
        proof {
            reveal_strlit("}");
            assert(es@.take(m as int) =~= es@);
            assert(s@ =~= render_chars(self.labels(), es@));
            assert(self.edge_list_exact(es@) && s@ == render_chars(self.labels(), es@));
        }
        s
    }
}

} // verus!
