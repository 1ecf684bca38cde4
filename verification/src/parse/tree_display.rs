//! The tree diagram: one node per line, with box-drawing connectors that
//! show which list a node belongs to.

use vstd::prelude::*;
use vstd::string::*;
use vstd::utf8::*;
use crate::number::{decimal_text, push_int};
use crate::text::{lemma_ascii_is_utf8, push_ascii, push_str, string_from_utf8};
use super::{children, children_get, children_len, items_of, nodes_of, well_linked, Expr, Node, ParseTree, Tree};

verus! {

/// What one ancestor level contributes to the start of a line: a vertical
/// bar and a space where that ancestor has siblings after it, else two
/// spaces.
pub open spec fn segment(more: bool) -> Seq<u8> {
    if more {
        "│ ".spec_bytes()
    } else {
        seq![32u8, 32u8]
    }
}

/// The connector in front of a node: none for a root, a tee for a child
/// with siblings after it, an elbow for a last child.
pub open spec fn glyph(branch: Option<bool>) -> Seq<u8> {
    match branch {
        Some(true) => "├─".spec_bytes(),
        Some(false) => "└─".spec_bytes(),
        None => Seq::empty(),
    }
}

/// The segments of a chain of ancestor levels, outermost first.
pub open spec fn chain_text(chain: Seq<bool>) -> Seq<u8>
    decreases chain.len(),
{
    if chain.len() == 0 {
        Seq::empty()
    } else {
        chain_text(chain.drop_last()) + segment(chain.last())
    }
}

/// The chain that the children of a node see: the node's own chain, then
/// the node's own level unless it is a root.
pub open spec fn inner_chain(chain: Seq<bool>, branch: Option<bool>) -> Seq<bool> {
    match branch {
        Some(more) => chain.push(more),
        None => chain,
    }
}

/// What a node's own line shows: an integer in decimal, a string as its
/// bytes, the word `List` for a list.
pub open spec fn label(n: Node) -> Seq<u8> {
    match n {
        Node::Int(v) => decimal_text(v as int),
        Node::Str(s) => s,
        Node::List(_) => seq![76u8, 105u8, 115u8, 116u8],
    }
}

/// The lines of node `i` and of everything below it. `chain` tells for
/// each ancestor level above the node's own whether a bar runs through it,
/// `branch` whether the node is a child and, if so, whether siblings
/// follow it.
pub open spec fn diagram_node(nodes: Seq<Node>, i: int, chain: Seq<bool>, branch: Option<bool>) -> Seq<u8>
    decreases nodes.len() - i, 1int, 0int,
{
    if 0 <= i < nodes.len() {
        chain_text(chain) + glyph(branch) + label(nodes[i]) + seq![10u8] + diagram_children(
            nodes,
            i,
            children(nodes[i]),
            0,
            inner_chain(chain, branch),
        )
    } else {
        Seq::empty()
    }
}

/// The lines of the children `c` of node `parent` from position `k` on.
pub open spec fn diagram_children(
    nodes: Seq<Node>,
    parent: int,
    c: Seq<u32>,
    k: int,
    chain: Seq<bool>,
) -> Seq<u8>
    decreases nodes.len() - parent, 0int, c.len() - k,
{
    if 0 <= k < c.len() {
        let item = if parent < c[k] < nodes.len() {
            diagram_node(nodes, c[k] as int, chain, Some(k + 1 != c.len()))
        } else {
            Seq::empty()
        };
        item + diagram_children(nodes, parent, c, k + 1, chain)
    } else {
        Seq::empty()
    }
}

/// The lines of the roots from position `k` on.
pub open spec fn diagram_roots(nodes: Seq<Node>, roots: Seq<u32>, k: int) -> Seq<u8>
    decreases roots.len() - k,
{
    if 0 <= k < roots.len() {
        diagram_node(nodes, roots[k] as int, Seq::empty(), None) + diagram_roots(nodes, roots, k + 1)
    } else {
        Seq::empty()
    }
}

/// The diagram of a whole tree: each root at the left margin, each child
/// one level further in.
pub open spec fn tree_diagram(t: Tree) -> Seq<u8> {
    diagram_roots(t.nodes, t.roots, 0)
}

/// Appends the segments of `chain`, outermost first.
fn show_backlink(chain: &Vec<bool>, out: &mut Vec<u8>)
    requires
        valid_utf8(old(out)@),
    ensures
        final(out)@ == old(out)@ + chain_text(chain@),
        valid_utf8(final(out)@),
{
    let n: usize = chain.len();
    let mut j: usize = 0;
    assert(chain@.take(0) =~= Seq::<bool>::empty());
    assert(out@ =~= old(out)@ + chain_text(chain@.take(0)));
    while j < n
        invariant
            n == chain.len(),
            j <= n,
            valid_utf8(out@),
            out@ == old(out)@ + chain_text(chain@.take(j as int)),
        decreases n - j,
    {
        let ghost out1 = out@;
        if chain[j] {
            push_str(out, "│ ");
        } else {
            push_ascii(out, 32);
            push_ascii(out, 32);
            assert(out@ =~= out1 + seq![32u8, 32u8]);
        }
        assert(chain@.take(j + 1).drop_last() =~= chain@.take(j as int));
        assert(out@ =~= old(out)@ + chain_text(chain@.take(j + 1)));
        j += 1;
    }
    assert(chain@.take(n as int) =~= chain@);
}

/// Appends the connector of a node.
fn show_glyph(branch: Option<bool>, out: &mut Vec<u8>)
    requires
        valid_utf8(old(out)@),
    ensures
        final(out)@ == old(out)@ + glyph(branch),
        valid_utf8(final(out)@),
{
    match branch {
        Some(true) => {
            push_str(out, "├─");
        },
        Some(false) => {
            push_str(out, "└─");
        },
        None => {
            assert(out@ =~= old(out)@ + glyph(branch));
        },
    }
}

/// The chain for the children of a node with chain `chain` and connector
/// `branch`.
fn extend_chain(chain: &Vec<bool>, branch: Option<bool>) -> (inner: Vec<bool>)
    ensures
        inner@ == inner_chain(chain@, branch),
{
    let mut inner: Vec<bool> = Vec::new();
    let n: usize = chain.len();
    let mut j: usize = 0;
    while j < n
        invariant
            n == chain.len(),
            j <= n,
            inner@ == chain@.take(j as int),
        decreases n - j,
    {
        inner.push(chain[j]);
        j += 1;
        assert(inner@ =~= chain@.take(j as int));
    }
    assert(chain@.take(n as int) =~= chain@);
    match branch {
        Some(more) => inner.push(more),
        None => {},
    }
    inner
}

/// Appends the lines of node `i` and of everything below it.
fn display_inner<'a>(
    chain: &Vec<bool>,
    branch: Option<bool>,
    i: usize,
    buf: &Vec<Expr<'a>>,
    out: &mut Vec<u8>,
)
    requires
        well_linked(nodes_of(buf@), Seq::empty()),
        i < buf.len(),
        valid_utf8(old(out)@),
    ensures
        final(out)@ == old(out)@ + diagram_node(nodes_of(buf@), i as int, chain@, branch),
        valid_utf8(final(out)@),
    decreases buf.len() - i,
{
    let ghost nodes = nodes_of(buf@);
    let ghost out0 = out@;
    show_backlink(chain, out);
    show_glyph(branch, out);
    let ghost head = out0 + chain_text(chain@) + glyph(branch) + label(nodes[i as int]) + seq![10u8];
    match &buf[i] {
        Expr::Int(value) => {
            push_int(out, *value);
            push_ascii(out, 10);
            assert(out@ =~= head + Seq::<u8>::empty());
        },
        Expr::String(value) => {
            push_str(out, value);
            push_ascii(out, 10);
            assert(out@ =~= head + Seq::<u8>::empty());
        },
        Expr::SExpr(exprs) => {
            let ghost c = items_of(*exprs);
            assert(children(nodes[i as int]) == c);
            push_ascii(out, 76);
            push_ascii(out, 105);
            push_ascii(out, 115);
            push_ascii(out, 116);
            push_ascii(out, 10);
            assert(out@ =~= head);
            let inner = extend_chain(chain, branch);
            let n: usize = children_len(exprs);
            let mut k: usize = 0;
            while k < n
                invariant
                    nodes == nodes_of(buf@),
                    well_linked(nodes, Seq::empty()),
                    i < buf.len(),
                    c == items_of(*exprs),
                    children(nodes[i as int]) == c,
                    n == c.len(),
                    k <= n,
                    valid_utf8(out@),
                    out@ + diagram_children(nodes, i as int, c, k as int, inner@) == head
                        + diagram_children(nodes, i as int, c, 0, inner@),
                decreases n - k,
            {
                let ghost out2 = out@;
                let child: u32 = children_get(exprs, k);
                let non_right: bool = k + 1 != n;
                assert(i < children(nodes[i as int])[k as int] < nodes.len());
                display_inner(&inner, Some(non_right), child as usize, buf, out);
                assert(out@ + diagram_children(nodes, i as int, c, k + 1, inner@) =~= out2
                    + diagram_children(nodes, i as int, c, k as int, inner@));
                k += 1;
            }
            assert(out@ + Seq::<u8>::empty() =~= out@);
        },
    }
}

impl<'a> ParseTree<'a> {
    /// The diagram as bytes: see [`tree_diagram`].
    pub fn diagram_bytes(&self) -> (out: Vec<u8>)
        requires
            self.wf(),
        ensures
            out@ == tree_diagram(self@),
            valid_utf8(out@),
    {
        let ghost nodes = nodes_of(self.buffer@);
        let mut out: Vec<u8> = Vec::new();
        proof {
            lemma_ascii_is_utf8(out@);
        }
        let chain: Vec<bool> = Vec::new();
        let n: usize = self.top_level_exprs.len();
        let mut k: usize = 0;
        while k < n
            invariant
                nodes == nodes_of(self.buffer@),
                well_linked(nodes, self.top_level_exprs@),
                n == self.top_level_exprs.len(),
                chain@ == Seq::<bool>::empty(),
                k <= n,
                valid_utf8(out@),
                out@ + diagram_roots(nodes, self.top_level_exprs@, k as int) == diagram_roots(
                    nodes,
                    self.top_level_exprs@,
                    0,
                ),
            decreases n - k,
        {
            let ghost out1 = out@;
            let idx: u32 = self.top_level_exprs[k];
            assert(self.top_level_exprs@[k as int] < nodes.len());
            display_inner(&chain, None, idx as usize, &self.buffer, &mut out);
            assert(out@ + diagram_roots(nodes, self.top_level_exprs@, k + 1) =~= out1
                + diagram_roots(nodes, self.top_level_exprs@, k as int));
            k += 1;
        }
        assert(out@ + Seq::<u8>::empty() =~= out@);
        out
    }

    /// The tree as an indented diagram: see [`tree_diagram`].
    pub fn diagram(&self) -> (r: String)
        requires
            self.wf(),
        ensures
            encode_utf8(r@) == tree_diagram(self@),
    {
        string_from_utf8(self.diagram_bytes())
    }
}

} // verus!
