//! The parse tree: a flat arena of nodes that refer to each other by index,
//! built from a token stream in one pass.

pub mod tree_display;

use smallvec::SmallVec;
use vstd::prelude::*;
use vstd::string::*;
use vstd::utf8::*;
use crate::number::{decimal_text, int_literal_value, push_int, read_int};
use crate::text::{lemma_ascii_is_utf8, push_ascii, push_str, string_from_utf8};
use crate::tokenise::{Lexeme, Token, TokenStream};

verus! {

/// The children of a list node: a `SmallVec` of arena indices that keeps
/// up to eight of them inline.
#[verifier::external_body]
#[derive(Debug)]
pub struct Children {
    items: SmallVec<[u32; 8]>,
}

/// The items that a list of children holds, in order.
pub uninterp spec fn items_of(v: Children) -> Seq<u32>;

/// `SmallVec::new`: a list that holds nothing.
#[verifier::external_body]
fn children_new() -> (v: Children)
    ensures
        items_of(v) == Seq::<u32>::empty(),
{
    Children { items: SmallVec::new() }
}

/// `SmallVec::push`: the list afterwards holds what it held, then `idx`.
#[verifier::external_body]
fn children_push(v: &mut Children, idx: u32)
    ensures
        items_of(*final(v)) == items_of(*old(v)).push(idx),
{
    v.items.push(idx)
}

/// `SmallVec::len`: the number of items held.
#[verifier::external_body]
pub(crate) fn children_len(v: &Children) -> (n: usize)
    ensures
        n == items_of(*v).len(),
{
    v.items.len()
}

/// Indexing a `SmallVec` through its slice: the item at position `i`.
#[verifier::external_body]
pub(crate) fn children_get(v: &Children, i: usize) -> (idx: u32)
    requires
        i < items_of(*v).len(),
    ensures
        idx == items_of(*v)[i as int],
{
    v.items[i]
}

/// A node of the parse tree.
#[derive(Debug)]
pub enum Expr<'a> {
    /// An integer.
    Int(i64),
    /// A string literal.
    String(&'a str),
    /// Subexpressions, as indices into the arena.
    SExpr(Children),
}

/// A node as a mathematical value.
pub enum Node {
    Int(i64),
    Str(Seq<u8>),
    List(Seq<u32>),
}

impl<'a> View for Expr<'a> {
    type V = Node;

    open spec fn view(&self) -> Node {
        match *self {
            Expr::Int(v) => Node::Int(v),
            Expr::String(s) => Node::Str(s.spec_bytes()),
            Expr::SExpr(c) => Node::List(items_of(c)),
        }
    }
}

/// The children of a node: those of a list, none for a leaf.
pub open spec fn children(n: Node) -> Seq<u32> {
    match n {
        Node::List(c) => c,
        _ => Seq::empty(),
    }
}

/// The node that a literal becomes: an integer where it denotes one, else
/// a string that keeps its bytes.
pub open spec fn literal_node(s: Seq<u8>) -> Node {
    match int_literal_value(s) {
        Some(v) => Node::Int(v),
        None => Node::Str(s),
    }
}

/// A parse tree as a mathematical value: the arena and the indices of the
/// top-level nodes.
pub struct Tree {
    pub nodes: Seq<Node>,
    pub roots: Seq<u32>,
}

impl Tree {
    /// Every root and every child is an index into the arena, and a child
    /// stands after its parent.
    pub open spec fn wf(self) -> bool {
        well_linked(self.nodes, self.roots)
    }
}

/// Every entry of `roots` and every child in `nodes` is an index into
/// `nodes`, and a child stands after its parent.
pub open spec fn well_linked(nodes: Seq<Node>, roots: Seq<u32>) -> bool {
    &&& forall|r: int| 0 <= r < roots.len() ==> (#[trigger] roots[r]) < nodes.len()
    &&& forall|i: int, k: int|
        0 <= i < nodes.len() && 0 <= k < children(nodes[i]).len() ==> i < (#[trigger] children(
            nodes[i],
        )[k]) < nodes.len()
}

/// The state of a build between two tokens: the tree so far and the stack
/// of lists that are still open, innermost last.
pub struct Builder {
    pub nodes: Seq<Node>,
    pub roots: Seq<u32>,
    pub open: Seq<usize>,
}

impl Builder {
    /// The state before the first token.
    pub open spec fn start() -> Builder {
        Builder { nodes: Seq::empty(), roots: Seq::empty(), open: Seq::empty() }
    }

    /// The tree built so far.
    pub open spec fn tree(self) -> Tree {
        Tree { nodes: self.nodes, roots: self.roots }
    }

    /// The tree is well formed and every open entry is a list of the arena.
    pub open spec fn wf(self) -> bool {
        &&& well_linked(self.nodes, self.roots)
        &&& forall|j: int|
            0 <= j < self.open.len() ==> (#[trigger] self.open[j]) < self.nodes.len()
                && self.nodes[self.open[j] as int] is List
    }

    /// Makes `idx` the last child of the innermost open list, or the last
    /// root where no list is open.
    pub open spec fn attach(self, idx: u32) -> Builder {
        if self.open.len() > 0 {
            let p = self.open.last() as int;
            Builder {
                nodes: self.nodes.update(p, Node::List(children(self.nodes[p]).push(idx))),
                roots: self.roots,
                open: self.open,
            }
        } else {
            Builder { nodes: self.nodes, roots: self.roots.push(idx), open: self.open }
        }
    }

    /// The state after one more token. A literal and an opening parenthesis
    /// each add a node and attach it; the new list is then open. A closing
    /// parenthesis closes the innermost open list, and does nothing where
    /// none is open.
    pub open spec fn step(self, tok: Lexeme) -> Builder {
        let idx = self.nodes.len() as u32;
        match tok {
            Lexeme::Literal(s) => {
                let a = self.attach(idx);
                Builder { nodes: a.nodes.push(literal_node(s)), roots: a.roots, open: a.open }
            },
            Lexeme::LParen => {
                let a = self.attach(idx);
                Builder {
                    nodes: a.nodes.push(Node::List(Seq::empty())),
                    roots: a.roots,
                    open: a.open.push(self.nodes.len() as usize),
                }
            },
            Lexeme::RParen => Builder {
                nodes: self.nodes,
                roots: self.roots,
                open: if self.open.len() > 0 {
                    self.open.drop_last()
                } else {
                    self.open
                },
            },
        }
    }

    /// The state after all of `toks`, taken left to right.
    pub open spec fn run(self, toks: Seq<Lexeme>) -> Builder
        decreases toks.len(),
    {
        if toks.len() == 0 {
            self
        } else {
            self.step(toks[0]).run(toks.skip(1))
        }
    }

    /// A step keeps the state well formed as long as the index of a new
    /// node fits, and adds one node unless the token is a closing
    /// parenthesis.
    pub proof fn lemma_step_wf(self, tok: Lexeme)
        requires
            self.wf(),
            tok is RParen || self.nodes.len() <= u32::MAX,
        ensures
            self.step(tok).wf(),
            self.step(tok).nodes.len() == self.nodes.len() + node_total(seq![tok]),
    {
        assert(seq![tok].skip(1).len() == 0);
        assert(node_total(seq![tok].skip(1)) == 0);
        let next = self.step(tok);
        let idx = self.nodes.len() as u32;
        match tok {
            Lexeme::RParen => {},
            _ => {
                let a = self.attach(idx);
                assert forall|i: int, k: int|
                    0 <= i < next.nodes.len() && 0 <= k < children(next.nodes[i]).len() implies i < (
                #[trigger] children(next.nodes[i])[k]) < next.nodes.len() by {
                    if i < self.nodes.len() {
                        if self.open.len() > 0 && i == self.open.last() {
                            let c = children(self.nodes[i]);
                            assert(children(next.nodes[i]) == c.push(idx));
                            if k < c.len() {
                                assert(children(self.nodes[i])[k] < self.nodes.len());
                            }
                        } else {
                            assert(next.nodes[i] == self.nodes[i]);
                            assert(children(self.nodes[i])[k] < self.nodes.len());
                        }
                    }
                }
                assert forall|r: int| 0 <= r < next.roots.len() implies (#[trigger] next.roots[r])
                    < next.nodes.len() by {
                    if r < self.roots.len() {
                        assert(self.roots[r] < self.nodes.len());
                    }
                }
                assert forall|j: int| 0 <= j < next.open.len() implies (#[trigger] next.open[j])
                    < next.nodes.len() && next.nodes[next.open[j] as int] is List by {
                    if j < self.open.len() {
                        assert(self.open[j] < self.nodes.len());
                    }
                }
            },
        }
    }
}

/// The number of nodes that a token sequence makes: one for each literal
/// and each opening parenthesis.
pub open spec fn node_total(toks: Seq<Lexeme>) -> nat
    decreases toks.len(),
{
    if toks.len() == 0 {
        0
    } else {
        let first: nat = if toks[0] is RParen {
            0
        } else {
            1
        };
        first + node_total(toks.skip(1))
    }
}

/// The most nodes that a tree can hold: one for each 32-bit index.
pub open spec fn max_nodes() -> nat {
    0x1_0000_0000
}

/// The tree that a token sequence builds.
pub open spec fn build(toks: Seq<Lexeme>) -> Tree {
    Builder::start().run(toks).tree()
}

/// The arena as mathematical nodes.
pub open spec fn nodes_of(buffer: Seq<Expr<'_>>) -> Seq<Node> {
    Seq::new(buffer.len(), |i: int| buffer[i]@)
}

/// A parse tree: the arena of nodes and the top-level expressions in
/// source order.
#[derive(Debug)]
pub struct ParseTree<'a> {
    buffer: Vec<Expr<'a>>,
    top_level_exprs: Vec<u32>,
}

impl<'a> View for ParseTree<'a> {
    type V = Tree;

    closed spec fn view(&self) -> Tree {
        Tree { nodes: nodes_of(self.buffer@), roots: self.top_level_exprs@ }
    }
}

/// Builds the tree of a token stream: see [`ParseTree::new`].
pub fn parse(token_stream: TokenStream) -> (tree: ParseTree)
    requires
        token_stream.wf(),
        node_total(token_stream@) <= max_nodes(),
    ensures
        tree.wf(),
        tree@ == build(token_stream@),
{
    ParseTree::new(token_stream)
}

/// Attaches the node that is about to get index `idx` to its parent.
fn attach<'a>(buffer: &mut Vec<Expr<'a>>, roots: &mut Vec<u32>, stack: &Vec<usize>, idx: u32)
    requires
        (Builder { nodes: nodes_of(old(buffer)@), roots: old(roots)@, open: stack@ }).wf(),
    ensures
        (Builder { nodes: nodes_of(final(buffer)@), roots: final(roots)@, open: stack@ }) == (Builder {
            nodes: nodes_of(old(buffer)@),
            roots: old(roots)@,
            open: stack@,
        }).attach(idx),
        final(buffer).len() == old(buffer).len(),
{
    let ghost before = Builder { nodes: nodes_of(buffer@), roots: roots@, open: stack@ };
    let depth: usize = stack.len();
    if depth > 0 {
        let list: usize = stack[depth - 1];
        assert(before.open[depth - 1] < before.nodes.len());
        assert(before.nodes[list as int] is List);
        match &mut buffer[list] {
            Expr::SExpr(sub) => children_push(sub, idx),
            _ => {},
        }
        assert(nodes_of(buffer@) =~= before.attach(idx).nodes);
    } else {
        roots.push(idx);
        assert(nodes_of(buffer@) =~= before.nodes);
    }
}

impl<'a> ParseTree<'a> {
    /// Every index in the tree is valid, and children stand after parents.
    pub open spec fn wf(&self) -> bool {
        self@.wf()
    }

    /// Builds the tree of a token stream in one pass, with a stack of the
    /// lists that are open. Unbalanced parentheses are tolerated: a closing
    /// one with nothing open is skipped, and a list left open keeps the
    /// children it got. The nodes are numbered by 32-bit indices, so the
    /// stream may hold at most that many literals and opening parentheses.
    pub fn new(tokens: TokenStream<'a>) -> (tree: Self)
        requires
            tokens.wf(),
            node_total(tokens@) <= max_nodes(),
        ensures
            tree.wf(),
            tree@ == build(tokens@),
    {
        let mut tokens = tokens;
        let ghost all = tokens@;
        let mut buffer: Vec<Expr<'a>> = Vec::new();
        let mut roots: Vec<u32> = Vec::new();
        let mut list_stack: Vec<usize> = Vec::with_capacity(16);
        assert(nodes_of(buffer@) =~= Seq::<Node>::empty());
        loop
            invariant
                tokens.wf(),
                (Builder { nodes: nodes_of(buffer@), roots: roots@, open: list_stack@ }).wf(),
                (Builder { nodes: nodes_of(buffer@), roots: roots@, open: list_stack@ }).run(tokens@)
                    == Builder::start().run(all),
                buffer.len() + node_total(tokens@) <= max_nodes(),
            ensures
                (Builder { nodes: nodes_of(buffer@), roots: roots@, open: list_stack@ }).wf(),
                (Builder { nodes: nodes_of(buffer@), roots: roots@, open: list_stack@ })
                    == Builder::start().run(all),
            decreases tokens.source().len() - tokens.offset(),
        {
            let ghost before = tokens@;
            let ghost st = Builder { nodes: nodes_of(buffer@), roots: roots@, open: list_stack@ };
            match tokens.next() {
                None => {
                    break ;
                },
                Some(token) => {
                    assert(before.skip(1) =~= tokens@);
                    assert(before[0] == token@);
                    proof {
                        st.lemma_step_wf(token@);
                    }
                    match token {
                        Token::Literal(lit) => {
                            let idx: u32 = buffer.len() as u32;
                            attach(&mut buffer, &mut roots, &list_stack, idx);
                            match read_int(lit) {
                                Some(value) => buffer.push(Expr::Int(value)),
                                None => buffer.push(Expr::String(lit)),
                            }
                        },
                        Token::LParen => {
                            let idx: u32 = buffer.len() as u32;
                            attach(&mut buffer, &mut roots, &list_stack, idx);
                            list_stack.push(buffer.len());
                            buffer.push(Expr::SExpr(children_new()));
                        },
                        Token::RParen => {
                            list_stack.pop();
                        },
                    }
                    let ghost now = Builder {
                        nodes: nodes_of(buffer@),
                        roots: roots@,
                        open: list_stack@,
                    };
                    assert(now.nodes =~= st.step(token@).nodes);
                    assert(now.open =~= st.step(token@).open);
                    assert(now.roots =~= st.step(token@).roots);
                },
            }
        }
        ParseTree { buffer, top_level_exprs: roots }
    }
}

/// The single-line text of the node at index `i`: an integer in decimal, a
/// string as its bytes, a list as its children's texts with one space
/// between them, in parentheses.
pub open spec fn node_text(nodes: Seq<Node>, i: int) -> Seq<u8>
    decreases nodes.len() - i, 1int, 0int,
{
    if 0 <= i < nodes.len() {
        match nodes[i] {
            Node::Int(v) => decimal_text(v as int),
            Node::Str(s) => s,
            Node::List(c) => seq![40u8] + children_text(nodes, i, c, 0) + seq![41u8],
        }
    } else {
        Seq::empty()
    }
}

/// The texts of the children `c` of node `parent` from position `k` on,
/// each but the first of the list after a space.
pub open spec fn children_text(nodes: Seq<Node>, parent: int, c: Seq<u32>, k: int) -> Seq<u8>
    decreases nodes.len() - parent, 0int, c.len() - k,
{
    if 0 <= k < c.len() {
        let gap = if k > 0 {
            seq![32u8]
        } else {
            Seq::empty()
        };
        let item = if parent < c[k] < nodes.len() {
            node_text(nodes, c[k] as int)
        } else {
            Seq::empty()
        };
        gap + item + children_text(nodes, parent, c, k + 1)
    } else {
        Seq::empty()
    }
}

/// The texts of the roots from position `k` on, with nothing between them.
pub open spec fn roots_text(nodes: Seq<Node>, roots: Seq<u32>, k: int) -> Seq<u8>
    decreases roots.len() - k,
{
    if 0 <= k < roots.len() {
        node_text(nodes, roots[k] as int) + roots_text(nodes, roots, k + 1)
    } else {
        Seq::empty()
    }
}

/// The single-line text of a tree.
pub open spec fn tree_text(t: Tree) -> Seq<u8> {
    roots_text(t.nodes, t.roots, 0)
}

/// Appends the single-line text of node `i` to `out`.
fn write_expr<'a>(buf: &Vec<Expr<'a>>, i: usize, out: &mut Vec<u8>)
    requires
        well_linked(nodes_of(buf@), Seq::empty()),
        i < buf.len(),
        valid_utf8(old(out)@),
    ensures
        final(out)@ == old(out)@ + node_text(nodes_of(buf@), i as int),
        valid_utf8(final(out)@),
    decreases buf.len() - i,
{
    let ghost nodes = nodes_of(buf@);
    let ghost out0 = out@;
    match &buf[i] {
        Expr::Int(v) => {
            push_int(out, *v);
        },
        Expr::String(s) => {
            push_str(out, s);
        },
        Expr::SExpr(sub_exprs) => {
            let ghost c = items_of(*sub_exprs);
            assert(children(nodes[i as int]) == c);
            push_ascii(out, 40);
            let n: usize = children_len(sub_exprs);
            let mut k: usize = 0;
            while k < n
                invariant
                    nodes == nodes_of(buf@),
                    well_linked(nodes, Seq::empty()),
                    i < buf.len(),
                    c == items_of(*sub_exprs),
                    children(nodes[i as int]) == c,
                    n == c.len(),
                    k <= n,
                    valid_utf8(out@),
                    out@ + children_text(nodes, i as int, c, k as int) == out0 + seq![40u8]
                        + children_text(nodes, i as int, c, 0),
                decreases n - k,
            {
                let ghost out1 = out@;
                if k != 0 {
                    push_ascii(out, 32);
                }
                let child: u32 = children_get(sub_exprs, k);
                assert(i < children(nodes[i as int])[k as int] < nodes.len());
                write_expr(buf, child as usize, out);
                assert(out@ + children_text(nodes, i as int, c, k + 1) =~= out1 + children_text(
                    nodes,
                    i as int,
                    c,
                    k as int,
                ));
                k += 1;
            }
            let ghost out3 = out@;
            push_ascii(out, 41);
            assert(out3 =~= out0 + seq![40u8] + children_text(nodes, i as int, c, 0));
        },
    }
}

/// Renders a parse tree on one line.
pub struct ParseTreeStringifier<'a, 'b> {
    pt: &'a ParseTree<'b>,
}

impl<'b> ParseTree<'b> {
    /// A renderer of this tree on one line.
    pub fn stringify(&self) -> (r: ParseTreeStringifier<'_, 'b>)
        ensures
            r.tree() == self@,
    {
        ParseTreeStringifier { pt: self }
    }
}

impl<'a, 'b> ParseTreeStringifier<'a, 'b> {
    /// The tree that is rendered.
    pub closed spec fn tree(&self) -> Tree {
        self.pt@
    }

    /// The tree as bytes: see [`tree_text`].
    pub fn render_bytes(&self) -> (out: Vec<u8>)
        requires
            self.tree().wf(),
        ensures
            out@ == tree_text(self.tree()),
            valid_utf8(out@),
    {
        let buf = &self.pt.buffer;
        let roots = &self.pt.top_level_exprs;
        let ghost nodes = nodes_of(buf@);
        let mut out: Vec<u8> = Vec::new();
        proof {
            lemma_ascii_is_utf8(out@);
        }
        let n: usize = roots.len();
        let mut k: usize = 0;
        while k < n
            invariant
                nodes == nodes_of(buf@),
                well_linked(nodes, roots@),
                n == roots.len(),
                k <= n,
                valid_utf8(out@),
                out@ + roots_text(nodes, roots@, k as int) == roots_text(nodes, roots@, 0),
            decreases n - k,
        {
            let ghost out1 = out@;
            let root: u32 = roots[k];
            assert(roots@[k as int] < nodes.len());
            write_expr(buf, root as usize, &mut out);
            assert(out@ + roots_text(nodes, roots@, k + 1) =~= out1 + roots_text(
                nodes,
                roots@,
                k as int,
            ));
            k += 1;
        }
        assert(out@ + Seq::<u8>::empty() =~= out@);
        out
    }

    /// The tree as single-line text: see [`tree_text`].
    pub fn render(&self) -> (r: String)
        requires
            self.tree().wf(),
        ensures
            encode_utf8(r@) == tree_text(self.tree()),
    {
        string_from_utf8(self.render_bytes())
    }
}

impl<'a> Expr<'a> {
    /// The child indices of a list, in order; none for a leaf.
    pub fn children(&self) -> (r: Vec<u32>)
        ensures
            r@ == children(self@),
    {
        let mut r: Vec<u32> = Vec::new();
        match self {
            Expr::SExpr(sub_exprs) => {
                let n: usize = children_len(sub_exprs);
                let mut k: usize = 0;
                while k < n
                    invariant
                        n == items_of(*sub_exprs).len(),
                        k <= n,
                        r@ == items_of(*sub_exprs).take(k as int),
                    decreases n - k,
                {
                    r.push(children_get(sub_exprs, k));
                    k += 1;
                    assert(r@ =~= items_of(*sub_exprs).take(k as int));
                }
                assert(items_of(*sub_exprs).take(n as int) =~= items_of(*sub_exprs));
            },
            _ => {},
        }
        r
    }
}

impl<'a> ParseTree<'a> {
    /// The number of nodes in the arena.
    pub fn node_count(&self) -> (n: usize)
        ensures
            n == self@.nodes.len(),
    {
        self.buffer.len()
    }

    /// The node at index `i` of the arena.
    pub fn node(&self, i: usize) -> (e: &Expr<'a>)
        requires
            i < self@.nodes.len(),
        ensures
            e@ == self@.nodes[i as int],
    {
        &self.buffer[i]
    }

    /// The indices of the top-level expressions, in source order.
    pub fn roots(&self) -> (r: &Vec<u32>)
        ensures
            r@ == self@.roots,
    {
        &self.top_level_exprs
    }
}

} // verus!
