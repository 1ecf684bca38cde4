//! Rendering a built tree and reading the text again gives the same tree.

use vstd::prelude::*;
use crate::laws::{
    canonical_literal, canonical_token, canonical_tokens, lemma_build_ignores_spelling,
    lemma_lex_shift, lemma_literal_end_of_run,
};
use crate::number::{decimal_digits, decimal_text, lemma_decimal_digits_are_digits};
use crate::parse::{
    build, children, children_text, literal_node, max_nodes, node_total, node_text, roots_text,
    tree_text, well_linked, Builder, Node,
};
use crate::text::is_delim;
use crate::tokenise::{lex, lex_from, lexeme_text, needs_space, render_from, render_tokens, Lexeme, TokenType};

verus! {

/// Node `i` and everything below it lies inside the arena before `hi`, and
/// every child stands after its parent.
spec fn within(nodes: Seq<Node>, i: int, hi: int) -> bool
    decreases nodes.len() - i,
{
    &&& 0 <= i < hi <= nodes.len()
    &&& forall|k: int|
        0 <= k < children(nodes[i]).len() ==> i < (#[trigger] children(nodes[i])[k]) < nodes.len()
            && within(nodes, children(nodes[i])[k] as int, hi)
}

/// The texts of the first `n` entries of `c`, with a space between two of
/// them where `spaced` is set.
spec fn joined(nodes: Seq<Node>, c: Seq<u32>, n: int, spaced: bool) -> Seq<u8>
    decreases n,
{
    if n <= 0 {
        Seq::empty()
    } else {
        let gap = if spaced && n > 1 {
            seq![32u8]
        } else {
            Seq::empty()
        };
        joined(nodes, c, n - 1, spaced) + gap + node_text(nodes, c[n - 1] as int)
    }
}

/// What lies before `hi` lies before any later bound.
proof fn lemma_within_wider(nodes: Seq<Node>, i: int, hi: int, wider: int)
    requires
        within(nodes, i, hi),
        hi <= wider <= nodes.len(),
    ensures
        within(nodes, i, wider),
    decreases nodes.len() - i,
{
    let c = children(nodes[i]);
    assert forall|k: int| 0 <= k < c.len() implies i < (#[trigger] c[k]) < nodes.len() && within(
        nodes,
        c[k] as int,
        wider,
    ) by {
        lemma_within_wider(nodes, c[k] as int, hi, wider);
    }
}

/// The text of a node depends only on the part of the arena that the
/// node and everything below it occupy.
proof fn lemma_frame(nodes: Seq<Node>, other: Seq<Node>, i: int, hi: int)
    requires
        within(nodes, i, hi),
        hi <= other.len(),
        forall|x: int| i <= x < hi ==> other[x] == nodes[x],
    ensures
        within(other, i, hi),
        node_text(other, i) == node_text(nodes, i),
    decreases nodes.len() - i, 1int, 0int,
{
    let c = children(nodes[i]);
    assert(other[i] == nodes[i]);
    assert forall|k: int| 0 <= k < c.len() implies i < (#[trigger] c[k]) < other.len() && within(
        other,
        c[k] as int,
        hi,
    ) by {
        assert(within(nodes, c[k] as int, hi));
        lemma_frame(nodes, other, c[k] as int, hi);
    }
    match nodes[i] {
        Node::List(_) => {
            lemma_frame_children(nodes, other, i, c, 0, hi);
        },
        _ => {},
    }
}

/// The same for the children of a node from position `k` on.
proof fn lemma_frame_children(nodes: Seq<Node>, other: Seq<Node>, parent: int, c: Seq<u32>, k: int, hi: int)
    requires
        within(nodes, parent, hi),
        c == children(nodes[parent]),
        0 <= k <= c.len(),
        hi <= other.len(),
        forall|x: int| parent <= x < hi ==> other[x] == nodes[x],
    ensures
        children_text(other, parent, c, k) == children_text(nodes, parent, c, k),
    decreases nodes.len() - parent, 0int, c.len() - k,
{
    if k < c.len() {
        assert(parent < c[k] < nodes.len() && within(nodes, c[k] as int, hi));
        lemma_frame(nodes, other, c[k] as int, hi);
        lemma_frame_children(nodes, other, parent, c, k + 1, hi);
    }
}

/// The first `n` entries of `c` each lie, with all below them, before `hi`.
spec fn closed_items(nodes: Seq<Node>, c: Seq<u32>, n: int, hi: int) -> bool {
    forall|k: int| 0 <= k < n ==> within(nodes, (#[trigger] c[k]) as int, hi)
}

/// The same for the first `n` entries of a list.
proof fn lemma_joined_frame(nodes: Seq<Node>, other: Seq<Node>, c: Seq<u32>, n: int, spaced: bool, lo: int, hi: int)
    requires
        0 <= n <= c.len(),
        closed_items(nodes, c, n, hi),
        forall|k: int| 0 <= k < n ==> lo <= #[trigger] c[k],
        hi <= other.len(),
        forall|x: int| lo <= x < hi ==> other[x] == nodes[x],
    ensures
        closed_items(other, c, n, hi),
        joined(other, c, n, spaced) == joined(nodes, c, n, spaced),
    decreases n,
{
    if n > 0 {
        lemma_joined_frame(nodes, other, c, n - 1, spaced, lo, hi);
        assert(within(nodes, c[n - 1] as int, hi));
        assert(lo <= c[n - 1]);
        lemma_frame(nodes, other, c[n - 1] as int, hi);
    }
}

/// The text of a list's children, taken from the front or from the back.
proof fn lemma_children_text_is_joined(nodes: Seq<Node>, parent: int, c: Seq<u32>, k: int)
    requires
        0 <= k <= c.len(),
        forall|j: int| 0 <= j < c.len() ==> parent < (#[trigger] c[j]) < nodes.len(),
    ensures
        joined(nodes, c, k, true) + children_text(nodes, parent, c, k) == joined(
            nodes,
            c,
            c.len() as int,
            true,
        ),
    decreases c.len() - k,
{
    if k < c.len() {
        lemma_children_text_is_joined(nodes, parent, c, k + 1);
        assert(parent < c[k] < nodes.len());
        assert(joined(nodes, c, k, true) + children_text(nodes, parent, c, k) =~= joined(
            nodes,
            c,
            k + 1,
            true,
        ) + children_text(nodes, parent, c, k + 1));
    } else {
        assert(joined(nodes, c, k, true) + Seq::<u8>::empty() =~= joined(nodes, c, k, true));
    }
}

/// The text of the roots, taken from the front or from the back.
proof fn lemma_roots_text_is_joined(nodes: Seq<Node>, roots: Seq<u32>, k: int)
    requires
        0 <= k <= roots.len(),
    ensures
        joined(nodes, roots, k, false) + roots_text(nodes, roots, k) == joined(
            nodes,
            roots,
            roots.len() as int,
            false,
        ),
    decreases roots.len() - k,
{
    if k < roots.len() {
        lemma_roots_text_is_joined(nodes, roots, k + 1);
        assert(joined(nodes, roots, k, false) + roots_text(nodes, roots, k) =~= joined(
            nodes,
            roots,
            k + 1,
            false,
        ) + roots_text(nodes, roots, k + 1));
    } else {
        assert(joined(nodes, roots, k, false) + Seq::<u8>::empty() =~= joined(nodes, roots, k, false));
    }
}

/// The joined text of the first `n` entries depends on those entries only.
proof fn lemma_joined_prefix(nodes: Seq<Node>, c: Seq<u32>, d: Seq<u32>, n: int, spaced: bool)
    requires
        0 <= n <= c.len(),
        n <= d.len(),
        forall|k: int| 0 <= k < n ==> c[k] == d[k],
    ensures
        joined(nodes, c, n, spaced) == joined(nodes, d, n, spaced),
    decreases n,
{
    if n > 0 {
        lemma_joined_prefix(nodes, c, d, n - 1, spaced);
    }
}

/// The text written so far in a state: every list that is closed ends in
/// its parenthesis, every list that is still open does not.
spec fn spine(nodes: Seq<Node>, roots: Seq<u32>, open: Seq<usize>) -> Seq<u8> {
    if open.len() == 0 {
        joined(nodes, roots, roots.len() as int, false)
    } else {
        let c = children(nodes[open.last() as int]);
        below(nodes, roots, open.drop_last()) + seq![40u8] + joined(nodes, c, c.len() as int, true)
    }
}

/// The text up to where the last entry of the innermost list of `open`
/// begins, that entry being a list that is open itself.
spec fn below(nodes: Seq<Node>, roots: Seq<u32>, open: Seq<usize>) -> Seq<u8>
    decreases open.len(),
{
    if open.len() == 0 {
        joined(nodes, roots, roots.len() - 1, false)
    } else {
        let c = children(nodes[open.last() as int]);
        let gap = if c.len() > 1 {
            seq![32u8]
        } else {
            Seq::empty()
        };
        below(nodes, roots, open.drop_last()) + seq![40u8] + joined(nodes, c, c.len() - 1, true)
            + gap
    }
}

/// The open lists below `next` form a chain down to the roots that ends in
/// `next`, and everything beside the chain is complete before `next`.
spec fn below_ok(nodes: Seq<Node>, roots: Seq<u32>, open: Seq<usize>, next: int) -> bool
    decreases open.len(),
{
    if open.len() == 0 {
        &&& roots.len() > 0
        &&& roots.last() == next
        &&& 0 <= next <= nodes.len()
        &&& closed_items(nodes, roots, roots.len() - 1, next)
    } else {
        let p = open.last() as int;
        let c = children(nodes[p]);
        &&& 0 <= p < next <= nodes.len()
        &&& c.len() > 0
        &&& c.last() == next
        &&& closed_items(nodes, c, c.len() - 1, next)
        &&& below_ok(nodes, roots, open.drop_last(), p)
    }
}

/// The open lists form a chain from the roots to the innermost one, and
/// everything beside the chain is complete.
spec fn spine_ok(nodes: Seq<Node>, roots: Seq<u32>, open: Seq<usize>) -> bool {
    if open.len() == 0 {
        closed_items(nodes, roots, roots.len() as int, nodes.len() as int)
    } else {
        let p = open.last() as int;
        let c = children(nodes[p]);
        &&& 0 <= p < nodes.len()
        &&& closed_items(nodes, c, c.len() as int, nodes.len() as int)
        &&& below_ok(nodes, roots, open.drop_last(), p)
    }
}

/// The text before an open list depends only on the arena before it.
proof fn lemma_below_frame(nodes: Seq<Node>, other: Seq<Node>, roots: Seq<u32>, open: Seq<usize>, next: int)
    requires
        below_ok(nodes, roots, open, next),
        next <= other.len(),
        forall|x: int| 0 <= x < next ==> other[x] == nodes[x],
    ensures
        below_ok(other, roots, open, next),
        below(other, roots, open) == below(nodes, roots, open),
    decreases open.len(),
{
    if open.len() == 0 {
        lemma_joined_frame(nodes, other, roots, roots.len() - 1, false, 0, next);
    } else {
        let p = open.last() as int;
        let c = children(nodes[p]);
        assert(other[p] == nodes[p]);
        lemma_joined_frame(nodes, other, c, c.len() - 1, true, 0, next);
        lemma_below_frame(nodes, other, roots, open.drop_last(), p);
    }
}

/// The space that goes before a new entry: one inside a list that has an
/// entry already, none elsewhere.
spec fn gap(b: Builder) -> Seq<u8> {
    if b.open.len() > 0 && children(b.nodes[b.open.last() as int]).len() > 0 {
        seq![32u8]
    } else {
        Seq::empty()
    }
}

/// What one token adds to the text of a state.
spec fn emit(b: Builder, tok: Lexeme) -> Seq<u8> {
    match tok {
        Lexeme::RParen => seq![41u8],
        _ => gap(b) + lexeme_text(canonical_token(tok)),
    }
}

/// What a token sequence adds to the text of a state.
spec fn emitted(b: Builder, toks: Seq<Lexeme>) -> Seq<u8>
    decreases toks.len(),
{
    if toks.len() == 0 {
        Seq::empty()
    } else {
        emit(b, toks[0]) + emitted(b.step(toks[0]), toks.skip(1))
    }
}

/// A list whose children are complete is complete, and its text is its
/// children's joined text in parentheses.
proof fn lemma_closed_node(nodes: Seq<Node>, p: int)
    requires
        0 <= p < nodes.len(),
        well_linked(nodes, Seq::empty()),
        closed_items(nodes, children(nodes[p]), children(nodes[p]).len() as int, nodes.len() as int),
        nodes[p] is List,
    ensures
        within(nodes, p, nodes.len() as int),
        node_text(nodes, p) == seq![40u8] + joined(
            nodes,
            children(nodes[p]),
            children(nodes[p]).len() as int,
            true,
        ) + seq![41u8],
{
    let c = children(nodes[p]);
    assert forall|k: int| 0 <= k < c.len() implies p < (#[trigger] c[k]) < nodes.len() && within(
        nodes,
        c[k] as int,
        nodes.len() as int,
    ) by {
        assert(p < children(nodes[p])[k] < nodes.len());
    }
    assert forall|j: int| 0 <= j < c.len() implies p < (#[trigger] c[j]) < nodes.len() by {
        assert(p < children(nodes[p])[j] < nodes.len());
    }
    lemma_children_text_is_joined(nodes, p, c, 0);
    assert(joined(nodes, c, 0, true) + children_text(nodes, p, c, 0) =~= children_text(nodes, p, c, 0));
}

/// Closing the innermost open list adds a closing parenthesis to the text.
proof fn lemma_step_close(b: Builder)
    requires
        b.wf(),
        spine_ok(b.nodes, b.roots, b.open),
        b.open.len() > 0,
    ensures
        spine_ok(b.nodes, b.roots, b.open.drop_last()),
        spine(b.nodes, b.roots, b.open.drop_last()) == spine(b.nodes, b.roots, b.open) + seq![41u8],
{
    let nodes = b.nodes;
    let roots = b.roots;
    let rest = b.open.drop_last();
    let p = b.open.last() as int;
    let c = children(nodes[p]);
    let len = nodes.len() as int;
    assert(b.open[b.open.len() - 1] < nodes.len() && nodes[p] is List);
    lemma_closed_node(nodes, p);
    if rest.len() == 0 {
        assert forall|k: int| 0 <= k < roots.len() implies within(nodes, (#[trigger] roots[k]) as int, len) by {
            if k < roots.len() - 1 {
                lemma_within_wider(nodes, roots[k] as int, p, len);
            }
        }
        assert(spine(nodes, roots, rest) =~= spine(nodes, roots, b.open) + seq![41u8]);
    } else {
        let q = rest.last() as int;
        let cq = children(nodes[q]);
        assert forall|k: int| 0 <= k < cq.len() implies within(nodes, (#[trigger] cq[k]) as int, len) by {
            if k < cq.len() - 1 {
                lemma_within_wider(nodes, cq[k] as int, p, len);
            }
        }
        assert(spine(nodes, roots, rest) =~= spine(nodes, roots, b.open) + seq![41u8]);
    }
}

/// A literal or an opening parenthesis adds its own text to the text
/// written so far, after a space where one is due.
proof fn lemma_step_attach(b: Builder, tok: Lexeme)
    requires
        b.wf(),
        spine_ok(b.nodes, b.roots, b.open),
        b.nodes.len() <= u32::MAX,
        !(tok is RParen),
    ensures
        spine_ok(b.step(tok).nodes, b.step(tok).roots, b.step(tok).open),
        spine(b.step(tok).nodes, b.step(tok).roots, b.step(tok).open) == spine(
            b.nodes,
            b.roots,
            b.open,
        ) + emit(b, tok),
{
    let nodes = b.nodes;
    let roots = b.roots;
    let len = nodes.len() as int;
    let idx = nodes.len() as u32;
    assert(idx == len);
    let b2 = b.step(tok);
    let n2 = b2.nodes;
    let r2 = b2.roots;
    let o2 = b2.open;
    assert(n2.len() == len + 1);
    assert(within(n2, len, len + 1)) by {
        assert(children(n2[len]).len() == 0);
    }
    if b.open.len() == 0 {
        assert(n2 =~= nodes.push(n2[len]));
        assert(r2 =~= roots.push(idx));
        lemma_joined_frame(nodes, n2, roots, roots.len() as int, false, 0, len);
        lemma_joined_prefix(n2, roots, r2, roots.len() as int, false);
        assert forall|k: int| 0 <= k < roots.len() implies within(n2, (#[trigger] r2[k]) as int, len) by {
            assert(r2[k] == roots[k]);
        }
        match tok {
            Lexeme::Literal(s) => {
                assert(o2 =~= b.open);
                assert(node_text(n2, len) == canonical_literal(s));
                assert forall|k: int| 0 <= k < r2.len() implies within(
                    n2,
                    (#[trigger] r2[k]) as int,
                    len + 1,
                ) by {
                    if k < roots.len() {
                        lemma_within_wider(n2, r2[k] as int, len, len + 1);
                    }
                }
                assert(spine(n2, r2, o2) =~= spine(nodes, roots, b.open) + emit(b, tok));
            },
            _ => {
                assert(o2 =~= seq![len as usize]);
                assert(o2.drop_last() =~= Seq::<usize>::empty());
                assert(children(n2[len]) =~= Seq::<u32>::empty());
                assert(below_ok(n2, r2, o2.drop_last(), len));
                assert(spine(n2, r2, o2) =~= spine(nodes, roots, b.open) + emit(b, tok));
            },
        }
    } else {
        let p = b.open.last() as int;
        let c = children(nodes[p]);
        let c2 = c.push(idx);
        let rest = b.open.drop_last();
        assert(b.open[b.open.len() - 1] < nodes.len() && nodes[p] is List);
        assert(r2 == roots);
        assert(n2[p] == Node::List(c2));
        assert(children(n2[p]) == c2);
        assert forall|x: int| 0 <= x < len && x != p implies n2[x] == nodes[x] by {}
        assert forall|k: int| 0 <= k < c.len() implies p + 1 <= #[trigger] c[k] by {
            assert(p < children(nodes[p])[k] < nodes.len());
        }
        lemma_below_frame(nodes, n2, roots, rest, p);
        lemma_joined_frame(nodes, n2, c, c.len() as int, true, p + 1, len);
        lemma_joined_prefix(n2, c, c2, c.len() as int, true);
        assert forall|k: int| 0 <= k < c.len() implies within(n2, (#[trigger] c2[k]) as int, len) by {
            assert(c2[k] == c[k]);
        }
        match tok {
            Lexeme::Literal(s) => {
                assert(o2 =~= b.open);
                assert(node_text(n2, len) == canonical_literal(s));
                assert forall|k: int| 0 <= k < c2.len() implies within(
                    n2,
                    (#[trigger] c2[k]) as int,
                    len + 1,
                ) by {
                    if k < c.len() {
                        lemma_within_wider(n2, c2[k] as int, len, len + 1);
                    }
                }
                assert(spine(n2, r2, o2) =~= spine(nodes, roots, b.open) + emit(b, tok));
            },
            _ => {
                assert(o2 =~= b.open.push(len as usize));
                assert(o2.drop_last() =~= b.open);
                assert(o2.last() == len);
                assert(children(n2[len]) =~= Seq::<u32>::empty());
                assert(below_ok(n2, r2, b.open, len));
                assert(below(n2, r2, b.open) =~= spine(nodes, roots, b.open) + gap(b));
                assert(spine(n2, r2, o2) =~= spine(nodes, roots, b.open) + emit(b, tok));
            },
        }
    }
}

/// Every closing parenthesis closes a list that is open, `depth` lists
/// being open at the start, and none is open at the end.
pub open spec fn balanced(toks: Seq<Lexeme>, depth: int) -> bool
    decreases toks.len(),
{
    if toks.len() == 0 {
        depth == 0
    } else {
        match toks[0] {
            Lexeme::Literal(_) => balanced(toks.skip(1), depth),
            Lexeme::LParen => balanced(toks.skip(1), depth + 1),
            Lexeme::RParen => depth > 0 && balanced(toks.skip(1), depth - 1),
        }
    }
}

/// No literal outside all lists directly follows another literal, with
/// `depth` lists open at the start and `after_literal` telling whether the
/// token before the first was a literal.
pub open spec fn top_literals_apart(toks: Seq<Lexeme>, depth: int, after_literal: bool) -> bool
    decreases toks.len(),
{
    if toks.len() == 0 {
        true
    } else {
        match toks[0] {
            Lexeme::Literal(_) => !(depth == 0 && after_literal) && top_literals_apart(
                toks.skip(1),
                depth,
                true,
            ),
            Lexeme::LParen => top_literals_apart(toks.skip(1), depth + 1, false),
            Lexeme::RParen => top_literals_apart(toks.skip(1), depth - 1, false),
        }
    }
}

/// A balanced token sequence adds the text of its tokens, one by one, and
/// leaves no list open.
proof fn lemma_spine_run(b: Builder, toks: Seq<Lexeme>)
    requires
        b.wf(),
        spine_ok(b.nodes, b.roots, b.open),
        b.nodes.len() + node_total(toks) <= max_nodes(),
        balanced(toks, b.open.len() as int),
    ensures
        b.run(toks).open.len() == 0,
        b.run(toks).wf(),
        spine(b.run(toks).nodes, b.run(toks).roots, b.run(toks).open) == spine(
            b.nodes,
            b.roots,
            b.open,
        ) + emitted(b, toks),
    decreases toks.len(),
{
    let before = spine(b.nodes, b.roots, b.open);
    if toks.len() == 0 {
        assert(before + Seq::<u8>::empty() =~= before);
    } else {
        let t = toks[0];
        let next = b.step(t);
        b.lemma_step_wf(t);
        assert(seq![t].skip(1).len() == 0);
        assert(node_total(seq![t].skip(1)) == 0);
        match t {
            Lexeme::RParen => {
                lemma_step_close(b);
            },
            _ => {
                lemma_step_attach(b, t);
            },
        }
        lemma_spine_run(next, toks.skip(1));
        assert(before + emit(b, t) + emitted(next, toks.skip(1)) =~= before + emitted(b, toks));
    }
}

/// The canonical spelling of a well-formed literal is well formed.
proof fn lemma_canonical_literal_well_formed(s: Seq<u8>)
    requires
        Lexeme::Literal(s).well_formed(),
    ensures
        Lexeme::Literal(canonical_literal(s)).well_formed(),
{
    match literal_node(s) {
        Node::Int(v) => {
            let text = decimal_text(v as int);
            if v < 0 {
                lemma_decimal_digits_are_digits((-v) as nat);
            } else {
                lemma_decimal_digits_are_digits(v as nat);
            }
            assert forall|i: int| 0 <= i < text.len() implies !is_delim(#[trigger] text[i]) by {
                if v < 0 && i > 0 {
                    assert(text[i] == decimal_digits((-v) as nat)[i - 1]);
                }
            }
        },
        _ => {},
    }
}

/// Lexing the text that a token sequence adds gives the tokens back, in
/// canonical spelling.
proof fn lemma_lex_emitted(b: Builder, toks: Seq<Lexeme>, after_literal: bool)
    requires
        b.wf(),
        b.nodes.len() + node_total(toks) <= max_nodes(),
        balanced(toks, b.open.len() as int),
        top_literals_apart(toks, b.open.len() as int, after_literal),
        after_literal && b.open.len() > 0 ==> children(b.nodes[b.open.last() as int]).len() > 0,
        forall|k: int| 0 <= k < toks.len() ==> (#[trigger] toks[k]).well_formed(),
    ensures
        lex(emitted(b, toks)) == canonical_tokens(toks),
        after_literal ==> emitted(b, toks).len() == 0 || is_delim(emitted(b, toks)[0]),
    decreases toks.len(),
{
    let spelled = canonical_tokens(toks);
    if toks.len() == 0 {
        assert(spelled =~= Seq::<Lexeme>::empty());
    } else {
        let t = toks[0];
        let rest = toks.skip(1);
        let next = b.step(t);
        let tail = emitted(next, rest);
        let whole = emitted(b, toks);
        b.lemma_step_wf(t);
        assert(seq![t].skip(1).len() == 0);
        assert(node_total(seq![t].skip(1)) == 0);
        assert(toks[0].well_formed());
        assert forall|k: int| 0 <= k < rest.len() implies (#[trigger] rest[k]).well_formed() by {
            assert(rest[k] == toks[k + 1]);
        }
        if b.open.len() > 0 {
            assert(b.open[b.open.len() - 1] < b.nodes.len());
        }
        assert(spelled[0] == canonical_token(t));
        assert(spelled =~= seq![canonical_token(t)] + canonical_tokens(rest));
        match t {
            Lexeme::RParen => {
                lemma_lex_emitted(next, rest, false);
                assert(whole =~= seq![41u8] + tail);
                assert(whole[0] == 41);
                lemma_lex_shift(seq![41u8], tail, 0);
            },
            Lexeme::LParen => {
                lemma_lex_emitted(next, rest, false);
                let body = seq![40u8] + tail;
                assert(body[0] == 40);
                lemma_lex_shift(seq![40u8], tail, 0);
                assert(whole =~= gap(b) + body);
                if gap(b).len() > 0 {
                    assert(whole[0] == 32);
                    lemma_lex_shift(seq![32u8], body, 0);
                } else {
                    assert(whole =~= body);
                }
            },
            Lexeme::Literal(s) => {
                if b.open.len() > 0 {
                    let p = b.open.last() as int;
                    assert(children(next.nodes[p]).len() > 0);
                }
                lemma_lex_emitted(next, rest, true);
                lemma_canonical_literal_well_formed(s);
                let text = canonical_literal(s);
                let body = text + tail;
                assert(body[0] == text[0]);
                assert(!is_delim(text[0]));
                lemma_literal_end_of_run(text, tail, 1);
                lemma_lex_shift(text, tail, 0);
                assert(body.subrange(0, text.len() as int) =~= text);
                assert(lex_from(body, 0) == seq![canonical_token(t)] + canonical_tokens(rest));
                assert(whole =~= gap(b) + body);
                if gap(b).len() > 0 {
                    assert(whole[0] == 32);
                    lemma_lex_shift(seq![32u8], body, 0);
                } else {
                    assert(whole =~= body);
                }
            },
        }
    }
}

/// The text of the tree that balanced tokens build is what the tokens add
/// to the empty state.
proof fn lemma_tree_text_is_emitted(toks: Seq<Lexeme>)
    requires
        node_total(toks) <= max_nodes(),
        balanced(toks, 0),
    ensures
        tree_text(build(toks)) == emitted(Builder::start(), toks),
{
    let b = Builder::start();
    let e = b.run(toks);
    lemma_spine_run(b, toks);
    assert(spine(b.nodes, b.roots, b.open) =~= Seq::<u8>::empty());
    assert(spine(e.nodes, e.roots, e.open) =~= emitted(b, toks));
    lemma_roots_text_is_joined(e.nodes, e.roots, 0);
    assert(joined(e.nodes, e.roots, 0, false) + roots_text(e.nodes, e.roots, 0) =~= roots_text(
        e.nodes,
        e.roots,
        0,
    ));
}

/// Rendering a tree on one line, lexing that text and building again gives
/// the same tree, for every tree built from well-formed tokens with
/// balanced parentheses in which no two literals outside all lists stand
/// side by side. (Two such literals are rendered without a separator and
/// so would be read as one.) The tokens may make no more nodes than the
/// index type can number.
pub proof fn lemma_rebuild_from_text(toks: Seq<Lexeme>)
    requires
        node_total(toks) <= max_nodes(),
        forall|k: int| 0 <= k < toks.len() ==> (#[trigger] toks[k]).well_formed(),
        balanced(toks, 0),
        top_literals_apart(toks, 0, false),
    ensures
        lex(tree_text(build(toks))) == canonical_tokens(toks),
        build(lex(tree_text(build(toks)))) == build(toks),
{
    lemma_tree_text_is_emitted(toks);
    lemma_lex_emitted(Builder::start(), toks, false);
    lemma_build_ignores_spelling(Builder::start(), toks);
}

/// At most one expression stands outside all lists, with `depth` lists open
/// at the start and `fresh` telling whether that one expression may still
/// begin.
pub open spec fn one_expression(toks: Seq<Lexeme>, depth: int, fresh: bool) -> bool
    decreases toks.len(),
{
    if toks.len() == 0 {
        true
    } else {
        match toks[0] {
            Lexeme::Literal(_) => (depth > 0 || fresh) && one_expression(toks.skip(1), depth, false),
            Lexeme::LParen => (depth > 0 || fresh) && one_expression(
                toks.skip(1),
                depth + 1,
                false,
            ),
            Lexeme::RParen => one_expression(toks.skip(1), depth - 1, false),
        }
    }
}

/// Inside one expression, what the tokens add to the text of a state is
/// their canonical rendering, as long as a space is due in the state
/// exactly where it is due after the token before.
proof fn lemma_emitted_is_rendered(b: Builder, toks: Seq<Lexeme>, prev: Option<TokenType>, fresh: bool)
    requires
        b.wf(),
        spine_ok(b.nodes, b.roots, b.open),
        b.nodes.len() + node_total(toks) <= max_nodes(),
        balanced(toks, b.open.len() as int),
        one_expression(toks, b.open.len() as int, fresh),
        fresh ==> prev is None,
        b.open.len() > 0 ==> (gap(b).len() > 0 <==> (prev == Some(TokenType::Literal) || prev == Some(
            TokenType::RParen,
        ))),
    ensures
        emitted(b, toks) == render_from(canonical_tokens(toks), prev),
    decreases toks.len(),
{
    let spelled = canonical_tokens(toks);
    if toks.len() == 0 {
        assert(spelled =~= Seq::<Lexeme>::empty());
    } else {
        let t = toks[0];
        let rest = toks.skip(1);
        let next = b.step(t);
        let len = b.nodes.len() as int;
        b.lemma_step_wf(t);
        assert(seq![t].skip(1).len() == 0);
        assert(node_total(seq![t].skip(1)) == 0);
        assert(spelled[0] == canonical_token(t));
        assert(spelled.skip(1) =~= canonical_tokens(rest));
        if b.open.len() > 0 {
            assert(b.open[b.open.len() - 1] < b.nodes.len());
        }
        match t {
            Lexeme::RParen => {
                lemma_step_close(b);
                assert(next.open =~= b.open.drop_last());
            },
            Lexeme::LParen => {
                lemma_step_attach(b, t);
                assert(next.open =~= b.open.push(len as usize));
                assert(next.open.last() == len);
                assert(children(next.nodes[len]) =~= Seq::<u32>::empty());
            },
            Lexeme::Literal(_) => {
                lemma_step_attach(b, t);
                assert(next.open =~= b.open);
                if b.open.len() > 0 {
                    let p = b.open.last() as int;
                    assert(children(next.nodes[p]).len() > 0);
                }
            },
        }
        lemma_emitted_is_rendered(next, rest, Some(t.ty()), false);
        let space = if needs_space(prev, t.ty()) {
            seq![32u8]
        } else {
            Seq::<u8>::empty()
        };
        assert(emit(b, t) =~= space + lexeme_text(canonical_token(t)));
        assert(emitted(b, toks) =~= render_from(spelled, prev));
    }
}

/// The two renderers agree on one expression: the text of the tree built
/// from balanced tokens that hold at most one expression outside all lists
/// is the rendering of those tokens, each literal in canonical spelling.
pub proof fn lemma_renderers_agree(toks: Seq<Lexeme>)
    requires
        node_total(toks) <= max_nodes(),
        balanced(toks, 0),
        one_expression(toks, 0, true),
    ensures
        tree_text(build(toks)) == render_tokens(canonical_tokens(toks)),
{
    lemma_tree_text_is_emitted(toks);
    let b = Builder::start();
    assert(well_linked(b.nodes, b.roots));
    lemma_emitted_is_rendered(b, toks, None, true);
}

} // verus!
