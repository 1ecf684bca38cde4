//! Laws that relate lexing, rendering and number text to each other.

use vstd::prelude::*;
use crate::number::{decimal_digits, decimal_text, digits_value, int_literal_value, is_digit, lemma_decimal_digits_are_digits};
use crate::parse::{build, literal_node, max_nodes, node_total, Builder, Node, Tree};
use crate::text::{is_delim, is_space};
use crate::tokenise::{lemma_literal_end, lex, lex_from, lexeme_text, literal_end, needs_space, render_from, render_tokens, Lexeme, TokenType};

verus! {

/// Every token that lexing yields is well formed: a literal is never empty
/// and holds no whitespace and no parenthesis.
pub proof fn lemma_lexed_tokens_are_well_formed(s: Seq<u8>, i: int)
    requires
        0 <= i <= s.len(),
    ensures
        forall|k: int| 0 <= k < lex_from(s, i).len() ==> (#[trigger] lex_from(s, i)[k]).well_formed(),
    decreases s.len() - i,
{
    if i < s.len() {
        let all = lex_from(s, i);
        if is_space(s[i]) {
            lemma_lexed_tokens_are_well_formed(s, i + 1);
            assert(all == lex_from(s, i + 1));
        } else if s[i] == 40 || s[i] == 41 {
            lemma_lexed_tokens_are_well_formed(s, i + 1);
            let rest = lex_from(s, i + 1);
            assert forall|k: int| 0 <= k < all.len() implies (#[trigger] all[k]).well_formed() by {
                if k > 0 {
                    assert(all[k] == rest[k - 1]);
                }
            }
        } else {
            let e = literal_end(s, i + 1);
            lemma_literal_end(s, i + 1);
            lemma_lexed_tokens_are_well_formed(s, e);
            let lit = s.subrange(i, e);
            assert forall|k: int| 0 <= k < lit.len() implies !is_delim(#[trigger] lit[k]) by {
                assert(lit[k] == s[i + k]);
            }
            assert(Lexeme::Literal(lit).well_formed());
            let rest = lex_from(s, e);
            assert(all == seq![Lexeme::Literal(lit)] + rest);
            assert forall|k: int| 0 <= k < all.len() implies (#[trigger] all[k]).well_formed() by {
                if k > 0 {
                    assert(all[k] == rest[k - 1]);
                } else {
                    assert(all[0] == Lexeme::Literal(lit));
                }
            }
        }
    } else {
        assert(lex_from(s, i).len() == 0);
    }
}

/// A text has at most as many tokens as it has bytes.
pub proof fn lemma_token_count(s: Seq<u8>, i: int)
    requires
        0 <= i <= s.len(),
    ensures
        lex_from(s, i).len() <= s.len() - i,
    decreases s.len() - i,
{
    if i < s.len() {
        if s[i] == 40 || s[i] == 41 || is_space(s[i]) {
            lemma_token_count(s, i + 1);
        } else {
            lemma_literal_end(s, i + 1);
            lemma_token_count(s, literal_end(s, i + 1));
        }
    }
}

/// Where a literal ends does not depend on what stands before it.
pub proof fn lemma_literal_end_shift(p: Seq<u8>, r: Seq<u8>, j: int)
    requires
        0 <= j <= r.len(),
    ensures
        literal_end(p + r, p.len() + j) == p.len() + literal_end(r, j),
    decreases r.len() - j,
{
    if j < r.len() {
        assert((p + r)[p.len() + j] == r[j]);
        if !is_delim(r[j]) {
            lemma_literal_end_shift(p, r, j + 1);
        }
    }
}

/// The tokens from a position on do not depend on what stands before it.
pub proof fn lemma_lex_shift(p: Seq<u8>, r: Seq<u8>, j: int)
    requires
        0 <= j <= r.len(),
    ensures
        lex_from(p + r, p.len() + j) == lex_from(r, j),
    decreases r.len() - j,
{
    if j < r.len() {
        assert((p + r)[p.len() + j] == r[j]);
        if r[j] == 40 || r[j] == 41 || is_space(r[j]) {
            lemma_lex_shift(p, r, j + 1);
        } else {
            let e = literal_end(r, j + 1);
            lemma_literal_end(r, j + 1);
            lemma_literal_end_shift(p, r, j + 1);
            lemma_lex_shift(p, r, e);
            assert((p + r).subrange(p.len() + j, p.len() + e) =~= r.subrange(j, e));
        }
    }
}

/// A run without delimiters, followed by a delimiter or by nothing, is
/// scanned as one literal.
pub proof fn lemma_literal_end_of_run(s: Seq<u8>, r: Seq<u8>, j: int)
    requires
        0 <= j <= s.len(),
        forall|k: int| 0 <= k < s.len() ==> !is_delim(#[trigger] s[k]),
        r.len() == 0 || is_delim(r[0]),
    ensures
        literal_end(s + r, j) == s.len(),
    decreases s.len() - j,
{
    if j < s.len() {
        assert((s + r)[j] == s[j]);
        lemma_literal_end_of_run(s, r, j + 1);
    } else if r.len() > 0 {
        assert((s + r)[j] == r[0]);
    }
}

/// Lexing the canonical text of well-formed tokens gives the tokens back.
/// After a literal, the text that follows is empty or starts with a
/// delimiter.
pub proof fn lemma_lex_render_from(toks: Seq<Lexeme>, prev: Option<TokenType>)
    requires
        forall|k: int| 0 <= k < toks.len() ==> (#[trigger] toks[k]).well_formed(),
    ensures
        lex(render_from(toks, prev)) == toks,
        prev == Some(TokenType::Literal) ==> render_from(toks, prev).len() == 0 || is_delim(
            render_from(toks, prev)[0],
        ),
    decreases toks.len(),
{
    if toks.len() > 0 {
        let t = toks[0];
        let rest = toks.skip(1);
        let tail = render_from(rest, Some(t.ty()));
        let gap = if needs_space(prev, t.ty()) {
            seq![32u8]
        } else {
            Seq::<u8>::empty()
        };
        let body = lexeme_text(t) + tail;
        let whole = render_from(toks, prev);
        assert(whole =~= gap + body);
        assert forall|k: int| 0 <= k < rest.len() implies (#[trigger] rest[k]).well_formed() by {
            assert(rest[k] == toks[k + 1]);
        }
        lemma_lex_render_from(rest, Some(t.ty()));
        assert(toks[0].well_formed());
        assert(lex_from(body, 0) == seq![t] + rest) by {
            match t {
                Lexeme::Literal(s) => {
                    assert(body[0] == s[0]);
                    assert(!is_delim(s[0]));
                    lemma_literal_end_of_run(s, tail, 1);
                    lemma_lex_shift(s, tail, 0);
                    assert(body.subrange(0, s.len() as int) =~= s);
                },
                Lexeme::LParen => {
                    assert(body[0] == 40);
                    lemma_lex_shift(seq![40u8], tail, 0);
                },
                Lexeme::RParen => {
                    assert(body[0] == 41);
                    lemma_lex_shift(seq![41u8], tail, 0);
                },
            }
        }
        if needs_space(prev, t.ty()) {
            assert(whole[0] == 32);
            lemma_lex_shift(seq![32u8], body, 0);
        } else {
            assert(whole =~= body);
        }
        assert(seq![t] + rest =~= toks);
        if prev == Some(TokenType::Literal) {
            match t {
                Lexeme::RParen => {
                    assert(whole[0] == 41);
                },
                _ => {
                    assert(whole[0] == 32);
                },
            }
        }
    }
}

/// A text in canonical form, that is the rendering of well-formed tokens,
/// is lexed into those tokens and rendered as itself again.
pub proof fn lemma_canonical_text_round_trip(toks: Seq<Lexeme>)
    requires
        forall|k: int| 0 <= k < toks.len() ==> (#[trigger] toks[k]).well_formed(),
    ensures
        lex(render_tokens(toks)) == toks,
        render_tokens(lex(render_tokens(toks))) == render_tokens(toks),
{
    lemma_lex_render_from(toks, None);
}

/// Rendering what a text lexes to is a fixed point of lexing and
/// rendering: whatever the text, a second pass changes nothing.
pub proof fn lemma_normalising_is_idempotent(text: Seq<u8>)
    ensures
        render_tokens(lex(render_tokens(lex(text)))) == render_tokens(lex(text)),
{
    lemma_lexed_tokens_are_well_formed(text, 0);
    lemma_canonical_text_round_trip(lex(text));
}

/// The digits of a number denote that number.
pub proof fn lemma_digits_value_of_decimal(n: nat)
    ensures
        digits_value(decimal_digits(n)) == n,
    decreases n,
{
    if n < 10 {
        assert(decimal_digits(n).drop_last() =~= Seq::<u8>::empty());
        assert(digits_value(Seq::<u8>::empty()) == 0);
    } else {
        lemma_digits_value_of_decimal(n / 10);
        assert(decimal_digits(n).drop_last() =~= decimal_digits(n / 10));
    }
}

/// Reading the decimal text of an integer gives that integer.
pub proof fn lemma_decimal_round_trip(v: i64)
    ensures
        int_literal_value(decimal_text(v as int)) == Some(v),
{
    let b = decimal_text(v as int);
    if v < 0 {
        let d = decimal_digits((-v) as nat);
        lemma_decimal_digits_are_digits((-v) as nat);
        lemma_digits_value_of_decimal((-v) as nat);
        assert(b[0] == 45);
        assert(b.subrange(1, b.len() as int) =~= d);
    } else {
        lemma_decimal_digits_are_digits(v as nat);
        lemma_digits_value_of_decimal(v as nat);
        assert(is_digit(b[0]));
    }
}

/// A token sequence makes at most as many nodes as it has tokens.
pub proof fn lemma_node_total_bound(toks: Seq<Lexeme>)
    ensures
        node_total(toks) <= toks.len(),
    decreases toks.len(),
{
    if toks.len() > 0 {
        lemma_node_total_bound(toks.skip(1));
    }
}

/// Whatever the tokens, as long as the nodes they make fit the index type,
/// the builder's state stays well formed: no root and no child dangles, a
/// child stands after its parent, and every open entry is a list. The arena
/// grows by one node for each literal and each opening parenthesis.
pub proof fn lemma_run_is_well_formed(b: Builder, toks: Seq<Lexeme>)
    requires
        b.wf(),
        b.nodes.len() + node_total(toks) <= max_nodes(),
    ensures
        b.run(toks).wf(),
        b.run(toks).nodes.len() == b.nodes.len() + node_total(toks),
    decreases toks.len(),
{
    if toks.len() > 0 {
        b.lemma_step_wf(toks[0]);
        assert(seq![toks[0]].skip(1).len() == 0);
        assert(node_total(seq![toks[0]].skip(1)) == 0);
        lemma_run_is_well_formed(b.step(toks[0]), toks.skip(1));
    }
}

/// The tree built from any token sequence whose nodes fit the index type is
/// well formed.
pub proof fn lemma_built_tree_is_well_formed(toks: Seq<Lexeme>)
    requires
        node_total(toks) <= max_nodes(),
    ensures
        build(toks).wf(),
{
    lemma_run_is_well_formed(Builder::start(), toks);
}

/// A text of one literal that denotes an integer builds a tree of one node,
/// that integer, which is its only root.
pub proof fn lemma_single_integer(s: Seq<u8>, v: i64)
    requires
        int_literal_value(s) == Some(v),
    ensures
        build(seq![Lexeme::Literal(s)]) == (Tree { nodes: seq![Node::Int(v)], roots: seq![0u32] }),
{
    let toks = seq![Lexeme::Literal(s)];
    let first = Builder::start().step(toks[0]);
    assert(toks.skip(1).len() == 0);
    assert(first.run(toks.skip(1)) == first);
    assert(Builder::start().run(toks) == first);
    assert(first.nodes =~= seq![Node::Int(v)]);
    assert(first.roots =~= seq![0u32]);
}

/// The text that a literal has once it is a node: the decimal text of its
/// value where it denotes an integer, else its own bytes.
pub open spec fn canonical_literal(s: Seq<u8>) -> Seq<u8> {
    match literal_node(s) {
        Node::Int(v) => decimal_text(v as int),
        _ => s,
    }
}

/// A token with its literal, if it is one, in canonical spelling.
pub open spec fn canonical_token(t: Lexeme) -> Lexeme {
    match t {
        Lexeme::Literal(s) => Lexeme::Literal(canonical_literal(s)),
        other => other,
    }
}

/// A token sequence with every literal in canonical spelling.
pub open spec fn canonical_tokens(toks: Seq<Lexeme>) -> Seq<Lexeme> {
    toks.map_values(|t: Lexeme| canonical_token(t))
}

/// A literal and its canonical spelling become the same node: an integer
/// written out in decimal reads as itself, and a string stays a string.
pub proof fn lemma_canonical_literal_is_same_node(s: Seq<u8>)
    ensures
        literal_node(canonical_literal(s)) == literal_node(s),
{
    match literal_node(s) {
        Node::Int(v) => {
            lemma_decimal_round_trip(v);
        },
        _ => {},
    }
}

/// Building from tokens whose literals are spelled canonically gives the
/// same state as building from the tokens themselves.
pub proof fn lemma_build_ignores_spelling(b: Builder, toks: Seq<Lexeme>)
    ensures
        b.run(canonical_tokens(toks)) == b.run(toks),
    decreases toks.len(),
{
    let spelled = canonical_tokens(toks);
    if toks.len() > 0 {
        assert(spelled[0] == canonical_token(toks[0]));
        match toks[0] {
            Lexeme::Literal(s) => {
                lemma_canonical_literal_is_same_node(s);
            },
            _ => {},
        }
        assert(b.step(spelled[0]) == b.step(toks[0]));
        assert(spelled.skip(1) =~= canonical_tokens(toks.skip(1)));
        lemma_build_ignores_spelling(b.step(toks[0]), toks.skip(1));
    }
}

} // verus!
