//! The lexer: a cursor over borrowed text that hands out tokens one by one.

use vstd::prelude::*;
use vstd::string::*;
use vstd::utf8::*;
use crate::text::{
    byte_is_delim, byte_is_space, is_delim, is_space, lemma_ascii_is_utf8,
    lemma_boundary_after_ascii, push_ascii, push_str, string_from_utf8,
};

verus! {

/// The kind of a token, without its content.
#[derive(Debug, Clone, Copy, PartialEq, Eq, Structural)]
pub enum TokenType {
    Literal,
    LParen,
    RParen,
}

/// A token of the surface syntax. A literal borrows its bytes from the text.
#[derive(Debug, Clone, Copy, PartialEq, Eq)]
pub enum Token<'a> {
    Literal(&'a str),
    LParen,
    RParen,
}

/// What a token is, as a mathematical value: a literal is its bytes.
pub enum Lexeme {
    Literal(Seq<u8>),
    LParen,
    RParen,
}

impl Lexeme {
    /// The kind of this lexeme.
    pub open spec fn ty(self) -> TokenType {
        match self {
            Lexeme::Literal(_) => TokenType::Literal,
            Lexeme::LParen => TokenType::LParen,
            Lexeme::RParen => TokenType::RParen,
        }
    }

    /// A literal is never empty and holds no whitespace and no parenthesis.
    pub open spec fn well_formed(self) -> bool {
        match self {
            Lexeme::Literal(s) => s.len() > 0 && forall|i: int|
                0 <= i < s.len() ==> !is_delim(#[trigger] s[i]),
            _ => true,
        }
    }
}

impl<'a> View for Token<'a> {
    type V = Lexeme;

    open spec fn view(&self) -> Lexeme {
        match *self {
            Token::Literal(s) => Lexeme::Literal(s.spec_bytes()),
            Token::LParen => Lexeme::LParen,
            Token::RParen => Lexeme::RParen,
        }
    }
}

impl Token<'_> {
    /// The kind of this token.
    pub fn ty(self) -> (r: TokenType)
        ensures
            r == self@.ty(),
    {
        match self {
            Token::Literal(_) => TokenType::Literal,
            Token::LParen => TokenType::LParen,
            Token::RParen => TokenType::RParen,
        }
    }
}

/// The first position at or after `i` that holds a delimiter, or the length
/// of `s` if there is none.
pub open spec fn literal_end(s: Seq<u8>, i: int) -> int
    decreases s.len() - i,
{
    if i < 0 || i >= s.len() || is_delim(s[i]) {
        i
    } else {
        literal_end(s, i + 1)
    }
}

/// The first position at or after `i` that holds no whitespace, or the
/// length of `s` if there is none.
pub open spec fn skip_space(s: Seq<u8>, i: int) -> int
    decreases s.len() - i,
{
    if 0 <= i < s.len() && is_space(s[i]) {
        skip_space(s, i + 1)
    } else {
        i
    }
}

/// Where the token that starts at position `q` ends: one byte on for a
/// parenthesis, at the next delimiter or the end of `s` for a literal. At
/// the end of `s` there is no token and the position stays.
pub open spec fn token_end(s: Seq<u8>, q: int) -> int {
    if q < 0 || q >= s.len() {
        q
    } else if s[q] == 40 || s[q] == 41 {
        q + 1
    } else {
        literal_end(s, q + 1)
    }
}

/// The tokens of `s` from position `i` on, scanned left to right: a
/// parenthesis is a token of its own, whitespace is skipped, and anything
/// else starts a literal that runs up to the next delimiter.
pub open spec fn lex_from(s: Seq<u8>, i: int) -> Seq<Lexeme>
    decreases s.len() - i,
    via lex_from_terminates
{
    if i < 0 || i >= s.len() {
        Seq::empty()
    } else if s[i] == 40 {
        seq![Lexeme::LParen] + lex_from(s, i + 1)
    } else if s[i] == 41 {
        seq![Lexeme::RParen] + lex_from(s, i + 1)
    } else if is_space(s[i]) {
        lex_from(s, i + 1)
    } else {
        let e = literal_end(s, i + 1);
        seq![Lexeme::Literal(s.subrange(i, e))] + lex_from(s, e)
    }
}

#[via_fn]
proof fn lex_from_terminates(s: Seq<u8>, i: int) {
    if 0 <= i < s.len() {
        lemma_literal_end(s, i + 1);
    }
}

/// The tokens of a whole text.
pub open spec fn lex(s: Seq<u8>) -> Seq<Lexeme> {
    lex_from(s, 0)
}

/// `literal_end` stops inside the text, not before where it started, and
/// passes over no delimiter.
pub proof fn lemma_literal_end(s: Seq<u8>, i: int)
    requires
        0 <= i <= s.len(),
    ensures
        i <= literal_end(s, i) <= s.len(),
        literal_end(s, i) < s.len() ==> is_delim(s[literal_end(s, i)]),
        forall|k: int| i <= k < literal_end(s, i) ==> !is_delim(#[trigger] s[k]),
    decreases s.len() - i,
{
    if i < s.len() && !is_delim(s[i]) {
        lemma_literal_end(s, i + 1);
    }
}

/// A lazy sequence of tokens: the text and the offset of the next byte to
/// scan.
#[derive(Debug, Clone)]
pub struct TokenStream<'a> {
    text: &'a str,
    byte: usize,
}

/// Starts a token stream at the beginning of `text`.
pub fn tokenise(text: &str) -> (ts: TokenStream<'_>)
    ensures
        ts.wf(),
        ts.source() == text.spec_bytes(),
        ts.offset() == 0,
        ts@ == lex(text.spec_bytes()),
{
    proof {
        encode_utf8_valid_utf8(text@);
        is_char_boundary_start_end_of_seq(text.spec_bytes());
    }
    TokenStream { text, byte: 0 }
}

impl<'a> View for TokenStream<'a> {
    type V = Seq<Lexeme>;

    /// The tokens that are still to come.
    open spec fn view(&self) -> Seq<Lexeme> {
        lex_from(self.source(), self.offset())
    }
}

impl<'a> TokenStream<'a> {
    /// The bytes of the text under the stream.
    pub closed spec fn source(&self) -> Seq<u8> {
        self.text.spec_bytes()
    }

    /// The offset of the next byte to scan.
    pub closed spec fn offset(&self) -> int {
        self.byte as int
    }

    /// The offset lies inside the text, at the start of a character.
    pub closed spec fn wf(&self) -> bool {
        &&& self.byte <= self.text.spec_bytes().len()
        &&& is_char_boundary(self.text.spec_bytes(), self.byte as int)
    }

    /// Hands out the next token and moves past it; `None` once only
    /// whitespace is left. The offset afterwards is the end of that token,
    /// which starts after the whitespace at the old offset; with no token
    /// left it is the end of the text.
    pub fn next(&mut self) -> (r: Option<Token<'a>>)
        requires
            old(self).wf(),
        ensures
            final(self).wf(),
            final(self).source() == old(self).source(),
            old(self).offset() <= final(self).offset() <= final(self).source().len(),
            final(self).offset() == token_end(
                old(self).source(),
                skip_space(old(self).source(), old(self).offset()),
            ),
            r is None <==> skip_space(old(self).source(), old(self).offset()) == old(
                self,
            ).source().len(),
            match r {
                Some(t) => old(self)@ == seq![t@] + final(self)@ && t@.well_formed()
                    && old(self).offset() < final(self).offset(),
                None => old(self)@ == Seq::<Lexeme>::empty() && final(self)@ == Seq::<
                    Lexeme,
                >::empty(),
            },
    {
        let text: &'a str = self.text;
        let bytes = text.as_bytes();
        let n: usize = bytes.len();
        let ghost b = text.spec_bytes();
        let ghost start = self.byte as int;
        proof {
            encode_utf8_valid_utf8(text@);
        }
        let mut i: usize = self.byte;
        while i < n && byte_is_space(bytes[i])
            invariant
                b == text.spec_bytes(),
                bytes@ == b,
                n == b.len(),
                valid_utf8(b),
                start <= i <= n,
                is_char_boundary(b, i as int),
                lex_from(b, i as int) == lex_from(b, start),
                skip_space(b, i as int) == skip_space(b, start),
            decreases n - i,
        {
            proof {
                lemma_boundary_after_ascii(b, i as int);
            }
            i += 1;
        }
        if i >= n {
            self.byte = i;
            return None;
        }
        let c: u8 = bytes[i];
        if c == 40 {
            proof {
                lemma_boundary_after_ascii(b, i as int);
            }
            self.byte = i + 1;
            Some(Token::LParen)
        } else if c == 41 {
            proof {
                lemma_boundary_after_ascii(b, i as int);
            }
            self.byte = i + 1;
            Some(Token::RParen)
        } else {
            let mut e: usize = i + 1;
            while e < n && !byte_is_delim(bytes[e])
                invariant
                    bytes@ == b,
                    n == b.len(),
                    i < e <= n,
                    literal_end(b, e as int) == literal_end(b, i + 1),
                    forall|k: int| i <= k < e ==> !is_delim(#[trigger] b[k]),
                decreases n - e,
            {
                e += 1;
            }
            proof {
                if e < n {
                    is_char_boundary_iff_not_is_continuation_byte(b, e as int);
                } else {
                    is_char_boundary_start_end_of_seq(b);
                }
            }
            let (head, _) = text.split_at(e);
            proof {
                let h = head.spec_bytes();
                assert(h =~= b.subrange(0, e as int));
                valid_utf8_split(b, e as int);
                is_char_boundary_iff_not_is_continuation_byte(b, i as int);
                assert(h[i as int] == b[i as int]);
                is_char_boundary_iff_not_is_continuation_byte(h, i as int);
            }
            let (_, lit) = head.split_at(i);
            proof {
                assert(lit.spec_bytes() =~= b.subrange(i as int, e as int));
            }
            self.byte = e;
            Some(Token::Literal(lit))
        }
    }
}

/// Whether a space goes between a token of kind `prev` and one of kind
/// `next`: after a literal or a closing parenthesis, before a literal or an
/// opening parenthesis.
pub open spec fn needs_space(prev: Option<TokenType>, next: TokenType) -> bool {
    (prev == Some(TokenType::Literal) || prev == Some(TokenType::RParen)) && (next
        == TokenType::Literal || next == TokenType::LParen)
}

/// The bytes of one token.
pub open spec fn lexeme_text(t: Lexeme) -> Seq<u8> {
    match t {
        Lexeme::Literal(s) => s,
        Lexeme::LParen => seq![40u8],
        Lexeme::RParen => seq![41u8],
    }
}

/// The single-line text of `toks` when the token before them had kind
/// `prev`.
pub open spec fn render_from(toks: Seq<Lexeme>, prev: Option<TokenType>) -> Seq<u8>
    decreases toks.len(),
{
    if toks.len() == 0 {
        Seq::empty()
    } else {
        let gap = if needs_space(prev, toks[0].ty()) {
            seq![32u8]
        } else {
            Seq::empty()
        };
        gap + lexeme_text(toks[0]) + render_from(toks.skip(1), Some(toks[0].ty()))
    }
}

/// The single-line text of a token sequence, with the fewest spaces that
/// keep the tokens apart.
pub open spec fn render_tokens(toks: Seq<Lexeme>) -> Seq<u8> {
    render_from(toks, None)
}

/// Renders the tokens that a stream still holds, without consuming it.
pub struct TokenStreamStringifier<'a, 'b> {
    ts: &'a TokenStream<'b>,
}

impl<'b> TokenStream<'b> {
    /// A renderer for the tokens still to come.
    pub fn stringify(&self) -> (r: TokenStreamStringifier<'_, 'b>)
        ensures
            r.stream() == *self,
    {
        TokenStreamStringifier { ts: self }
    }
}

impl<'a, 'b> TokenStreamStringifier<'a, 'b> {
    /// The stream that is rendered.
    pub closed spec fn stream(&self) -> TokenStream<'b> {
        *self.ts
    }

    /// The tokens as bytes: see [`render_tokens`].
    pub fn render_bytes(&self) -> (out: Vec<u8>)
        requires
            self.stream().wf(),
        ensures
            out@ == render_tokens(self.stream()@),
            valid_utf8(out@),
    {
        let mut ts = TokenStream { text: self.ts.text, byte: self.ts.byte };
        let ghost all = ts@;
        let mut out: Vec<u8> = Vec::new();
        let mut last: Option<TokenType> = None;
        proof {
            lemma_ascii_is_utf8(out@);
        }
        loop
            invariant
                ts.wf(),
                valid_utf8(out@),
                out@ + render_from(ts@, last) == render_from(all, None),
            ensures
                out@ == render_from(all, None),
                valid_utf8(out@),
            decreases ts.source().len() - ts.offset(),
        {
            let ghost before = ts@;
            let ghost out0 = out@;
            match ts.next() {
                None => {
                    assert(out@ + Seq::<u8>::empty() =~= out@);
                    break ;
                },
                Some(token) => {
                    let ty = token.ty();
                    assert(before.skip(1) =~= ts@);
                    assert(before[0] == token@);
                    match token {
                        Token::Literal(lit) => {
                            if spaced_after(last) {
                                push_ascii(&mut out, 32);
                            }
                            push_str(&mut out, lit);
                        },
                        Token::LParen => {
                            if spaced_after(last) {
                                push_ascii(&mut out, 32);
                            }
                            push_ascii(&mut out, 40);
                        },
                        Token::RParen => {
                            push_ascii(&mut out, 41);
                        },
                    }
                    let ghost gap = if needs_space(last, token@.ty()) {
                        seq![32u8]
                    } else {
                        Seq::<u8>::empty()
                    };
                    assert(out@ =~= out0 + gap + lexeme_text(token@));
                    assert(out@ + render_from(ts@, Some(ty)) =~= out0 + render_from(before, last));
                    last = Some(ty);
                },
            }
        }
        out
    }

    /// The tokens as single-line text: see [`render_tokens`].
    pub fn render(&self) -> (r: String)
        requires
            self.stream().wf(),
        ensures
            encode_utf8(r@) == render_tokens(self.stream()@),
    {
        string_from_utf8(self.render_bytes())
    }
}

/// Whether a token of kind `last` is one after which a space may be due.
fn spaced_after(last: Option<TokenType>) -> (r: bool)
    ensures
        r == (last == Some(TokenType::Literal) || last == Some(TokenType::RParen)),
{
    match last {
        Some(TokenType::Literal) => true,
        Some(TokenType::RParen) => true,
        _ => false,
    }
}

} // verus!
