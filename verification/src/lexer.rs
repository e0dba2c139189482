//! The tokenizer: it turns source text into an ordered token sequence, always
//! terminated by a single end-of-input token, or fails with one located
//! lexical error.
//!
//! The behaviour is pinned down by `spec_lex`, a mathematical tokenizer over
//! the character sequence of the source; `lex` is proved to return exactly
//! what `spec_lex` describes, spans (in bytes) and error messages included.

use vstd::prelude::*;
use vstd::string::{StrSliceExecFns, StringExecFns};
use vstd::utf8::{char_is_scalar, encode_scalar, encode_utf8};
use crate::error::{ParseError, ParseErrorModel};
use crate::span::{span, span_end, Span};
use crate::token::{KindModel, Token, TokenKind, TokenModel};

verus! {

// ---------------------------------------------------------------------------
// Character classes
// ---------------------------------------------------------------------------
/// The characters with the Unicode `White_Space` property, the class that the
/// tokenizer skips between tokens.
pub open spec fn is_space_char(c: char) -> bool {
    let u = c as u32;
    ||| (0x09 <= u && u <= 0x0D)
    ||| u == 0x20
    ||| u == 0x85
    ||| u == 0xA0
    ||| u == 0x1680
    ||| (0x2000 <= u && u <= 0x200A)
    ||| u == 0x2028
    ||| u == 0x2029
    ||| u == 0x202F
    ||| u == 0x205F
    ||| u == 0x3000
}

/// An identifier or keyword starts at an ASCII letter or an underscore.
pub open spec fn is_ident_start_char(c: char) -> bool {
    let u = c as u32;
    (0x41 <= u && u <= 0x5A) || (0x61 <= u && u <= 0x7A) || u == 0x5F
}

/// An identifier continues over ASCII letters, digits and underscores.
pub open spec fn is_ident_continue_char(c: char) -> bool {
    is_ident_start_char(c) || is_digit_char(c)
}

/// An ASCII decimal digit.
pub open spec fn is_digit_char(c: char) -> bool {
    let u = c as u32;
    0x30 <= u && u <= 0x39
}

/// The numeric value of an ASCII decimal digit.
pub open spec fn digit_val(c: char) -> int {
    c as u32 - 0x30
}

fn is_space(c: char) -> (r: bool)
    ensures
        r == is_space_char(c),
{
    let u = c as u32;
    (0x09 <= u && u <= 0x0D) || u == 0x20 || u == 0x85 || u == 0xA0 || u == 0x1680 || (0x2000 <= u
        && u <= 0x200A) || u == 0x2028 || u == 0x2029 || u == 0x202F || u == 0x205F || u == 0x3000
}

fn is_ident_start(ch: char) -> (r: bool)
    ensures
        r == is_ident_start_char(ch),
{
    let u = ch as u32;
    (0x41 <= u && u <= 0x5A) || (0x61 <= u && u <= 0x7A) || u == 0x5F
}

fn is_ident_continue(ch: char) -> (r: bool)
    ensures
        r == is_ident_continue_char(ch),
{
    let u = ch as u32;
    (0x41 <= u && u <= 0x5A) || (0x61 <= u && u <= 0x7A) || u == 0x5F || (0x30 <= u && u <= 0x39)
}

fn is_digit(c: char) -> (r: bool)
    ensures
        r == is_digit_char(c),
{
    let u = c as u32;
    0x30 <= u && u <= 0x39
}

// ---------------------------------------------------------------------------
// Byte offsets of character positions
// ---------------------------------------------------------------------------
/// The number of bytes the UTF-8 encoding of `c` takes.
pub open spec fn utf8_len(c: char) -> int {
    let u = c as u32;
    if u < 0x80 {
        1
    } else if u < 0x800 {
        2
    } else if u < 0x10000 {
        3
    } else {
        4
    }
}

/// The byte offset of the character at index `i` of `s`: the length of the
/// UTF-8 encoding of the characters before it.
pub open spec fn boff(s: Seq<char>, i: int) -> int {
    encode_utf8(s.take(i)).len() as int
}

/// The exact byte length of the encoding of one character.
proof fn lemma_encode_scalar_len(c: char)
    ensures
        encode_scalar(c as u32).len() == utf8_len(c),
{
    broadcast use char_is_scalar;

}

/// Encoding distributes over concatenation.
proof fn lemma_encode_concat(a: Seq<char>, b: Seq<char>)
    ensures
        encode_utf8(a + b).len() == encode_utf8(a).len() + encode_utf8(b).len(),
    decreases a.len(),
{
    if a.len() == 0 {
        assert(a + b =~= b);
    } else {
        assert((a + b)[0] == a[0]);
        assert((a + b).drop_first() =~= a.drop_first() + b);
        lemma_encode_concat(a.drop_first(), b);
    }
}

/// Offsets start at zero.
pub proof fn lemma_boff_zero(s: Seq<char>)
    ensures
        boff(s, 0) == 0,
{
    assert(s.take(0) =~= Seq::<char>::empty());
}

/// Stepping one character forward advances the offset by that character's
/// encoded length.
pub proof fn lemma_boff_step(s: Seq<char>, i: int)
    requires
        0 <= i < s.len(),
    ensures
        boff(s, i + 1) == boff(s, i) + utf8_len(s[i]),
{
    assert(s.take(i + 1) =~= s.take(i) + seq![s[i]]);
    lemma_encode_concat(s.take(i), seq![s[i]]);
    lemma_encode_single(s[i]);
    lemma_encode_scalar_len(s[i]);
}

/// The encoding of a single character is the encoding of its scalar value.
proof fn lemma_encode_single(c: char)
    ensures
        encode_utf8(seq![c]).len() == encode_scalar(c as u32).len(),
{
    reveal_with_fuel(encode_utf8, 2);
    assert(seq![c].drop_first() =~= Seq::<char>::empty());
    assert(seq![c][0] == c);
}

/// Byte offsets never decrease with the character index.
pub proof fn lemma_boff_mono(s: Seq<char>, i: int, j: int)
    requires
        0 <= i <= j <= s.len(),
    ensures
        boff(s, i) + (j - i) <= boff(s, j),
    decreases j - i,
{
    if i < j {
        lemma_boff_step(s, j - 1);
        lemma_boff_mono(s, i, j - 1);
    }
}

/// The offset one past the last character is the byte length of the source.
pub proof fn lemma_boff_total(s: Seq<char>)
    ensures
        boff(s, s.len() as int) == encode_utf8(s).len(),
{
    assert(s.take(s.len() as int) =~= s);
}

/// Relies on `str::len`: it returns the string's byte length — the length of
/// its UTF-8 encoding — which for any Rust string fits in `usize`.
#[verifier::external_body]
fn byte_length(s: &str) -> (r: usize)
    ensures
        r == encode_utf8(s@).len(),
{
    s.len()
}

// ---------------------------------------------------------------------------
// Scanning runs of characters
// ---------------------------------------------------------------------------
/// The index one past the maximal run of identifier characters starting at `j`.
pub open spec fn scan_ident(s: Seq<char>, j: int) -> int
    decreases s.len() - j,
{
    if 0 <= j < s.len() && is_ident_continue_char(s[j]) {
        scan_ident(s, j + 1)
    } else {
        j
    }
}

/// The index one past the maximal run of ASCII digits starting at `j`.
pub open spec fn scan_digits(s: Seq<char>, j: int) -> int
    decreases s.len() - j,
{
    if 0 <= j < s.len() && is_digit_char(s[j]) {
        scan_digits(s, j + 1)
    } else {
        j
    }
}

/// The index of the first double quote at or after `j`, or the length of `s`
/// if there is none.
pub open spec fn scan_quote(s: Seq<char>, j: int) -> int
    decreases s.len() - j,
{
    if 0 <= j < s.len() && s[j] != '"' {
        scan_quote(s, j + 1)
    } else {
        j
    }
}

proof fn lemma_scan_ident_range(s: Seq<char>, j: int)
    requires
        0 <= j <= s.len(),
    ensures
        j <= scan_ident(s, j) <= s.len(),
    decreases s.len() - j,
{
    if j < s.len() && is_ident_continue_char(s[j]) {
        lemma_scan_ident_range(s, j + 1);
    }
}

proof fn lemma_scan_digits_range(s: Seq<char>, j: int)
    requires
        0 <= j <= s.len(),
    ensures
        j <= scan_digits(s, j) <= s.len(),
    decreases s.len() - j,
{
    if j < s.len() && is_digit_char(s[j]) {
        lemma_scan_digits_range(s, j + 1);
    }
}

proof fn lemma_scan_quote_range(s: Seq<char>, j: int)
    requires
        0 <= j <= s.len(),
    ensures
        j <= scan_quote(s, j) <= s.len(),
    decreases s.len() - j,
{
    if j < s.len() && s[j] != '"' {
        lemma_scan_quote_range(s, j + 1);
    }
}

proof fn lemma_scan_ident_at(s: Seq<char>, j: int, k: int)
    requires
        0 <= j <= k <= s.len(),
        forall|m: int| j <= m < k ==> is_ident_continue_char(s[m]),
        k == s.len() || !is_ident_continue_char(s[k]),
    ensures
        scan_ident(s, j) == k,
    decreases k - j,
{
    if j < k {
        lemma_scan_ident_at(s, j + 1, k);
    }
}

proof fn lemma_scan_digits_at(s: Seq<char>, j: int, k: int)
    requires
        0 <= j <= k <= s.len(),
        forall|m: int| j <= m < k ==> is_digit_char(s[m]),
        k == s.len() || !is_digit_char(s[k]),
    ensures
        scan_digits(s, j) == k,
    decreases k - j,
{
    if j < k {
        lemma_scan_digits_at(s, j + 1, k);
    }
}

proof fn lemma_scan_quote_at(s: Seq<char>, j: int, k: int)
    requires
        0 <= j <= k <= s.len(),
        forall|m: int| j <= m < k ==> s[m] != '"',
        k == s.len() || s[k] == '"',
    ensures
        scan_quote(s, j) == k,
    decreases k - j,
{
    if j < k {
        lemma_scan_quote_at(s, j + 1, k);
    }
}

// ---------------------------------------------------------------------------
// Values and messages
// ---------------------------------------------------------------------------
/// The decimal value of the digits `s[i..j)`.
pub open spec fn digits_val(s: Seq<char>, i: int, j: int) -> int
    decreases j - i,
{
    if i >= j {
        0
    } else {
        digits_val(s, i, j - 1) * 10 + digit_val(s[j - 1])
    }
}

/// The message of the error reported at a character outside every lexical
/// category.
pub open spec fn msg_unexpected_char(c: char) -> Seq<char> {
    "unexpected character '"@ + seq![c] + "'"@
}

/// The message of the error reported for an integer literal that does not fit
/// a 64-bit signed integer.
pub open spec fn msg_invalid_int(text: Seq<char>) -> Seq<char> {
    "invalid integer literal '"@ + text + "'"@
}

/// What the keyword table makes of an identifier run: a keyword kind when the
/// text matches one, otherwise an identifier carrying the text.
pub open spec fn spec_ident_kind(text: Seq<char>) -> KindModel {
    if text == "let"@ {
        KindModel::Let
    } else if text == "mut"@ {
        KindModel::Mut
    } else if text == "set"@ {
        KindModel::SetKw
    } else if text == "fn"@ {
        KindModel::Fn
    } else if text == "match"@ {
        KindModel::Match
    } else if text == "with"@ {
        KindModel::With
    } else if text == "when"@ {
        KindModel::When
    } else if text == "io"@ {
        KindModel::Io
    } else if text == "do"@ {
        KindModel::Do
    } else if text == "end"@ {
        KindModel::End
    } else {
        KindModel::Ident(text)
    }
}

/// The identifier-or-keyword token produced from the run `s[i..j)`.
pub open spec fn ident_token(s: Seq<char>, i: int, j: int) -> TokenModel {
    TokenModel {
        kind: spec_ident_kind(s.subrange(i, j)),
        span: Span { offset: boff(s, i) as usize, len: (boff(s, j) - boff(s, i)) as usize },
    }
}

// ---------------------------------------------------------------------------
// The mathematical tokenizer
// ---------------------------------------------------------------------------
/// What lexing a two-character operator starting at character `i` yields: the
/// token when the second character matches `expected`, otherwise the located
/// error built from `msg`.
pub open spec fn spec_op2(
    s: Seq<char>,
    i: int,
    expected: char,
    kind: KindModel,
    msg: Seq<char>,
) -> Result<TokenModel, ParseErrorModel> {
    if i + 1 < s.len() {
        if s[i + 1] == expected {
            Ok(TokenModel { kind, span: Span { offset: boff(s, i) as usize, len: 2 } })
        } else {
            Err(
                ParseErrorModel {
                    message: msg + ", found '"@ + seq![s[i + 1]] + "'"@,
                    span: Span {
                        offset: boff(s, i + 1) as usize,
                        len: utf8_len(s[i + 1]) as usize,
                    },
                },
            )
        }
    } else {
        // the input ran out: a one-byte span at the position where the
        // second character was expected, the end of the source
        Err(
            ParseErrorModel {
                message: msg,
                span: Span { offset: boff(s, s.len() as int) as usize, len: 1 },
            },
        )
    }
}

/// Prepend a token to the tokens of a successful outcome; an error passes
/// through unchanged.
pub open spec fn cons_tok(t: TokenModel, r: Result<Seq<TokenModel>, ParseErrorModel>) -> Result<
    Seq<TokenModel>,
    ParseErrorModel,
> {
    match r {
        Ok(ts) => Ok(seq![t] + ts),
        Err(e) => Err(e),
    }
}

/// Prepend a sequence of tokens to the tokens of a successful outcome.
pub open spec fn cons_pre(pre: Seq<TokenModel>, r: Result<Seq<TokenModel>, ParseErrorModel>) -> Result<
    Seq<TokenModel>,
    ParseErrorModel,
> {
    match r {
        Ok(ts) => Ok(pre + ts),
        Err(e) => Err(e),
    }
}

/// A punctuation token of one byte at byte offset `b`.
pub open spec fn punct(kind: KindModel, b: int) -> TokenModel {
    TokenModel { kind, span: Span { offset: b as usize, len: 1 } }
}

/// The tokens of `s` from character index `i` on: the mathematical tokenizer.
/// The resulting sequence always ends with the end-of-input token, whose span
/// is empty and starts at the byte length of the source.
pub open spec fn spec_lex_from(s: Seq<char>, i: int) -> Result<Seq<TokenModel>, ParseErrorModel>
    decreases s.len() - i,
        via spec_lex_from_decreases
{
    if i < 0 || i >= s.len() {
        Ok(
            seq![
                TokenModel {
                    kind: KindModel::Eof,
                    span: Span { offset: boff(s, s.len() as int) as usize, len: 0 },
                },
            ],
        )
    } else {
        let c = s[i];
        let b = boff(s, i);
        if is_space_char(c) {
            spec_lex_from(s, i + 1)
        } else if is_ident_start_char(c) {
            let j = scan_ident(s, i);
            cons_tok(ident_token(s, i, j), spec_lex_from(s, j))
        } else if is_digit_char(c) {
            let j = scan_digits(s, i);
            let text_span = Span { offset: b as usize, len: (boff(s, j) - b) as usize };
            if digits_val(s, i, j) > i64::MAX {
                Err(ParseErrorModel { message: msg_invalid_int(s.subrange(i, j)), span: text_span })
            } else {
                cons_tok(
                    TokenModel { kind: KindModel::Int(digits_val(s, i, j) as i64), span: text_span },
                    spec_lex_from(s, j),
                )
            }
        } else if c == '"' {
            let k = scan_quote(s, i + 1);
            if k < s.len() {
                cons_tok(
                    TokenModel {
                        kind: KindModel::String(s.subrange(i + 1, k)),
                        span: Span { offset: b as usize, len: (boff(s, k + 1) - b) as usize },
                    },
                    spec_lex_from(s, k + 1),
                )
            } else {
                Err(
                    ParseErrorModel {
                        message: "unterminated string literal"@,
                        span: Span {
                            offset: b as usize,
                            len: (boff(s, s.len() as int) - b) as usize,
                        },
                    },
                )
            }
        } else if c == '|' {
            match spec_op2(s, i, '>', KindModel::PipeGreater, "expected '>' after '|'"@) {
                Ok(t) => cons_tok(t, spec_lex_from(s, i + 2)),
                Err(e) => Err(e),
            }
        } else if c == '-' {
            match spec_op2(s, i, '>', KindModel::Arrow, "expected '>' after '-'"@) {
                Ok(t) => cons_tok(t, spec_lex_from(s, i + 2)),
                Err(e) => Err(e),
            }
        } else if c == '<' {
            match spec_op2(s, i, '-', KindModel::LeftArrow, "expected '-' after '<'"@) {
                Ok(t) => cons_tok(t, spec_lex_from(s, i + 2)),
                Err(e) => Err(e),
            }
        } else if c == '=' {
            cons_tok(punct(KindModel::Equal, b), spec_lex_from(s, i + 1))
        } else if c == ',' {
            cons_tok(punct(KindModel::Comma, b), spec_lex_from(s, i + 1))
        } else if c == '(' {
            cons_tok(punct(KindModel::LParen, b), spec_lex_from(s, i + 1))
        } else if c == ')' {
            cons_tok(punct(KindModel::RParen, b), spec_lex_from(s, i + 1))
        } else if c == '[' {
            cons_tok(punct(KindModel::LBracket, b), spec_lex_from(s, i + 1))
        } else if c == ']' {
            cons_tok(punct(KindModel::RBracket, b), spec_lex_from(s, i + 1))
        } else {
            Err(
                ParseErrorModel {
                    message: msg_unexpected_char(c),
                    span: Span { offset: b as usize, len: utf8_len(c) as usize },
                },
            )
        }
    }
}

#[via_fn]
proof fn spec_lex_from_decreases(s: Seq<char>, i: int) {
    if 0 <= i < s.len() {
        if is_ident_start_char(s[i]) {
            lemma_scan_ident_range(s, i + 1);
        }
        if is_digit_char(s[i]) {
            lemma_scan_digits_range(s, i + 1);
        }
        lemma_scan_quote_range(s, i + 1);
    }
}

/// The tokens of the whole source text, or its one lexical error.
pub open spec fn spec_lex(s: Seq<char>) -> Result<Seq<TokenModel>, ParseErrorModel> {
    spec_lex_from(s, 0)
}

/// The models of a sequence of produced tokens.
pub open spec fn tokens_view(ts: Seq<Token>) -> Seq<TokenModel> {
    ts.map_values(|t: Token| t@)
}

proof fn lemma_tokens_view_push(ts: Seq<Token>, t: Token)
    ensures
        tokens_view(ts.push(t)) == tokens_view(ts).push(t@),
{
    assert(tokens_view(ts.push(t)) =~= tokens_view(ts).push(t@));
}

proof fn lemma_cons_pre_push(
    pre: Seq<TokenModel>,
    t: TokenModel,
    r: Result<Seq<TokenModel>, ParseErrorModel>,
)
    ensures
        cons_pre(pre, cons_tok(t, r)) == cons_pre(pre.push(t), r),
{
    match r {
        Ok(ts) => {
            assert(pre + (seq![t] + ts) =~= pre.push(t) + ts);
        },
        Err(_) => {},
    }
}

proof fn lemma_cons_pre_nil(r: Result<Seq<TokenModel>, ParseErrorModel>)
    ensures
        cons_pre(Seq::<TokenModel>::empty(), r) == r,
{
    match r {
        Ok(ts) => {
            assert(Seq::<TokenModel>::empty() + ts =~= ts);
        },
        Err(_) => {},
    }
}

// ---------------------------------------------------------------------------
// The executable tokenizer
// ---------------------------------------------------------------------------
/// The byte length of the UTF-8 encoding of one character.
fn char_utf8_len(c: char) -> (n: usize)
    ensures
        n == utf8_len(c),
{
    let u = c as u32;
    if u < 0x80 {
        1
    } else if u < 0x800 {
        2
    } else if u < 0x10000 {
        3
    } else {
        4
    }
}

/// True when the string equals the given text.
fn eq_str(a: &String, b: &str) -> (r: bool)
    ensures
        r == (a@ == b@),
{
    let bs: String = b.to_owned();
    a.eq(&bs)
}

struct Lexer<'a> {
    source: &'a str,
    /// Character index of the next character to look at.
    pos: usize,
    /// Byte offset of that character in the source.
    off: usize,
}

impl<'a> Lexer<'a> {
    spec fn wf(self) -> bool {
        &&& self.pos <= self.source@.len()
        &&& self.off == boff(self.source@, self.pos as int)
        &&& encode_utf8(self.source@).len() <= usize::MAX
    }

    /// Step over the current character, keeping the byte offset in step.
    fn advance(&mut self)
        requires
            old(self).wf(),
            (old(self).pos as int) < old(self).source@.len(),
        ensures
            final(self).wf(),
            final(self).source@ == old(self).source@,
            final(self).pos == old(self).pos + 1,
            final(self).off == boff(old(self).source@, old(self).pos + 1),
            final(self).off >= old(self).off,
    {
        proof {
            lemma_boff_zero(self.source@);
            lemma_boff_mono(self.source@, 0, self.pos as int);
            lemma_boff_step(self.source@, self.pos as int);
            lemma_boff_mono(self.source@, self.pos as int + 1, self.source@.len() as int);
            lemma_boff_total(self.source@);
        }
        let c = self.source.get_char(self.pos);
        self.off = self.off + char_utf8_len(c);
        self.pos = self.pos + 1;
    }

    /// Lex the identifier or keyword run starting at the current character,
    /// whose byte offset is `start`.
    fn lex_ident_or_keyword(&mut self, start: usize) -> (t: Token)
        requires
            old(self).wf(),
            (old(self).pos as int) < old(self).source@.len(),
            is_ident_start_char(old(self).source@[old(self).pos as int]),
            start == old(self).off,
        ensures
            final(self).wf(),
            final(self).source@ == old(self).source@,
            final(self).pos as int == scan_ident(old(self).source@, old(self).pos as int),
            final(self).pos > old(self).pos,
            t@ == ident_token(
                old(self).source@,
                old(self).pos as int,
                scan_ident(old(self).source@, old(self).pos as int),
            ),
    {
        let ghost s = self.source@;
        let ghost i0 = self.pos as int;
        let p0 = self.pos;
        let n = self.source.unicode_len();
        while self.pos < n && is_ident_continue(self.source.get_char(self.pos))
            invariant
                self.wf(),
                self.source@ == s,
                n == s.len(),
                p0 as int == i0,
                i0 <= self.pos as int <= s.len(),
                forall|m: int| i0 <= m < self.pos as int ==> is_ident_continue_char(s[m]),
            decreases s.len() - self.pos,
        {
            self.advance();
        }
        proof {
            lemma_scan_ident_at(s, i0, self.pos as int);
            lemma_boff_mono(s, i0, self.pos as int);
        }
        let text_sub = self.source.substring_char(p0, self.pos);
        let text = text_sub.to_owned();
        let kind = if eq_str(&text, "let") {
            TokenKind::Let
        } else if eq_str(&text, "mut") {
            TokenKind::Mut
        } else if eq_str(&text, "set") {
            TokenKind::SetKw
        } else if eq_str(&text, "fn") {
            TokenKind::Fn
        } else if eq_str(&text, "match") {
            TokenKind::Match
        } else if eq_str(&text, "with") {
            TokenKind::With
        } else if eq_str(&text, "when") {
            TokenKind::When
        } else if eq_str(&text, "io") {
            TokenKind::Io
        } else if eq_str(&text, "do") {
            TokenKind::Do
        } else if eq_str(&text, "end") {
            TokenKind::End
        } else {
            TokenKind::Ident(text)
        };
        Token::new(kind, span(start, self.off - start))
    }

    /// Lex the integer literal starting at the current character, whose byte
    /// offset is `start`.
    fn lex_int(&mut self, start: usize) -> (r: Result<Token, ParseError>)
        requires
            old(self).wf(),
            (old(self).pos as int) < old(self).source@.len(),
            is_digit_char(old(self).source@[old(self).pos as int]),
            start == old(self).off,
        ensures
            final(self).wf(),
            final(self).source@ == old(self).source@,
            final(self).pos as int == scan_digits(old(self).source@, old(self).pos as int),
            final(self).pos > old(self).pos,
            ({
                let s = old(self).source@;
                let i0 = old(self).pos as int;
                let j = scan_digits(s, i0);
                let v = digits_val(s, i0, j);
                let text_span = Span { offset: start, len: (boff(s, j) - boff(s, i0)) as usize };
                match r {
                    Ok(t) => v <= i64::MAX && t@ == (TokenModel {
                        kind: KindModel::Int(v as i64),
                        span: text_span,
                    }),
                    Err(e) => v > i64::MAX && e@ == (ParseErrorModel {
                        message: msg_invalid_int(s.subrange(i0, j)),
                        span: text_span,
                    }),
                }
            }),
    {
        let ghost s = self.source@;
        let ghost i0 = self.pos as int;
        let p0 = self.pos;
        let n = self.source.unicode_len();
        while self.pos < n && is_digit(self.source.get_char(self.pos))
            invariant
                self.wf(),
                self.source@ == s,
                n == s.len(),
                p0 as int == i0,
                i0 <= self.pos as int <= s.len(),
                forall|m: int| i0 <= m < self.pos as int ==> is_digit_char(s[m]),
            decreases s.len() - self.pos,
        {
            self.advance();
        }
        proof {
            lemma_scan_digits_at(s, i0, self.pos as int);
            lemma_boff_mono(s, i0, self.pos as int);
        }
        let jpos = self.pos;
        let mut acc: i64 = 0;
        let mut overflow = false;
        let mut k = p0;
        while k < jpos
            invariant
                self.wf(),
                self.source@ == s,
                p0 as int == i0,
                i0 <= k as int <= jpos as int <= s.len(),
                forall|m: int| i0 <= m < jpos as int ==> is_digit_char(s[m]),
                !overflow ==> acc == digits_val(s, i0, k as int) && acc >= 0,
                overflow ==> digits_val(s, i0, k as int) > i64::MAX,
            decreases jpos - k,
        {
            let c = self.source.get_char(k);
            let d: i64 = (c as u32 - 48) as i64;
            proof {
                assert(digits_val(s, i0, k as int + 1) == digits_val(s, i0, k as int) * 10
                    + digit_val(s[k as int]));
            }
            if !overflow {
                // appending the digit overflows exactly when the accumulator
                // exceeds i64::MAX / 10, or equals it with a digit beyond
                // i64::MAX % 10
                if acc > 922337203685477580i64 || (acc == 922337203685477580i64 && d > 7) {
                    overflow = true;
                    proof {
                        assert(digits_val(s, i0, k as int + 1) > i64::MAX);
                    }
                } else {
                    acc = acc * 10 + d;
                }
            } else {
                proof {
                    assert(digits_val(s, i0, k as int) * 10 >= (i64::MAX + 1) * 10);
                    assert(digits_val(s, i0, k as int + 1) > i64::MAX);
                }
            }
            k = k + 1;
        }
        if overflow {
            let mut m = "invalid integer literal '".to_owned();
            m.append(self.source.substring_char(p0, jpos));
            m.append("'");
            Err(ParseError::new(m.as_str(), span(start, self.off - start)))
        } else {
            Ok(Token::new(TokenKind::Int(acc), span(start, self.off - start)))
        }
    }

    /// Lex the string literal starting at the current character (the opening
    /// quote), whose byte offset is `start`.
    fn lex_string(&mut self, start: usize) -> (r: Result<Token, ParseError>)
        requires
            old(self).wf(),
            (old(self).pos as int) < old(self).source@.len(),
            old(self).source@[old(self).pos as int] == '"',
            start == old(self).off,
        ensures
            final(self).wf(),
            final(self).source@ == old(self).source@,
            final(self).pos > old(self).pos,
            ({
                let s = old(self).source@;
                let i0 = old(self).pos as int;
                let k = scan_quote(s, i0 + 1);
                if k < s.len() {
                    match r {
                        Ok(t) => t@ == (TokenModel {
                            kind: KindModel::String(s.subrange(i0 + 1, k)),
                            span: Span {
                                offset: start,
                                len: (boff(s, k + 1) - boff(s, i0)) as usize,
                            },
                        }) && final(self).pos as int == k + 1,
                        Err(_) => false,
                    }
                } else {
                    match r {
                        Ok(_) => false,
                        Err(e) => e@ == (ParseErrorModel {
                            message: "unterminated string literal"@,
                            span: Span {
                                offset: start,
                                len: (boff(s, s.len() as int) - boff(s, i0)) as usize,
                            },
                        }),
                    }
                }
            }),
    {
        let ghost s = self.source@;
        let ghost i0 = self.pos as int;
        let p0 = self.pos;
        let n = self.source.unicode_len();
        self.advance();
        while self.pos < n && self.source.get_char(self.pos) != '"'
            invariant
                self.wf(),
                self.source@ == s,
                n == s.len(),
                p0 as int == i0,
                i0 + 1 <= self.pos as int <= s.len(),
                forall|m: int| i0 + 1 <= m < self.pos as int ==> s[m] != '"',
            decreases s.len() - self.pos,
        {
            self.advance();
        }
        proof {
            lemma_scan_quote_at(s, i0 + 1, self.pos as int);
            lemma_boff_mono(s, i0, self.pos as int);
        }
        if self.pos < n {
            let content = self.source.substring_char(p0 + 1, self.pos).to_owned();
            self.advance();
            Ok(Token::new(TokenKind::String(content), span(start, self.off - start)))
        } else {
            Err(ParseError::new("unterminated string literal", span(start, self.off - start)))
        }
    }

    /// Consume the next character, which must be `expected`; when the input
    /// ends first, the error is a one-byte span at the end of the source,
    /// where the character was expected.
    fn expect_char(&mut self, expected: char, message: &str) -> (r: Result<(), ParseError>)
        requires
            old(self).wf(),
        ensures
            final(self).wf(),
            final(self).source@ == old(self).source@,
            ({
                let s = old(self).source@;
                let i = old(self).pos as int;
                if i < s.len() {
                    if s[i] == expected {
                        r is Ok && final(self).pos as int == i + 1
                    } else {
                        match r {
                            Ok(_) => false,
                            Err(e) => e@ == (ParseErrorModel {
                                message: message@ + ", found '"@ + seq![s[i]] + "'"@,
                                span: Span {
                                    offset: boff(s, i) as usize,
                                    len: utf8_len(s[i]) as usize,
                                },
                            }),
                        }
                    }
                } else {
                    match r {
                        Ok(_) => false,
                        Err(e) => e@ == (ParseErrorModel {
                            message: message@,
                            span: Span { offset: boff(s, s.len() as int) as usize, len: 1 },
                        }),
                    }
                }
            }),
    {
        let ghost s = self.source@;
        let n = self.source.unicode_len();
        if self.pos < n {
            let c = self.source.get_char(self.pos);
            let at = self.off;
            let clen = char_utf8_len(c);
            let text = self.source.substring_char(self.pos, self.pos + 1);
            self.advance();
            if c == expected {
                Ok(())
            } else {
                proof {
                    assert(s.subrange(old(self).pos as int, old(self).pos as int + 1) =~= seq![
                        s[old(self).pos as int],
                    ]);
                }
                let mut m = message.to_owned();
                m.append(", found '");
                m.append(text);
                m.append("'");
                Err(ParseError::new(m.as_str(), span(at, clen)))
            }
        } else {
            proof {
                lemma_boff_total(s);
            }
            Err(ParseError::new(message, span(self.off, 1)))
        }
    }

    /// Lex the whole remaining input.
    #[verifier::loop_isolation(false)]
    fn lex_tokens(&mut self) -> (r: Result<Vec<Token>, ParseError>)
        requires
            old(self).wf(),
        ensures
            match r {
                Ok(toks) => spec_lex_from(old(self).source@, old(self).pos as int) == Ok::<
                    Seq<TokenModel>,
                    ParseErrorModel,
                >(tokens_view(toks@)),
                Err(e) => spec_lex_from(old(self).source@, old(self).pos as int) == Err::<
                    Seq<TokenModel>,
                    ParseErrorModel,
                >(e@),
            },
    {
        let ghost s = self.source@;
        let ghost p0 = self.pos as int;
        let n = self.source.unicode_len();
        let mut tokens: Vec<Token> = Vec::new();
        proof {
            lemma_cons_pre_nil(spec_lex_from(s, p0));
            assert(tokens_view(tokens@) =~= Seq::<TokenModel>::empty());
        }
        while self.pos < n
            invariant
                self.wf(),
                self.source@ == s,
                n == s.len(),
                spec_lex_from(s, p0) == cons_pre(tokens_view(tokens@), spec_lex_from(s, self.pos as int)),
            decreases s.len() - self.pos,
        {
            let ghost i = self.pos as int;
            let ghost pre = tokens_view(tokens@);
            let c = self.source.get_char(self.pos);
            let start = self.off;
            if is_space(c) {
                self.advance();
            } else if is_ident_start(c) {
                let t = self.lex_ident_or_keyword(start);
                proof {
                    lemma_cons_pre_push(pre, t@, spec_lex_from(s, self.pos as int));
                    lemma_tokens_view_push(tokens@, t);
                }
                tokens.push(t);
            } else if is_digit(c) {
                match self.lex_int(start) {
                    Ok(t) => {
                        proof {
                            lemma_cons_pre_push(pre, t@, spec_lex_from(s, self.pos as int));
                            lemma_tokens_view_push(tokens@, t);
                        }
                        tokens.push(t);
                    },
                    Err(e) => {
                        return Err(e);
                    },
                }
            } else if c == '"' {
                match self.lex_string(start) {
                    Ok(t) => {
                        proof {
                            lemma_cons_pre_push(pre, t@, spec_lex_from(s, self.pos as int));
                            lemma_tokens_view_push(tokens@, t);
                        }
                        tokens.push(t);
                    },
                    Err(e) => {
                        return Err(e);
                    },
                }
            } else if c == '|' {
                self.advance();
                match self.expect_char('>', "expected '>' after '|'") {
                    Ok(_) => {
                        let t = Token::new(TokenKind::PipeGreater, span(start, 2));
                        proof {
                            lemma_cons_pre_push(pre, t@, spec_lex_from(s, self.pos as int));
                            lemma_tokens_view_push(tokens@, t);
                        }
                        tokens.push(t);
                    },
                    Err(e) => {
                        return Err(e);
                    },
                }
            } else if c == '-' {
                self.advance();
                match self.expect_char('>', "expected '>' after '-'") {
                    Ok(_) => {
                        let t = Token::new(TokenKind::Arrow, span(start, 2));
                        proof {
                            lemma_cons_pre_push(pre, t@, spec_lex_from(s, self.pos as int));
                            lemma_tokens_view_push(tokens@, t);
                        }
                        tokens.push(t);
                    },
                    Err(e) => {
                        return Err(e);
                    },
                }
            } else if c == '<' {
                self.advance();
                match self.expect_char('-', "expected '-' after '<'") {
                    Ok(_) => {
                        let t = Token::new(TokenKind::LeftArrow, span(start, 2));
                        proof {
                            lemma_cons_pre_push(pre, t@, spec_lex_from(s, self.pos as int));
                            lemma_tokens_view_push(tokens@, t);
                        }
                        tokens.push(t);
                    },
                    Err(e) => {
                        return Err(e);
                    },
                }
            } else if c == '=' || c == ',' || c == '(' || c == ')' || c == '[' || c == ']' {
                let kind = if c == '=' {
                    TokenKind::Equal
                } else if c == ',' {
                    TokenKind::Comma
                } else if c == '(' {
                    TokenKind::LParen
                } else if c == ')' {
                    TokenKind::RParen
                } else if c == '[' {
                    TokenKind::LBracket
                } else {
                    TokenKind::RBracket
                };
                self.advance();
                let t = Token::new(kind, span(start, 1));
                proof {
                    lemma_cons_pre_push(pre, t@, spec_lex_from(s, self.pos as int));
                    lemma_tokens_view_push(tokens@, t);
                }
                tokens.push(t);
            } else {
                let clen = char_utf8_len(c);
                let text = self.source.substring_char(self.pos, self.pos + 1);
                proof {
                    assert(s.subrange(i, i + 1) =~= seq![s[i]]);
                }
                let mut m = "unexpected character '".to_owned();
                m.append(text);
                m.append("'");
                return Err(ParseError::new(m.as_str(), span(start, clen)));
            }
        }
        let eof = Token::new(TokenKind::Eof, span(self.off, 0));
        proof {
            lemma_boff_total(s);
            lemma_cons_pre_push(tokens_view(tokens@), eof@, Ok(Seq::<TokenModel>::empty()));
            lemma_tokens_view_push(tokens@, eof);
            assert(tokens_view(tokens@).push(eof@) + Seq::<TokenModel>::empty() =~= tokens_view(
                tokens@,
            ).push(eof@));
            assert(seq![eof@] + Seq::<TokenModel>::empty() =~= seq![eof@]);
        }
        tokens.push(eof);
        Ok(tokens)
    }
}

/// What the tokenizer guarantees of every token sequence it produces when it
/// succeeds on `s`, lexing from character index `i` on: the sequence ends in
/// exactly one end-of-input token whose empty span sits at the byte length of
/// the source; every span is valid and lies between the current byte offset
/// and the end of the source; and the spans of consecutive tokens never
/// overlap and come in source order.
#[verifier::rlimit(100)]
pub proof fn lemma_lex_tokens_wf(s: Seq<char>, i: int)
    requires
        0 <= i <= s.len(),
        encode_utf8(s).len() <= usize::MAX,
    ensures
        spec_lex_from(s, i) matches Ok(ts) ==> {
            &&& ts.len() >= 1
            &&& ts.last().kind is Eof
            &&& ts.last().span == (Span {
                offset: boff(s, s.len() as int) as usize,
                len: 0,
            })
            &&& forall|k: int| 0 <= k < ts.len() - 1 ==> !((#[trigger] ts[k].kind) is Eof)
            &&& forall|k: int|
                0 <= k < ts.len() ==> boff(s, i) <= (#[trigger] ts[k].span).offset
                    && span_end(ts[k].span) <= boff(s, s.len() as int)
            &&& forall|k: int|
                0 <= k < ts.len() - 1 ==> span_end((#[trigger] ts[k].span)) <= ts[k + 1].span.offset
        },
    decreases s.len() - i,
{
    lemma_boff_total(s);
    lemma_boff_mono(s, i, s.len() as int);
    lemma_boff_zero(s);
    lemma_boff_mono(s, 0, i);
    if i < s.len() {
        let c = s[i];
        lemma_boff_step(s, i);
        if is_space_char(c) {
            lemma_lex_tokens_wf(s, i + 1);
        } else if is_ident_start_char(c) {
            let j = scan_ident(s, i);
            lemma_scan_ident_range(s, i + 1);
            lemma_boff_mono(s, i, j);
            lemma_boff_mono(s, j, s.len() as int);
            lemma_lex_tokens_wf(s, j);
        } else if is_digit_char(c) {
            let j = scan_digits(s, i);
            lemma_scan_digits_range(s, i + 1);
            lemma_boff_mono(s, i, j);
            lemma_boff_mono(s, j, s.len() as int);
            lemma_lex_tokens_wf(s, j);
        } else if c == '"' {
            let k = scan_quote(s, i + 1);
            lemma_scan_quote_range(s, i + 1);
            if k < s.len() {
                lemma_boff_mono(s, i, k + 1);
                lemma_boff_mono(s, k + 1, s.len() as int);
                lemma_lex_tokens_wf(s, k + 1);
            }
        } else if c == '|' || c == '-' || c == '<' {
            if i + 1 < s.len() {
                lemma_boff_step(s, i + 1);
                lemma_boff_mono(s, i + 2, s.len() as int);
                lemma_lex_tokens_wf(s, i + 2);
            }
        } else {
            lemma_boff_mono(s, i + 1, s.len() as int);
            lemma_lex_tokens_wf(s, i + 1);
        }
    }
}

/// Every closing-bracket token the tokenizer produces spans exactly one
/// byte.
pub proof fn lemma_lex_rbracket_len(s: Seq<char>, i: int)
    requires
        0 <= i <= s.len(),
    ensures
        spec_lex_from(s, i) matches Ok(ts) ==> forall|k: int|
            0 <= k < ts.len() ==> ((#[trigger] ts[k].kind) is RBracket ==> ts[k].span.len == 1),
    decreases s.len() - i,
{
    if i < s.len() {
        let c = s[i];
        if is_space_char(c) {
            lemma_lex_rbracket_len(s, i + 1);
        } else if is_ident_start_char(c) {
            lemma_scan_ident_range(s, i + 1);
            lemma_lex_rbracket_len(s, scan_ident(s, i));
        } else if is_digit_char(c) {
            lemma_scan_digits_range(s, i + 1);
            lemma_lex_rbracket_len(s, scan_digits(s, i));
        } else if c == '"' {
            let k = scan_quote(s, i + 1);
            lemma_scan_quote_range(s, i + 1);
            if k < s.len() {
                lemma_lex_rbracket_len(s, k + 1);
            }
        } else if c == '|' || c == '-' || c == '<' {
            if i + 1 < s.len() {
                lemma_lex_rbracket_len(s, i + 2);
            }
        } else {
            lemma_lex_rbracket_len(s, i + 1);
        }
    }
}

/// For any source text the tokenizer accepts, the token sequence ends in
/// exactly one end-of-input token, whose span starts at the source's byte
/// length and has zero length.
pub proof fn lemma_lex_ends_with_eof(s: Seq<char>, ts: Seq<TokenModel>)
    requires
        spec_lex(s) == Ok::<Seq<TokenModel>, ParseErrorModel>(ts),
        encode_utf8(s).len() <= usize::MAX,
    ensures
        ts.len() >= 1,
        ts.last().kind is Eof,
        ts.last().span.offset == boff(s, s.len() as int),
        ts.last().span.len == 0,
        forall|k: int| 0 <= k < ts.len() - 1 ==> !((#[trigger] ts[k].kind) is Eof),
{
    lemma_lex_tokens_wf(s, 0);
    lemma_boff_total(s);
}

/// Tokenize the source text: the result is exactly what `spec_lex` describes,
/// an ordered token sequence ending in the end-of-input token, or the first
/// lexical error with its exact message and span.
pub fn lex(source: &str) -> (r: Result<Vec<Token>, ParseError>)
    ensures
        match r {
            Ok(toks) => spec_lex(source@) == Ok::<Seq<TokenModel>, ParseErrorModel>(
                tokens_view(toks@),
            ),
            Err(e) => spec_lex(source@) == Err::<Seq<TokenModel>, ParseErrorModel>(e@),
        },
        encode_utf8(source@).len() <= usize::MAX,
{
    // the source's byte length bounds every byte offset the lexer computes
    let _total = byte_length(source);
    proof {
        lemma_boff_zero(source@);
    }
    let mut lexer = Lexer { source, pos: 0, off: 0 };
    lexer.lex_tokens()
}

} // verus!
