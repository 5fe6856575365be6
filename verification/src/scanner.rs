use vstd::prelude::*;

use vstd::string::StringSliceAdditionalSpecFns;
use vstd::utf8::*;

verus! {

broadcast use {vstd::utf8::encode_utf8_valid_utf8, vstd::utf8::is_char_boundary_start_end_of_seq};

// ---------------------------------------------------------------------------
// Character classes
// ---------------------------------------------------------------------------

pub open spec fn is_digit(b: u8) -> bool {
    48 <= b <= 57
}

pub open spec fn is_alpha(b: u8) -> bool {
    (65 <= b <= 90) || (97 <= b <= 122)
}

/// A byte that may start an identifier: a letter or `_`.
pub open spec fn is_ident_start(b: u8) -> bool {
    is_alpha(b) || b == 95
}

/// A byte that may continue an identifier: a letter, a digit or `_`.
pub open spec fn is_ident_char(b: u8) -> bool {
    is_alpha(b) || is_digit(b) || b == 95
}

/// Blanks skipped between tokens: space, carriage return, tab and newline.
pub open spec fn is_whitespace(b: u8) -> bool {
    b == 32 || b == 13 || b == 9 || b == 10
}

pub open spec fn digit_class() -> spec_fn(u8) -> bool {
    |b: u8| is_digit(b)
}

pub open spec fn ident_class() -> spec_fn(u8) -> bool {
    |b: u8| is_ident_char(b)
}

pub open spec fn not_newline_class() -> spec_fn(u8) -> bool {
    |b: u8| b != 10
}

pub open spec fn not_quote_class() -> spec_fn(u8) -> bool {
    |b: u8| b != 34
}

// ---------------------------------------------------------------------------
// The lexical grammar, over the source's UTF-8 bytes
// ---------------------------------------------------------------------------

/// The first index at or after `i` whose byte is not in class `p` (or the end of `s`).
pub open spec fn scan_while(s: Seq<u8>, i: int, p: spec_fn(u8) -> bool) -> int
    decreases s.len() - i,
{
    if 0 <= i < s.len() && p(s[i]) {
        scan_while(s, i + 1, p)
    } else {
        i
    }
}

/// The number of newline bytes in `s[0..i]`.
pub open spec fn newlines_before(s: Seq<u8>, i: int) -> nat
    decreases i,
{
    if i <= 0 || i > s.len() {
        0
    } else {
        newlines_before(s, i - 1) + (if s[i - 1] == 10 { 1nat } else { 0nat })
    }
}

/// The position of the first token at or after `i`: whitespace and `//` line comments
/// are skipped.
pub open spec fn skip_trivia(s: Seq<u8>, i: int) -> int
    decreases s.len() - i,
{
    if i < 0 || i >= s.len() {
        i
    } else if is_whitespace(s[i]) {
        skip_trivia(s, i + 1)
    } else if s[i] == 47 && i + 1 < s.len() && s[i + 1] == 47 {
        proof {
            lemma_scan_while(s, i, not_newline_class());
        }
        skip_trivia(s, scan_while(s, i, not_newline_class()))
    } else {
        i
    }
}

/// A token as the lexical grammar describes it: its kind, the byte range
/// `[start, end)` it spans, and whether scanning it indexes past the end of the
/// source (which happens for an identifier, or a number with a fractional part,
/// that runs up to the very end of the input).
pub struct Lexed {
    pub kind: TokenType,
    pub start: int,
    pub end: int,
    pub panics: bool,
}

pub open spec fn lexed(kind: TokenType, start: int, end: int) -> Lexed {
    Lexed { kind, start, end, panics: false }
}

/// The token that starts at or after position `pos` of `s`.
pub open spec fn lex(s: Seq<u8>, pos: int) -> Lexed {
    let start = skip_trivia(s, pos);
    if start >= s.len() {
        lexed(TokenType::Eof, start, start)
    } else {
        let c = s[start];
        if c == 123 {
            lexed(TokenType::LeftBrace, start, start + 1)
        } else if c == 125 {
            lexed(TokenType::RightBrace, start, start + 1)
        } else if c == 91 {
            lexed(TokenType::LeftBracket, start, start + 1)
        } else if c == 93 {
            lexed(TokenType::RightBracket, start, start + 1)
        } else if c == 44 {
            lexed(TokenType::Comma, start, start + 1)
        } else if c == 45 && start + 1 < s.len() && s[start + 1] == 62 {
            lexed(TokenType::Arrow, start, start + 2)
        } else if c == 61 {
            lexed(TokenType::Equal, start, start + 1)
        } else if c == 34 {
            let q = scan_while(s, start + 1, not_quote_class());
            if q >= s.len() {
                lexed(TokenType::Error, start, s.len() as int)
            } else {
                lexed(TokenType::String, start, q + 1)
            }
        } else if is_digit(c) {
            let d = scan_while(s, start, digit_class());
            if d + 1 < s.len() && s[d] == 46 && is_digit(s[d + 1]) {
                let f = scan_while(s, d + 1, digit_class());
                Lexed { kind: TokenType::Number, start, end: f, panics: f >= s.len() }
            } else {
                lexed(TokenType::Number, start, d)
            }
        } else if is_ident_start(c) {
            let e = scan_while(s, start, ident_class());
            Lexed {
                kind: keyword_type(s.subrange(start, e)),
                start,
                end: e,
                panics: e >= s.len(),
            }
        } else {
            lexed(TokenType::Error, start, start + 1)
        }
    }
}

/// The message carried by an error token that starts at `start`.
pub open spec fn error_message(s: Seq<u8>, start: int) -> Seq<char> {
    if s[start] == 34 {
        "Unterminated string."@
    } else {
        "Unexpected character."@
    }
}

/// What a token holds, as plain values: its type, the UTF-8 bytes of its lexeme
/// (the message, for an error token) and its line.
pub struct TokView {
    pub kind: TokenType,
    pub text: Seq<u8>,
    pub line: int,
}

/// The token that the scanner hands out for the lexical token `t` of `s`.
pub open spec fn lexed_view(s: Seq<u8>, t: Lexed) -> TokView {
    TokView {
        kind: t.kind,
        text: if t.kind == TokenType::Error {
            encode_utf8(error_message(s, t.start))
        } else {
            s.subrange(t.start, t.end)
        },
        line: 1 + newlines_before(s, t.end) as int,
    }
}

/// The token type of an identifier-shaped lexeme: the keyword it spells, or
/// `Identifier`.
#[verifier::opaque]
pub open spec fn keyword_type(w: Seq<u8>) -> TokenType {
    if w == seq!['a' as u8, 'n' as u8, 'd' as u8] {
        TokenType::And
    } else if w == seq!['c' as u8, 'a' as u8, 'l' as u8, 'l' as u8] {
        TokenType::Call
    } else if w == seq!['i' as u8, 'f' as u8] {
        TokenType::If
    } else if w == seq!['o' as u8, 'r' as u8] {
        TokenType::Or
    } else if w == seq!['t' as u8, 'r' as u8, 'u' as u8, 'e' as u8] {
        TokenType::True
    } else if w == seq!['v' as u8, 'a' as u8, 'r' as u8] {
        TokenType::Var
    } else if w == seq!['e' as u8, 'l' as u8, 's' as u8, 'e' as u8] {
        TokenType::Else
    } else if w == seq!['e' as u8, 'q' as u8] {
        TokenType::Equals
    } else if w == seq!['f' as u8, 'n' as u8] {
        TokenType::Fn
    } else if w == seq!['f' as u8, 'a' as u8, 'l' as u8, 's' as u8, 'e' as u8] {
        TokenType::False
    } else if w == seq!['p' as u8, 'a' as u8, 'r' as u8, 'a' as u8, 'm' as u8] {
        TokenType::Param
    } else if w == seq!['p' as u8, 'r' as u8, 'o' as u8, 'd' as u8, 'u' as u8, 'c' as u8, 't' as u8] {
        TokenType::Product
    } else if w == seq!['d' as u8, 'i' as u8, 'g' as u8, 'r' as u8, 'a' as u8, 'p' as u8, 'h' as u8] {
        TokenType::Digraph
    } else if w == seq!['d' as u8, 'i' as u8, 'v' as u8, 'i' as u8, 'd' as u8, 'e' as u8] {
        TokenType::Divide
    } else if w == seq!['s' as u8, 'u' as u8, 'b' as u8, 't' as u8, 'r' as u8, 'a' as u8, 'c' as u8, 't' as u8] {
        TokenType::Subtract
    } else if w == seq!['s' as u8, 'u' as u8, 'm' as u8] {
        TokenType::Sum
    } else if w == seq!['n' as u8, 'e' as u8, 'g' as u8, 'a' as u8, 't' as u8, 'e' as u8] {
        TokenType::Negate
    } else if w == seq!['n' as u8, 'e' as u8, 'q' as u8, 'q' as u8] {
        TokenType::NotEquals
    } else if w == seq!['n' as u8, 'i' as u8, 'l' as u8] {
        TokenType::Nil
    } else if w == seq!['n' as u8, 'o' as u8, 't' as u8] {
        TokenType::Not
    } else if w == seq!['r' as u8, 'e' as u8, 'f' as u8] {
        TokenType::Ref
    } else if w == seq!['r' as u8, 'e' as u8, 't' as u8, 'u' as u8, 'r' as u8, 'n' as u8] {
        TokenType::Return
    } else if w == seq!['g' as u8, 't' as u8] {
        TokenType::Greater
    } else if w == seq!['g' as u8, 't' as u8, 'e' as u8] {
        TokenType::GreaterEqual
    } else if w == seq!['l' as u8, 't' as u8] {
        TokenType::Less
    } else if w == seq!['l' as u8, 't' as u8, 'e' as u8] {
        TokenType::LessEqual
    } else {
        TokenType::Identifier
    }
}

/// Scanning from `pos` to the end of `s` reaches `Eof` without indexing past the
/// end of the source.
pub open spec fn scans_from(s: Seq<u8>, pos: int) -> bool
    decreases s.len() - pos,
{
    let t = lex(s, pos);
    if t.panics {
        false
    } else if t.kind == TokenType::Eof || pos < 0 || pos >= s.len() {
        true
    } else {
        proof {
            lemma_lex_advances(s, pos);
        }
        scans_from(s, t.end)
    }
}

/// `source` can be scanned to the end: no token indexes past its end, and its
/// line count fits the 32-bit line counter.
pub open spec fn scannable(source: &str) -> bool {
    &&& scans_from(source.spec_bytes(), 0)
    &&& newlines_before(source.spec_bytes(), source.spec_bytes().len() as int) < u32::MAX
}

// ---------------------------------------------------------------------------
// Lemmas
// ---------------------------------------------------------------------------

pub proof fn lemma_scan_while(s: Seq<u8>, i: int, p: spec_fn(u8) -> bool)
    requires
        0 <= i,
    ensures
        i <= scan_while(s, i, p),
        i <= s.len() ==> scan_while(s, i, p) <= s.len(),
        forall|k: int| i <= k < scan_while(s, i, p) ==> p(#[trigger] s[k]),
        0 <= scan_while(s, i, p) < s.len() ==> !p(s[scan_while(s, i, p)]),
        i > s.len() ==> scan_while(s, i, p) == i,
    decreases s.len() - i,
{
    if 0 <= i < s.len() && p(s[i]) {
        lemma_scan_while(s, i + 1, p);
    }
}

pub proof fn lemma_skip_trivia(s: Seq<u8>, i: int)
    requires
        0 <= i <= s.len(),
    ensures
        i <= skip_trivia(s, i) <= s.len(),
        skip_trivia(s, i) < s.len() ==> !is_whitespace(s[skip_trivia(s, i)]),
        skip_trivia(s, i) < s.len() ==> !(s[skip_trivia(s, i)] == 47 && skip_trivia(s, i) + 1 < s.len()
            && s[skip_trivia(s, i) + 1] == 47),
        skip_trivia(s, skip_trivia(s, i)) == skip_trivia(s, i),
    decreases s.len() - i,
{
    if i < s.len() {
        if is_whitespace(s[i]) {
            lemma_skip_trivia(s, i + 1);
        } else if s[i] == 47 && i + 1 < s.len() && s[i + 1] == 47 {
            lemma_scan_while(s, i, not_newline_class());
            lemma_skip_trivia(s, scan_while(s, i, not_newline_class()));
        }
    }
}

/// Blanks between tokens are skipped: scanning from `pos` finds the same token
/// as scanning from `k` when every byte from `pos` up to `k` is a space, a
/// carriage return, a tab or a newline; so the token after a run of blanks
/// starts at the first byte that is not blank, and no token, an error token
/// least of all, starts at a blank.
pub proof fn blanks_between_tokens_are_skipped(s: Seq<u8>, pos: int, k: int)
    requires
        0 <= pos <= k <= s.len(),
        forall|i: int| pos <= i < k ==> (s[i] == 32 || s[i] == 13 || s[i] == 9 || s[i] == 10),
    ensures
        lex(s, pos) == lex(s, k),
        lex(s, pos).start >= k,
        lex(s, pos).start < s.len() ==> !(s[lex(s, pos).start] == 32 || s[lex(s, pos).start] == 13
            || s[lex(s, pos).start] == 9 || s[lex(s, pos).start] == 10),
    decreases k - pos,
{
    if pos < k {
        blanks_between_tokens_are_skipped(s, pos + 1, k);
        assert(skip_trivia(s, pos) == skip_trivia(s, pos + 1));
    }
    lemma_skip_trivia(s, k);
    lemma_skip_trivia(s, pos);
}

pub proof fn lemma_lex_bounds(s: Seq<u8>, pos: int)
    requires
        0 <= pos <= s.len(),
    ensures
        pos <= lex(s, pos).start <= lex(s, pos).end,
        lex(s, pos).start == skip_trivia(s, pos),
        !lex(s, pos).panics ==> lex(s, pos).end <= s.len(),
        lex(s, pos).kind == TokenType::Eof <==> lex(s, pos).start == s.len(),
        lex(s, pos).kind != TokenType::Eof ==> lex(s, pos).start < lex(s, pos).end,
        lex(s, pos).kind == TokenType::Error ==> !is_ident_start(s[lex(s, pos).start]) && !is_digit(
            s[lex(s, pos).start],
        ),
        lex(s, pos).kind == TokenType::Error ==> !lex(s, pos).panics,
        lex(s, pos).kind == TokenType::Eof ==> !lex(s, pos).panics && lex(s, pos).end == s.len(),
{
    lemma_skip_trivia(s, pos);
    let start = skip_trivia(s, pos);
    if start < s.len() {
        lemma_keyword_type_is_word(s.subrange(start, scan_while(s, start, ident_class())));
        lemma_scan_while(s, start + 1, not_quote_class());
        lemma_scan_while(s, start, digit_class());
        lemma_scan_while(s, start, ident_class());
        let d = scan_while(s, start, digit_class());
        if d + 1 < s.len() {
            lemma_scan_while(s, d + 1, digit_class());
        }
    }
}

pub proof fn lemma_lex_advances(s: Seq<u8>, pos: int)
    requires
        0 <= pos < s.len(),
        lex(s, pos).kind != TokenType::Eof,
    ensures
        pos < lex(s, pos).end,
        !lex(s, pos).panics ==> lex(s, pos).end <= s.len(),
{
    lemma_lex_bounds(s, pos);
}

/// The position a scan from `pos` has reached after `n` tokens.
pub open spec fn position_after(s: Seq<u8>, pos: int, n: nat) -> int
    decreases n,
{
    if n == 0 {
        pos
    } else {
        lex(s, position_after(s, pos, (n - 1) as nat)).end
    }
}

/// A whole run of scanning from a position where scanning can go on to the end
/// of the source: every token of the run scans without indexing past the end,
/// each token that is not the end lies further on than the one before, the end
/// comes within `s.len() - pos + 1` tokens, and once it has come it comes again.
pub proof fn scanning_reaches_the_end(s: Seq<u8>, pos: int, n: nat)
    requires
        0 <= pos <= s.len(),
        scans_from(s, pos),
    ensures
        pos <= position_after(s, pos, n) <= s.len(),
        scans_from(s, position_after(s, pos, n)),
        !lex(s, position_after(s, pos, n)).panics,
        lex(s, position_after(s, pos, n)).kind != TokenType::Eof ==> position_after(s, pos, n) >= pos + n
            && position_after(s, pos, n) < position_after(s, pos, n + 1),
        n >= s.len() - pos ==> lex(s, position_after(s, pos, n)).kind == TokenType::Eof,
        lex(s, position_after(s, pos, n)).kind == TokenType::Eof ==> lex(
            s,
            position_after(s, pos, n + 1),
        ).kind == TokenType::Eof,
    decreases n,
{
    let p = position_after(s, pos, n);
    if n > 0 {
        scanning_reaches_the_end(s, pos, (n - 1) as nat);
        let q = position_after(s, pos, (n - 1) as nat);
        lemma_lex_bounds(s, q);
        if lex(s, q).kind != TokenType::Eof {
            lemma_lex_advances(s, q);
        }
    }
    lemma_lex_bounds(s, p);
    lemma_lex_bounds(s, s.len() as int);
    lemma_skip_trivia(s, s.len() as int);
    assert(scans_from(s, p));
    assert(!lex(s, p).panics);
    if lex(s, p).kind != TokenType::Eof {
        lemma_lex_advances(s, p);
    }
}

pub proof fn lemma_newlines_step(s: Seq<u8>, i: int)
    requires
        0 <= i < s.len(),
    ensures
        newlines_before(s, i + 1) == newlines_before(s, i) + (if s[i] == 10 { 1nat } else { 0nat }),
{
}

pub proof fn lemma_newlines_monotonic(s: Seq<u8>, i: int, j: int)
    requires
        0 <= i <= j <= s.len(),
    ensures
        newlines_before(s, i) <= newlines_before(s, j),
    decreases j - i,
{
    if i < j {
        lemma_newlines_monotonic(s, i, j - 1);
    }
}

/// In well-formed UTF-8, the byte after an ASCII byte is never a continuation byte.
pub proof fn lemma_after_ascii_not_continuation(b: Seq<u8>, k: int)
    requires
        valid_utf8(b),
        0 <= k,
        k + 1 < b.len(),
        b[k] < 128,
    ensures
        !is_continuation_byte(b[k + 1]),
    decreases b.len(),
{
    reveal_with_fuel(valid_utf8, 2);
    let l = length_of_first_scalar(b);
    let rest = pop_first_scalar(b);
    assert(rest.len() == b.len() - l);
    assert(valid_utf8(rest));
    if k == 0 {
        assert(l == 1);
        assert(rest[0] == b[1]);
    } else if k < l {
        assert(is_continuation_byte(b[k]));
    } else {
        assert(rest[k - l] == b[k]);
        assert(rest[k - l + 1] == b[k + 1]);
        lemma_after_ascii_not_continuation(rest, k - l);
    }
}


/// The keywords that begin with `a`.
proof fn lemma_keywords_a(w: Seq<u8>)
    requires
        w.len() > 0,
        w[0] == 'a' as u8,
    ensures
        keyword_type(w) == (if w == seq!['a' as u8, 'n' as u8, 'd' as u8] {
            TokenType::And
        } else {
            TokenType::Identifier
        }),
{
    reveal(keyword_type);
}

/// The keywords that begin with `c`.
proof fn lemma_keywords_c(w: Seq<u8>)
    requires
        w.len() > 0,
        w[0] == 'c' as u8,
    ensures
        keyword_type(w) == (if w == seq!['c' as u8, 'a' as u8, 'l' as u8, 'l' as u8] {
            TokenType::Call
        } else {
            TokenType::Identifier
        }),
{
    reveal(keyword_type);
}

/// The keywords that begin with `i`.
proof fn lemma_keywords_i(w: Seq<u8>)
    requires
        w.len() > 0,
        w[0] == 'i' as u8,
    ensures
        keyword_type(w) == (if w == seq!['i' as u8, 'f' as u8] {
            TokenType::If
        } else {
            TokenType::Identifier
        }),
{
    reveal(keyword_type);
}

/// The keywords that begin with `o`.
proof fn lemma_keywords_o(w: Seq<u8>)
    requires
        w.len() > 0,
        w[0] == 'o' as u8,
    ensures
        keyword_type(w) == (if w == seq!['o' as u8, 'r' as u8] {
            TokenType::Or
        } else {
            TokenType::Identifier
        }),
{
    reveal(keyword_type);
}

/// The keywords that begin with `t`.
proof fn lemma_keywords_t(w: Seq<u8>)
    requires
        w.len() > 0,
        w[0] == 't' as u8,
    ensures
        keyword_type(w) == (if w == seq!['t' as u8, 'r' as u8, 'u' as u8, 'e' as u8] {
            TokenType::True
        } else {
            TokenType::Identifier
        }),
{
    reveal(keyword_type);
}

/// The keywords that begin with `v`.
proof fn lemma_keywords_v(w: Seq<u8>)
    requires
        w.len() > 0,
        w[0] == 'v' as u8,
    ensures
        keyword_type(w) == (if w == seq!['v' as u8, 'a' as u8, 'r' as u8] {
            TokenType::Var
        } else {
            TokenType::Identifier
        }),
{
    reveal(keyword_type);
}

/// The keywords that begin with `e`.
proof fn lemma_keywords_e(w: Seq<u8>)
    requires
        w.len() > 0,
        w[0] == 'e' as u8,
    ensures
        keyword_type(w) == (if w == seq!['e' as u8, 'l' as u8, 's' as u8, 'e' as u8] {
            TokenType::Else
        } else if w == seq!['e' as u8, 'q' as u8] {
            TokenType::Equals
        } else {
            TokenType::Identifier
        }),
{
    reveal(keyword_type);
}

/// The keywords that begin with `f`.
proof fn lemma_keywords_f(w: Seq<u8>)
    requires
        w.len() > 0,
        w[0] == 'f' as u8,
    ensures
        keyword_type(w) == (if w == seq!['f' as u8, 'n' as u8] {
            TokenType::Fn
        } else if w == seq!['f' as u8, 'a' as u8, 'l' as u8, 's' as u8, 'e' as u8] {
            TokenType::False
        } else {
            TokenType::Identifier
        }),
{
    reveal(keyword_type);
}

/// The keywords that begin with `p`.
proof fn lemma_keywords_p(w: Seq<u8>)
    requires
        w.len() > 0,
        w[0] == 'p' as u8,
    ensures
        keyword_type(w) == (if w == seq!['p' as u8, 'a' as u8, 'r' as u8, 'a' as u8, 'm' as u8] {
            TokenType::Param
        } else if w == seq!['p' as u8, 'r' as u8, 'o' as u8, 'd' as u8, 'u' as u8, 'c' as u8, 't' as u8] {
            TokenType::Product
        } else {
            TokenType::Identifier
        }),
{
    reveal(keyword_type);
}

/// The keywords that begin with `d`.
proof fn lemma_keywords_d(w: Seq<u8>)
    requires
        w.len() > 0,
        w[0] == 'd' as u8,
    ensures
        keyword_type(w) == (if w == seq!['d' as u8, 'i' as u8, 'g' as u8, 'r' as u8, 'a' as u8, 'p' as u8, 'h' as u8] {
            TokenType::Digraph
        } else if w == seq!['d' as u8, 'i' as u8, 'v' as u8, 'i' as u8, 'd' as u8, 'e' as u8] {
            TokenType::Divide
        } else {
            TokenType::Identifier
        }),
{
    reveal(keyword_type);
}

/// The keywords that begin with `s`.
proof fn lemma_keywords_s(w: Seq<u8>)
    requires
        w.len() > 0,
        w[0] == 's' as u8,
    ensures
        keyword_type(w) == (if w == seq!['s' as u8, 'u' as u8, 'b' as u8, 't' as u8, 'r' as u8, 'a' as u8, 'c' as u8, 't' as u8] {
            TokenType::Subtract
        } else if w == seq!['s' as u8, 'u' as u8, 'm' as u8] {
            TokenType::Sum
        } else {
            TokenType::Identifier
        }),
{
    reveal(keyword_type);
}

/// The keywords that begin with `n`.
proof fn lemma_keywords_n(w: Seq<u8>)
    requires
        w.len() > 0,
        w[0] == 'n' as u8,
    ensures
        keyword_type(w) == (if w == seq!['n' as u8, 'e' as u8, 'g' as u8, 'a' as u8, 't' as u8, 'e' as u8] {
            TokenType::Negate
        } else if w == seq!['n' as u8, 'e' as u8, 'q' as u8, 'q' as u8] {
            TokenType::NotEquals
        } else if w == seq!['n' as u8, 'i' as u8, 'l' as u8] {
            TokenType::Nil
        } else if w == seq!['n' as u8, 'o' as u8, 't' as u8] {
            TokenType::Not
        } else {
            TokenType::Identifier
        }),
{
    reveal(keyword_type);
}

/// The keywords that begin with `r`.
proof fn lemma_keywords_r(w: Seq<u8>)
    requires
        w.len() > 0,
        w[0] == 'r' as u8,
    ensures
        keyword_type(w) == (if w == seq!['r' as u8, 'e' as u8, 'f' as u8] {
            TokenType::Ref
        } else if w == seq!['r' as u8, 'e' as u8, 't' as u8, 'u' as u8, 'r' as u8, 'n' as u8] {
            TokenType::Return
        } else {
            TokenType::Identifier
        }),
{
    reveal(keyword_type);
}

/// The keywords that begin with `g`.
proof fn lemma_keywords_g(w: Seq<u8>)
    requires
        w.len() > 0,
        w[0] == 'g' as u8,
    ensures
        keyword_type(w) == (if w == seq!['g' as u8, 't' as u8] {
            TokenType::Greater
        } else if w == seq!['g' as u8, 't' as u8, 'e' as u8] {
            TokenType::GreaterEqual
        } else {
            TokenType::Identifier
        }),
{
    reveal(keyword_type);
}

/// The keywords that begin with `l`.
proof fn lemma_keywords_l(w: Seq<u8>)
    requires
        w.len() > 0,
        w[0] == 'l' as u8,
    ensures
        keyword_type(w) == (if w == seq!['l' as u8, 't' as u8] {
            TokenType::Less
        } else if w == seq!['l' as u8, 't' as u8, 'e' as u8] {
            TokenType::LessEqual
        } else {
            TokenType::Identifier
        }),
{
    reveal(keyword_type);
}

/// Every lexeme is a keyword or an identifier: never an end-of-file, error,
/// string, number or punctuation token.
pub proof fn lemma_keyword_type_is_word(w: Seq<u8>)
    ensures
        keyword_type(w) != TokenType::Eof,
        keyword_type(w) != TokenType::Error,
        keyword_type(w) != TokenType::String,
        keyword_type(w) != TokenType::Number,
        keyword_type(w) != TokenType::Arrow,
        keyword_type(w) != TokenType::LeftBrace,
        keyword_type(w) != TokenType::RightBrace,
        keyword_type(w) != TokenType::LeftBracket,
        keyword_type(w) != TokenType::RightBracket,
        keyword_type(w) != TokenType::Comma,
        keyword_type(w) != TokenType::Equal,
{
    reveal(keyword_type);
}

/// No keyword begins with any other byte.
proof fn lemma_keywords_other(w: Seq<u8>)
    requires
        w.len() > 0,
        w[0] != 'a' as u8 && w[0] != 'c' as u8 && w[0] != 'i' as u8 && w[0] != 'o' as u8 && w[0] != 't' as u8 && w[0] != 'v' as u8 && w[0] != 'e' as u8 && w[0] != 'f' as u8 && w[0] != 'p' as u8 && w[0] != 'd' as u8 && w[0] != 's' as u8 && w[0] != 'n' as u8 && w[0] != 'r' as u8 && w[0] != 'g' as u8 && w[0] != 'l' as u8,
    ensures
        keyword_type(w) == TokenType::Identifier,
{
    reveal(keyword_type);
}

/// A lexeme whose first `i` bytes agree with keyword `kw` spells `kw` exactly when its
/// remaining bytes are the rest of `kw`.
pub proof fn lemma_word(w: Seq<u8>, i: int, rest: Seq<u8>, kw: Seq<u8>)
    requires
        0 <= i <= w.len(),
        kw.len() == i + rest.len(),
        forall|j: int| 0 <= j < i ==> w[j] == kw[j],
        forall|j: int| 0 <= j < rest.len() ==> kw[i + j] == rest[j],
    ensures
        (w.len() == i + rest.len() && w.subrange(i, w.len() as int) == rest) <==> w == kw,
{
    if w.len() == i + rest.len() && w.subrange(i, w.len() as int) == rest {
        assert forall|j: int| 0 <= j < w.len() implies w[j] == kw[j] by {
            if j >= i {
                assert(w.subrange(i, w.len() as int)[j - i] == w[j]);
            }
        }
        assert(w =~= kw);
    }
    if w == kw {
        assert(w.subrange(i, w.len() as int) =~= rest);
    }
}

// ---------------------------------------------------------------------------
// Executable scanner

/// Whether `source` can be scanned to its end without indexing past it, with a line
/// count that fits the 32-bit line counter.
pub fn is_scannable(source: &str) -> (ok: bool)
    ensures
        ok == scannable(source),
{
    let bytes = source.as_bytes();
    let ghost s = source.spec_bytes();
    let mut newlines: usize = 0;
    let mut i: usize = 0;
    while i < bytes.len()
        invariant
            bytes@ == s,
            i <= s.len(),
            newlines == newlines_before(s, i as int),
            newlines <= i,
        decreases s.len() - i,
    {
        proof {
            lemma_newlines_step(s, i as int);
        }
        if bytes[i] == '\n' as u8 {
            newlines = newlines + 1;
        }
        i = i + 1;
    }
    if newlines >= 0xffff_ffff {
        return false;
    }
    let mut scanner = Scanner::new(source);
    loop
        invariant
            scanner.wf(),
            scanner.bytes() == s,
            s == source.spec_bytes(),
            newlines_before(s, s.len() as int) < u32::MAX,
            scans_from(s, 0) == scans_from(s, scanner.position()),
        decreases s.len() - scanner.position(),
    {
        let ghost pos = scanner.position();
        proof {
            lemma_lex_bounds(s, pos);
        }
        match scanner.scan_token_checked() {
            None => {
                return false;
            },
            Some(token) => {
                if token.token_type == TokenType::Eof {
                    return true;
                }
                proof {
                    lemma_lex_advances(s, pos);
                }
            },
        }
    }
}

// ---------------------------------------------------------------------------

fn is_digit_byte(c: u8) -> (r: bool)
    ensures
        r == is_digit(c),
{
    '0' as u8 <= c && c <= '9' as u8
}

fn is_alpha_byte(c: u8) -> (r: bool)
    ensures
        r == is_alpha(c),
{
    ('A' as u8 <= c && c <= 'Z' as u8) || ('a' as u8 <= c && c <= 'z' as u8)
}

pub struct Scanner<'source> {
    source: &'source str,
    start: usize,
    current: usize,
    line: u32,
}

/// A token: its type, the text it spans in the source (or, for an error token,
/// the error message) and the line it ends on.
#[derive(Clone, Copy, Debug)]
pub struct Token<'source> {
    pub token_type: TokenType,
    pub lexeme: &'source str,
    pub line: u32,
}

impl<'source> View for Token<'source> {
    type V = TokView;

    open spec fn view(&self) -> TokView {
        TokView { kind: self.token_type, text: self.lexeme.spec_bytes(), line: self.line as int }
    }
}

impl<'source> Token<'source> {
    /// A placeholder error token with an empty lexeme on line 0.
    pub fn none() -> (t: Token<'source>)
        ensures
            t.token_type == TokenType::Error,
            t.lexeme@ == Seq::<char>::empty(),
            t.line == 0,
            t@ == (TokView { kind: TokenType::Error, text: Seq::empty(), line: 0 }),
    {
        let lexeme = "";
        proof {
            reveal_strlit("");
            assert(encode_utf8(lexeme@) =~= Seq::<u8>::empty());
        }
        Token { token_type: TokenType::Error, lexeme, line: 0 }
    }
}

impl<'source> Scanner<'source> {
    /// The UTF-8 bytes of the source being scanned.
    pub closed spec fn bytes(&self) -> Seq<u8> {
        self.source.spec_bytes()
    }

    /// The source being scanned.
    pub closed spec fn source(&self) -> &'source str {
        self.source
    }

    /// How many bytes have been consumed.
    pub closed spec fn position(&self) -> int {
        self.current as int
    }

    /// Where the last token began.
    pub closed spec fn token_start(&self) -> int {
        self.start as int
    }

    /// The current line number.
    pub closed spec fn line(&self) -> u32 {
        self.line
    }

    /// The scanner's invariant: its positions lie within the source and the line
    /// number is one more than the number of newlines consumed.
    pub closed spec fn wf(&self) -> bool {
        &&& self.start <= self.current <= self.bytes().len()
        &&& self.line == 1 + newlines_before(self.bytes(), self.current as int)
    }

    /// Scanning can go on to the end of the source without indexing past it.
    pub open spec fn can_scan(&self) -> bool {
        &&& scans_from(self.bytes(), self.position())
        &&& newlines_before(self.bytes(), self.bytes().len() as int) < u32::MAX
    }

    /// A scanner positioned at the start of `source`, on line 1.
    pub fn new(source: &'source str) -> (s: Self)
        ensures
            s.wf(),
            s.source() == source,
            s.bytes() == source.spec_bytes(),
            s.position() == 0,
            s.token_start() == 0,
            s.line() == 1,
    {
        Self { source, start: 0, current: 0, line: 1 }
    }

    /// Scans the next token. Scanning this token must not index past the end of
    /// the source; what comes after it does not matter.
    pub fn scan_token(&mut self) -> (token: Token<'source>)
        requires
            old(self).wf(),
            !lex(old(self).bytes(), old(self).position()).panics,
            newlines_before(old(self).bytes(), old(self).bytes().len() as int) < u32::MAX,
        ensures
            final(self).wf(),
            old(self).can_scan() ==> final(self).can_scan(),
            final(self).bytes() == old(self).bytes(),
            final(self).source() == old(self).source(),
            ({
                let t = lex(old(self).bytes(), old(self).position());
                &&& token.token_type == t.kind
                &&& final(self).token_start() == t.start
                &&& final(self).position() == t.end
                &&& token.line == final(self).line()
                &&& t.kind != TokenType::Error ==> token.lexeme.spec_bytes() == old(self).bytes().subrange(t.start, t.end)
                &&& t.kind == TokenType::Error ==> token.lexeme@ == error_message(old(self).bytes(), t.start)
                &&& token@ == lexed_view(old(self).bytes(), t)
            }),
    {
        let ghost s = self.bytes();
        let ghost pos = self.current as int;
        proof {
            lemma_lex_bounds(s, pos);
            if lex(s, pos).kind != TokenType::Eof {
                lemma_lex_advances(s, pos);
            }
        }
        let t = self.scan_token_checked();
        match t {
            Some(tok) => {
                proof {
                    let l = lex(s, pos);
                    if l.kind == TokenType::Error {
                        assert(tok.lexeme.spec_bytes() == encode_utf8(tok.lexeme@));
                    }
                    assert(tok@.text =~= lexed_view(s, l).text);
                }
                tok
            },
            None => {
                proof {
                    assert(false);
                }
                Token::none()
            }
        }
    }

    /// Scans the next token, or returns `None` where scanning would index past the
    /// end of the source.
    fn scan_token_checked(&mut self) -> (token: Option<Token<'source>>)
        requires
            old(self).wf(),
            newlines_before(old(self).bytes(), old(self).bytes().len() as int) < u32::MAX,
        ensures
            final(self).wf(),
            final(self).bytes() == old(self).bytes(),
            final(self).source() == old(self).source(),
            ({
                let t = lex(old(self).bytes(), old(self).position());
                &&& token is None <==> t.panics
                &&& (token matches Some(token) ==> {
                    &&& token.token_type == t.kind
                    &&& final(self).token_start() == t.start
                    &&& final(self).position() == t.end
                    &&& token.line == final(self).line()
                    &&& t.kind != TokenType::Error ==> token.lexeme.spec_bytes() == old(self).bytes().subrange(t.start, t.end)
                    &&& t.kind == TokenType::Error ==> token.lexeme@ == error_message(old(self).bytes(), t.start)
                })
            }),
    {
        let ghost s = self.bytes();
        let ghost pos = self.current as int;
        self.skip_whitespace();
        self.start = self.current;
        proof {
            lemma_lex_bounds(s, pos);
            lemma_skip_trivia(s, pos);
            reveal_strlit("Unexpected character.");
            reveal_strlit("Unterminated string.");
        }

        if self.is_at_end() {
            return Some(self.make_token(TokenType::Eof));
        }

        let c = self.advance();
        proof {
            lemma_newlines_step(s, self.start as int);
            if self.start + 1 < s.len() {
                lemma_newlines_step(s, self.start + 1);
            }
        }
        if c == '{' as u8 {
            Some(self.make_token(TokenType::LeftBrace))
        } else if c == '}' as u8 {
            Some(self.make_token(TokenType::RightBrace))
        } else if c == '[' as u8 {
            Some(self.make_token(TokenType::LeftBracket))
        } else if c == ']' as u8 {
            Some(self.make_token(TokenType::RightBracket))
        } else if c == ',' as u8 {
            Some(self.make_token(TokenType::Comma))
        } else if c == '-' as u8 && self.match_advance('>' as u8) {
            Some(self.make_token(TokenType::Arrow))
        } else if c == '=' as u8 {
            Some(self.make_token(TokenType::Equal))
        } else if c == '"' as u8 {
            let tok = self.string();
            proof {
                assert(s[self.start as int] == 34);
                assert(lex(s, pos).start == self.start);
                if lex(s, pos).kind == TokenType::Error {
                    assert(tok.lexeme@ == "Unterminated string."@);
                    assert(tok.lexeme@ == error_message(s, lex(s, pos).start));
                }
            }
            Some(tok)
        } else if is_digit_byte(c) {
            proof {
                assert(lex(s, pos) == lex(s, self.start as int));
            }
            self.number()
        } else if is_alpha_byte(c) || c == '_' as u8 {
            proof {
                assert(lex(s, pos) == lex(s, self.start as int));
            }
            self.identifier()
        } else {
            let tok = self.error_token("Unexpected character.");
            proof {
                assert(lex(s, pos).kind == TokenType::Error);
                assert(lex(s, pos).start == self.start);
                assert(s[self.start as int] != 34);
                assert(tok.lexeme@ == "Unexpected character."@);
                assert(tok.lexeme@ == error_message(s, lex(s, pos).start));
            }
            Some(tok)
        }
    }

    /// Whether the next byte is `expected`; if so it is consumed.
    fn match_advance(&mut self, expected: u8) -> (r: bool)
        requires
            old(self).current <= old(self).bytes().len(),
        ensures
            final(self).source == old(self).source,
            final(self).start == old(self).start,
            final(self).line == old(self).line,
            r == (old(self).current < old(self).bytes().len() && old(self).bytes()[old(self).current as int] == expected),
            final(self).current == old(self).current + (if r { 1int } else { 0int }),
    {
        if self.is_at_end() {
            return false;
        }
        if self.peek() != expected {
            return false;
        }
        let _n = self.source.as_bytes().len();
        self.current += 1;
        true
    }

    /// Consumes and returns the next byte.
    fn advance(&mut self) -> (c: u8)
        requires
            old(self).current < old(self).bytes().len(),
        ensures
            final(self).source == old(self).source,
            final(self).start == old(self).start,
            final(self).line == old(self).line,
            final(self).current == old(self).current + 1,
            c == old(self).bytes()[old(self).current as int],
    {
        let bytes = self.source.as_bytes();
        let _n = bytes.len();
        self.current += 1;
        bytes[self.current - 1]
    }

    /// Skips whitespace and `//` comments, counting the newlines passed.
    fn skip_whitespace(&mut self)
        requires
            old(self).wf(),
            newlines_before(old(self).bytes(), old(self).bytes().len() as int) < u32::MAX,
        ensures
            final(self).wf(),
            final(self).source == old(self).source,
            final(self).start == old(self).start,
            final(self).current == skip_trivia(old(self).bytes(), old(self).current as int),
    {
        let ghost s = self.bytes();
        let ghost src = self.source;
        let ghost pos0 = self.current as int;
        let ghost start0 = self.start;
        while !self.is_at_end()
            invariant
                self.source == old(self).source,
                s == old(self).bytes(),
                s == self.bytes(),
                self.start == start0,
                start0 == old(self).start,
                pos0 == old(self).current,
                start0 <= pos0 <= self.current <= s.len(),
                skip_trivia(s, self.current as int) == skip_trivia(s, pos0),
                self.line == 1 + newlines_before(s, self.current as int),
                newlines_before(s, s.len() as int) < u32::MAX,
            decreases s.len() - self.current,
        {
            let c = self.peek();
            proof {
                lemma_newlines_step(s, self.current as int);
            }
            if c == ' ' as u8 || c == '\r' as u8 || c == '\t' as u8 {
                self.advance();
            } else if c == '\n' as u8 {
                proof {
                    lemma_newlines_monotonic(s, self.current + 1, s.len() as int);
                }
                self.line += 1;
                self.advance();
            } else if c == '/' as u8 {
                if self.peek_next() == '/' as u8 {
                    let ghost i0 = self.current as int;
                    proof {
                        lemma_scan_while(s, i0, not_newline_class());
                    }
                    while !self.is_at_end() && self.peek() != '\n' as u8
                        invariant
                            self.source == old(self).source,
                s == old(self).bytes(),
                            s == self.bytes(),
                            self.start == start0,
                            start0 == old(self).start,
                            pos0 == old(self).current,
                            start0 <= pos0 <= i0 <= self.current <= s.len(),
                            i0 < s.len(),
                            s[i0] == 47u8,
                            i0 + 1 < s.len(),
                            s[i0 + 1] == 47u8,
                            scan_while(s, self.current as int, not_newline_class()) == scan_while(s, i0, not_newline_class()),
                            skip_trivia(s, i0) == skip_trivia(s, pos0),
                            self.line == 1 + newlines_before(s, self.current as int),
                            newlines_before(s, s.len() as int) < u32::MAX,
                        decreases s.len() - self.current,
                    {
                        proof {
                            lemma_newlines_step(s, self.current as int);
                        }
                        self.advance();
                    }
                } else {
                    return;
                }
            } else {
                return;
            }
        }
    }

    /// Scans a string literal whose opening quote has just been consumed.
    fn string(&mut self) -> (token: Token<'source>)
        requires
            old(self).wf(),
            newlines_before(old(self).bytes(), old(self).bytes().len() as int) < u32::MAX,
            old(self).current == old(self).start + 1,
            old(self).bytes()[old(self).start as int] == 34u8,
        ensures
            final(self).wf(),
            final(self).source == old(self).source,
            final(self).start == old(self).start,
            ({
                let s = old(self).bytes();
                let q = scan_while(s, old(self).current as int, not_quote_class());
                &&& q >= s.len() ==> {
                    &&& token.token_type == TokenType::Error
                    &&& token.lexeme@ == "Unterminated string."@
                    &&& final(self).current == s.len()
                }
                &&& q < s.len() ==> {
                    &&& token.token_type == TokenType::String
                    &&& token.lexeme.spec_bytes() == s.subrange(old(self).start as int, q + 1)
                    &&& final(self).current == q + 1
                }
            }),
            token.line == final(self).line,
    {
        let ghost s = self.bytes();
        let ghost src = self.source;
        let ghost q = scan_while(s, self.current as int, not_quote_class());
        let ghost start0 = self.start;
        proof {
            lemma_scan_while(s, self.current as int, not_quote_class());
        }
        while !self.is_at_end() && self.peek() != '"' as u8
            invariant
                self.source == old(self).source,
                s == old(self).bytes(),
                self.start == start0,
                s == self.bytes(),
                self.start < self.current <= q <= s.len(),
                s[self.start as int] == 34u8,
                scan_while(s, self.current as int, not_quote_class()) == q,
                self.line == 1 + newlines_before(s, self.current as int),
                newlines_before(s, s.len() as int) < u32::MAX,
            decreases s.len() - self.current,
        {
            proof {
                lemma_newlines_step(s, self.current as int);
                lemma_newlines_monotonic(s, self.current + 1, s.len() as int);
                lemma_scan_while(s, self.current + 1, not_quote_class());
            }
            if self.peek() == '\n' as u8 {
                self.line += 1;
            }
            self.advance();
        }

        if self.is_at_end() {
            return self.error_token("Unterminated string.");
        }

        // The closing quote
        proof {
            lemma_newlines_step(s, self.current as int);
        }
        self.advance();
        self.make_token(TokenType::String)
    }

    /// Scans a number literal whose first digit has just been consumed.
    fn number(&mut self) -> (token: Option<Token<'source>>)
        requires
            old(self).wf(),
            old(self).current == old(self).start + 1,
            is_digit(old(self).bytes()[old(self).start as int]),
        ensures
            final(self).wf(),
            final(self).source == old(self).source,
            final(self).start == old(self).start,
            ({
                let t = lex(old(self).bytes(), old(self).start as int);
                &&& token is None <==> t.panics
                &&& (token matches Some(token) ==> {
                    &&& token.token_type == TokenType::Number
                    &&& token.lexeme.spec_bytes() == old(self).bytes().subrange(t.start, t.end)
                    &&& final(self).current == t.end
                    &&& token.line == final(self).line
                })
            }),
    {
        let ghost s = self.bytes();
        let ghost src = self.source;
        let ghost st = self.start as int;
        proof {
            lemma_scan_while(s, st, digit_class());
            assert(skip_trivia(s, st) == st);
        }
        while !self.is_at_end() && is_digit_byte(self.peek())
            invariant
                self.source == old(self).source,
                s == old(self).bytes(),
                s == self.bytes(),
                self.start == st,
                st == old(self).start,
                st < self.current <= s.len(),
                scan_while(s, self.current as int, digit_class()) == scan_while(s, st, digit_class()),
                forall|k: int| st <= k < self.current ==> is_digit(#[trigger] s[k]),
                self.line == 1 + newlines_before(s, self.current as int),
            decreases s.len() - self.current,
        {
            proof {
                lemma_newlines_step(s, self.current as int);
            }
            self.advance();
        }

        // Look for a fractional part
        if !self.is_at_end() && self.peek() == '.' as u8 && is_digit_byte(self.peek_next()) {
            let ghost d = self.current as int;
            proof {
                lemma_newlines_step(s, self.current as int);
                lemma_scan_while(s, d + 1, digit_class());
            }
            // Consume the '.'
            self.advance();

            // Consume the rest of the digits
            loop
                invariant
                    self.source == old(self).source,
                s == old(self).bytes(),
                    s == self.bytes(),
                    self.start == st,
                st == old(self).start,
                    st < d,
                    d + 1 < s.len(),
                    d == scan_while(s, st, digit_class()),
                    d + 1 <= self.current <= s.len(),
                    s[d] == 46u8,
                    is_digit(s[d + 1]),
                    scan_while(s, self.current as int, digit_class()) == scan_while(s, d + 1, digit_class()),
                    forall|k: int| d < k < self.current ==> is_digit(#[trigger] s[k]),
                    self.line == 1 + newlines_before(s, self.current as int),
                ensures
                    self.current < s.len(),
                    !is_digit(s[self.current as int]),
                decreases s.len() - self.current,
            {
                if self.is_at_end() {
                    return None;
                }
                if !is_digit_byte(self.peek()) {
                    break;
                }
                proof {
                    lemma_newlines_step(s, self.current as int);
                }
                self.advance();
            }
        }
        Some(self.make_token(TokenType::Number))
    }

    /// Scans an identifier or keyword whose first byte has just been consumed.
    fn identifier(&mut self) -> (token: Option<Token<'source>>)
        requires
            old(self).wf(),
            old(self).current == old(self).start + 1,
            is_ident_start(old(self).bytes()[old(self).start as int]),
        ensures
            final(self).wf(),
            final(self).source == old(self).source,
            final(self).start == old(self).start,
            ({
                let t = lex(old(self).bytes(), old(self).start as int);
                &&& token is None <==> t.panics
                &&& (token matches Some(token) ==> {
                    &&& token.token_type == t.kind
                    &&& token.lexeme.spec_bytes() == old(self).bytes().subrange(t.start, t.end)
                    &&& final(self).current == t.end
                    &&& token.line == final(self).line
                })
            }),
    {
        let ghost s = self.bytes();
        let ghost src = self.source;
        let ghost st = self.start as int;
        proof {
            lemma_scan_while(s, st, ident_class());
            assert(skip_trivia(s, st) == st);
        }
        loop
            invariant
                self.source == old(self).source,
                s == old(self).bytes(),
                s == self.bytes(),
                self.start == st,
                st == old(self).start,
                st < self.current <= s.len(),
                is_ident_start(s[st]),
                scan_while(s, self.current as int, ident_class()) == scan_while(s, st, ident_class()),
                forall|k: int| st <= k < self.current ==> is_ident_char(#[trigger] s[k]),
                self.line == 1 + newlines_before(s, self.current as int),
            ensures
                self.current < s.len(),
                !is_ident_char(s[self.current as int]),
            decreases s.len() - self.current,
        {
            if self.is_at_end() {
                return None;
            }
            let c = self.peek();
            if !(is_alpha_byte(c) || is_digit_byte(c) || c == '_' as u8) {
                break;
            }
            proof {
                lemma_newlines_step(s, self.current as int);
            }
            self.advance();
        }
        let token_type = self.identifier_type();
        Some(self.make_token(token_type))
    }

    fn char_n(&self, n: usize) -> (c: u8)
        requires
            self.start + n < self.bytes().len(),
        ensures
            c == self.bytes()[self.start + n],
    {
        let bytes = self.source.as_bytes();
        let _len = bytes.len();
        bytes[self.start + n]
    }

    fn len(&self) -> (n: usize)
        requires
            self.start <= self.current,
        ensures
            n == self.current - self.start,
    {
        self.current - self.start
    }

    /// The keyword spelled by the identifier just scanned, or `Identifier`.
    fn identifier_type(&self) -> (t: TokenType)
        requires
            self.start < self.current < self.bytes().len(),
            is_ident_start(self.bytes()[self.start as int]),
            forall|k: int| self.start <= k < self.current ==> is_ident_char(#[trigger] self.bytes()[k]),
            !is_ident_char(self.bytes()[self.current as int]),
        ensures
            t == keyword_type(self.bytes().subrange(self.start as int, self.current as int)),
    {
        let ghost w = self.bytes().subrange(self.start as int, self.current as int);
        let c0 = self.char_n(0);
        proof {
            assert(w[0] == c0);
            if w.len() > 1 {
                assert(w[1] == self.bytes()[self.start + 1]);
            }
            if w.len() > 2 {
                assert(w[2] == self.bytes()[self.start + 2]);
            }
            if c0 == 'a' as u8 { lemma_keywords_a(w); }
            else if c0 == 'c' as u8 { lemma_keywords_c(w); }
            else if c0 == 'i' as u8 { lemma_keywords_i(w); }
            else if c0 == 'o' as u8 { lemma_keywords_o(w); }
            else if c0 == 't' as u8 { lemma_keywords_t(w); }
            else if c0 == 'v' as u8 { lemma_keywords_v(w); }
            else if c0 == 'e' as u8 { lemma_keywords_e(w); }
            else if c0 == 'f' as u8 { lemma_keywords_f(w); }
            else if c0 == 'p' as u8 { lemma_keywords_p(w); }
            else if c0 == 'd' as u8 { lemma_keywords_d(w); }
            else if c0 == 's' as u8 { lemma_keywords_s(w); }
            else if c0 == 'n' as u8 { lemma_keywords_n(w); }
            else if c0 == 'r' as u8 { lemma_keywords_r(w); }
            else if c0 == 'g' as u8 { lemma_keywords_g(w); }
            else if c0 == 'l' as u8 { lemma_keywords_l(w); }
            else { lemma_keywords_other(w); }
        }
        if c0 == 'a' as u8 {
            let rest: &[u8] = &['n' as u8, 'd' as u8];
            let r = self.check_keyword(1, rest, TokenType::And);
            proof {
                assert(rest@ =~= seq!['n' as u8, 'd' as u8]);
                lemma_word(w, 1, seq!['n' as u8, 'd' as u8], seq!['a' as u8, 'n' as u8, 'd' as u8]);
            }
            r
        } else if c0 == 'c' as u8 {
            let rest: &[u8] = &['a' as u8, 'l' as u8, 'l' as u8];
            let r = self.check_keyword(1, rest, TokenType::Call);
            proof {
                assert(rest@ =~= seq!['a' as u8, 'l' as u8, 'l' as u8]);
                lemma_word(w, 1, seq!['a' as u8, 'l' as u8, 'l' as u8], seq!['c' as u8, 'a' as u8, 'l' as u8, 'l' as u8]);
            }
            r
        } else if c0 == 'i' as u8 {
            let rest: &[u8] = &['f' as u8];
            let r = self.check_keyword(1, rest, TokenType::If);
            proof {
                assert(rest@ =~= seq!['f' as u8]);
                lemma_word(w, 1, seq!['f' as u8], seq!['i' as u8, 'f' as u8]);
            }
            r
        } else if c0 == 'o' as u8 {
            let rest: &[u8] = &['r' as u8];
            let r = self.check_keyword(1, rest, TokenType::Or);
            proof {
                assert(rest@ =~= seq!['r' as u8]);
                lemma_word(w, 1, seq!['r' as u8], seq!['o' as u8, 'r' as u8]);
            }
            r
        } else if c0 == 't' as u8 {
            let rest: &[u8] = &['r' as u8, 'u' as u8, 'e' as u8];
            let r = self.check_keyword(1, rest, TokenType::True);
            proof {
                assert(rest@ =~= seq!['r' as u8, 'u' as u8, 'e' as u8]);
                lemma_word(w, 1, seq!['r' as u8, 'u' as u8, 'e' as u8], seq!['t' as u8, 'r' as u8, 'u' as u8, 'e' as u8]);
            }
            r
        } else if c0 == 'v' as u8 {
            let rest: &[u8] = &['a' as u8, 'r' as u8];
            let r = self.check_keyword(1, rest, TokenType::Var);
            proof {
                assert(rest@ =~= seq!['a' as u8, 'r' as u8]);
                lemma_word(w, 1, seq!['a' as u8, 'r' as u8], seq!['v' as u8, 'a' as u8, 'r' as u8]);
            }
            r
        } else if c0 == 'e' as u8 && self.len() > 1 {
            let c1 = self.char_n(1);
            if c1 == 'l' as u8 {
                let rest: &[u8] = &['s' as u8, 'e' as u8];
                let r = self.check_keyword(2, rest, TokenType::Else);
                proof {
                    assert(rest@ =~= seq!['s' as u8, 'e' as u8]);
                    lemma_word(w, 2, seq!['s' as u8, 'e' as u8], seq!['e' as u8, 'l' as u8, 's' as u8, 'e' as u8]);
                }
                r
            } else if c1 == 'q' as u8 {
                let rest: &[u8] = &[];
                let r = self.check_keyword(2, rest, TokenType::Equals);
                proof {
                    assert(rest@ =~= Seq::<u8>::empty());
                    lemma_word(w, 2, Seq::<u8>::empty(), seq!['e' as u8, 'q' as u8]);
                }
                r
            } else {
                TokenType::Identifier
            }
        } else if c0 == 'f' as u8 && self.len() > 1 {
            let c1 = self.char_n(1);
            if c1 == 'n' as u8 {
                let rest: &[u8] = &[];
                let r = self.check_keyword(2, rest, TokenType::Fn);
                proof {
                    assert(rest@ =~= Seq::<u8>::empty());
                    lemma_word(w, 2, Seq::<u8>::empty(), seq!['f' as u8, 'n' as u8]);
                }
                r
            } else if c1 == 'a' as u8 {
                let rest: &[u8] = &['l' as u8, 's' as u8, 'e' as u8];
                let r = self.check_keyword(2, rest, TokenType::False);
                proof {
                    assert(rest@ =~= seq!['l' as u8, 's' as u8, 'e' as u8]);
                    lemma_word(w, 2, seq!['l' as u8, 's' as u8, 'e' as u8], seq!['f' as u8, 'a' as u8, 'l' as u8, 's' as u8, 'e' as u8]);
                }
                r
            } else {
                TokenType::Identifier
            }
        } else if c0 == 'p' as u8 && self.len() > 1 {
            let c1 = self.char_n(1);
            if c1 == 'a' as u8 {
                let rest: &[u8] = &['r' as u8, 'a' as u8, 'm' as u8];
                let r = self.check_keyword(2, rest, TokenType::Param);
                proof {
                    assert(rest@ =~= seq!['r' as u8, 'a' as u8, 'm' as u8]);
                    lemma_word(w, 2, seq!['r' as u8, 'a' as u8, 'm' as u8], seq!['p' as u8, 'a' as u8, 'r' as u8, 'a' as u8, 'm' as u8]);
                }
                r
            } else if c1 == 'r' as u8 {
                let rest: &[u8] = &['o' as u8, 'd' as u8, 'u' as u8, 'c' as u8, 't' as u8];
                let r = self.check_keyword(2, rest, TokenType::Product);
                proof {
                    assert(rest@ =~= seq!['o' as u8, 'd' as u8, 'u' as u8, 'c' as u8, 't' as u8]);
                    lemma_word(w, 2, seq!['o' as u8, 'd' as u8, 'u' as u8, 'c' as u8, 't' as u8], seq!['p' as u8, 'r' as u8, 'o' as u8, 'd' as u8, 'u' as u8, 'c' as u8, 't' as u8]);
                }
                r
            } else {
                TokenType::Identifier
            }
        } else if c0 == 'd' as u8 && self.char_n(1) == 'i' as u8 && self.len() > 2 {
            let c2 = self.char_n(2);
            if c2 == 'g' as u8 {
                let rest: &[u8] = &['r' as u8, 'a' as u8, 'p' as u8, 'h' as u8];
                let r = self.check_keyword(3, rest, TokenType::Digraph);
                proof {
                    assert(rest@ =~= seq!['r' as u8, 'a' as u8, 'p' as u8, 'h' as u8]);
                    lemma_word(w, 3, seq!['r' as u8, 'a' as u8, 'p' as u8, 'h' as u8], seq!['d' as u8, 'i' as u8, 'g' as u8, 'r' as u8, 'a' as u8, 'p' as u8, 'h' as u8]);
                }
                r
            } else if c2 == 'v' as u8 {
                let rest: &[u8] = &['i' as u8, 'd' as u8, 'e' as u8];
                let r = self.check_keyword(3, rest, TokenType::Divide);
                proof {
                    assert(rest@ =~= seq!['i' as u8, 'd' as u8, 'e' as u8]);
                    lemma_word(w, 3, seq!['i' as u8, 'd' as u8, 'e' as u8], seq!['d' as u8, 'i' as u8, 'v' as u8, 'i' as u8, 'd' as u8, 'e' as u8]);
                }
                r
            } else {
                TokenType::Identifier
            }
        } else if c0 == 's' as u8 && self.char_n(1) == 'u' as u8 && self.len() > 2 {
            let c2 = self.char_n(2);
            if c2 == 'b' as u8 {
                let rest: &[u8] = &['t' as u8, 'r' as u8, 'a' as u8, 'c' as u8, 't' as u8];
                let r = self.check_keyword(3, rest, TokenType::Subtract);
                proof {
                    assert(rest@ =~= seq!['t' as u8, 'r' as u8, 'a' as u8, 'c' as u8, 't' as u8]);
                    lemma_word(w, 3, seq!['t' as u8, 'r' as u8, 'a' as u8, 'c' as u8, 't' as u8], seq!['s' as u8, 'u' as u8, 'b' as u8, 't' as u8, 'r' as u8, 'a' as u8, 'c' as u8, 't' as u8]);
                }
                r
            } else if c2 == 'm' as u8 {
                let rest: &[u8] = &[];
                let r = self.check_keyword(3, rest, TokenType::Sum);
                proof {
                    assert(rest@ =~= Seq::<u8>::empty());
                    lemma_word(w, 3, Seq::<u8>::empty(), seq!['s' as u8, 'u' as u8, 'm' as u8]);
                }
                r
            } else {
                TokenType::Identifier
            }
        } else if c0 == 'n' as u8 && self.len() > 1 {
            let c1 = self.char_n(1);
            if c1 == 'e' as u8 && self.len() > 2 {
                let c2 = self.char_n(2);
                if c2 == 'g' as u8 {
                    let rest: &[u8] = &['a' as u8, 't' as u8, 'e' as u8];
                    let r = self.check_keyword(3, rest, TokenType::Negate);
                    proof {
                        assert(rest@ =~= seq!['a' as u8, 't' as u8, 'e' as u8]);
                        lemma_word(w, 3, seq!['a' as u8, 't' as u8, 'e' as u8], seq!['n' as u8, 'e' as u8, 'g' as u8, 'a' as u8, 't' as u8, 'e' as u8]);
                    }
                    r
                } else if c2 == 'q' as u8 {
                    let rest: &[u8] = &['q' as u8];
                    let r = self.check_keyword(3, rest, TokenType::NotEquals);
                    proof {
                        assert(rest@ =~= seq!['q' as u8]);
                        lemma_word(w, 3, seq!['q' as u8], seq!['n' as u8, 'e' as u8, 'q' as u8, 'q' as u8]);
                    }
                    r
                } else {
                    TokenType::Identifier
                }
            } else if c1 == 'i' as u8 {
                let rest: &[u8] = &['l' as u8];
                let r = self.check_keyword(2, rest, TokenType::Nil);
                proof {
                    assert(rest@ =~= seq!['l' as u8]);
                    lemma_word(w, 2, seq!['l' as u8], seq!['n' as u8, 'i' as u8, 'l' as u8]);
                }
                r
            } else if c1 == 'o' as u8 {
                let rest: &[u8] = &['t' as u8];
                let r = self.check_keyword(2, rest, TokenType::Not);
                proof {
                    assert(rest@ =~= seq!['t' as u8]);
                    lemma_word(w, 2, seq!['t' as u8], seq!['n' as u8, 'o' as u8, 't' as u8]);
                }
                r
            } else {
                TokenType::Identifier
            }
        } else if c0 == 'r' as u8 && self.char_n(1) == 'e' as u8 && self.len() > 2 {
            let c2 = self.char_n(2);
            if c2 == 'f' as u8 {
                let rest: &[u8] = &[];
                let r = self.check_keyword(3, rest, TokenType::Ref);
                proof {
                    assert(rest@ =~= Seq::<u8>::empty());
                    lemma_word(w, 3, Seq::<u8>::empty(), seq!['r' as u8, 'e' as u8, 'f' as u8]);
                }
                r
            } else if c2 == 't' as u8 {
                let rest: &[u8] = &['u' as u8, 'r' as u8, 'n' as u8];
                let r = self.check_keyword(3, rest, TokenType::Return);
                proof {
                    assert(rest@ =~= seq!['u' as u8, 'r' as u8, 'n' as u8]);
                    lemma_word(w, 3, seq!['u' as u8, 'r' as u8, 'n' as u8], seq!['r' as u8, 'e' as u8, 't' as u8, 'u' as u8, 'r' as u8, 'n' as u8]);
                }
                r
            } else {
                TokenType::Identifier
            }
        } else if c0 == 'g' as u8 && self.char_n(1) == 't' as u8 {
            if self.len() == 2 {
                proof {
                    assert(w =~= seq!['g' as u8, 't' as u8]);
                }
                TokenType::Greater
            } else {
                let rest: &[u8] = &['e' as u8];
                let r = self.check_keyword(2, rest, TokenType::GreaterEqual);
                proof {
                    assert(rest@ =~= seq!['e' as u8]);
                    lemma_word(w, 2, seq!['e' as u8], seq!['g' as u8, 't' as u8, 'e' as u8]);
                }
                r
            }
        } else if c0 == 'l' as u8 && self.char_n(1) == 't' as u8 {
            if self.len() == 2 {
                proof {
                    assert(w =~= seq!['l' as u8, 't' as u8]);
                }
                TokenType::Less
            } else {
                let rest: &[u8] = &['e' as u8];
                let r = self.check_keyword(2, rest, TokenType::LessEqual);
                proof {
                    assert(rest@ =~= seq!['e' as u8]);
                    lemma_word(w, 2, seq!['e' as u8], seq!['l' as u8, 't' as u8, 'e' as u8]);
                }
                r
            }
        } else {
            TokenType::Identifier
        }
    }

    /// `token_type` if the current lexeme is exactly `start` already-checked bytes
    /// followed by `rest`, otherwise `Identifier`.
    fn check_keyword(&self, start: usize, rest: &[u8], token_type: TokenType) -> (t: TokenType)
        requires
            self.start <= self.current <= self.bytes().len(),
        ensures
            ({
                let w = self.bytes().subrange(self.start as int, self.current as int);
                t == (if w.len() == start + rest@.len() && w.subrange(start as int, w.len() as int) == rest@ {
                    token_type
                } else {
                    TokenType::Identifier
                })
            }),
    {
        let bytes = self.source.as_bytes();
        let n = self.len();
        // Same length
        if n >= start && n - start == rest.len() {
            let base = self.start + start;
            let mut i: usize = 0;
            while i < rest.len()
                invariant
                    bytes@ == self.bytes(),
                    base == self.start + start,
                    base + rest@.len() == self.current,
                    self.current <= bytes@.len(),
                    i <= rest@.len(),
                    forall|k: int| 0 <= k < i ==> bytes@[base + k] == rest@[k],
                decreases rest@.len() - i,
            {
                // Same bytes
                if bytes[base + i] != rest[i] {
                    proof {
                        let w = self.bytes().subrange(self.start as int, self.current as int);
                        let sub = w.subrange(start as int, w.len() as int);
                        assert(sub[i as int] != rest@[i as int]);
                    }
                    return TokenType::Identifier;
                }
                i += 1;
            }
            proof {
                let w = self.bytes().subrange(self.start as int, self.current as int);
                assert(w.subrange(start as int, w.len() as int) =~= rest@);
            }
            return token_type;
        }
        TokenType::Identifier
    }

    fn peek(&self) -> (c: u8)
        requires
            self.current < self.bytes().len(),
        ensures
            c == self.bytes()[self.current as int],
    {
        self.source.as_bytes()[self.current]
    }

    /// The byte after the next one, or 0 when there is none.
    fn peek_next(&self) -> (c: u8)
        requires
            self.current < self.bytes().len(),
        ensures
            c == (if self.current + 1 < self.bytes().len() {
                self.bytes()[self.current + 1]
            } else {
                0u8
            }),
    {
        let bytes = self.source.as_bytes();
        let n = bytes.len();
        if self.current + 1 >= n {
            0u8
        } else {
            bytes[self.current + 1]
        }
    }

    fn is_at_end(&self) -> (r: bool)
        ensures
            r == (self.current == self.bytes().len()),
    {
        self.current == self.source.as_bytes().len()
    }

    /// A token of the given type spanning `start..current`.
    fn make_token(&self, token_type: TokenType) -> (t: Token<'source>)
        requires
            self.start <= self.current <= self.bytes().len(),
            self.start == self.current ==> self.current == self.bytes().len(),
            self.start < self.current ==> self.bytes()[self.start as int] < 128 && self.bytes()[self.current - 1] < 128,
        ensures
            t.token_type == token_type,
            t.lexeme.spec_bytes() == self.bytes().subrange(self.start as int, self.current as int),
            t.line == self.line,
    {
        let ghost s = self.bytes();
        proof {
            if self.start < s.len() {
                is_char_boundary_iff_not_is_continuation_byte(s, self.start as int);
            }
        }
        let (_, rest) = self.source.split_at(self.start);
        let ghost r = rest.spec_bytes();
        proof {
            assert(r =~= s.subrange(self.start as int, s.len() as int));
            let k = (self.current - self.start) as int;
            if k < r.len() && k > 0 {
                lemma_after_ascii_not_continuation(s, self.current - 1);
                assert(r[k] == s[self.current as int]);
                is_char_boundary_iff_not_is_continuation_byte(r, k);
            }
        }
        let (lexeme, _) = rest.split_at(self.current - self.start);
        proof {
            assert(lexeme.spec_bytes() =~= s.subrange(self.start as int, self.current as int));
        }
        Token { token_type, lexeme, line: self.line }
    }

    fn error_token(&self, message: &'static str) -> (t: Token<'source>)
        ensures
            t.token_type == TokenType::Error,
            t.lexeme == message,
            t.line == self.line,
    {
        Token { token_type: TokenType::Error, lexeme: message, line: self.line }
    }
}

/// The type of a token.
#[derive(Clone, Copy, PartialEq, Eq, Structural, Debug)]
pub enum TokenType {
    // Unary
    Not,
    Negate,
    // Binary
    Subtract,
    Divide,
    /// `eq`
    Equals,
    /// `neqq`
    NotEquals,
    /// `gt`
    Greater,
    /// `gte`
    GreaterEqual,
    /// `lt`
    Less,
    /// `lte`
    LessEqual,
    // Variadic
    Sum,
    Product,
    // Punctuation
    LeftBrace,
    RightBrace,
    LeftBracket,
    RightBracket,
    Comma,
    Equal,
    // Literals
    Identifier,
    String,
    Number,
    // Keywords
    If,
    Else,
    And,
    Or,
    False,
    True,
    Nil,
    /// Define a function
    Fn,
    /// Call a function
    Call,
    /// Define a variable
    Var,
    /// Reference a variable
    Ref,
    Param,
    Return,
    Digraph,
    Arrow,
    Error,
    Eof,
}

} // verus!
