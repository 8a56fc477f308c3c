//! The scanner: turns source text into a stream of line-tracked tokens,
//! ending in an `Eof` sentinel that is repeated on every further call.
//!
//! The behaviour is pinned down by spec functions over the source's character
//! sequence: `spec_skip` gives the position where the next token starts after
//! whitespace and `#`-comments, `token_type_at` / `token_end_at` give the kind
//! and extent of the token found there, and the scanner's `line` field always
//! equals one plus the number of newlines before the cursor.

use vstd::prelude::*;

use crate::text::lit_string;
use crate::text::str_eq;

verus! {

broadcast use vstd::string::group_string_axioms;

#[derive(Clone, Copy, Debug, PartialEq, Eq, Structural)]
pub enum TokenType {
    LParen,
    RParen,
    LBrace,
    RBrace,
    Comma,
    Dot,
    Minus,
    Plus,
    Semicolon,
    Slash,
    Star,
    Bang,
    BangEqual,
    Equal,
    Equate,
    GreaterThan,
    GreaterEq,
    LessThan,
    LessEq,
    Identifier,
    Str,
    Number,
    And,
    Struct,
    Else,
    False,
    For,
    Fn,
    If,
    Nil,
    Or,
    Print,
    Return,
    Super,
    StructSelf,
    True,
    Let,
    Eof,
}

#[derive(Debug, Clone, Copy)]
pub struct Token<'a> {
    pub t_type: TokenType,
    pub slice: &'a str,
    pub line: usize,
}

pub struct Scanner<'a> {
    pub source: &'a str,
    pub line: usize,
    pub start: usize,
    pub end: usize,
    pub err: String,
}

/// The characters with the Unicode `White_Space` property, which is what
/// `char::is_whitespace` recognises.
pub open spec fn ws_char(c: char) -> bool {
    ||| c == ' '
    ||| c == '\t'
    ||| c == '\n'
    ||| c == '\u{B}'
    ||| c == '\u{C}'
    ||| c == '\r'
    ||| c == '\u{85}'
    ||| c == '\u{A0}'
    ||| c == '\u{1680}'
    ||| c == '\u{2000}'
    ||| c == '\u{2001}'
    ||| c == '\u{2002}'
    ||| c == '\u{2003}'
    ||| c == '\u{2004}'
    ||| c == '\u{2005}'
    ||| c == '\u{2006}'
    ||| c == '\u{2007}'
    ||| c == '\u{2008}'
    ||| c == '\u{2009}'
    ||| c == '\u{200A}'
    ||| c == '\u{2028}'
    ||| c == '\u{2029}'
    ||| c == '\u{202F}'
    ||| c == '\u{205F}'
    ||| c == '\u{3000}'
}

pub open spec fn digit_char(c: char) -> bool {
    ||| c == '0'
    ||| c == '1'
    ||| c == '2'
    ||| c == '3'
    ||| c == '4'
    ||| c == '5'
    ||| c == '6'
    ||| c == '7'
    ||| c == '8'
    ||| c == '9'
}

/// What `char::is_alphabetic` returns: whether the character has the Unicode
/// `Alphabetic` property. The set is too large to write out, so it is only
/// named here; `is_alpha` below is the sole way a value of it is obtained.
pub uninterp spec fn alpha_char(c: char) -> bool;

/// The cursor position after skipping whitespace and `#`-comments from `i`.
pub open spec fn spec_skip(s: Seq<char>, i: int) -> int
    decreases s.len() - i, 0int,
{
    if 0 <= i < s.len() {
        if ws_char(s[i]) {
            spec_skip(s, i + 1)
        } else if s[i] == '#' {
            spec_skip_comment(s, i + 1)
        } else {
            i
        }
    } else {
        i
    }
}

/// The cursor position after skipping the rest of a comment (up to, not
/// including, the next newline) and whatever skippable text follows it.
pub open spec fn spec_skip_comment(s: Seq<char>, i: int) -> int
    decreases s.len() - i, 1int,
{
    if 0 <= i < s.len() {
        if s[i] == '\n' {
            spec_skip(s, i)
        } else {
            spec_skip_comment(s, i + 1)
        }
    } else {
        i
    }
}

/// The number of newline characters among `s[0], ..., s[i-1]`.
pub open spec fn nl_count(s: Seq<char>, i: int) -> int
    decreases i,
{
    if i <= 0 || i > s.len() {
        0
    } else {
        nl_count(s, i - 1) + if s[i - 1] == '\n' { 1int } else { 0int }
    }
}

/// End of a maximal run of decimal digits starting at `i`.
pub open spec fn digits_end(s: Seq<char>, i: int) -> int
    decreases s.len() - i,
{
    if 0 <= i < s.len() && digit_char(s[i]) {
        digits_end(s, i + 1)
    } else {
        i
    }
}

/// End of a number literal's tail: digits, underscores, and at most one dot
/// in the whole literal (`seen_dot` tells whether one was already read).
pub open spec fn num_end(s: Seq<char>, i: int, seen_dot: bool) -> int
    decreases s.len() - i,
{
    if 0 <= i < s.len() {
        if digit_char(s[i]) || s[i] == '_' {
            num_end(s, i + 1, seen_dot)
        } else if s[i] == '.' && !seen_dot {
            num_end(s, i + 1, true)
        } else {
            i
        }
    } else {
        i
    }
}

/// End of a maximal run of alphabetic characters starting at `i`.
pub open spec fn alpha_end(s: Seq<char>, i: int) -> int
    decreases s.len() - i,
{
    if 0 <= i < s.len() && alpha_char(s[i]) {
        alpha_end(s, i + 1)
    } else {
        i
    }
}

/// Position of the first `"` at or after `i`, or `s.len()` if there is none.
pub open spec fn str_close(s: Seq<char>, i: int) -> int
    decreases s.len() - i,
{
    if 0 <= i < s.len() {
        if s[i] == '"' {
            i
        } else {
            str_close(s, i + 1)
        }
    } else {
        s.len() as int
    }
}

/// The token kind an alphabetic word scans to: a keyword kind on a hit in the
/// keyword table, `Identifier` otherwise.
pub open spec fn keyword_type(w: Seq<char>) -> TokenType {
    if w == "and"@ {
        TokenType::And
    } else if w == "struct"@ {
        TokenType::Struct
    } else if w == "else"@ {
        TokenType::Else
    } else if w == "false"@ {
        TokenType::False
    } else if w == "for"@ {
        TokenType::For
    } else if w == "fn"@ {
        TokenType::Fn
    } else if w == "if"@ {
        TokenType::If
    } else if w == "nil"@ {
        TokenType::Nil
    } else if w == "or"@ {
        TokenType::Or
    } else if w == "print"@ {
        TokenType::Print
    } else if w == "return"@ {
        TokenType::Return
    } else if w == "super"@ {
        TokenType::Super
    } else if w == "self"@ {
        TokenType::StructSelf
    } else if w == "true"@ {
        TokenType::True
    } else if w == "let"@ {
        TokenType::Let
    } else {
        TokenType::Identifier
    }
}

/// Whether a single leading character opens a one- or two-character
/// punctuation token.
pub open spec fn punct_char(c: char) -> bool {
    ||| c == '('
    ||| c == ')'
    ||| c == '{'
    ||| c == '}'
    ||| c == ','
    ||| c == '.'
    ||| c == ';'
    ||| c == '+'
    ||| c == '-'
    ||| c == '*'
    ||| c == '/'
    ||| c == '!'
    ||| c == '='
    ||| c == '>'
    ||| c == '<'
}

/// Whether scanning fails at position `k` (after skipping): an unterminated
/// string, or a character that opens no token at all.
pub open spec fn scan_err_at(s: Seq<char>, k: int) -> bool {
    if s[k] == '"' {
        str_close(s, k + 1) >= s.len()
    } else {
        !punct_char(s[k]) && !digit_char(s[k]) && !alpha_char(s[k])
    }
}

/// The kind of the token starting at `k`, assuming `!scan_err_at(s, k)`.
pub open spec fn token_type_at(s: Seq<char>, k: int) -> TokenType {
    let c = s[k];
    if c == '(' {
        TokenType::LParen
    } else if c == ')' {
        TokenType::RParen
    } else if c == '{' {
        TokenType::LBrace
    } else if c == '}' {
        TokenType::RBrace
    } else if c == ',' {
        TokenType::Comma
    } else if c == ';' {
        TokenType::Semicolon
    } else if c == '+' {
        TokenType::Plus
    } else if c == '-' {
        TokenType::Minus
    } else if c == '*' {
        TokenType::Star
    } else if c == '/' {
        TokenType::Slash
    } else if c == '.' {
        if k + 1 < s.len() && digit_char(s[k + 1]) {
            TokenType::Number
        } else {
            TokenType::Dot
        }
    } else if c == '!' {
        if k + 1 < s.len() && s[k + 1] == '=' {
            TokenType::BangEqual
        } else {
            TokenType::Bang
        }
    } else if c == '=' {
        if k + 1 < s.len() && s[k + 1] == '=' {
            TokenType::Equate
        } else {
            TokenType::Equal
        }
    } else if c == '>' {
        if k + 1 < s.len() && s[k + 1] == '=' {
            TokenType::GreaterEq
        } else {
            TokenType::GreaterThan
        }
    } else if c == '<' {
        if k + 1 < s.len() && s[k + 1] == '=' {
            TokenType::LessEq
        } else {
            TokenType::LessThan
        }
    } else if c == '"' {
        TokenType::Str
    } else if digit_char(c) {
        TokenType::Number
    } else {
        keyword_type(s.subrange(k, alpha_end(s, k + 1)))
    }
}

/// One past the last character of the token starting at `k`, assuming
/// `!scan_err_at(s, k)`.
pub open spec fn token_end_at(s: Seq<char>, k: int) -> int {
    let c = s[k];
    if c == '.' {
        if k + 1 < s.len() && digit_char(s[k + 1]) {
            digits_end(s, k + 2)
        } else {
            k + 1
        }
    } else if c == '!' || c == '=' || c == '>' || c == '<' {
        if k + 1 < s.len() && s[k + 1] == '=' {
            k + 2
        } else {
            k + 1
        }
    } else if c == '"' {
        str_close(s, k + 1) + 1
    } else if digit_char(c) {
        num_end(s, k + 1, false)
    } else if punct_char(c) {
        k + 1
    } else if alpha_char(c) {
        alpha_end(s, k + 1)
    } else {
        k + 1
    }
}

/// Whether `c` has the Unicode `White_Space` property.
fn is_space(c: char) -> (b: bool)
    ensures
        b == ws_char(c),
{
    match c {
        ' ' | '\t' | '\n' | '\u{B}' | '\u{C}' | '\r' | '\u{85}' | '\u{A0}' | '\u{1680}'
            | '\u{2000}' | '\u{2001}' | '\u{2002}' | '\u{2003}' | '\u{2004}' | '\u{2005}'
            | '\u{2006}' | '\u{2007}' | '\u{2008}' | '\u{2009}' | '\u{200A}' | '\u{2028}'
            | '\u{2029}' | '\u{202F}' | '\u{205F}' | '\u{3000}' => true,
        _ => false,
    }
}

/// Whether `c` is a decimal digit.
fn is_digit_char(c: char) -> (b: bool)
    ensures
        b == digit_char(c),
{
    match c {
        '0' | '1' | '2' | '3' | '4' | '5' | '6' | '7' | '8' | '9' => true,
        _ => false,
    }
}

/// Relies on `char::is_alphabetic`: whether the character has the Unicode
/// `Alphabetic` property, a function of the character alone. A newline is
/// plainly not alphabetic.
#[verifier::external_body]
fn is_alpha(c: char) -> (b: bool)
    ensures
        b == alpha_char(c),
        c == '\n' ==> !b,
{
    c.is_alphabetic()
}

/// The keyword table: upgrades an alphabetic word to its keyword kind.
fn keyword_lookup(w: &str) -> (t: TokenType)
    ensures
        t == keyword_type(w@),
{
    if str_eq(w, "and") {
        TokenType::And
    } else if str_eq(w, "struct") {
        TokenType::Struct
    } else if str_eq(w, "else") {
        TokenType::Else
    } else if str_eq(w, "false") {
        TokenType::False
    } else if str_eq(w, "for") {
        TokenType::For
    } else if str_eq(w, "fn") {
        TokenType::Fn
    } else if str_eq(w, "if") {
        TokenType::If
    } else if str_eq(w, "nil") {
        TokenType::Nil
    } else if str_eq(w, "or") {
        TokenType::Or
    } else if str_eq(w, "print") {
        TokenType::Print
    } else if str_eq(w, "return") {
        TokenType::Return
    } else if str_eq(w, "super") {
        TokenType::Super
    } else if str_eq(w, "self") {
        TokenType::StructSelf
    } else if str_eq(w, "true") {
        TokenType::True
    } else if str_eq(w, "let") {
        TokenType::Let
    } else {
        TokenType::Identifier
    }
}

impl<'a> Token<'a> {
    fn new(t: TokenType, slice: &'a str, line: usize) -> (tok: Token<'a>)
        ensures
            tok.t_type == t,
            tok.slice == slice,
            tok.line == line,
    {
        Token { t_type: t, slice, line }
    }
}

impl<'a> Scanner<'a> {
    pub open spec fn src(self) -> Seq<char> {
        self.source@
    }

    pub open spec fn pos(self) -> int {
        self.start as int
    }

    /// Well-formedness at rest: the pending window holds one character, the
    /// cursor is inside the source, and `line` counts the newlines scanned so
    /// far (one-based).
    pub open spec fn wf(self) -> bool {
        &&& self.src().len() < usize::MAX as nat
        &&& self.end == self.start + 1
        &&& self.start <= self.src().len()
        &&& self.line == 1 + nl_count(self.src(), self.start as int)
    }

    pub fn new(source: &'a str) -> (sc: Scanner<'a>)
        requires
            source@.len() < usize::MAX as nat,
        ensures
            sc.wf(),
            sc.src() == source@,
            sc.pos() == 0,
            sc.line == 1,
            sc.err@.len() == 0,
    {
        Scanner { source, line: 1, start: 0, end: 1, err: String::new() }
    }

    /// The text of the current `[start, end)` window, or `None` when the
    /// cursor has passed the end of the source.
    pub fn get_slice(&self) -> (r: Option<&'a str>)
        requires
            self.wf(),
        ensures
            match r {
                Some(sl) => self.pos() < self.src().len() && sl@ == self.src().subrange(
                    self.pos(),
                    if self.end <= self.src().len() {
                        self.end as int
                    } else {
                        self.src().len() as int
                    },
                ),
                None => self.pos() >= self.src().len(),
            },
    {
        let len = self.source.unicode_len();
        if self.start < len {
            let hi = if self.end <= len {
                self.end
            } else {
                len
            };
            Some(self.source.substring_char(self.start, hi))
        } else {
            None
        }
    }

    /// Scan one token.
    ///
    /// On success the returned token's text is exactly the source between the
    /// skipped whitespace/comments and the new cursor position, so the slices
    /// of the scanned tokens interleaved with the skipped stretches
    /// reconstruct the source; and `line` stays one plus the number of
    /// newlines before the cursor.
    pub fn scan_token(&mut self) -> (r: Option<Token<'a>>)
        requires
            old(self).wf(),
            old(self).err@.len() == 0,
        ensures
            final(self).wf(),
            final(self).src() == old(self).src(),
            final(self).pos() >= old(self).pos(),
            ({
                let s = old(self).src();
                let k = spec_skip(s, old(self).pos());
                if k >= s.len() {
                    &&& match r {
                        Some(tok) => {
                            &&& tok.t_type == TokenType::Eof
                            &&& tok.slice@ == "eof"@
                            &&& tok.line == 0
                        },
                        None => false,
                    }
                    &&& final(self).pos() == k
                    &&& final(self).err@.len() == 0
                } else if scan_err_at(s, k) {
                    &&& r is None
                    &&& final(self).err@ == if s[k] == '"' {
                        "unterminated string"@
                    } else {
                        "unknown character"@
                    }
                    &&& final(self).pos() == if s[k] == '"' {
                        s.len() as int
                    } else {
                        k
                    }
                } else {
                    &&& match r {
                        Some(tok) => {
                            &&& tok.t_type == token_type_at(s, k)
                            &&& tok.slice@ == s.subrange(k, token_end_at(s, k))
                            &&& tok.line == final(self).line
                        },
                        None => false,
                    }
                    &&& final(self).pos() == token_end_at(s, k)
                    &&& final(self).pos() > old(self).pos()
                    &&& final(self).err@.len() == 0
                }
            }),
    {
        let ghost s = self.source@;
        let ghost k0 = self.start as int;
        let len = self.source.unicode_len();

        // Skip whitespace and comments, counting newlines.
        loop
            invariant
                self.source@ == s,
                self.wf(),
                self.err@.len() == 0,
                len == s.len(),
                k0 <= self.start as int,
                spec_skip(s, k0) == spec_skip(s, self.start as int),
            ensures
                self.source@ == s,
                self.wf(),
                self.err@.len() == 0,
                k0 <= self.start as int,
                spec_skip(s, k0) == self.start as int,
            decreases s.len() - self.start,
        {
            if self.start >= len {
                proof {
                    assert(spec_skip(s, self.start as int) == self.start as int);
                }
                break ;
            }
            let c = self.source.get_char(self.start);
            if is_space(c) {
                let ghost st = self.start as int;
                if c == '\n' {
                    proof {
                        lemma_nl_count_bound(s, st);
                    }
                    self.line = self.line + 1;
                }
                self.start = self.start + 1;
                self.end = self.start + 1;
                proof {
                    assert(spec_skip(s, st) == spec_skip(s, st + 1));
                    assert(nl_count(s, st + 1) == nl_count(s, st) + if s[st] == '\n' {
                        1int
                    } else {
                        0int
                    });
                }
            } else if c == '#' {
                let ghost st = self.start as int;
                self.start = self.start + 1;
                self.end = self.start + 1;
                proof {
                    assert(spec_skip(s, st) == spec_skip_comment(s, st + 1));
                    assert(nl_count(s, st + 1) == nl_count(s, st));
                }
                loop
                    invariant
                        self.source@ == s,
                        self.wf(),
                        self.err@.len() == 0,
                        len == s.len(),
                        st + 1 <= self.start as int,
                        k0 <= self.start as int,
                        spec_skip(s, k0) == spec_skip_comment(s, self.start as int),
                    ensures
                        self.source@ == s,
                        self.wf(),
                        self.err@.len() == 0,
                        st + 1 <= self.start as int,
                        k0 <= self.start as int,
                        spec_skip(s, k0) == spec_skip(s, self.start as int),
                    decreases s.len() - self.start,
                {
                    if self.start >= len {
                        proof {
                            assert(spec_skip_comment(s, self.start as int) == self.start as int);
                            assert(spec_skip(s, self.start as int) == self.start as int);
                        }
                        break ;
                    }
                    let d = self.source.get_char(self.start);
                    if d == '\n' {
                        proof {
                            assert(spec_skip_comment(s, self.start as int) == spec_skip(
                                s,
                                self.start as int,
                            ));
                        }
                        break ;
                    }
                    let ghost st = self.start as int;
                    self.start = self.start + 1;
                    self.end = self.start + 1;
                    proof {
                        assert(spec_skip_comment(s, st) == spec_skip_comment(s, st + 1));
                        assert(nl_count(s, st + 1) == nl_count(s, st));
                    }
                }
            } else {
                proof {
                    assert(spec_skip(s, self.start as int) == self.start as int);
                }
                break ;
            }
        }

        let ghost k = self.start as int;

        if self.start >= len {
            return Some(Token::new(TokenType::Eof, "eof", 0));
        }
        let c = self.source.get_char(self.start);

        if c == '(' {
            proof {
                lemma_nl_count_same(s, k, k + 1);
            }
            Some(self.emit(TokenType::LParen, self.start + 1))
        } else if c == ')' {
            proof {
                lemma_nl_count_same(s, k, k + 1);
            }
            Some(self.emit(TokenType::RParen, self.start + 1))
        } else if c == '{' {
            proof {
                lemma_nl_count_same(s, k, k + 1);
            }
            Some(self.emit(TokenType::LBrace, self.start + 1))
        } else if c == '}' {
            proof {
                lemma_nl_count_same(s, k, k + 1);
            }
            Some(self.emit(TokenType::RBrace, self.start + 1))
        } else if c == ',' {
            proof {
                lemma_nl_count_same(s, k, k + 1);
            }
            Some(self.emit(TokenType::Comma, self.start + 1))
        } else if c == ';' {
            proof {
                lemma_nl_count_same(s, k, k + 1);
            }
            Some(self.emit(TokenType::Semicolon, self.start + 1))
        } else if c == '+' {
            proof {
                lemma_nl_count_same(s, k, k + 1);
            }
            Some(self.emit(TokenType::Plus, self.start + 1))
        } else if c == '-' {
            proof {
                lemma_nl_count_same(s, k, k + 1);
            }
            Some(self.emit(TokenType::Minus, self.start + 1))
        } else if c == '*' {
            proof {
                lemma_nl_count_same(s, k, k + 1);
            }
            Some(self.emit(TokenType::Star, self.start + 1))
        } else if c == '/' {
            proof {
                lemma_nl_count_same(s, k, k + 1);
            }
            Some(self.emit(TokenType::Slash, self.start + 1))
        } else if c == '.' {
            if self.start + 1 < len && is_digit_char(self.source.get_char(self.start + 1)) {
                // A float written `.5`: consume the digits after the dot.
                let mut j: usize = self.start + 2;
                proof {
                    assert(nl_count(s, k + 1) == nl_count(s, k));
                    assert(nl_count(s, k + 2) == nl_count(s, k + 1));
                }
                loop
                    invariant
                        self.source@ == s,
                        len == s.len(),
                        k + 2 <= j <= len,
                        self.start as int == k,
                        digits_end(s, k + 2) == digits_end(s, j as int),
                        nl_count(s, j as int) == nl_count(s, k),
                    ensures
                        self.source@ == s,
                        self.start as int == k,
                        k + 2 <= j <= len,
                        digits_end(s, k + 2) == j as int,
                        nl_count(s, j as int) == nl_count(s, k),
                    decreases s.len() - j,
                {
                    if j >= len {
                        proof {
                            assert(digits_end(s, j as int) == j as int);
                        }
                        break ;
                    }
                    if !is_digit_char(self.source.get_char(j)) {
                        proof {
                            assert(digits_end(s, j as int) == j as int);
                        }
                        break ;
                    }
                    let ghost jj = j as int;
                    j = j + 1;
                    proof {
                        assert(digits_end(s, jj) == digits_end(s, jj + 1));
                        assert(nl_count(s, jj + 1) == nl_count(s, jj));
                    }
                }
                Some(self.emit(TokenType::Number, j))
            } else {
                proof {
                    lemma_nl_count_same(s, k, k + 1);
                }
                Some(self.emit(TokenType::Dot, self.start + 1))
            }
        } else if c == '!' {
            if self.start + 1 < len && self.source.get_char(self.start + 1) == '=' {
                proof {
                    lemma_nl_count_same(s, k, k + 2);
                }
                Some(self.emit(TokenType::BangEqual, self.start + 2))
            } else {
                proof {
                    lemma_nl_count_same(s, k, k + 1);
                }
                Some(self.emit(TokenType::Bang, self.start + 1))
            }
        } else if c == '=' {
            if self.start + 1 < len && self.source.get_char(self.start + 1) == '=' {
                proof {
                    lemma_nl_count_same(s, k, k + 2);
                }
                Some(self.emit(TokenType::Equate, self.start + 2))
            } else {
                proof {
                    lemma_nl_count_same(s, k, k + 1);
                }
                Some(self.emit(TokenType::Equal, self.start + 1))
            }
        } else if c == '>' {
            if self.start + 1 < len && self.source.get_char(self.start + 1) == '=' {
                proof {
                    lemma_nl_count_same(s, k, k + 2);
                }
                Some(self.emit(TokenType::GreaterEq, self.start + 2))
            } else {
                proof {
                    lemma_nl_count_same(s, k, k + 1);
                }
                Some(self.emit(TokenType::GreaterThan, self.start + 1))
            }
        } else if c == '<' {
            if self.start + 1 < len && self.source.get_char(self.start + 1) == '=' {
                proof {
                    lemma_nl_count_same(s, k, k + 2);
                }
                Some(self.emit(TokenType::LessEq, self.start + 2))
            } else {
                proof {
                    lemma_nl_count_same(s, k, k + 1);
                }
                Some(self.emit(TokenType::LessThan, self.start + 1))
            }
        } else if c == '"' {
            // A string literal: consume up to the closing quote, counting
            // the newlines inside it.
            let mut j: usize = self.start + 1;
            let mut found = false;
            proof {
                assert(nl_count(s, k + 1) == nl_count(s, k));
            }
            loop
                invariant_except_break
                    !found,
                invariant
                    self.source@ == s,
                    len == s.len(),
                    self.src().len() < usize::MAX as nat,
                    self.start as int == k,
                    self.end == self.start + 1,
                    self.err@.len() == 0,
                    k + 1 <= j <= len,
                    str_close(s, k + 1) == str_close(s, j as int),
                    self.line == 1 + nl_count(s, j as int),
                ensures
                    self.source@ == s,
                    self.src().len() < usize::MAX as nat,
                    self.start as int == k,
                    self.end == self.start + 1,
                    self.err@.len() == 0,
                    k + 1 <= j <= len,
                    self.line == 1 + nl_count(s, j as int),
                    found ==> j < len && str_close(s, k + 1) == j as int && s[j as int] == '"',
                    !found ==> j >= len && str_close(s, k + 1) == s.len(),
                decreases s.len() - j,
            {
                if j >= len {
                    proof {
                        assert(str_close(s, j as int) == s.len() as int);
                    }
                    break ;
                }
                let d = self.source.get_char(j);
                if d == '"' {
                    found = true;
                    proof {
                        assert(str_close(s, j as int) == j as int);
                    }
                    break ;
                }
                let ghost jj = j as int;
                if d == '\n' {
                    proof {
                        lemma_nl_count_bound(s, jj);
                    }
                    self.line = self.line + 1;
                }
                j = j + 1;
                proof {
                    assert(str_close(s, jj) == str_close(s, jj + 1));
                    assert(nl_count(s, jj + 1) == nl_count(s, jj) + if s[jj] == '\n' {
                        1int
                    } else {
                        0int
                    });
                }
            }
            if found {
                proof {
                    assert(nl_count(s, j + 1) == nl_count(s, j as int));
                }
                Some(self.emit(TokenType::Str, j + 1))
            } else {
                self.err = lit_string("unterminated string");
                self.start = j;
                self.end = j + 1;
                None
            }
        } else if is_digit_char(c) {
            // A number literal: digits, underscores, at most one dot.
            let mut j: usize = self.start + 1;
            let mut seen_dot = false;
            proof {
                assert(nl_count(s, k + 1) == nl_count(s, k));
            }
            loop
                invariant
                    self.source@ == s,
                    len == s.len(),
                    self.start as int == k,
                    k + 1 <= j <= len,
                    num_end(s, k + 1, false) == num_end(s, j as int, seen_dot),
                    nl_count(s, j as int) == nl_count(s, k),
                ensures
                    self.source@ == s,
                    self.start as int == k,
                    k + 1 <= j <= len,
                    num_end(s, k + 1, false) == j as int,
                    nl_count(s, j as int) == nl_count(s, k),
                decreases s.len() - j,
            {
                if j >= len {
                    proof {
                        assert(num_end(s, j as int, seen_dot) == j as int);
                    }
                    break ;
                }
                let d = self.source.get_char(j);
                let ghost jj = j as int;
                if is_digit_char(d) || d == '_' {
                    j = j + 1;
                    proof {
                        assert(num_end(s, jj, seen_dot) == num_end(s, jj + 1, seen_dot));
                        assert(nl_count(s, jj + 1) == nl_count(s, jj));
                    }
                } else if d == '.' && !seen_dot {
                    seen_dot = true;
                    j = j + 1;
                    proof {
                        assert(num_end(s, jj, false) == num_end(s, jj + 1, true));
                        assert(nl_count(s, jj + 1) == nl_count(s, jj));
                    }
                } else {
                    proof {
                        assert(num_end(s, jj, seen_dot) == jj);
                    }
                    break ;
                }
            }
            Some(self.emit(TokenType::Number, j))
        } else if is_alpha(c) {
            // An identifier or keyword: a maximal alphabetic run.
            let mut j: usize = self.start + 1;
            proof {
                assert(nl_count(s, k + 1) == nl_count(s, k));
            }
            loop
                invariant
                    self.source@ == s,
                    len == s.len(),
                    self.start as int == k,
                    k + 1 <= j <= len,
                    alpha_end(s, k + 1) == alpha_end(s, j as int),
                    nl_count(s, j as int) == nl_count(s, k),
                ensures
                    self.source@ == s,
                    self.start as int == k,
                    k + 1 <= j <= len,
                    alpha_end(s, k + 1) == j as int,
                    nl_count(s, j as int) == nl_count(s, k),
                decreases s.len() - j,
            {
                if j >= len {
                    proof {
                        assert(alpha_end(s, j as int) == j as int);
                    }
                    break ;
                }
                if !is_alpha(self.source.get_char(j)) {
                    proof {
                        assert(alpha_end(s, j as int) == j as int);
                    }
                    break ;
                }
                let ghost jj = j as int;
                j = j + 1;
                proof {
                    assert(alpha_end(s, jj) == alpha_end(s, jj + 1));
                    assert(nl_count(s, jj + 1) == nl_count(s, jj));
                }
            }
            let word = self.source.substring_char(self.start, j);
            let t = keyword_lookup(word);
            Some(self.emit(t, j))
        } else {
            self.err = lit_string("unknown character");
            None
        }
    }

    /// Emit the token `[start, j)` of kind `t` and move the cursor past it.
    fn emit(&mut self, t: TokenType, j: usize) -> (tok: Token<'a>)
        requires
            old(self).src().len() < usize::MAX as nat,
            old(self).start < j <= old(self).src().len(),
            old(self).line == 1 + nl_count(old(self).src(), j as int),
        ensures
            final(self).wf(),
            final(self).src() == old(self).src(),
            final(self).err == old(self).err,
            final(self).line == old(self).line,
            final(self).pos() == j,
            tok.t_type == t,
            tok.slice@ == old(self).src().subrange(old(self).pos(), j as int),
            tok.line == final(self).line,
    {
        let slice = self.source.substring_char(self.start, j);
        let tok = Token::new(t, slice, self.line);
        self.start = j;
        self.end = j + 1;
        tok
    }
}

/// `nl_count` never exceeds the length of the counted prefix.
pub proof fn lemma_nl_count_bound(s: Seq<char>, i: int)
    ensures
        0 <= nl_count(s, i) <= i || i <= 0,
    decreases i,
{
    if i > 0 && i <= s.len() {
        lemma_nl_count_bound(s, i - 1);
    }
}

/// A stretch of source without newlines does not change the newline count.
proof fn lemma_nl_count_same(s: Seq<char>, i: int, j: int)
    requires
        0 <= i <= j <= s.len(),
        forall|m: int| i <= m < j ==> s[m] != '\n',
    ensures
        nl_count(s, j) == nl_count(s, i),
    decreases j - i,
{
    if i < j {
        lemma_nl_count_same(s, i, j - 1);
    }
}

/// The region a scan consumes splits into the skipped stretch followed by
/// the token's own text: concatenating them restores the source in between
/// the old and the new cursor position. Together with `scan_token`'s
/// postcondition this says that the token slices, interleaved with the
/// skipped whitespace and comments, reconstruct the source exactly.
pub proof fn lemma_scan_partition(s: Seq<char>, a: int, k: int, e: int)
    requires
        0 <= a <= k <= e <= s.len(),
    ensures
        s.subrange(a, e) == s.subrange(a, k) + s.subrange(k, e),
{
    assert(s.subrange(a, e) =~= s.subrange(a, k) + s.subrange(k, e));
}

} // verus!
