//! The tokenizer for the Clausewitz configuration language.
//!
//! Six token shapes: `=`, `{`, `}`, quoted strings, bare words, and `#`
//! comments.  Runs of blank characters (space, tab, newline, form feed)
//! are skipped between tokens.  Quoted strings end at the next unescaped
//! `"`; their body is reported exactly as written, backslashes included.
//! A bare word is a maximal run of characters that are neither blanks nor
//! one of `=`, `{`, `}`, `#`, `"`.
//!
//! The spec functions in this module define, character by character, what
//! the next token at a given position is; [`Lexer::next`] is proved to
//! return exactly that token.

use vstd::prelude::*;
use crate::text::{chars_to_string, str_to_chars};

verus! {

/// A lexical token.
///
/// `Str` carries the inner text of a quoted string with no unescaping
/// performed (a `\"` stays as written); `Text` carries a bare word.
#[derive(Debug, PartialEq)]
pub enum Token {
    Equals,
    Open,
    Close,
    Str(String),
    Text(String),
    Comment,
}

/// Mathematical model of a token: the same shape over `Seq<char>`.
#[verifier::ext_equal]
pub enum SpecToken {
    Equals,
    Open,
    Close,
    Str(Seq<char>),
    Text(Seq<char>),
    Comment,
}

impl View for Token {
    type V = SpecToken;

    open spec fn view(&self) -> SpecToken {
        match self {
            Token::Equals => SpecToken::Equals,
            Token::Open => SpecToken::Open,
            Token::Close => SpecToken::Close,
            Token::Str(s) => SpecToken::Str(s@),
            Token::Text(s) => SpecToken::Text(s@),
            Token::Comment => SpecToken::Comment,
        }
    }
}

/// What went wrong while lexing.
#[derive(Debug, PartialEq, Clone, Copy)]
pub enum LexErrorKind {
    /// A quoted string was still open when the input ended.
    UnterminatedString,
    /// A character no token shape accepts at this position: a backslash
    /// escape inside a quoted string cannot escape a newline.
    IllegalCharacter,
}

/// A lexing error: its kind and the character offset it was found at.
///
/// For an unterminated string the offset is that of the opening quote.
#[derive(Debug, PartialEq, Clone, Copy)]
pub struct LexError {
    pub kind: LexErrorKind,
    pub offset: usize,
}

/// Is `c` skipped between tokens?
pub open spec fn is_blank(c: char) -> bool {
    c == ' ' || c == '\t' || c == '\n' || c == '\x0c'
}

/// May `c` stand in a bare word?
pub open spec fn is_word_char(c: char) -> bool {
    !(is_blank(c) || c == '=' || c == '{' || c == '}' || c == '#' || c == '"')
}

/// The first position at or after `i` that does not hold a blank.
pub open spec fn blank_end(s: Seq<char>, i: int) -> int
    decreases s.len() - i,
{
    if i < s.len() && is_blank(s[i]) {
        blank_end(s, i + 1)
    } else {
        i
    }
}

/// The first position at or after `i` that does not hold a word character.
pub open spec fn word_end(s: Seq<char>, i: int) -> int
    decreases s.len() - i,
{
    if i < s.len() && is_word_char(s[i]) {
        word_end(s, i + 1)
    } else {
        i
    }
}

/// The first position at or after `i` that holds a newline, or the end of
/// the input: where a `#` comment starting before `i` ends.
pub open spec fn comment_end(s: Seq<char>, i: int) -> int
    decreases s.len() - i,
{
    if i < s.len() && s[i] != '\n' {
        comment_end(s, i + 1)
    } else {
        i
    }
}

/// Result of scanning a quoted string body from position `i` (one past
/// the opening quote).
#[verifier::ext_equal]
pub enum StrScan {
    /// The position of the closing quote.
    Close(int),
    /// The input ended before a closing quote.
    Unterminated,
    /// A backslash escape hit a newline, at this position.
    BadEscape(int),
}

/// Scans a quoted string body: a backslash escapes the following
/// character (except a newline), and the first unescaped `"` closes the
/// string.
pub open spec fn str_scan(s: Seq<char>, i: int) -> StrScan
    decreases s.len() - i,
{
    if i >= s.len() {
        StrScan::Unterminated
    } else if s[i] == '"' {
        StrScan::Close(i)
    } else if s[i] == '\\' {
        if i + 1 >= s.len() {
            StrScan::Unterminated
        } else if s[i + 1] == '\n' {
            StrScan::BadEscape(i + 1)
        } else {
            str_scan(s, i + 2)
        }
    } else {
        str_scan(s, i + 1)
    }
}

/// The next token of `s` at or after position `i`: the token's model and
/// the position one past it; or the end of the input; or a lexing error.
#[verifier::ext_equal]
pub enum SpecLex {
    Tok(SpecToken, int),
    End,
    Fail(LexErrorKind, int),
}

/// What the lexer yields at position `i`: blanks are skipped, then the
/// longest token shape starting there is taken.
pub open spec fn next_token(s: Seq<char>, i: int) -> SpecLex {
    let j = blank_end(s, i);
    if j >= s.len() {
        SpecLex::End
    } else if s[j] == '=' {
        SpecLex::Tok(SpecToken::Equals, j + 1)
    } else if s[j] == '{' {
        SpecLex::Tok(SpecToken::Open, j + 1)
    } else if s[j] == '}' {
        SpecLex::Tok(SpecToken::Close, j + 1)
    } else if s[j] == '#' {
        SpecLex::Tok(SpecToken::Comment, comment_end(s, j + 1))
    } else if s[j] == '"' {
        match str_scan(s, j + 1) {
            StrScan::Close(k) => SpecLex::Tok(SpecToken::Str(s.subrange(j + 1, k)), k + 1),
            StrScan::Unterminated => SpecLex::Fail(LexErrorKind::UnterminatedString, j),
            StrScan::BadEscape(p) => SpecLex::Fail(LexErrorKind::IllegalCharacter, p),
        }
    } else {
        SpecLex::Tok(SpecToken::Text(s.subrange(j, word_end(s, j))), word_end(s, j))
    }
}

proof fn lemma_blank_end_bounds(s: Seq<char>, i: int)
    requires
        0 <= i <= s.len(),
    ensures
        i <= blank_end(s, i) <= s.len(),
        blank_end(s, i) < s.len() ==> !is_blank(s[blank_end(s, i)]),
    decreases s.len() - i,
{
    if i < s.len() && is_blank(s[i]) {
        lemma_blank_end_bounds(s, i + 1);
    }
}

proof fn lemma_word_end_bounds(s: Seq<char>, i: int)
    requires
        0 <= i <= s.len(),
    ensures
        i <= word_end(s, i) <= s.len(),
    decreases s.len() - i,
{
    if i < s.len() && is_word_char(s[i]) {
        lemma_word_end_bounds(s, i + 1);
    }
}

proof fn lemma_comment_end_bounds(s: Seq<char>, i: int)
    requires
        0 <= i <= s.len(),
    ensures
        i <= comment_end(s, i) <= s.len(),
    decreases s.len() - i,
{
    if i < s.len() && s[i] != '\n' {
        lemma_comment_end_bounds(s, i + 1);
    }
}

proof fn lemma_str_scan_bounds(s: Seq<char>, i: int)
    requires
        0 <= i <= s.len(),
    ensures
        str_scan(s, i) matches StrScan::Close(k) ==> i <= k < s.len(),
        str_scan(s, i) matches StrScan::BadEscape(p) ==> i < p < s.len(),
    decreases s.len() - i,
{
    if i < s.len() && s[i] != '"' {
        if s[i] == '\\' {
            if i + 1 < s.len() && s[i + 1] != '\n' {
                lemma_str_scan_bounds(s, i + 2);
            }
        } else {
            lemma_str_scan_bounds(s, i + 1);
        }
    }
}

/// A successfully lexed token always ends past the position it was asked
/// for, and within the input: what the parser's termination rests on.
pub proof fn lemma_next_token_advances(s: Seq<char>, i: int)
    requires
        0 <= i <= s.len(),
    ensures
        next_token(s, i) matches SpecLex::Tok(t, e) ==> i < e <= s.len(),
{
    lemma_blank_end_bounds(s, i);
    let j = blank_end(s, i);
    if j < s.len() {
        lemma_word_end_bounds(s, j);
        lemma_comment_end_bounds(s, j + 1);
        lemma_str_scan_bounds(s, j + 1);
        if is_word_char(s[j]) {
            assert(word_end(s, j) == word_end(s, j + 1));
            lemma_word_end_bounds(s, j + 1);
        }
    }
}

fn blank(c: char) -> (b: bool)
    ensures
        b == is_blank(c),
{
    c == ' ' || c == '\t' || c == '\n' || c == '\x0c'
}

fn word_char(c: char) -> (b: bool)
    ensures
        b == is_word_char(c),
{
    !(blank(c) || c == '=' || c == '{' || c == '}' || c == '#' || c == '"')
}

/// The tokenizer: a cursor over the characters of the input, yielding one
/// token at a time.
pub struct Lexer {
    chars: Vec<char>,
    pos: usize,
}

impl Lexer {
    /// The characters being tokenized.
    pub closed spec fn input(&self) -> Seq<char> {
        self.chars@
    }

    /// The position the next token is read from.
    pub closed spec fn cursor(&self) -> int {
        self.pos as int
    }

    /// The cursor never leaves the input, whose length a vector held.
    pub open spec fn wf(&self) -> bool {
        0 <= self.cursor() <= self.input().len() <= usize::MAX
    }

    /// Starts tokenizing `text` from its beginning.
    pub fn new(text: &str) -> (l: Lexer)
        ensures
            l.wf(),
            l.input() == text@,
            l.cursor() == 0,
    {
        let chars = str_to_chars(text);
        let n = chars.len();
        assert(n <= usize::MAX);
        Lexer { chars, pos: 0 }
    }

    /// Reads the token at the cursor and the position one past it,
    /// without moving the cursor.
    #[verifier::loop_isolation(false)]
    fn scan(&self) -> (r: (Option<Result<Token, LexError>>, usize))
        requires
            self.wf(),
        ensures
            r.1 <= self.input().len(),
            match next_token(self.input(), self.cursor()) {
                SpecLex::End => r.0 is None && r.1 == self.input().len(),
                SpecLex::Tok(st, e) => {
                    &&& match r.0 {
                        Some(Ok(tok)) => tok@ == st,
                        _ => false,
                    }
                    &&& r.1 == e
                },
                SpecLex::Fail(k, q) => match r.0 {
                    Some(Err(err)) => err.kind == k && err.offset as int == q,
                    _ => false,
                },
            },
    {
        let ghost s = self.chars@;
        let n = self.chars.len();
        let mut j = self.pos;
        while j < n && blank(self.chars[j])
            invariant
                self.pos <= j <= n,
                n == s.len(),
                s == self.chars@,
                blank_end(s, self.pos as int) == blank_end(s, j as int),
            decreases n - j,
        {
            j = j + 1;
        }
        assert(blank_end(s, self.pos as int) == j as int);
        if j == n {
            return (None, n);
        }
        let c = self.chars[j];
        if c == '=' {
            (Some(Ok(Token::Equals)), j + 1)
        } else if c == '{' {
            (Some(Ok(Token::Open)), j + 1)
        } else if c == '}' {
            (Some(Ok(Token::Close)), j + 1)
        } else if c == '#' {
            let mut k = j + 1;
            while k < n && self.chars[k] != '\n'
                invariant
                    j + 1 <= k <= n,
                    n == s.len(),
                    s == self.chars@,
                    comment_end(s, j + 1 as int) == comment_end(s, k as int),
                decreases n - k,
            {
                k = k + 1;
            }
            (Some(Ok(Token::Comment)), k)
        } else if c == '"' {
            let mut k = j + 1;
            loop
                invariant
                    self.wf(),
                    j + 1 <= k <= n,
                    j < n,
                    n == s.len(),
                    s == self.chars@,
                    str_scan(s, j + 1 as int) == str_scan(s, k as int),
                decreases n - k,
            {
                if k == n {
                    return (Some(Err(LexError { kind: LexErrorKind::UnterminatedString, offset: j })), n);
                }
                let c2 = self.chars[k];
                if c2 == '"' {
                    let body = chars_to_string(&self.chars, j + 1, k);
                    return (Some(Ok(Token::Str(body))), k + 1);
                } else if c2 == '\\' {
                    if k + 1 == n {
                        return (Some(Err(LexError { kind: LexErrorKind::UnterminatedString, offset: j })), n);
                    }
                    if self.chars[k + 1] == '\n' {
                        return (Some(Err(LexError { kind: LexErrorKind::IllegalCharacter, offset: k + 1 })), n);
                    }
                    k = k + 2;
                } else {
                    k = k + 1;
                }
            }
        } else {
            let mut k = j + 1;
            assert(word_end(s, j as int) == word_end(s, j + 1 as int));
            while k < n && word_char(self.chars[k])
                invariant
                    j + 1 <= k <= n,
                    n == s.len(),
                    s == self.chars@,
                    word_end(s, j as int) == word_end(s, k as int),
                decreases n - k,
            {
                k = k + 1;
            }
            let body = chars_to_string(&self.chars, j, k);
            (Some(Ok(Token::Text(body))), k)
        }
    }

    /// Yields the next token and moves the cursor past it; `None` at the
    /// end of the input.  On a lexing error the cursor moves to the end.
    pub fn next(&mut self) -> (t: Option<Result<Token, LexError>>)
        requires
            old(self).wf(),
        ensures
            final(self).wf(),
            final(self).input() == old(self).input(),
            match next_token(old(self).input(), old(self).cursor()) {
                SpecLex::End => t is None && final(self).cursor() == old(self).input().len(),
                SpecLex::Tok(st, e) => {
                    &&& match t {
                        Some(Ok(tok)) => tok@ == st,
                        _ => false,
                    }
                    &&& final(self).cursor() == e
                },
                SpecLex::Fail(k, q) => match t {
                    Some(Err(err)) => err.kind == k && err.offset as int == q,
                    _ => false,
                },
            },
    {
        let (t, p) = self.scan();
        self.pos = p;
        t
    }

    /// The character offset the next token is read from.
    pub fn position(&self) -> (p: usize)
        ensures
            p as int == self.cursor(),
    {
        self.pos
    }

    /// Reads the next token without moving the cursor.
    pub fn peek(&self) -> (t: Option<Result<Token, LexError>>)
        requires
            self.wf(),
        ensures
            match next_token(self.input(), self.cursor()) {
                SpecLex::End => t is None,
                SpecLex::Tok(st, e) => match t {
                    Some(Ok(tok)) => tok@ == st,
                    _ => false,
                },
                SpecLex::Fail(k, q) => match t {
                    Some(Err(err)) => err.kind == k && err.offset as int == q,
                    _ => false,
                },
            },
    {
        let (t, _) = self.scan();
        t
    }
}

impl Token {
    /// Tokenizes `text` from its start.
    pub fn lexer(text: &str) -> (l: Lexer)
        ensures
            l.wf(),
            l.input() == text@,
            l.cursor() == 0,
    {
        Lexer::new(text)
    }
}

} // verus!
