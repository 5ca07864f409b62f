//! The filtered recursive-descent parser.
//!
//! [`parse`] reads a whole document as the body of an implicit outer
//! block.  A block is scanned left to right: bare words may become keys
//! (`key = value`), bare array items, or values; `{` opens a nested
//! block; the filter decides at each `=` whether the value is parsed or
//! lexically skipped.  A block that only collected items becomes an
//! array, one that only collected entries becomes an object, and one
//! that collected both is an error.
//!
//! The spec functions in this module define the whole parse, token step
//! by token step; [`parse`] is proved to return exactly that result.
//!
//! Duplicate keys use the `"$multiKeys"` side channel: the first value
//! of a repeated key stays in the object, later values are collected, in
//! order, in an array under the key's name inside the `"$multiKeys"`
//! entry.  Keys the filter marks as arrays instead append every assigned
//! value to one array.

use vstd::prelude::*;
use crate::filter::{
    is_key_array, is_key_included, next_filter, next_filter_array, spec_is_key_array,
    spec_is_key_included, spec_next_filter, spec_next_filter_array,
};
use crate::lexer::{LexError, LexErrorKind, Lexer, SpecLex, SpecToken, Token, next_token,
    lemma_next_token_advances};
use crate::scalar::{parse_scalar, spec_parse_scalar};
use crate::value::{assoc_get, assoc_has, assoc_index, assoc_set, lemma_assoc_found, lemma_assoc_none};
use crate::value::{entries_view, vals_view, Filter, SpecFilter, SpecValue, Value};

verus! {

/// Why a parse failed.
#[derive(Debug, PartialEq)]
pub enum ParseError {
    /// Tokenization failed.
    Lex(LexError),
    /// An `=` with no key before it, or a stray `=` or `}` inside a
    /// skipped value; the offset is where the parser was reading when it
    /// met the token.
    UnexpectedToken(usize),
    /// A block held both bare items and `key = value` entries.
    MixedContainer,
    /// The input ended inside a block or a skipped value.
    UnexpectedEof,
}

/// Mathematical model of a parse error.
#[verifier::ext_equal]
pub enum SpecParseError {
    Lex(LexErrorKind, int),
    UnexpectedToken(int),
    MixedContainer,
    UnexpectedEof,
}

impl View for ParseError {
    type V = SpecParseError;

    open spec fn view(&self) -> SpecParseError {
        match self {
            ParseError::Lex(e) => SpecParseError::Lex(e.kind, e.offset as int),
            ParseError::UnexpectedToken(p) => SpecParseError::UnexpectedToken(*p as int),
            ParseError::MixedContainer => SpecParseError::MixedContainer,
            ParseError::UnexpectedEof => SpecParseError::UnexpectedEof,
        }
    }
}

/// The parser's state halfway through a block, as the spec sees it.
///
/// `map` holds the committed entries, `multi` the values of repeated
/// keys, `items` the bare array items (strings still uncoerced).  `key`
/// and `value` hold the last word or two not yet committed, and
/// `assigning` says that an `=` was just read for `key`.
#[verifier::ext_equal]
pub struct SpecState {
    pub map: Seq<(Seq<char>, SpecValue)>,
    pub multi: Seq<(Seq<char>, Seq<SpecValue>)>,
    pub items: Seq<SpecValue>,
    pub key: Option<Seq<char>>,
    pub value: Option<Seq<char>>,
    pub assigning: bool,
}

/// The state a block starts in: everything empty.
pub open spec fn init_state() -> SpecState {
    SpecState {
        map: Seq::empty(),
        multi: Seq::empty(),
        items: Seq::empty(),
        key: None,
        value: None,
        assigning: false,
    }
}

/// Commits one `key = value` pair: the value is coerced, then stored.
///
/// For a key the filter marks as an array (`arr`), every committed value
/// becomes elements of one array under the key: an array extends it, any
/// other value is appended, and an empty commit (`Null`, from `key =`
/// with nothing after it) leaves an existing array alone.  For ordinary
/// keys the first value stays in `map` and later values are collected in
/// `multi`.
pub open spec fn spec_insert(
    map: Seq<(Seq<char>, SpecValue)>,
    multi: Seq<(Seq<char>, Seq<SpecValue>)>,
    key: Seq<char>,
    value: SpecValue,
    arr: bool,
) -> (Seq<(Seq<char>, SpecValue)>, Seq<(Seq<char>, Seq<SpecValue>)>) {
    let v = spec_parse_scalar(value);
    if arr {
        if v is Null {
            if assoc_has(map, key) {
                (map, multi)
            } else {
                (map.push((key, SpecValue::Null)), multi)
            }
        } else {
            let elems = match v {
                SpecValue::Array(a) => a,
                _ => seq![v],
            };
            if assoc_has(map, key) {
                match assoc_get(map, key) {
                    SpecValue::Array(cur) => (
                        assoc_set(map, key, SpecValue::Array(cur + elems)),
                        multi,
                    ),
                    _ => (assoc_set(map, key, SpecValue::Array(elems)), multi),
                }
            } else {
                (map.push((key, SpecValue::Array(elems))), multi)
            }
        }
    } else {
        if assoc_has(map, key) {
            if assoc_has(multi, key) {
                (map, assoc_set(multi, key, assoc_get(multi, key).push(v)))
            } else {
                (map, multi.push((key, seq![v])))
            }
        } else {
            (map.push((key, v)), multi)
        }
    }
}

/// The state after a block's last token: a pending `key value` pair is
/// committed; a lone pending key is a bare item, unless an `=` was just
/// read, in which case the key is committed with no value.
pub open spec fn spec_trailing(f: SpecFilter, st: SpecState) -> SpecState {
    if st.key is Some && st.value is Some {
        let (m2, mu2) = spec_insert(
            st.map,
            st.multi,
            st.key->0,
            SpecValue::Str(st.value->0),
            spec_is_key_array(st.key->0, spec_next_filter_array(f)),
        );
        SpecState { map: m2, multi: mu2, key: None, value: None, ..st }
    } else if st.key is Some && !st.assigning {
        SpecState { items: st.items.push(SpecValue::Str(st.key->0)), key: None, ..st }
    } else if st.key is Some {
        let (m2, mu2) = spec_insert(
            st.map,
            st.multi,
            st.key->0,
            SpecValue::Null,
            spec_is_key_array(st.key->0, spec_next_filter_array(f)),
        );
        SpecState { map: m2, multi: mu2, key: None, ..st }
    } else {
        st
    }
}

/// Each collected item, coerced.
pub open spec fn spec_scalars(items: Seq<SpecValue>) -> Seq<SpecValue> {
    Seq::new(items.len(), |i: int|
        if 0 <= i < items.len() {
            spec_parse_scalar(items[i])
        } else {
            SpecValue::Null
        }
    )
}

/// The `"$multiKeys"` object: each repeated key with the array of its
/// later values.
pub open spec fn spec_multi_object(multi: Seq<(Seq<char>, Seq<SpecValue>)>) -> Seq<
    (Seq<char>, SpecValue),
> {
    Seq::new(multi.len(), |i: int|
        if 0 <= i < multi.len() {
            (multi[i].0, SpecValue::Array(multi[i].1))
        } else {
            (Seq::empty(), SpecValue::Null)
        }
    )
}

/// The entries that stay once entries whose value is null are dropped.
pub open spec fn drop_nulls(m: Seq<(Seq<char>, SpecValue)>) -> Seq<(Seq<char>, SpecValue)>
    decreases m.len(),
{
    if m.len() == 0 {
        Seq::empty()
    } else if m[0].1 is Null {
        drop_nulls(m.drop_first())
    } else {
        seq![m[0]] + drop_nulls(m.drop_first())
    }
}

/// Turns a finished block's state into its value.  An empty block is an
/// empty array exactly when the block's filter is array-shaped, else an
/// empty object; items alone make an array (each item coerced); entries
/// alone make an object, with `"$multiKeys"` attached if any key
/// repeated and entries whose value is null dropped; both at once is an
/// error.
pub open spec fn spec_finalize(f: SpecFilter, st0: SpecState) -> Result<
    SpecValue,
    SpecParseError,
> {
    let st = spec_trailing(f, st0);
    if st.map.len() == 0 && st.items.len() == 0 {
        if f is Array {
            Ok(SpecValue::Array(Seq::empty()))
        } else {
            Ok(SpecValue::Object(Seq::empty()))
        }
    } else if st.map.len() == 0 {
        Ok(SpecValue::Array(spec_scalars(st.items)))
    } else if st.items.len() == 0 {
        let m2 = if st.multi.len() > 0 {
            let side = SpecValue::Object(spec_multi_object(st.multi));
            if assoc_has(st.map, "$multiKeys"@) {
                assoc_set(st.map, "$multiKeys"@, side)
            } else {
                st.map.push(("$multiKeys"@, side))
            }
        } else {
            st.map
        };
        Ok(SpecValue::Object(drop_nulls(m2)))
    } else {
        Err(SpecParseError::MixedContainer)
    }
}

/// The result of lexically skipping one right-hand side.
#[verifier::ext_equal]
pub enum SpecSkip {
    /// A single word was the whole value: its text, and the position
    /// after it.  The caller must look at the next token to learn
    /// whether the word was instead the next key.
    Word(Seq<char>, int),
    /// A block (or nothing, at the end of the input) was skipped,
    /// ending at this position.
    Block(int),
    Fail(SpecParseError),
}

/// Skips one right-hand side without building a value: a word at depth 0
/// ends the skip; braces track depth; `=` and `}` at depth 0 are errors;
/// the input must not end inside braces.
pub open spec fn spec_skip(s: Seq<char>, i: int, depth: int) -> SpecSkip
    decreases s.len() - i,
        when 0 <= i <= s.len()
        via spec_skip_decreases
{
    match next_token(s, i) {
        SpecLex::End => if depth == 0 {
            SpecSkip::Block(s.len() as int)
        } else {
            SpecSkip::Fail(SpecParseError::UnexpectedEof)
        },
        SpecLex::Fail(k, p) => SpecSkip::Fail(SpecParseError::Lex(k, p)),
        SpecLex::Tok(t, e) => match t {
            SpecToken::Text(w) => if depth == 0 {
                SpecSkip::Word(w, e)
            } else {
                spec_skip(s, e, depth)
            },
            SpecToken::Str(w) => if depth == 0 {
                SpecSkip::Word(w, e)
            } else {
                spec_skip(s, e, depth)
            },
            SpecToken::Equals => if depth == 0 {
                SpecSkip::Fail(SpecParseError::UnexpectedToken(i))
            } else {
                spec_skip(s, e, depth)
            },
            SpecToken::Comment => spec_skip(s, e, depth),
            SpecToken::Open => spec_skip(s, e, depth + 1),
            SpecToken::Close => if depth == 0 {
                SpecSkip::Fail(SpecParseError::UnexpectedToken(i))
            } else if depth == 1 {
                SpecSkip::Block(e)
            } else {
                spec_skip(s, e, depth - 1)
            },
        },
    }
}

#[via_fn]
proof fn spec_skip_decreases(s: Seq<char>, i: int, depth: int) {
    lemma_next_token_advances(s, i);
}

/// Where a skip ends: always past where it started, within the input.
pub proof fn lemma_skip_bounds(s: Seq<char>, i: int, depth: int)
    requires
        0 <= i <= s.len(),
    ensures
        spec_skip(s, i, depth) matches SpecSkip::Word(w, p) ==> i < p <= s.len(),
        spec_skip(s, i, depth) matches SpecSkip::Block(p) ==> i <= p <= s.len(),
    decreases s.len() - i,
{
    lemma_next_token_advances(s, i);
    match next_token(s, i) {
        SpecLex::Tok(t, e) => {
            lemma_skip_bounds(s, e, depth);
            lemma_skip_bounds(s, e, depth + 1);
            lemma_skip_bounds(s, e, depth - 1);
        },
        _ => {},
    }
}

/// The outcome of parsing one block from a position: the block's value
/// and the position after its closing brace (or after the end of the
/// input for the outermost block), or the error that stopped the parse.
#[verifier::ext_equal]
pub enum BlockRes {
    Done(SpecValue, int),
    Fail(SpecParseError),
}

/// Clamps a continuation position into `(lo, hi]`: the positions the
/// recursive calls below return always lie there (`lemma_block_bounds`),
/// so the clamp changes nothing, but it lets the recursion's termination
/// be checked definitionally.
pub open spec fn clamp(p: int, lo: int, hi: int) -> int {
    if lo < p && p <= hi {
        p
    } else {
        lo
    }
}

/// Parses the body of one block starting at position `i` in state `st`,
/// filtered by `f`.  `root` says this is the outermost, implicit block:
/// it may be ended by the end of the input, while an inner block must be
/// closed by `}`.
///
/// Word tokens become, in order of preference: the pending value when an
/// `=` was just read; a signal to commit a done `key value` pair; a bare
/// item (pushing out a pending key); or the pending key.  An `=` without
/// a key is an error; with a pending value it first commits the previous
/// key with no value.  If the filter excludes the key, the value is
/// skipped without building anything — and when the skip swallowed a
/// word that turns out to precede `=`, that word is reinstated as the
/// pending key.  A `{` either parses the value of the pending key with
/// the key's subfilter, or parses a nested array item.  `}` and end of
/// input finish the block.
pub open spec fn spec_parse_block(
    s: Seq<char>,
    i: int,
    f: SpecFilter,
    st: SpecState,
    root: bool,
) -> BlockRes
    decreases s.len() - i, 1int,
        when 0 <= i <= s.len()
        via spec_parse_block_decreases
{
    match next_token(s, i) {
        SpecLex::End => if root {
            match spec_finalize(f, st) {
                Ok(v) => BlockRes::Done(v, s.len() as int),
                Err(er) => BlockRes::Fail(er),
            }
        } else {
            BlockRes::Fail(SpecParseError::UnexpectedEof)
        },
        SpecLex::Fail(k, p) => BlockRes::Fail(SpecParseError::Lex(k, p)),
        SpecLex::Tok(t, e) => match t {
            SpecToken::Comment => spec_parse_block(s, e, f, st, root),
            SpecToken::Close => match spec_finalize(f, st) {
                Ok(v) => BlockRes::Done(v, e),
                Err(er) => BlockRes::Fail(er),
            },
            SpecToken::Text(w) => spec_parse_block(s, e, f, spec_step_word(f, st, w), root),
            SpecToken::Str(w) => spec_parse_block(s, e, f, spec_step_word(f, st, w), root),
            SpecToken::Equals => {
                if st.key is None {
                    BlockRes::Fail(SpecParseError::UnexpectedToken(i))
                } else {
                    let st1 = spec_step_null_commit(f, st);
                    if spec_is_key_included(st1.key->0, spec_next_filter_array(f)) {
                        spec_parse_block(s, e, f, SpecState { assigning: true, ..st1 }, root)
                    } else {
                        match spec_skip(s, e, 0) {
                            SpecSkip::Fail(er) => BlockRes::Fail(er),
                            SpecSkip::Word(w, p) => {
                                let p2 = clamp(p, e, s.len() as int);
                                let key2: Option<Seq<char>> = if next_token(s, p2) matches
                                    SpecLex::Tok(SpecToken::Equals, _) {
                                    Some(w)
                                } else {
                                    None
                                };
                                spec_parse_block(s, p2, f, SpecState { key: key2, ..st1 }, root)
                            },
                            SpecSkip::Block(p) => {
                                let p2 = clamp(p, e, s.len() as int);
                                spec_parse_block(s, p2, f, SpecState { key: None, ..st1 }, root)
                            },
                        }
                    }
                }
            },
            SpecToken::Open => {
                if st.assigning {
                    let subf = spec_next_filter(st.key->0, spec_next_filter_array(f));
                    match spec_parse_block(s, e, subf, init_state(), false) {
                        BlockRes::Fail(er) => BlockRes::Fail(er),
                        BlockRes::Done(v, k) => {
                            let k2 = clamp(k, e, s.len() as int);
                            let (m2, mu2) = spec_insert(
                                st.map,
                                st.multi,
                                st.key->0,
                                v,
                                spec_is_key_array(st.key->0, spec_next_filter_array(f)),
                            );
                            spec_parse_block(
                                s,
                                k2,
                                f,
                                SpecState { map: m2, multi: mu2, key: None, assigning: false, ..st },
                                root,
                            )
                        },
                    }
                } else {
                    let st1 = spec_step_drain(f, st);
                    match spec_parse_block(s, e, spec_next_filter_array(f), init_state(), false) {
                        BlockRes::Fail(er) => BlockRes::Fail(er),
                        BlockRes::Done(v, k) => {
                            let k2 = clamp(k, e, s.len() as int);
                            spec_parse_block(
                                s,
                                k2,
                                f,
                                SpecState { items: st1.items.push(v), ..st1 },
                                root,
                            )
                        },
                    }
                }
            },
        },
    }
}

/// How a word token changes the state: it becomes the pending value
/// right after an `=`; otherwise it becomes the pending key, first
/// committing a done `key value` pair or pushing out a lone pending key
/// as a bare item.
pub open spec fn spec_step_word(f: SpecFilter, st: SpecState, w: Seq<char>) -> SpecState {
    if st.assigning {
        SpecState { value: Some(w), assigning: false, ..st }
    } else if st.key is Some && st.value is Some {
        let (m2, mu2) = spec_insert(
            st.map,
            st.multi,
            st.key->0,
            SpecValue::Str(st.value->0),
            spec_is_key_array(st.key->0, spec_next_filter_array(f)),
        );
        SpecState { map: m2, multi: mu2, value: None, key: Some(w), ..st }
    } else if st.key is Some {
        SpecState { items: st.items.push(SpecValue::Str(st.key->0)), key: Some(w), ..st }
    } else {
        SpecState { key: Some(w), ..st }
    }
}

/// At an `=` with both a pending key and a pending value, the key had no
/// value of its own (`key1 =` then `key2 = …`): the key is committed
/// with no value and the pending value becomes the key.
pub open spec fn spec_step_null_commit(f: SpecFilter, st: SpecState) -> SpecState {
    if st.value is Some {
        let (m2, mu2) = spec_insert(
            st.map,
            st.multi,
            st.key->0,
            SpecValue::Null,
            spec_is_key_array(st.key->0, spec_next_filter_array(f)),
        );
        SpecState { map: m2, multi: mu2, key: Some(st.value->0), value: None, ..st }
    } else {
        st
    }
}

/// Before a `{` that opens a bare array item, pending words are drained:
/// a done `key value` pair is committed, a lone key becomes a bare item.
pub open spec fn spec_step_drain(f: SpecFilter, st: SpecState) -> SpecState {
    if st.key is Some && st.value is Some {
        let (m2, mu2) = spec_insert(
            st.map,
            st.multi,
            st.key->0,
            SpecValue::Str(st.value->0),
            spec_is_key_array(st.key->0, spec_next_filter_array(f)),
        );
        SpecState { map: m2, multi: mu2, key: None, value: None, ..st }
    } else if st.key is Some {
        SpecState { items: st.items.push(SpecValue::Str(st.key->0)), key: None, ..st }
    } else {
        st
    }
}

#[via_fn]
proof fn spec_parse_block_decreases(s: Seq<char>, i: int, f: SpecFilter, st: SpecState, root: bool) {
    lemma_next_token_advances(s, i);
}

/// A finished block always ends past where it started, within the input.
pub proof fn lemma_block_bounds(s: Seq<char>, i: int, f: SpecFilter, st: SpecState, root: bool)
    requires
        0 <= i <= s.len(),
    ensures
        spec_parse_block(s, i, f, st, root) matches BlockRes::Done(v, k) ==> i <= k <= s.len()
            && (!root ==> i < k),
    decreases s.len() - i, 2int,
{
    lemma_next_token_advances(s, i);
    match next_token(s, i) {
        SpecLex::Tok(t, e) => match t {
            SpecToken::Comment => lemma_block_bounds(s, e, f, st, root),
            SpecToken::Text(w) => lemma_block_bounds(s, e, f, spec_step_word(f, st, w), root),
            SpecToken::Str(w) => lemma_block_bounds(s, e, f, spec_step_word(f, st, w), root),
            SpecToken::Equals => {
                if st.key is Some {
                    let st1 = spec_step_null_commit(f, st);
                    if spec_is_key_included(st1.key->0, spec_next_filter_array(f)) {
                        lemma_block_bounds(s, e, f, SpecState { assigning: true, ..st1 }, root);
                    } else {
                        lemma_skip_bounds(s, e, 0);
                        match spec_skip(s, e, 0) {
                            SpecSkip::Word(w, p) => {
                                let p2 = clamp(p, e, s.len() as int);
                                let key2: Option<Seq<char>> = if next_token(s, p2) matches
                                    SpecLex::Tok(SpecToken::Equals, _) {
                                    Some(w)
                                } else {
                                    None
                                };
                                lemma_block_bounds(s, p2, f, SpecState { key: key2, ..st1 }, root);
                            },
                            SpecSkip::Block(p) => {
                                let p2 = clamp(p, e, s.len() as int);
                                lemma_block_bounds(s, p2, f, SpecState { key: None, ..st1 }, root);
                            },
                            SpecSkip::Fail(_) => {},
                        }
                    }
                }
            },
            SpecToken::Open => {
                if st.assigning {
                    let subf = spec_next_filter(st.key->0, spec_next_filter_array(f));
                    lemma_block_bounds(s, e, subf, init_state(), false);
                    match spec_parse_block(s, e, subf, init_state(), false) {
                        BlockRes::Done(v, k) => {
                            let k2 = clamp(k, e, s.len() as int);
                            let (m2, mu2) = spec_insert(
                                st.map,
                                st.multi,
                                st.key->0,
                                v,
                                spec_is_key_array(st.key->0, spec_next_filter_array(f)),
                            );
                            lemma_block_bounds(
                                s,
                                k2,
                                f,
                                SpecState { map: m2, multi: mu2, key: None, assigning: false, ..st },
                                root,
                            );
                        },
                        BlockRes::Fail(_) => {},
                    }
                } else {
                    let st1 = spec_step_drain(f, st);
                    lemma_block_bounds(s, e, spec_next_filter_array(f), init_state(), false);
                    match spec_parse_block(s, e, spec_next_filter_array(f), init_state(), false) {
                        BlockRes::Done(v, k) => {
                            let k2 = clamp(k, e, s.len() as int);
                            lemma_block_bounds(
                                s,
                                k2,
                                f,
                                SpecState { items: st1.items.push(v), ..st1 },
                                root,
                            );
                        },
                        BlockRes::Fail(_) => {},
                    }
                }
            },
            SpecToken::Close => {},
        },
        _ => {},
    }
}

/// What parsing a whole document returns: the value of the implicit
/// outer block, or the error that stopped the parse.
pub open spec fn spec_parse(s: Seq<char>, f: SpecFilter) -> Result<SpecValue, SpecParseError> {
    match spec_parse_block(s, 0, f, init_state(), true) {
        BlockRes::Done(v, _) => Ok(v),
        BlockRes::Fail(er) => Err(er),
    }
}

/// The models of the repeated-key collection.
pub open spec fn multi_view(m: Seq<(String, Vec<Value>)>) -> Seq<(Seq<char>, Seq<SpecValue>)> {
    Seq::new(m.len(), |i: int|
        if 0 <= i < m.len() {
            (m[i].0@, vals_view(m[i].1@))
        } else {
            (Seq::empty(), Seq::empty())
        }
    )
}

/// The model of a pending word holder.
pub open spec fn opt_view(o: Option<String>) -> Option<Seq<char>> {
    match o {
        Some(s) => Some(s@),
        None => None,
    }
}

/// Finds the entry of the committed map that holds this key.
fn find_key_value(map: &Vec<(String, Value)>, key: &String) -> (r: Option<usize>)
    ensures
        match r {
            Some(i) => i < map@.len() && map@[i as int].0@ == key@ && assoc_index(
                entries_view(map@),
                key@,
            ) == i as int,
            None => assoc_index(entries_view(map@), key@) == -1,
        },
{
    let ghost es = entries_view(map@);
    let mut i: usize = 0;
    while i < map.len()
        invariant
            0 <= i <= map@.len(),
            es == entries_view(map@),
            forall|j: int| 0 <= j < i ==> (#[trigger] es[j]).0 != key@,
        decreases map@.len() - i,
    {
        if map[i].0 == *key {
            proof {
                lemma_assoc_found(es, key@, i as int);
            }
            return Some(i);
        }
        i = i + 1;
    }
    proof {
        lemma_assoc_none(es, key@);
    }
    None
}

/// Finds the entry of the repeated-key collection that holds this key.
fn find_key_multi(multi: &Vec<(String, Vec<Value>)>, key: &String) -> (r: Option<usize>)
    ensures
        match r {
            Some(i) => i < multi@.len() && multi@[i as int].0@ == key@ && assoc_index(
                multi_view(multi@),
                key@,
            ) == i as int,
            None => assoc_index(multi_view(multi@), key@) == -1,
        },
{
    let ghost es = multi_view(multi@);
    let mut i: usize = 0;
    while i < multi.len()
        invariant
            0 <= i <= multi@.len(),
            es == multi_view(multi@),
            forall|j: int| 0 <= j < i ==> (#[trigger] es[j]).0 != key@,
        decreases multi@.len() - i,
    {
        if multi[i].0 == *key {
            proof {
                lemma_assoc_found(es, key@, i as int);
            }
            return Some(i);
        }
        i = i + 1;
    }
    proof {
        lemma_assoc_none(es, key@);
    }
    None
}

/// Commits one `key = value` pair into the block's collections, as
/// [`spec_insert`] describes.
fn insert_val(
    map: &mut Vec<(String, Value)>,
    multi: &mut Vec<(String, Vec<Value>)>,
    key: String,
    value: Value,
    arr: bool,
)
    ensures
        ({
            let (m2, mu2) = spec_insert(
                entries_view(old(map)@),
                multi_view(old(multi)@),
                key@,
                value@,
                arr,
            );
            entries_view(final(map)@) == m2 && multi_view(final(multi)@) == mu2
        }),
{
    let ghost m0 = entries_view(map@);
    let ghost mu0 = multi_view(multi@);
    let v = parse_scalar(value);
    if arr {
        let pos = find_key_value(map, &key);
        if matches!(v, Value::Null) {
            match pos {
                Some(_) => {},
                None => {
                    map.push((key, Value::Null));
                    assert(entries_view(map@) =~= m0.push((key@, SpecValue::Null)));
                },
            }
        } else {
            let elems: Vec<Value> = match v {
                Value::Array(a) => a,
                other => {
                    let mut e: Vec<Value> = Vec::new();
                    e.push(other);
                    proof {
                        assert(vals_view(e@) =~= seq![spec_parse_scalar(value@)]);
                    }
                    e
                },
            };
            let ghost espec = vals_view(elems@);
            match pos {
                Some(i) => {
                    let entry = map.remove(i);
                    let newv = match entry.1 {
                        Value::Array(cur) => {
                            let mut cur = cur;
                            let mut el = elems;
                            let ghost cur0 = vals_view(cur@);
                            cur.append(&mut el);
                            proof {
                                assert(vals_view(cur@) =~= cur0 + espec);
                            }
                            Value::Array(cur)
                        },
                        _ => Value::Array(elems),
                    };
                    map.insert(i, (entry.0, newv));
                    assert(entries_view(map@) =~= m0.update(i as int, (key@, newv@)));
                },
                None => {
                    map.push((key, Value::Array(elems)));
                    assert(entries_view(map@) =~= m0.push((key@, SpecValue::Array(espec))));
                },
            }
        }
    } else {
        let pos = find_key_value(map, &key);
        match pos {
            Some(_) => {
                let mpos = find_key_multi(multi, &key);
                match mpos {
                    Some(j) => {
                        let entry = multi.remove(j);
                        let (ks, vs) = entry;
                        let mut vs = vs;
                        let ghost vs0 = vals_view(vs@);
                        vs.push(v);
                        proof {
                            assert(vals_view(vs@) =~= vs0.push(spec_parse_scalar(value@)));
                        }
                        multi.insert(j, (ks, vs));
                        assert(multi_view(multi@) =~= mu0.update(
                            j as int,
                            (key@, vs0.push(spec_parse_scalar(value@))),
                        ));
                    },
                    None => {
                        let mut vs: Vec<Value> = Vec::new();
                        vs.push(v);
                        proof {
                            assert(vals_view(vs@) =~= seq![spec_parse_scalar(value@)]);
                        }
                        multi.push((key, vs));
                        assert(multi_view(multi@) =~= mu0.push(
                            (key@, seq![spec_parse_scalar(value@)]),
                        ));
                    },
                }
            },
            None => {
                map.push((key, v));
                assert(entries_view(map@) =~= m0.push((key@, spec_parse_scalar(value@))));
            },
        }
    }
}

/// Skips one right-hand side without building a value, as [`spec_skip`]
/// describes: the returned word, if any, may turn out to be the next key.
#[verifier::loop_isolation(false)]
fn skip_value(lex: &mut Lexer) -> (r: Result<Option<String>, ParseError>)
    requires
        old(lex).wf(),
    ensures
        final(lex).wf(),
        final(lex).input() == old(lex).input(),
        match spec_skip(old(lex).input(), old(lex).cursor(), 0) {
            SpecSkip::Word(w, p) => {
                &&& match r {
                    Ok(Some(word)) => word@ == w,
                    _ => false,
                }
                &&& final(lex).cursor() == p
            },
            SpecSkip::Block(p) => r matches Ok(None) && final(lex).cursor() == p,
            SpecSkip::Fail(er) => match r {
                Err(e) => e@ == er,
                _ => false,
            },
        },
{
    let ghost s = lex.input();
    let ghost i0 = lex.cursor();
    let mut depth: u64 = 0;
    loop
        invariant
            lex.wf(),
            lex.input() == s,
            i0 <= lex.cursor() <= s.len(),
            depth <= lex.cursor() - i0,
            spec_skip(s, i0, 0) == spec_skip(s, lex.cursor(), depth as int),
        decreases s.len() - lex.cursor(),
    {
        let ghost i = lex.cursor();
        let before = lex.position();
        let tok = lex.next();
        proof {
            lemma_next_token_advances(s, i);
        }
        match tok {
            None => {
                if depth == 0 {
                    return Ok(None);
                } else {
                    return Err(ParseError::UnexpectedEof);
                }
            },
            Some(Err(e)) => {
                return Err(ParseError::Lex(e));
            },
            Some(Ok(Token::Text(w))) => {
                if depth == 0 {
                    return Ok(Some(w));
                }
            },
            Some(Ok(Token::Str(w))) => {
                if depth == 0 {
                    return Ok(Some(w));
                }
            },
            Some(Ok(Token::Equals)) => {
                if depth == 0 {
                    return Err(ParseError::UnexpectedToken(before));
                }
            },
            Some(Ok(Token::Comment)) => {},
            Some(Ok(Token::Open)) => {
                depth = depth + 1;
            },
            Some(Ok(Token::Close)) => {
                if depth == 0 {
                    return Err(ParseError::UnexpectedToken(before));
                } else if depth == 1 {
                    return Ok(None);
                } else {
                    depth = depth - 1;
                }
            },
        }
    }
}

/// Resolves a finished block's collections into its value, as
/// [`spec_finalize`] describes.
#[verifier::loop_isolation(false)]
#[verifier::rlimit(50)]
fn finalize_block(
    filter: &Filter,
    map: Vec<(String, Value)>,
    multi: Vec<(String, Vec<Value>)>,
    items: Vec<Value>,
    key: Option<String>,
    value: Option<String>,
    assigning: bool,
) -> (r: Result<Value, ParseError>)
    ensures
        match spec_finalize(
            filter@,
            SpecState {
                map: entries_view(map@),
                multi: multi_view(multi@),
                items: vals_view(items@),
                key: opt_view(key),
                value: opt_view(value),
                assigning: assigning,
            },
        ) {
            Ok(v) => match r {
                Ok(val) => val@ == v,
                _ => false,
            },
            Err(er) => match r {
                Err(e) => e@ == er,
                _ => false,
            },
        },
{
    let ghost st0 = SpecState {
        map: entries_view(map@),
        multi: multi_view(multi@),
        items: vals_view(items@),
        key: opt_view(key),
        value: opt_view(value),
        assigning: assigning,
    };
    let kf = next_filter_array(filter);
    let mut map = map;
    let mut multi = multi;
    let mut items = items;
    if key.is_some() && value.is_some() {
        let k = key.unwrap();
        let arr = is_key_array(&k, kf);
        insert_val(&mut map, &mut multi, k, Value::Str(value.unwrap()), arr);
    } else if key.is_some() && !assigning {
        items.push(Value::Str(key.unwrap()));
        assert(vals_view(items@) =~= st0.items.push(SpecValue::Str(st0.key->0)));
    } else if key.is_some() {
        let k = key.unwrap();
        let arr = is_key_array(&k, kf);
        insert_val(&mut map, &mut multi, k, Value::Null, arr);
    }
    let ghost st = spec_trailing(filter@, st0);
    assert(entries_view(map@) == st.map && multi_view(multi@) == st.multi && vals_view(items@)
        == st.items);
    if map.len() == 0 && items.len() == 0 {
        if matches!(filter, Filter::Array(_)) {
            let out: Vec<Value> = Vec::new();
            assert(out@ =~= Seq::<Value>::empty());
            assert(vals_view(out@) =~= Seq::<SpecValue>::empty());
            Ok(Value::Array(out))
        } else {
            let out: Vec<(String, Value)> = Vec::new();
            assert(entries_view(out@) =~= Seq::<(Seq<char>, SpecValue)>::empty());
            Ok(Value::Object(out))
        }
    } else if map.len() == 0 {
        let ghost full = vals_view(items@);
        let mut out: Vec<Value> = Vec::new();
        while items.len() > 0
            invariant
                vals_view(out@) =~= spec_scalars(full).subrange(0, out@.len() as int),
                vals_view(items@) =~= full.subrange(out@.len() as int, full.len() as int),
                out@.len() + items@.len() == full.len(),
            decreases items@.len(),
        {
            let ghost n = out@.len() as int;
            let ghost pre = items@;
            let it = items.remove(0);
            proof {
                assert(vals_view(pre)[0] == it@);
                assert(full.subrange(n, full.len() as int)[0] == full[n]);
                assert(it@ == full[n]);
                assert forall|j: int| 0 <= j < items@.len() implies #[trigger] vals_view(
                    items@,
                )[j] == full[n + 1 + j] by {
                    assert(items@[j] == pre[j + 1]);
                    assert(vals_view(pre)[j + 1] == full.subrange(n, full.len() as int)[j + 1]);
                }
            }
            out.push(parse_scalar(it));
            assert(vals_view(out@) =~= spec_scalars(full).subrange(0, n + 1));
            assert(vals_view(items@) =~= full.subrange(n + 1, full.len() as int));
        }
        assert(vals_view(out@) =~= spec_scalars(full));
        Ok(Value::Array(out))
    } else if items.len() == 0 {
        if multi.len() > 0 {
            let ghost mfull = multi_view(multi@);
            let mut mobj: Vec<(String, Value)> = Vec::new();
            while multi.len() > 0
                invariant
                    entries_view(mobj@) =~= spec_multi_object(mfull).subrange(
                        0,
                        mobj@.len() as int,
                    ),
                    multi_view(multi@) =~= mfull.subrange(mobj@.len() as int, mfull.len() as int),
                    mobj@.len() + multi@.len() == mfull.len(),
                decreases multi@.len(),
            {
                let ghost n = mobj@.len() as int;
                let ghost pre = multi@;
                let (k, vs) = multi.remove(0);
                proof {
                    assert(multi_view(pre)[0] == (k@, vals_view(vs@)));
                    assert(mfull.subrange(n, mfull.len() as int)[0] == mfull[n]);
                    assert(k@ == mfull[n].0 && vals_view(vs@) == mfull[n].1);
                    assert forall|j: int| 0 <= j < multi@.len() implies #[trigger] multi_view(
                        multi@,
                    )[j] == mfull[n + 1 + j] by {
                        assert(multi@[j] == pre[j + 1]);
                        assert(multi_view(pre)[j + 1] == mfull.subrange(n, mfull.len() as int)[j
                            + 1]);
                    }
                }
                mobj.push((k, Value::Array(vs)));
                assert(entries_view(mobj@) =~= spec_multi_object(mfull).subrange(0, n + 1));
                assert(multi_view(multi@) =~= mfull.subrange(n + 1, mfull.len() as int));
            }
            assert(entries_view(mobj@) =~= spec_multi_object(mfull));
            let ghost m1 = entries_view(map@);
            let mk = String::from_str("$multiKeys");
            match find_key_value(&map, &mk) {
                Some(i) => {
                    let entry = map.remove(i);
                    map.insert(i, (entry.0, Value::Object(mobj)));
                    assert(entries_view(map@) =~= m1.update(
                        i as int,
                        ("$multiKeys"@, SpecValue::Object(spec_multi_object(st.multi))),
                    ));
                },
                None => {
                    map.push((mk, Value::Object(mobj)));
                    assert(entries_view(map@) =~= m1.push(
                        ("$multiKeys"@, SpecValue::Object(spec_multi_object(st.multi))),
                    ));
                },
            }
        }
        let ghost m2 = entries_view(map@);
        let mut out: Vec<(String, Value)> = Vec::new();
        while map.len() > 0
            invariant
                drop_nulls(m2) =~= entries_view(out@) + drop_nulls(entries_view(map@)),
            decreases map@.len(),
        {
            let ghost rem = entries_view(map@);
            let ghost done = entries_view(out@);
            let e = map.remove(0);
            assert((e.0@, e.1@) == rem[0]);
            assert(entries_view(map@) =~= rem.drop_first());
            if !matches!(e.1, Value::Null) {
                out.push(e);
                assert(entries_view(out@) =~= done.push(rem[0]));
                assert(done.push(rem[0]) + drop_nulls(rem.drop_first()) =~= done + (seq![rem[0]]
                    + drop_nulls(rem.drop_first())));
            }
        }
        assert(entries_view(map@) =~= Seq::<(Seq<char>, SpecValue)>::empty());
        assert(drop_nulls(m2) =~= entries_view(out@));
        Ok(Value::Object(out))
    } else {
        Err(ParseError::MixedContainer)
    }
}

/// Parses the body of one block, as [`spec_parse_block`] describes:
/// called with `root` at the top of the document, and without it for each
/// `{ … }`.
#[verifier::loop_isolation(false)]
fn parse_object(lex: &mut Lexer, filter: &Filter, root: bool) -> (r: Result<Value, ParseError>)
    requires
        old(lex).wf(),
    ensures
        final(lex).wf(),
        final(lex).input() == old(lex).input(),
        match spec_parse_block(old(lex).input(), old(lex).cursor(), filter@, init_state(), root) {
            BlockRes::Done(v, k) => {
                &&& match r {
                    Ok(val) => val@ == v,
                    _ => false,
                }
                &&& final(lex).cursor() == k
            },
            BlockRes::Fail(er) => match r {
                Err(e) => e@ == er,
                _ => false,
            },
        },
    decreases lex.input().len() - lex.cursor(),
{
    let ghost s = lex.input();
    let ghost i0 = lex.cursor();
    let ghost f = filter@;
    let kf = next_filter_array(filter);
    let mut map: Vec<(String, Value)> = Vec::new();
    let mut multi: Vec<(String, Vec<Value>)> = Vec::new();
    let mut items: Vec<Value> = Vec::new();
    let mut key: Option<String> = None;
    let mut value: Option<String> = None;
    let mut assigning: bool = false;
    proof {
        assert(entries_view(map@) =~= init_state().map);
        assert(multi_view(multi@) =~= init_state().multi);
        assert(vals_view(items@) =~= init_state().items);
        assert(SpecState {
            map: entries_view(map@),
            multi: multi_view(multi@),
            items: vals_view(items@),
            key: opt_view(key),
            value: opt_view(value),
            assigning: assigning,
        } =~= init_state());
    }
    loop
        invariant
            lex.wf(),
            lex.input() == s,
            i0 <= lex.cursor(),
            assigning ==> key is Some && spec_is_key_included(opt_view(key)->0, spec_next_filter_array(f)),
            value is Some ==> !assigning && key is Some,
            spec_parse_block(s, i0, f, init_state(), root) == spec_parse_block(
                s,
                lex.cursor(),
                f,
                SpecState {
                    map: entries_view(map@),
                    multi: multi_view(multi@),
                    items: vals_view(items@),
                    key: opt_view(key),
                    value: opt_view(value),
                    assigning: assigning,
                },
                root,
            ),
        decreases s.len() - lex.cursor(),
    {
        let ghost i = lex.cursor();
        let ghost stv = SpecState {
            map: entries_view(map@),
            multi: multi_view(multi@),
            items: vals_view(items@),
            key: opt_view(key),
            value: opt_view(value),
            assigning: assigning,
        };
        let before = lex.position();
        let tok = lex.next();
        proof {
            lemma_next_token_advances(s, i);
        }
        match tok {
            None => {
                if root {
                    return finalize_block(filter, map, multi, items, key, value, assigning);
                } else {
                    return Err(ParseError::UnexpectedEof);
                }
            },
            Some(Err(e)) => {
                return Err(ParseError::Lex(e));
            },
            Some(Ok(Token::Comment)) => {
                assert(spec_parse_block(s, i0, f, init_state(), root) == spec_parse_block(
                    s,
                    lex.cursor(),
                    f,
                    stv,
                    root,
                ));
            },
            Some(Ok(Token::Close)) => {
                return finalize_block(filter, map, multi, items, key, value, assigning);
            },
            Some(Ok(Token::Text(w))) | Some(Ok(Token::Str(w))) => {
                if assigning {
                    value = Some(w);
                    assigning = false;
                } else if key.is_some() && value.is_some() {
                    let k = key.unwrap();
                    let arr = is_key_array(&k, kf);
                    insert_val(&mut map, &mut multi, k, Value::Str(value.unwrap()), arr);
                    value = None;
                    key = Some(w);
                } else if key.is_some() {
                    items.push(Value::Str(key.unwrap()));
                    assert(vals_view(items@) =~= stv.items.push(SpecValue::Str(stv.key->0)));
                    key = Some(w);
                } else {
                    key = Some(w);
                }
                proof {
                    assert(SpecState {
                        map: entries_view(map@),
                        multi: multi_view(multi@),
                        items: vals_view(items@),
                        key: opt_view(key),
                        value: opt_view(value),
                        assigning: assigning,
                    } =~= spec_step_word(f, stv, token_word(tok)));
                }
            },
            Some(Ok(Token::Equals)) => {
                if key.is_none() {
                    return Err(ParseError::UnexpectedToken(before));
                }
                if value.is_some() {
                    let k = key.unwrap();
                    let arr = is_key_array(&k, kf);
                    insert_val(&mut map, &mut multi, k, Value::Null, arr);
                    key = Some(value.unwrap());
                    value = None;
                }
                let ghost st1 = spec_step_null_commit(f, stv);
                proof {
                    assert(SpecState {
                        map: entries_view(map@),
                        multi: multi_view(multi@),
                        items: vals_view(items@),
                        key: opt_view(key),
                        value: opt_view(value),
                        assigning: assigning,
                    } =~= st1);
                }
                let included = is_key_included(key.as_ref().unwrap(), kf);
                if included {
                    assigning = true;
                } else {
                    key = None;
                    let ghost e = lex.cursor();
                    match skip_value(lex) {
                        Err(er) => {
                            return Err(er);
                        },
                        Ok(sk) => {
                            proof {
                                lemma_skip_bounds(s, e, 0);
                            }
                            let t2 = lex.peek();
                            if matches!(t2, Some(Ok(Token::Equals))) {
                                if let Some(wd) = sk {
                                    key = Some(wd);
                                }
                            }
                        },
                    }
                }
            },
            Some(Ok(Token::Open)) => {
                let ghost e = lex.cursor();
                if assigning {
                    let k = key.unwrap();
                    let subf = next_filter(&k, kf);
                    let sub = parse_object(lex, subf, false);
                    proof {
                        lemma_block_bounds(s, e, subf@, init_state(), false);
                    }
                    match sub {
                        Err(er) => {
                            return Err(er);
                        },
                        Ok(v) => {
                            let arr = is_key_array(&k, kf);
                            insert_val(&mut map, &mut multi, k, v, arr);
                            key = None;
                            assigning = false;
                        },
                    }
                } else {
                    if key.is_some() && value.is_some() {
                        let k = key.unwrap();
                        let arr = is_key_array(&k, kf);
                        insert_val(&mut map, &mut multi, k, Value::Str(value.unwrap()), arr);
                        key = None;
                        value = None;
                    } else if key.is_some() {
                        items.push(Value::Str(key.unwrap()));
                        assert(vals_view(items@) =~= stv.items.push(SpecValue::Str(stv.key->0)));
                        key = None;
                    }
                    let ghost st1 = spec_step_drain(f, stv);
                    proof {
                        assert(SpecState {
                            map: entries_view(map@),
                            multi: multi_view(multi@),
                            items: vals_view(items@),
                            key: opt_view(key),
                            value: opt_view(value),
                            assigning: assigning,
                        } =~= st1);
                    }
                    let subf = next_filter_array(filter);
                    let sub = parse_object(lex, subf, false);
                    proof {
                        lemma_block_bounds(s, e, subf@, init_state(), false);
                    }
                    match sub {
                        Err(er) => {
                            return Err(er);
                        },
                        Ok(v) => {
                            let ghost itemspre = vals_view(items@);
                            items.push(v);
                            assert(vals_view(items@) =~= itemspre.push(v@));
                        },
                    }
                }
            },
        }
    }
}

/// The word a token carries; blank for wordless tokens.
spec fn token_word(tok: Option<Result<Token, LexError>>) -> Seq<char> {
    match tok {
        Some(Ok(Token::Text(w))) => w@,
        Some(Ok(Token::Str(w))) => w@,
        _ => Seq::empty(),
    }
}

/// Parses a whole document, filtered: the text is read as the body of an
/// implicit outer block, and the result is exactly what [`spec_parse`]
/// assigns to the text and the filter.
///
/// Keys the filter excludes are skipped without building values.  A key
/// with no right-hand side parses as null and is dropped from its object.
/// Repeated keys keep their first value, with later values collected
/// under `"$multiKeys"`, except keys the filter marks as arrays, which
/// collect every value.  The error cases: a lexing error, an `=` with no
/// key to its left (or a stray `=` or `}` in a skipped value), a block
/// mixing bare items with `key = value` entries, and input that ends
/// inside a block.
pub fn parse(string: &str, filter: &Filter) -> (r: Result<Value, ParseError>)
    ensures
        match spec_parse(string@, filter@) {
            Ok(v) => match r {
                Ok(val) => val@ == v,
                _ => false,
            },
            Err(er) => match r {
                Err(e) => e@ == er,
                _ => false,
            },
        },
{
    let mut lex = Lexer::new(string);
    parse_object(&mut lex, filter, true)
}

} // verus!
