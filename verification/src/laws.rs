//! Laws of the parser, proved for every input and filter.
//!
//! The theorems at the end of this module state, over [`spec_parse`]:
//! that every value tree a parse emits is well formed — each object's
//! keys pairwise distinct and none of its entries null; that the words
//! `yes`, `no` and `none` never survive as string values; and that every
//! top-level key of an emitted object was either kept by the filter or is
//! the `"$multiKeys"` side channel.  [`crate::parser::parse`] returns
//! exactly what `spec_parse` assigns, so they hold of everything it
//! returns.

use vstd::prelude::*;
use crate::filter::{spec_is_key_array, spec_is_key_included, spec_next_filter, spec_next_filter_array};
use crate::lexer::{next_token, lemma_next_token_advances, SpecLex, SpecToken};
use crate::parser::{
    clamp, init_state, spec_finalize, spec_insert, spec_multi_object,
    spec_parse, spec_parse_block, spec_scalars, spec_skip, spec_step_drain, spec_step_null_commit,
    spec_step_word, spec_trailing, drop_nulls, lemma_skip_bounds, BlockRes, SpecSkip, SpecState,
};
use crate::scalar::spec_parse_scalar;
use crate::value::{assoc_get, assoc_has, assoc_index, SpecFilter, SpecValue};

verus! {

broadcast use vstd::seq::axiom_seq_index_decreases;

/// No string value of the tree spells `yes`, `no` or `none`: wherever
/// those words stood as values, coercion replaced them.  Keys are words,
/// not values, and are exempt.
pub open spec fn no_sentinel(v: SpecValue) -> bool
    decreases v,
{
    match v {
        SpecValue::Str(s) => s != "yes"@ && s != "no"@ && s != "none"@,
        SpecValue::Array(a) => forall|i: int| 0 <= i < a.len() ==> no_sentinel(#[trigger] a[i]),
        SpecValue::Object(m) => forall|i: int|
            0 <= i < m.len() ==> no_sentinel((#[trigger] m[i]).1),
        _ => true,
    }
}

/// A well-formed tree: every object's keys are pairwise distinct, no
/// object entry is null, and the same holds below.  Arrays may hold
/// nulls; only object entries drop them.
pub open spec fn wf_value(v: SpecValue) -> bool
    decreases v,
{
    match v {
        SpecValue::Array(a) => forall|i: int| 0 <= i < a.len() ==> wf_value(#[trigger] a[i]),
        SpecValue::Object(m) => {
            &&& forall|i: int, j: int|
                0 <= i < j < m.len() ==> (#[trigger] m[i]).0 != (#[trigger] m[j]).0
            &&& forall|i: int|
                0 <= i < m.len() ==> !((#[trigger] m[i]).1 is Null) && wf_value(m[i].1)
        },
        _ => true,
    }
}

/// A value the parser may emit: well formed and fully coerced.
pub open spec fn good_value(v: SpecValue) -> bool {
    no_sentinel(v) && wf_value(v)
}

/// If the value is an object, each of its keys was kept by the filter,
/// or is the `"$multiKeys"` side channel.  Keys are tested against the
/// block's key filter: the filter itself, except that an array filter is
/// unwrapped to its element filter first.
pub open spec fn object_keys_included(v: SpecValue, f: SpecFilter) -> bool {
    v matches SpecValue::Object(m) ==> forall|i: int|
        0 <= i < m.len() ==> (#[trigger] m[i]).0 == "$multiKeys"@ || spec_is_key_included(
            m[i].0,
            spec_next_filter_array(f),
        )
}

/// The committed entries of a block: keys pairwise distinct, each key
/// kept by the block's key filter, each value coerced and well formed.
pub open spec fn good_entries(map: Seq<(Seq<char>, SpecValue)>, kf: SpecFilter) -> bool {
    &&& forall|i: int, j: int|
        0 <= i < j < map.len() ==> (#[trigger] map[i]).0 != (#[trigger] map[j]).0
    &&& forall|i: int|
        0 <= i < map.len() ==> spec_is_key_included((#[trigger] map[i]).0, kf) && good_value(
            map[i].1,
        )
}

/// The repeated-key collection: keys pairwise distinct and kept, every
/// collected value coerced and well formed.
pub open spec fn good_multi(multi: Seq<(Seq<char>, Seq<SpecValue>)>, kf: SpecFilter) -> bool {
    &&& forall|i: int, j: int|
        0 <= i < j < multi.len() ==> (#[trigger] multi[i]).0 != (#[trigger] multi[j]).0
    &&& forall|i: int|
        0 <= i < multi.len() ==> spec_is_key_included((#[trigger] multi[i]).0, kf)
    &&& forall|i: int, j: int|
        0 <= i < multi.len() && 0 <= j < multi[i].1.len() ==> good_value(
            #[trigger] multi[i].1[j],
        )
}

/// The bare items collected so far: raw words still to be coerced, or
/// finished good values.
pub open spec fn good_items(items: Seq<SpecValue>) -> bool {
    forall|i: int| 0 <= i < items.len() ==> (#[trigger] items[i]) is Str || good_value(items[i])
}

/// The pending holders: a held value belongs to a held, kept key with no
/// `=` outstanding, and an outstanding `=` belongs to a held, kept key.
pub open spec fn good_holders(
    key: Option<Seq<char>>,
    value: Option<Seq<char>>,
    assigning: bool,
    kf: SpecFilter,
) -> bool {
    &&& value is Some ==> !assigning && key is Some && spec_is_key_included(key->0, kf)
    &&& assigning ==> key is Some && spec_is_key_included(key->0, kf)
}

/// What holds of the parser's state throughout a block.
pub open spec fn good_state(st: SpecState, f: SpecFilter) -> bool {
    let kf = spec_next_filter_array(f);
    &&& good_entries(st.map, kf)
    &&& good_multi(st.multi, kf)
    &&& good_items(st.items)
    &&& good_holders(st.key, st.value, st.assigning, kf)
}

/// Coercion sends raw words, and good values, to good values.
proof fn lemma_parse_scalar_good(v: SpecValue)
    requires
        v is Str || good_value(v),
    ensures
        good_value(spec_parse_scalar(v)),
{
}

/// What `assoc_index` finding or missing a key means for the entries.
proof fn lemma_assoc_semantics<V>(m: Seq<(Seq<char>, V)>, key: Seq<char>)
    ensures
        assoc_index(m, key) == -1 ==> forall|j: int|
            0 <= j < m.len() ==> (#[trigger] m[j]).0 != key,
        assoc_index(m, key) >= 0 ==> 0 <= assoc_index(m, key) < m.len() && m[assoc_index(
            m,
            key,
        )].0 == key,
    decreases m.len(),
{
    if m.len() > 0 {
        let m2 = m.drop_first();
        lemma_assoc_semantics(m2, key);
        if m[0].0 != key {
            assert forall|j: int|
                0 <= j < m.len() && assoc_index(m, key) == -1 implies (#[trigger] m[j]).0
                != key by {
                if j > 0 {
                    assert(m2[j - 1] == m[j]);
                }
            }
            if assoc_index(m2, key) >= 0 {
                assert(m2[assoc_index(m2, key)] == m[assoc_index(m2, key) + 1]);
            }
        }
    }
}

/// Dropping null entries keeps the keys distinct, keeps only entries of
/// the original, and leaves no null entry.
proof fn lemma_drop_nulls(m: Seq<(Seq<char>, SpecValue)>)
    requires
        forall|i: int, j: int| 0 <= i < j < m.len() ==> (#[trigger] m[i]).0 != (#[trigger] m[j]).0,
    ensures
        forall|i: int, j: int|
            0 <= i < j < drop_nulls(m).len() ==> (#[trigger] drop_nulls(m)[i]).0 != (#[trigger] drop_nulls(
                m,
            )[j]).0,
        forall|i: int|
            0 <= i < drop_nulls(m).len() ==> exists|j: int|
                0 <= j < m.len() && #[trigger] drop_nulls(m)[i] == m[j],
        forall|i: int| 0 <= i < drop_nulls(m).len() ==> !((#[trigger] drop_nulls(m)[i]).1 is Null),
    decreases m.len(),
{
    if m.len() > 0 {
        let m2 = m.drop_first();
        assert forall|i: int, j: int| 0 <= i < j < m2.len() implies (#[trigger] m2[i]).0
            != (#[trigger] m2[j]).0 by {
            assert(m2[i] == m[i + 1] && m2[j] == m[j + 1]);
        }
        lemma_drop_nulls(m2);
        let d2 = drop_nulls(m2);
        assert forall|i: int| 0 <= i < d2.len() implies exists|j: int|
            0 <= j < m.len() && #[trigger] d2[i] == m[j] by {
            let j2 = choose|j2: int| 0 <= j2 < m2.len() && d2[i] == m2[j2];
            assert(m2[j2] == m[j2 + 1]);
        }
        if !(m[0].1 is Null) {
            let d = drop_nulls(m);
            assert(d == seq![m[0]] + d2);
            assert forall|i: int, j: int| 0 <= i < j < d.len() implies (#[trigger] d[i]).0
                != (#[trigger] d[j]).0 by {
                if i == 0 {
                    let j2 = choose|j2: int| 0 <= j2 < m2.len() && d2[j - 1] == m2[j2];
                    assert(m2[j2] == m[j2 + 1]);
                    assert(d[j] == d2[j - 1]);
                } else {
                    assert(d[i] == d2[i - 1] && d[j] == d2[j - 1]);
                }
            }
            assert forall|i: int| 0 <= i < d.len() implies exists|j: int|
                0 <= j < m.len() && #[trigger] d[i] == m[j] by {
                if i == 0 {
                    assert(d[0] == m[0]);
                } else {
                    assert(d[i] == d2[i - 1]);
                }
            }
            assert forall|i: int| 0 <= i < d.len() implies !((#[trigger] d[i]).1 is Null) by {
                if i > 0 {
                    assert(d[i] == d2[i - 1]);
                }
            }
        }
    }
}

/// Committing a kept key with a raw word or a good value keeps the
/// state's collections good.
proof fn lemma_insert_good(st: SpecState, f: SpecFilter, key: Seq<char>, value: SpecValue)
    requires
        good_state(st, f),
        spec_is_key_included(key, spec_next_filter_array(f)),
        value is Str || good_value(value),
    ensures
        ({
            let (m2, mu2) = spec_insert(
                st.map,
                st.multi,
                key,
                value,
                spec_is_key_array(key, spec_next_filter_array(f)),
            );
            good_entries(m2, spec_next_filter_array(f)) && good_multi(
                mu2,
                spec_next_filter_array(f),
            )
        }),
{
    lemma_parse_scalar_good(value);
    lemma_assoc_semantics(st.map, key);
    lemma_assoc_semantics(st.multi, key);
    let v = spec_parse_scalar(value);
    let arr = spec_is_key_array(key, spec_next_filter_array(f));
    let (m2, mu2) = spec_insert(st.map, st.multi, key, value, arr);
    if arr && !(v is Null) {
        let elems = match v {
            SpecValue::Array(a) => a,
            _ => seq![v],
        };
        assert(forall|j: int| 0 <= j < elems.len() ==> good_value(#[trigger] elems[j]));
        if assoc_has(st.map, key) {
            let idx = assoc_index(st.map, key);
            match st.map[idx].1 {
                SpecValue::Array(cur) => {
                    let merged = cur + elems;
                    assert(forall|j: int|
                        0 <= j < merged.len() ==> good_value(#[trigger] merged[j]));
                    assert(good_value(SpecValue::Array(merged)));
                },
                _ => {
                    assert(good_value(SpecValue::Array(elems)));
                },
            }
        } else {
            assert(good_value(SpecValue::Array(elems)));
        }
    }
    if !arr && assoc_has(st.map, key) && assoc_has(st.multi, key) {
        let idx = assoc_index(st.multi, key);
        assert(forall|j: int|
            0 <= j < st.multi[idx].1.len() ==> good_value(#[trigger] st.multi[idx].1[j]));
    }
}

#[verifier::rlimit(50)]
proof fn lemma_step_word_good(f: SpecFilter, st: SpecState, w: Seq<char>)
    requires
        good_state(st, f),
    ensures
        good_state(spec_step_word(f, st, w), f),
{
    if !st.assigning && st.key is Some && st.value is Some {
        lemma_insert_good(st, f, st.key->0, SpecValue::Str(st.value->0));
    }
}

#[verifier::rlimit(50)]
proof fn lemma_null_commit_good(f: SpecFilter, st: SpecState)
    requires
        good_state(st, f),
        st.key is Some,
    ensures
        good_state(spec_step_null_commit(f, st), f),
        !spec_step_null_commit(f, st).assigning || spec_is_key_included(
            spec_step_null_commit(f, st).key->0,
            spec_next_filter_array(f),
        ),
{
    if st.value is Some {
        lemma_insert_good(st, f, st.key->0, SpecValue::Null);
    }
}

#[verifier::rlimit(50)]
proof fn lemma_drain_good(f: SpecFilter, st: SpecState)
    requires
        good_state(st, f),
        !st.assigning,
    ensures
        good_state(spec_step_drain(f, st), f),
{
    if st.key is Some && st.value is Some {
        lemma_insert_good(st, f, st.key->0, SpecValue::Str(st.value->0));
    }
}

#[verifier::rlimit(80)]
proof fn lemma_finalize_good(f: SpecFilter, st0: SpecState)
    requires
        good_state(st0, f),
    ensures
        spec_finalize(f, st0) matches Ok(v) ==> good_value(v) && object_keys_included(v, f),
{
    let kf = spec_next_filter_array(f);
    if st0.key is Some && st0.value is Some {
        lemma_insert_good(st0, f, st0.key->0, SpecValue::Str(st0.value->0));
    } else if st0.key is Some && st0.assigning {
        lemma_insert_good(st0, f, st0.key->0, SpecValue::Null);
    }
    let st = spec_trailing(f, st0);
    assert(good_entries(st.map, kf));
    assert(good_multi(st.multi, kf));
    assert(good_items(st.items));
    if st.map.len() == 0 && st.items.len() == 0 {
    } else if st.map.len() == 0 {
        let out = spec_scalars(st.items);
        assert forall|i: int| 0 <= i < out.len() implies good_value(#[trigger] out[i]) by {
            lemma_parse_scalar_good(st.items[i]);
        }
        assert(good_value(SpecValue::Array(out)));
    } else if st.items.len() == 0 {
        let m2 = if st.multi.len() > 0 {
            let side = SpecValue::Object(spec_multi_object(st.multi));
            if assoc_has(st.map, "$multiKeys"@) {
                crate::value::assoc_set(st.map, "$multiKeys"@, side)
            } else {
                st.map.push(("$multiKeys"@, side))
            }
        } else {
            st.map
        };
        if st.multi.len() > 0 {
            let mo = spec_multi_object(st.multi);
            assert forall|i: int| 0 <= i < mo.len() implies !((#[trigger] mo[i]).1 is Null)
                && wf_value(mo[i].1) && no_sentinel(mo[i].1) by {
                assert(mo[i].1 == SpecValue::Array(st.multi[i].1));
                assert(forall|j: int|
                    0 <= j < st.multi[i].1.len() ==> good_value(#[trigger] st.multi[i].1[j]));
            }
            assert forall|i: int, j: int| 0 <= i < j < mo.len() implies (#[trigger] mo[i]).0
                != (#[trigger] mo[j]).0 by {
                assert(mo[i].0 == st.multi[i].0 && mo[j].0 == st.multi[j].0);
            }
            assert(good_value(SpecValue::Object(mo)));
            lemma_assoc_semantics(st.map, "$multiKeys"@);
        }
        assert(forall|i: int, j: int|
            0 <= i < j < m2.len() ==> (#[trigger] m2[i]).0 != (#[trigger] m2[j]).0);
        assert(forall|i: int|
            0 <= i < m2.len() ==> ((#[trigger] m2[i]).0 == "$multiKeys"@ || spec_is_key_included(
                m2[i].0,
                kf,
            )) && good_value(m2[i].1));
        lemma_drop_nulls(m2);
        let d = drop_nulls(m2);
        assert forall|i: int| 0 <= i < d.len() implies good_value((#[trigger] d[i]).1)
            && (d[i].0 == "$multiKeys"@ || spec_is_key_included(d[i].0, kf)) by {
            let j = choose|j: int| 0 <= j < m2.len() && d[i] == m2[j];
            assert(good_value(m2[j].1));
        }
        assert(good_value(SpecValue::Object(d)));
        assert(object_keys_included(SpecValue::Object(d), f));
    }
}

proof fn lemma_init_good(f: SpecFilter)
    ensures
        good_state(init_state(), f),
{
}

/// Every value a finished block yields is well formed, fully coerced,
/// and — if it is an object — keyed only by kept keys and the
/// `"$multiKeys"` side channel.
#[verifier::rlimit(80)]
proof fn lemma_block_good(s: Seq<char>, i: int, f: SpecFilter, st: SpecState, root: bool)
    requires
        0 <= i <= s.len(),
        good_state(st, f),
    ensures
        spec_parse_block(s, i, f, st, root) matches BlockRes::Done(v, k) ==> good_value(v)
            && object_keys_included(v, f),
    decreases s.len() - i, 2int,
{
    lemma_next_token_advances(s, i);
    match next_token(s, i) {
        SpecLex::End => {
            if root {
                lemma_finalize_good(f, st);
            }
        },
        SpecLex::Fail(_, _) => {},
        SpecLex::Tok(t, e) => match t {
            SpecToken::Comment => lemma_block_good(s, e, f, st, root),
            SpecToken::Close => lemma_finalize_good(f, st),
            SpecToken::Text(w) => {
                lemma_step_word_good(f, st, w);
                lemma_block_good(s, e, f, spec_step_word(f, st, w), root);
            },
            SpecToken::Str(w) => {
                lemma_step_word_good(f, st, w);
                lemma_block_good(s, e, f, spec_step_word(f, st, w), root);
            },
            SpecToken::Equals => {
                if st.key is Some {
                    lemma_null_commit_good(f, st);
                    let st1 = spec_step_null_commit(f, st);
                    if spec_is_key_included(st1.key->0, spec_next_filter_array(f)) {
                        lemma_block_good(s, e, f, SpecState { assigning: true, ..st1 }, root);
                    } else {
                        lemma_skip_bounds(s, e, 0);
                        match spec_skip(s, e, 0) {
                            SpecSkip::Word(w, p) => {
                                let p2 = clamp(p, e, s.len() as int);
                                let key2: Option<Seq<char>> = if next_token(s, p2) matches
                                    SpecLex::Tok(SpecToken::Equals, _) {
                                    Some(w)
                                } else {
                                    None
                                };
                                lemma_block_good(s, p2, f, SpecState { key: key2, ..st1 }, root);
                            },
                            SpecSkip::Block(p) => {
                                let p2 = clamp(p, e, s.len() as int);
                                lemma_block_good(s, p2, f, SpecState { key: None, ..st1 }, root);
                            },
                            SpecSkip::Fail(_) => {},
                        }
                    }
                }
            },
            SpecToken::Open => {
                if st.assigning {
                    let subf = spec_next_filter(st.key->0, spec_next_filter_array(f));
                    lemma_init_good(subf);
                    lemma_block_good(s, e, subf, init_state(), false);
                    crate::parser::lemma_block_bounds(s, e, subf, init_state(), false);
                    match spec_parse_block(s, e, subf, init_state(), false) {
                        BlockRes::Done(v, k) => {
                            let k2 = clamp(k, e, s.len() as int);
                            lemma_insert_good(st, f, st.key->0, v);
                            let (m2, mu2) = spec_insert(
                                st.map,
                                st.multi,
                                st.key->0,
                                v,
                                spec_is_key_array(st.key->0, spec_next_filter_array(f)),
                            );
                            lemma_block_good(
                                s,
                                k2,
                                f,
                                SpecState { map: m2, multi: mu2, key: None, assigning: false, ..st },
                                root,
                            );
                        },
                        BlockRes::Fail(_) => {},
                    }
                } else {
                    lemma_drain_good(f, st);
                    let st1 = spec_step_drain(f, st);
                    let subf = spec_next_filter_array(f);
                    lemma_init_good(subf);
                    lemma_block_good(s, e, subf, init_state(), false);
                    crate::parser::lemma_block_bounds(s, e, subf, init_state(), false);
                    match spec_parse_block(s, e, subf, init_state(), false) {
                        BlockRes::Done(v, k) => {
                            let k2 = clamp(k, e, s.len() as int);
                            lemma_block_good(
                                s,
                                k2,
                                f,
                                SpecState { items: st1.items.push(v), ..st1 },
                                root,
                            );
                        },
                        BlockRes::Fail(_) => {},
                    }
                }
            },
        },
    }
}

proof fn lemma_assoc_of_member<V>(m: Seq<(Seq<char>, V)>, j: int)
    requires
        forall|i1: int, i2: int|
            0 <= i1 < i2 < m.len() ==> (#[trigger] m[i1]).0 != (#[trigger] m[i2]).0,
        0 <= j < m.len(),
    ensures
        assoc_index(m, m[j].0) == j,
    decreases m.len(),
{
    let key = m[j].0;
    if j == 0 {
    } else {
        let m2 = m.drop_first();
        assert forall|i1: int, i2: int| 0 <= i1 < i2 < m2.len() implies (#[trigger] m2[i1]).0
            != (#[trigger] m2[i2]).0 by {
            assert(m2[i1] == m[i1 + 1] && m2[i2] == m[i2 + 1]);
        }
        assert(m2[j - 1] == m[j]);
        lemma_assoc_of_member(m2, j - 1);
    }
}

/// Among entries with pairwise distinct keys, the order carries no
/// meaning: two objects holding the same set of entries answer every key
/// lookup alike.  Together with `lemma_parse_well_formed` — every parsed
/// object's keys are distinct — parsing is order-insensitive for object
/// keys, while arrays, being sequences, keep the order of their items.
pub proof fn lemma_object_lookup_order_blind(
    m1: Seq<(Seq<char>, SpecValue)>,
    m2: Seq<(Seq<char>, SpecValue)>,
    key: Seq<char>,
)
    requires
        forall|i: int, j: int| 0 <= i < j < m1.len() ==> (#[trigger] m1[i]).0 != (#[trigger] m1[j]).0,
        forall|i: int, j: int| 0 <= i < j < m2.len() ==> (#[trigger] m2[i]).0 != (#[trigger] m2[j]).0,
        m1.to_set() == m2.to_set(),
    ensures
        assoc_has(m1, key) == assoc_has(m2, key),
        assoc_has(m1, key) ==> assoc_get(m1, key) == assoc_get(m2, key),
{
    lemma_assoc_semantics(m1, key);
    lemma_assoc_semantics(m2, key);
    if assoc_has(m1, key) {
        let j1 = assoc_index(m1, key);
        assert(m1.to_set().contains(m1[j1]));
        assert(m2.to_set().contains(m1[j1]));
        let j2 = choose|j2: int| 0 <= j2 < m2.len() && m2[j2] == m1[j1];
        lemma_assoc_of_member(m2, j2);
    }
    if assoc_has(m2, key) {
        let j2 = assoc_index(m2, key);
        assert(m2.to_set().contains(m2[j2]));
        assert(m1.to_set().contains(m2[j2]));
        let j1 = choose|j1: int| 0 <= j1 < m1.len() && m1[j1] == m2[j2];
        lemma_assoc_of_member(m1, j1);
    }
}

/// Every parse result is well formed: each object has pairwise distinct
/// keys and no null entries, at every depth.  Objects therefore read as
/// maps, whose key order carries no meaning
/// (`lemma_object_lookup_order_blind`), while arrays keep the order of
/// their items.
pub proof fn lemma_parse_well_formed(s: Seq<char>, f: SpecFilter)
    ensures
        spec_parse(s, f) matches Ok(v) ==> wf_value(v),
{
    lemma_init_good(f);
    lemma_block_good(s, 0, f, init_state(), true);
}

/// The sentinel words never appear as string values in a parse result:
/// wherever `yes`, `no` or `none` stood as a value — bare item or
/// right-hand side — coercion turned it into `true`, `false` or null.
pub proof fn lemma_parse_values_coerced(s: Seq<char>, f: SpecFilter)
    ensures
        spec_parse(s, f) matches Ok(v) ==> no_sentinel(v),
{
    lemma_init_good(f);
    lemma_block_good(s, 0, f, init_state(), true);
}

/// Every top-level key of a parsed object was kept by the filter — it is
/// listed, matched by the `"*"` wildcard, or kept by `Bool(true)` —
/// or is the `"$multiKeys"` side channel.  For boolean and object
/// filters the key filter is the filter itself; an array filter tests
/// keys against its element filter.
pub proof fn lemma_parse_keys_filtered(s: Seq<char>, f: SpecFilter)
    ensures
        spec_parse(s, f) matches Ok(v) ==> object_keys_included(v, f),
{
    lemma_init_good(f);
    lemma_block_good(s, 0, f, init_state(), true);
}

} // verus!
