//! Writing a decoded node and decoding it again gives the node back.

use vstd::prelude::*;

use crate::normalize::{
    dec, is_array, key_lt, key_order, keys_in_order, lemma_dec_injective, lemma_dec_no_nul,
    lemma_key_order, lemma_key_order_identity, lemma_key_order_keys, lemma_sort_entries,
    lemma_sort_identity, mapped_entries, normalize_value, normalized_node, pick, sort_entries,
};
use vstd::utf8::{char_u32_cast, encode_scalar, encode_utf8, encode_utf8_decode_utf8, encode_utf8_valid_utf8};

use crate::bytes::{find_nul, le_u32, le_u64, spec_cstring, u32_le, u64_le};
use crate::error::VdfrError;
use crate::parser::{end_marker, spec_entries, spec_key, spec_node, spec_parse_keyvalues, spec_scalar};
use crate::value::{
    lemma_key_index,
    has_key, key_index, keys_unique, lemma_node_insert_from, lemma_node_insert_unique, node_insert, node_nul_free, nul_free,
    NodeModel, VdfValue, BIN_KV,
};
use crate::writer::{enc_entries, enc_items, enc_value, index_node, tag_of};

verus! {

/// `v` with every sequence turned back into a node keyed by the decimal
/// strings of its indices, in key order, as the writer emits it.
pub open spec fn flatten(v: VdfValue) -> VdfValue
    decreases v, 1int,
{
    match v {
        VdfValue::Node(es) => VdfValue::Node(
            Seq::new(
                es.len(),
                |i: int|
                    if 0 <= i < es.len() {
                        (es[i].0, flatten(es[i].1))
                    } else {
                        (Seq::empty(), VdfValue::Int32(0))
                    },
            ),
        ),
        VdfValue::Array(s) => VdfValue::Node(sort_entries(flatten_items(s))),
        _ => v,
    }
}

/// The elements of `s` flattened and keyed by their decimal indices, in
/// index order.
pub open spec fn flatten_items(s: Seq<VdfValue>) -> NodeModel
    decreases s, 0int,
{
    Seq::new(
        s.len(),
        |i: int|
            if 0 <= i < s.len() {
                (dec(i as nat), flatten(s[i]))
            } else {
                (Seq::empty(), VdfValue::Int32(0))
            },
    )
}

/// The entries of `es` with their values flattened.
pub open spec fn flatten_node(es: NodeModel) -> NodeModel {
    Seq::new(es.len(), |i: int| (es[i].0, flatten(es[i].1)))
}

/// A value and its flattened form are written alike.
proof fn lemma_enc_flatten_value(v: VdfValue)
    ensures
        enc_value(flatten(v), Seq::empty()) == enc_value(v, Seq::empty()),
        tag_of(flatten(v)) == tag_of(v),
    decreases v, 1int,
{
    match v {
        VdfValue::Node(es) => {
            let f = flatten(v)->Node_0;
            lemma_enc_flatten_entries(es, f, 0);
        },
        VdfValue::Array(s) => {
            let f = flatten(v)->Node_0;
            lemma_enc_flatten_items(s, f, 0);
        },
        _ => {},
    }
}

/// Entries and their flattened forms are written alike.
proof fn lemma_enc_flatten_entries(es: NodeModel, f: NodeModel, i: int)
    requires
        0 <= i <= es.len(),
        f.len() == es.len(),
        forall|j: int| 0 <= j < es.len() ==> (#[trigger] f[j]) == (es[j].0, flatten(es[j].1)),
    ensures
        enc_entries(f, Seq::empty(), i) == enc_entries(es, Seq::empty(), i),
    decreases es, es.len() - i,
{
    if i < es.len() {
        lemma_key_order_keys(f, es, es.len() as int);
        lemma_key_order(es, es.len() as int);
        let j = key_order(es, es.len() as int)[i];
        assert(0 <= j < es.len());
        assert(f[j] == (es[j].0, flatten(es[j].1)));
        lemma_enc_flatten_value(es[j].1);
        lemma_enc_flatten_entries(es, f, i + 1);
    }
}

/// The elements of a sequence are written as the entries of its
/// flattened node.
proof fn lemma_enc_flatten_items(s: Seq<VdfValue>, f: NodeModel, i: int)
    requires
        0 <= i <= s.len(),
        f == sort_entries(flatten_items(s)),
    ensures
        enc_entries(f, Seq::empty(), i) == enc_items(s, Seq::empty(), i),
    decreases s, s.len() - i,
{
    let g = flatten_items(s);
    let n = s.len() as int;
    lemma_flatten_items_sorted(s);
    lemma_sort_entries(g);
    if i < s.len() {
        lemma_key_order_identity(f, n);
        lemma_key_order(g, n);
        assert(g.subrange(0, n) =~= g);
        lemma_key_order_keys(index_node(s), g, n);
        let j = key_order(g, n)[i];
        assert(0 <= j < n);
        assert(f[i] == pick(g, key_order(g, n))[i]);
        assert(f[i] == g[j]);
        lemma_enc_flatten_value(s[j]);
        lemma_enc_flatten_items(s, f, i + 1);
    }
}

/// Flattened elements keyed by distinct decimal strings sort into a node
/// with distinct keys in key order.
proof fn lemma_flatten_items_sorted(s: Seq<VdfValue>)
    ensures
        keys_unique(flatten_items(s)),
        keys_unique(sort_entries(flatten_items(s))),
        keys_in_order(sort_entries(flatten_items(s))),
{
    let g = flatten_items(s);
    assert forall|i: int, j: int| 0 <= i < j < g.len() implies g[i].0 != g[j].0 by {
        if g[i].0 == g[j].0 {
            lemma_dec_injective(i as nat, j as nat);
        }
    }
    lemma_sort_entries(g);
}

/// Values that come back from writing and reading, `depth` levels of
/// nesting deep at most: no wide string (a wide string is written
/// little-endian without a byte-order mark and read big-endian), no NUL
/// character in a string or a key, distinct keys in key order, no node
/// shaped like a sequence and no empty sequence.
pub open spec fn writable(v: VdfValue, depth: nat) -> bool
    decreases v,
{
    match v {
        VdfValue::Str(s) => !s.contains('\0'),
        VdfValue::WStr(_) => false,
        VdfValue::Node(es) => depth > 0 && keys_unique(es) && keys_in_order(es) && !is_array(es) && forall|i: int|
            0 <= i < es.len() ==> !(#[trigger] es[i]).0.contains('\0') && writable(
                es[i].1,
                (depth - 1) as nat,
            ),
        VdfValue::Array(s) => depth > 0 && s.len() > 0 && forall|i: int|
            0 <= i < s.len() ==> writable(#[trigger] s[i], (depth - 1) as nat),
        _ => true,
    }
}

/// Values as the parser builds them from what the writer emits, `depth`
/// levels of nesting deep at most: nodes with distinct keys in key order,
/// no wide string.
pub open spec fn raw_ok(v: VdfValue, depth: nat) -> bool
    decreases v,
{
    match v {
        VdfValue::Str(s) => !s.contains('\0'),
        VdfValue::WStr(_) => false,
        VdfValue::Array(_) => false,
        VdfValue::Node(es) => depth > 0 && keys_unique(es) && keys_in_order(es) && forall|i: int|
            0 <= i < es.len() ==> !(#[trigger] es[i]).0.contains('\0') && raw_ok(
                es[i].1,
                (depth - 1) as nat,
            ),
        _ => true,
    }
}

/// Flattening a writable value gives a value as the parser builds it, which
/// normalizes back to the value.
proof fn lemma_flatten_normalize(v: VdfValue, depth: nat)
    requires
        writable(v, depth),
    ensures
        raw_ok(flatten(v), depth),
        normalize_value(flatten(v)) == v,
    decreases v,
{
    match v {
        VdfValue::Node(es) => {
            let f = flatten(v)->Node_0;
            assert forall|i: int| 0 <= i < es.len() implies raw_ok(f[i].1, (depth - 1) as nat)
                && normalize_value(f[i].1) == es[i].1 by {
                lemma_flatten_normalize(es[i].1, (depth - 1) as nat);
            }
            assert(keys_unique(f));
            assert(!is_array(f)) by {
                if is_array(f) {
                    assert forall|i: int| 0 <= i < es.len() implies has_key(es, #[trigger] dec(i as nat)) by {
                        assert(has_key(f, dec(i as nat)));
                        let j = choose|j: int| 0 <= j < f.len() && f[j].0 == dec(i as nat);
                        assert(es[j].0 == dec(i as nat));
                    }
                }
            }
            assert(mapped_entries(f) =~= es);
            lemma_sort_identity(es);
        },
        VdfValue::Array(s) => {
            let g = flatten_items(s);
            let f = flatten(v)->Node_0;
            assert(f == sort_entries(g));
            lemma_flatten_items_sorted(s);
            lemma_sort_entries(g);
            assert forall|i: int| 0 <= i < s.len() implies raw_ok((#[trigger] g[i]).1, (depth - 1) as nat)
                && normalize_value(g[i].1) == s[i] by {
                lemma_flatten_normalize(s[i], (depth - 1) as nat);
            }
            assert forall|m: int| 0 <= m < f.len() implies exists|i: int|
                0 <= i < s.len() && #[trigger] f[m] == g[i] by {
                assert(g.contains(f[m]));
            }
            assert forall|m: int| 0 <= m < f.len() implies raw_ok((#[trigger] f[m]).1, (depth - 1) as nat)
                && !f[m].0.contains('\0') by {
                let i = choose|i: int| 0 <= i < s.len() && f[m] == g[i];
                lemma_dec_no_nul(i as nat);
            }
            assert forall|i: int| 0 <= i < s.len() implies has_key(f, #[trigger] dec(i as nat)) && f[
                key_index(f, dec(i as nat))] == g[i] by {
                assert(f.contains(g[i]));
                let m = choose|m: int| 0 <= m < f.len() && f[m] == g[i];
                assert(f[m].0 == dec(i as nat));
                lemma_key_index(f, dec(i as nat));
                let k = key_index(f, dec(i as nat));
                let i2 = choose|i2: int| 0 <= i2 < s.len() && f[k] == g[i2];
                lemma_dec_injective(i2 as nat, i as nat);
            }
            assert(is_array(f));
            let r = normalize_value(flatten(v))->Array_0;
            assert forall|i: int| 0 <= i < s.len() implies r[i] == s[i] by {
                assert(f[key_index(f, dec(i as nat))] == g[i]);
            }
            assert(r =~= s);
        },
        _ => {},
    }
}

/// No value inside `v` is a wide string.
pub open spec fn wide_free(v: VdfValue) -> bool
    decreases v,
{
    match v {
        VdfValue::WStr(_) => false,
        VdfValue::Node(es) => forall|i: int| 0 <= i < es.len() ==> wide_free((#[trigger] es[i]).1),
        VdfValue::Array(s) => forall|i: int| 0 <= i < s.len() ==> wide_free(#[trigger] s[i]),
        _ => true,
    }
}

/// The shape of what the parser builds: nodes with distinct keys, `depth`
/// levels deep at most, and no sequence.
pub open spec fn shape_ok(v: VdfValue, depth: nat) -> bool
    decreases v,
{
    match v {
        VdfValue::Array(_) => false,
        VdfValue::Node(es) => depth > 0 && keys_unique(es) && forall|i: int|
            0 <= i < es.len() ==> shape_ok((#[trigger] es[i]).1, (depth - 1) as nat),
        _ => true,
    }
}

/// The entries of a node have the parser's shape.
pub open spec fn node_shape_ok(es: NodeModel, depth: nat) -> bool {
    keys_unique(es) && forall|i: int| 0 <= i < es.len() ==> shape_ok((#[trigger] es[i]).1, depth)
}

/// What the parser builds has the parser's shape.
proof fn lemma_parsed_shape(d: Seq<u8>, p: int, alt: bool, depth: nat, acc: NodeModel)
    requires
        node_shape_ok(acc, depth),
    ensures
        match spec_entries(d, p, Seq::empty(), alt, depth, acc) {
            Ok((n, _)) => node_shape_ok(n, depth),
            Err(_) => true,
        },
    decreases depth, d.len() - p,
{
    if 0 <= p < d.len() && d[p] != end_marker(alt) {
        let tag = d[p];
        if let Ok((k, key_end)) = spec_key(d, p + 1, Seq::empty()) {
            let value = if tag == BIN_KV {
                if depth == 0 {
                    Err(VdfrError::TooDeep)
                } else {
                    match spec_entries(d, key_end, Seq::empty(), alt, (depth - 1) as nat, Seq::empty()) {
                        Ok((n, q)) => Ok((VdfValue::Node(n), q)),
                        Err(e) => Err(e),
                    }
                }
            } else {
                spec_scalar(d, key_end, tag)
            };
            if let Ok((v, q)) = value {
                if tag == BIN_KV {
                    lemma_parsed_shape(d, key_end, alt, (depth - 1) as nat, Seq::empty());
                }
                assert(shape_ok(v, depth));
                if p < q <= d.len() {
                    let next = node_insert(acc, k, v);
                    lemma_node_insert_unique(acc, k, v);
                    assert forall|i: int| 0 <= i < next.len() implies shape_ok(
                        (#[trigger] next[i]).1,
                        depth,
                    ) by {
                        lemma_node_insert_from(acc, k, v, i);
                    }
                    lemma_parsed_shape(d, q, alt, depth, next);
                }
            }
        }
    }
}

/// Normalizing what the parser builds gives a writable value, where it
/// holds no NUL character and no wide string.
proof fn lemma_normalize_writable(r: VdfValue, depth: nat)
    requires
        shape_ok(r, depth),
        nul_free(normalize_value(r)),
        wide_free(normalize_value(r)),
    ensures
        writable(normalize_value(r), depth),
    decreases r,
{
    if let VdfValue::Node(es) = r {
        let nv = normalize_value(r);
        if is_array(es) {
            let s = nv->Array_0;
            assert forall|i: int| 0 <= i < s.len() implies writable(#[trigger] s[i], (depth - 1) as nat) by {
                let j = key_index(es, dec(i as nat));
                assert(has_key(es, dec(i as nat)));
                assert(0 <= j < es.len());
                assert(s[i] == normalize_value(es[j].1));
                assert(nul_free(s[i]) && wide_free(s[i]));
                lemma_normalize_writable(es[j].1, (depth - 1) as nat);
            }
        } else {
            let m = mapped_entries(es);
            let ns = nv->Node_0;
            lemma_sort_entries(m);
            assert(keys_unique(m));
            assert forall|i: int| 0 <= i < ns.len() implies writable(
                (#[trigger] ns[i]).1,
                (depth - 1) as nat,
            ) by {
                assert(m.contains(ns[i]));
                let j = choose|j: int| 0 <= j < m.len() && m[j] == ns[i];
                assert(nul_free(ns[i].1) && wide_free(ns[i].1));
                lemma_normalize_writable(es[j].1, (depth - 1) as nat);
            }
            assert(!is_array(ns)) by {
                if is_array(ns) {
                    assert forall|i: int| 0 <= i < es.len() implies has_key(es, #[trigger] dec(i as nat)) by {
                        assert(has_key(ns, dec(i as nat)));
                        let j = choose|j: int| 0 <= j < ns.len() && ns[j].0 == dec(i as nat);
                        assert(m.contains(ns[j]));
                        let k = choose|k: int| 0 <= k < m.len() && m[k] == ns[j];
                        assert(es[k].0 == dec(i as nat));
                    }
                }
            }
        }
    }
}

/// No byte of the UTF-8 encoding of a character other than U+0000 is zero.
proof fn lemma_scalar_bytes_nonzero(c: u32)
    requires
        c != 0,
    ensures
        !encode_scalar(c).contains(0u8),
{
    let e = encode_scalar(c);
    assert(c != 0 && c <= 0x7F ==> (c & 0x7F) as u8 != 0u8) by (bit_vector);
    assert(forall|x: u8| #![auto] (0xC0u8 | x) != 0u8) by (bit_vector);
    assert(forall|x: u8| #![auto] (0xE0u8 | x) != 0u8) by (bit_vector);
    assert(forall|x: u8| #![auto] (0xF0u8 | x) != 0u8) by (bit_vector);
    assert(forall|x: u8| #![auto] (0x80u8 | x) != 0u8) by (bit_vector);
    assert forall|k: int| 0 <= k < e.len() implies e[k] != 0u8 by {}
}

/// A text without U+0000 encodes to bytes without a zero.
proof fn lemma_utf8_no_zero(s: Seq<char>)
    requires
        !s.contains('\0'),
    ensures
        !encode_utf8(s).contains(0u8),
    decreases s.len(),
{
    if s.len() > 0 {
        assert(s[0] != '\0');
        assert((s[0] as u32) != 0) by {
            if (s[0] as u32) == 0 {
                char_u32_cast(s[0], 0u32);
                assert((0u32 as char) == '\0');
            }
        }
        lemma_scalar_bytes_nonzero(s[0] as u32);
        assert(!s.drop_first().contains('\0')) by {
            if s.drop_first().contains('\0') {
                let j = choose|j: int| 0 <= j < s.len() - 1 && s.drop_first()[j] == '\0';
                assert(s[j + 1] == '\0');
            }
        }
        lemma_utf8_no_zero(s.drop_first());
        let a = encode_scalar(s[0] as u32);
        let b = encode_utf8(s.drop_first());
        assert(encode_utf8(s) == a + b);
        assert forall|k: int| 0 <= k < a.len() + b.len() implies (a + b)[k] != 0u8 by {
            if k < a.len() {
                assert((a + b)[k] == a[k]);
            } else {
                assert((a + b)[k] == b[k - a.len()]);
            }
        }
    }
}

/// The first zero byte at or after `p` is at `e`.
proof fn lemma_find_nul_at(d: Seq<u8>, p: int, e: int)
    requires
        0 <= p <= e < d.len(),
        d[e] == 0,
        forall|j: int| p <= j < e ==> d[j] != 0,
    ensures
        find_nul(d, p) == Some(e),
    decreases e - p,
{
    if p < e {
        lemma_find_nul_at(d, p + 1, e);
    }
}

/// A text without U+0000 written with its terminator reads back.
proof fn lemma_cstring_round_trip(d: Seq<u8>, p: int, s: Seq<char>)
    requires
        0 <= p,
        !s.contains('\0'),
        p + encode_utf8(s).len() + 1 <= d.len(),
        d.subrange(p, p + encode_utf8(s).len() + 1) == encode_utf8(s).push(0u8),
    ensures
        spec_cstring(d, p) == Ok::<(Seq<char>, int), VdfrError>((s, p + encode_utf8(s).len() + 1)),
{
    let b = encode_utf8(s);
    let e = p + b.len();
    lemma_utf8_no_zero(s);
    assert forall|j: int| p <= j < e implies d[j] != 0 by {
        assert(d[j] == d.subrange(p, e + 1)[j - p]);
        assert(b[j - p] != 0u8);
    }
    assert(d[e] == d.subrange(p, e + 1)[b.len() as int]);
    lemma_find_nul_at(d, p, e);
    assert(d.subrange(p, e) =~= b);
    encode_utf8_valid_utf8(s);
    encode_utf8_decode_utf8(s);
}

/// The little-endian bytes of `x` read back as `x`.
proof fn lemma_u32_le_reads_back(d: Seq<u8>, p: int, x: u32)
    requires
        0 <= p,
        p + 4 <= d.len(),
        d.subrange(p, p + 4) == u32_le(x),
    ensures
        le_u32(d, p) == x,
{
    assert(d[p] == u32_le(x)[0] && d[p + 1] == u32_le(x)[1] && d[p + 2] == u32_le(x)[2] && d[p + 3]
        == u32_le(x)[3]) by {
        assert(d[p] == d.subrange(p, p + 4)[0]);
        assert(d[p + 1] == d.subrange(p, p + 4)[1]);
        assert(d[p + 2] == d.subrange(p, p + 4)[2]);
        assert(d[p + 3] == d.subrange(p, p + 4)[3]);
    }
    assert(x == (x % 256) + (x / 256 % 256) * 256 + (x / 65536 % 256) * 65536 + (x / 16777216)
        * 16777216) by (bit_vector);
    assert(x / 16777216 < 256) by (bit_vector);
}

/// The little-endian bytes of `x` read back as `x`.
proof fn lemma_u64_le_reads_back(d: Seq<u8>, p: int, x: u64)
    requires
        0 <= p,
        p + 8 <= d.len(),
        d.subrange(p, p + 8) == u64_le(x),
    ensures
        le_u64(d, p) == x,
{
    let lo = (x % 0x1_0000_0000) as u32;
    let hi = (x / 0x1_0000_0000) as u32;
    assert(d.subrange(p, p + 4) =~= u32_le(lo)) by {
        assert(d.subrange(p, p + 4) =~= d.subrange(p, p + 8).subrange(0, 4));
    }
    assert(d.subrange(p + 4, p + 8) =~= u32_le(hi)) by {
        assert(d.subrange(p + 4, p + 8) =~= d.subrange(p, p + 8).subrange(4, 8));
    }
    lemma_u32_le_reads_back(d, p, lo);
    lemma_u32_le_reads_back(d, p + 4, hi);
    assert(x == (x % 0x1_0000_0000) + (x / 0x1_0000_0000) * 0x1_0000_0000) by (bit_vector);
    assert(x / 0x1_0000_0000 < 0x1_0000_0000) by (bit_vector);
}

/// Bytes at `p` of `d` that hold `e` also hold each piece of `e`.
proof fn lemma_subrange_piece(d: Seq<u8>, p: int, e: Seq<u8>, a: int, b: int)
    requires
        0 <= p,
        0 <= a <= b <= e.len(),
        p + e.len() <= d.len(),
        d.subrange(p, p + e.len()) == e,
    ensures
        d.subrange(p + a, p + b) == e.subrange(a, b),
{
    assert(d.subrange(p + a, p + b) =~= d.subrange(p, p + e.len()).subrange(a, b));
}

/// A scalar written reads back.
proof fn lemma_scalar_round_trip(d: Seq<u8>, q: int, v: VdfValue)
    requires
        0 <= q,
        !(v is Node),
        !(v is Array),
        !(v is WStr),
        v is Str ==> !v->Str_0.contains('\0'),
        q + enc_value(v, Seq::empty()).len() <= d.len(),
        d.subrange(q, q + enc_value(v, Seq::empty()).len()) == enc_value(v, Seq::empty()),
    ensures
        spec_scalar(d, q, tag_of(v)) == Ok::<(VdfValue, int), VdfrError>(
            (v, q + enc_value(v, Seq::empty()).len()),
        ),
{
    match v {
        VdfValue::Str(s) => {
            lemma_cstring_round_trip(d, q, s);
        },
        VdfValue::Int32(x) => {
            lemma_u32_le_reads_back(d, q, #[verifier::truncate] (x as u32));
            assert((#[verifier::truncate] (x as u32)) as i32 == x) by (bit_vector);
        },
        VdfValue::Pointer(x) => {
            lemma_u32_le_reads_back(d, q, #[verifier::truncate] (x as u32));
            assert((#[verifier::truncate] (x as u32)) as i32 == x) by (bit_vector);
        },
        VdfValue::Color(x) => {
            lemma_u32_le_reads_back(d, q, #[verifier::truncate] (x as u32));
            assert((#[verifier::truncate] (x as u32)) as i32 == x) by (bit_vector);
        },
        VdfValue::Float32(x) => {
            lemma_u32_le_reads_back(d, q, x);
        },
        VdfValue::UInt64(x) => {
            lemma_u64_le_reads_back(d, q, x);
        },
        VdfValue::Int64(x) => {
            lemma_u64_le_reads_back(d, q, #[verifier::truncate] (x as u64));
            assert((#[verifier::truncate] (x as u64)) as i64 == x) by (bit_vector);
        },
        _ => {},
    }
}

/// The encoding of the entries of `es` from the `i`-th on reads back as
/// `es`, once the entries before `i` are stored.
proof fn lemma_parse_encoding(d: Seq<u8>, p: int, depth: nat, es: NodeModel, i: int)
    requires
        0 <= i <= es.len(),
        0 <= p,
        keys_unique(es),
        keys_in_order(es),
        forall|j: int|
            0 <= j < es.len() ==> !(#[trigger] es[j]).0.contains('\0') && raw_ok(es[j].1, depth),
        p + enc_entries(es, Seq::empty(), i).len() <= d.len(),
        d.subrange(p, p + enc_entries(es, Seq::empty(), i).len()) == enc_entries(
            es,
            Seq::empty(),
            i,
        ),
    ensures
        spec_entries(d, p, Seq::empty(), false, depth, es.subrange(0, i)) == Ok::<
            (NodeModel, int),
            VdfrError,
        >((es, p + enc_entries(es, Seq::empty(), i).len())),
    decreases es, es.len() - i,
{
    let pool = Seq::<Seq<char>>::empty();
    let e = enc_entries(es, pool, i);
    if i == es.len() {
        assert(d[p] == d.subrange(p, p + 1)[0]);
        assert(es.subrange(0, i) =~= es);
    } else {
        let k = es[i].0;
        let v = es[i].1;
        lemma_key_order_identity(es, es.len() as int);
        assert(key_order(es, es.len() as int)[i] == i);
        let kb = encode_utf8(k).push(0u8);
        let vb = enc_value(v, pool);
        let rb = enc_entries(es, pool, i + 1);
        assert(e == seq![tag_of(v)] + kb + vb + rb);
        let kl = kb.len() as int;
        let vl = vb.len() as int;
        let key_end = p + 1 + kl;
        let q = key_end + vl;
        assert(d[p] == tag_of(v)) by {
            lemma_subrange_piece(d, p, e, 0, 1);
            assert(d[p] == d.subrange(p, p + 1)[0]);
        }
        assert(tag_of(v) != end_marker(false));
        lemma_subrange_piece(d, p, e, 1, 1 + kl);
        assert(e.subrange(1, 1 + kl) =~= kb);
        lemma_cstring_round_trip(d, p + 1, k);
        assert(spec_key(d, p + 1, pool) == Ok::<(Seq<char>, int), VdfrError>((k, key_end)));
        lemma_subrange_piece(d, p, e, 1 + kl, 1 + kl + vl);
        assert(e.subrange(1 + kl, 1 + kl + vl) =~= vb);
        if let VdfValue::Node(es2) = v {
            assert(decreases_to!(es => es[i]));
            assert(decreases_to!(es[i] => es[i].1));
            assert(decreases_to!(es[i].1 => es[i].1->Node_0));
            lemma_parse_encoding(d, key_end, (depth - 1) as nat, es2, 0);
            assert(es2.subrange(0, 0) =~= Seq::<(Seq<char>, VdfValue)>::empty());
        } else {
            lemma_scalar_round_trip(d, key_end, v);
        }
        lemma_subrange_piece(d, p, e, 1 + kl + vl, e.len() as int);
        assert(e.subrange(1 + kl + vl, e.len() as int) =~= rb);
        let acc = es.subrange(0, i);
        assert(!has_key(acc, k)) by {
            if has_key(acc, k) {
                let j = choose|j: int| 0 <= j < acc.len() && acc[j].0 == k;
                assert(es[j].0 == es[i].0);
            }
        }
        assert(node_insert(acc, k, v) =~= es.subrange(0, i + 1));
        lemma_parse_encoding(d, q, depth, es, i + 1);
    }
}

/// Writing a node that the parser and the normalizer produced (the parser
/// guarantees that no key or string of it holds a NUL character), with no
/// wide string in it, and parsing and normalizing the bytes again gives the
/// same node.
pub proof fn lemma_round_trip(d: Seq<u8>, depth: nat, n: NodeModel)
    requires
        spec_parse_keyvalues(d, Seq::empty(), false, depth) == Ok::<NodeModel, VdfrError>(n),
        node_nul_free(n),
        forall|i: int| 0 <= i < n.len() ==> wide_free((#[trigger] n[i]).1),
    ensures
        spec_parse_keyvalues(enc_entries(n, Seq::empty(), 0), Seq::empty(), false, depth) == Ok::<
            NodeModel,
            VdfrError,
        >(n),
{
    let pool = Seq::<Seq<char>>::empty();
    let r = spec_node(d, 0, pool, false, depth)->Ok_0.0;
    assert(n == normalized_node(r));
    lemma_parsed_shape(d, 0, false, depth, Seq::empty());
    assert(node_shape_ok(r, depth));
    let m = mapped_entries(r);
    lemma_sort_entries(m);
    assert(keys_unique(m));
    assert(keys_unique(n) && keys_in_order(n));
    let f = flatten_node(n);
    assert(keys_in_order(f)) by {
        assert forall|i: int| 0 < i < f.len() implies key_lt(#[trigger] f[i - 1].0, f[i].0) by {
            assert(key_lt(n[i - 1].0, n[i].0));
        }
    }
    assert forall|i: int| 0 <= i < n.len() implies raw_ok((#[trigger] f[i]).1, depth) && normalize_value(
        f[i].1,
    ) == n[i].1 by {
        assert(m.contains(n[i]));
        let j = choose|j: int| 0 <= j < m.len() && m[j] == n[i];
        assert(shape_ok(r[j].1, depth));
        lemma_normalize_writable(r[j].1, depth);
        lemma_flatten_normalize(n[i].1, depth);
    }
    assert(keys_unique(f)) by {
        assert forall|i: int, j: int| 0 <= i < j < f.len() implies f[i].0 != f[j].0 by {
            assert(n[i].0 != n[j].0);
        }
    }
    assert forall|j: int| 0 <= j < f.len() implies !(#[trigger] f[j]).0.contains('\0') && raw_ok(
        f[j].1,
        depth,
    ) by {
        assert(!n[j].0.contains('\0'));
    }
    let e = enc_entries(n, pool, 0);
    lemma_enc_flatten_entries(n, f, 0);
    assert(e.subrange(0, e.len() as int) =~= e);
    lemma_parse_encoding(e, 0, depth, f, 0);
    assert(f.subrange(0, 0) =~= Seq::<(Seq<char>, VdfValue)>::empty());
    assert(mapped_entries(f) =~= n);
    lemma_sort_identity(n);
}

/// Every node inside `v` has distinct keys in key order.
pub open spec fn nodes_in_order(v: VdfValue) -> bool
    decreases v,
{
    match v {
        VdfValue::Node(es) => keys_unique(es) && keys_in_order(es) && forall|i: int|
            0 <= i < es.len() ==> nodes_in_order((#[trigger] es[i]).1),
        VdfValue::Array(s) => forall|i: int| 0 <= i < s.len() ==> nodes_in_order(#[trigger] s[i]),
        _ => true,
    }
}

/// Normalizing what the parser builds leaves every node in key order.
proof fn lemma_normalize_in_order(r: VdfValue, depth: nat)
    requires
        shape_ok(r, depth),
    ensures
        nodes_in_order(normalize_value(r)),
    decreases r,
{
    if let VdfValue::Node(es) = r {
        let nv = normalize_value(r);
        if is_array(es) {
            let s = nv->Array_0;
            assert forall|i: int| 0 <= i < s.len() implies nodes_in_order(#[trigger] s[i]) by {
                lemma_key_index(es, dec(i as nat));
                let j = key_index(es, dec(i as nat));
                lemma_normalize_in_order(es[j].1, (depth - 1) as nat);
            }
        } else {
            let m = mapped_entries(es);
            let ns = nv->Node_0;
            lemma_sort_entries(m);
            assert(keys_unique(m));
            assert forall|i: int| 0 <= i < ns.len() implies nodes_in_order((#[trigger] ns[i]).1) by {
                assert(m.contains(ns[i]));
                let j = choose|j: int| 0 <= j < m.len() && m[j] == ns[i];
                lemma_normalize_in_order(es[j].1, (depth - 1) as nat);
            }
        }
    }
}

/// A decoded node keeps its keys distinct and in key order, and so does
/// every node inside it.
pub proof fn lemma_decoded_in_order(d: Seq<u8>, depth: nat, n: NodeModel)
    requires
        spec_parse_keyvalues(d, Seq::empty(), false, depth) == Ok::<NodeModel, VdfrError>(n),
    ensures
        keys_unique(n),
        keys_in_order(n),
        forall|i: int| 0 <= i < n.len() ==> nodes_in_order((#[trigger] n[i]).1),
{
    let r = spec_node(d, 0, Seq::empty(), false, depth)->Ok_0.0;
    lemma_parsed_shape(d, 0, false, depth, Seq::empty());
    let m = mapped_entries(r);
    lemma_sort_entries(m);
    assert(keys_unique(m));
    assert forall|i: int| 0 <= i < n.len() implies nodes_in_order((#[trigger] n[i]).1) by {
        assert(m.contains(n[i]));
        let j = choose|j: int| 0 <= j < m.len() && m[j] == n[i];
        assert(shape_ok(r[j].1, depth));
        lemma_normalize_in_order(r[j].1, depth);
    }
}

} // verus!
