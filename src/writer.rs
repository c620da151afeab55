//! The writer: the inverse of the parser and the normalizer, with keys
//! inline or as indices into a string pool.

use vstd::prelude::*;

pub use crate::catalog::{write_app_info, write_package_info};
use vstd::utf8::encode_utf8;

use crate::bytes::{push_u32, push_u64, u32_le, u64_le, units_le, utf16_encode, write_utf16, write_utf8};
use crate::normalize::{dec, decimal, key_order, key_positions};
use crate::value::strings_view;
use crate::value::{
    KeyValues, NodeModel, Value, VdfValue, lemma_node_view, BIN_COLOR, BIN_END, BIN_FLOAT32,
    BIN_INT32, BIN_INT64, BIN_KV, BIN_POINTER, BIN_STRING, BIN_UINT64, BIN_WIDESTRING,
};

verus! {

broadcast use vstd::std_specs::vec::group_vec_axioms;

/// The position of the first occurrence of `k` in `pool`.
pub open spec fn pool_index(pool: Seq<Seq<char>>, k: Seq<char>) -> int {
    choose|i: int| 0 <= i < pool.len() && pool[i] == k && forall|j: int| 0 <= j < i ==> pool[j] != k
}

/// The type tag written for `v`; a sequence is written as a node.
pub open spec fn tag_of(v: VdfValue) -> u8 {
    match v {
        VdfValue::Str(_) => BIN_STRING,
        VdfValue::WStr(_) => BIN_WIDESTRING,
        VdfValue::Int32(_) => BIN_INT32,
        VdfValue::Pointer(_) => BIN_POINTER,
        VdfValue::Color(_) => BIN_COLOR,
        VdfValue::UInt64(_) => BIN_UINT64,
        VdfValue::Int64(_) => BIN_INT64,
        VdfValue::Float32(_) => BIN_FLOAT32,
        VdfValue::Node(_) => BIN_KV,
        VdfValue::Array(_) => BIN_KV,
    }
}

/// The bytes of key `k`: inline with an empty pool, else its pool index.
pub open spec fn key_bytes(k: Seq<char>, pool: Seq<Seq<char>>) -> Seq<u8> {
    if pool.len() == 0 {
        encode_utf8(k).push(0u8)
    } else {
        u32_le(pool_index(pool, k) as u32)
    }
}

/// The bytes that follow the tag and the key of `v`.
pub open spec fn enc_value(v: VdfValue, pool: Seq<Seq<char>>) -> Seq<u8>
    decreases v, 0int,
{
    match v {
        VdfValue::Str(s) => encode_utf8(s).push(0u8),
        VdfValue::WStr(s) => units_le(utf16_encode(s)) + seq![0u8, 0u8, 0u8],
        VdfValue::Int32(x) => u32_le(x as u32),
        VdfValue::Pointer(x) => u32_le(x as u32),
        VdfValue::Color(x) => u32_le(x as u32),
        VdfValue::UInt64(x) => u64_le(x),
        VdfValue::Int64(x) => u64_le(x as u64),
        VdfValue::Float32(b) => u32_le(b),
        VdfValue::Node(es) => enc_entries(es, pool, 0),
        VdfValue::Array(s) => enc_items(s, pool, 0),
    }
}

/// The entries of `es` in key order, from the `i`-th on, then the end
/// marker.
pub open spec fn enc_entries(es: NodeModel, pool: Seq<Seq<char>>, i: int) -> Seq<u8>
    decreases es, es.len() - i,
{
    if i < 0 || i >= es.len() {
        seq![BIN_END]
    } else {
        let j = key_order(es, es.len() as int)[i];
        if 0 <= j < es.len() {
            seq![tag_of(es[j].1)] + key_bytes(es[j].0, pool) + enc_value(es[j].1, pool) + enc_entries(
                es,
                pool,
                i + 1,
            )
        } else {
            seq![BIN_END]
        }
    }
}

/// The elements of `s` keyed by their decimal indices, as a node.
pub open spec fn index_node(s: Seq<VdfValue>) -> NodeModel {
    Seq::new(s.len(), |j: int| (dec(j as nat), s[j]))
}

/// The elements of `s`, each keyed by its decimal index, in the key order
/// of those indices from the `i`-th on, then the end marker.
pub open spec fn enc_items(s: Seq<VdfValue>, pool: Seq<Seq<char>>, i: int) -> Seq<u8>
    decreases s, s.len() - i,
{
    if i < 0 || i >= s.len() {
        seq![BIN_END]
    } else {
        let j = key_order(index_node(s), s.len() as int)[i];
        if 0 <= j < s.len() {
            seq![tag_of(s[j])] + key_bytes(dec(j as nat), pool) + enc_value(s[j], pool) + enc_items(
                s,
                pool,
                i + 1,
            )
        } else {
            seq![BIN_END]
        }
    }
}

/// Every key that writing `v` emits, the decimal indices of sequences
/// included.
pub open spec fn value_keys(v: VdfValue) -> Set<Seq<char>>
    decreases v, 0int,
{
    match v {
        VdfValue::Node(es) => entries_keys(es, 0),
        VdfValue::Array(s) => items_keys(s, 0),
        _ => Set::empty(),
    }
}

/// The keys emitted by the entries of `es` from the `i`-th on.
pub open spec fn entries_keys(es: NodeModel, i: int) -> Set<Seq<char>>
    decreases es, es.len() - i,
{
    if i < 0 || i >= es.len() {
        Set::empty()
    } else {
        entries_keys(es, i + 1).insert(es[i].0).union(value_keys(es[i].1))
    }
}

/// The keys emitted by the elements of `s` from the `i`-th on.
pub open spec fn items_keys(s: Seq<VdfValue>, i: int) -> Set<Seq<char>>
    decreases s, s.len() - i,
{
    if i < 0 || i >= s.len() {
        Set::empty()
    } else {
        items_keys(s, i + 1).insert(dec(i as nat)).union(value_keys(s[i]))
    }
}

/// A pool that the writer can use for a tree with keys `keys`: empty (keys
/// inline), or holding each key, without repeats, addressable by 32 bits.
pub open spec fn pool_serves(pool: Seq<Seq<char>>, keys: Set<Seq<char>>) -> bool {
    pool.len() == 0 || (keys.subset_of(pool.to_set()) && pool.no_duplicates() && pool.len()
        <= u32::MAX)
}

/// The index of `key` in `string_pools`.
pub fn find_key_index(key: &String, string_pools: &Vec<String>) -> (r: Option<u32>)
    requires
        string_pools@.len() <= u32::MAX,
    ensures
        match r {
            Some(i) => i < string_pools@.len() && string_pools@[i as int]@ == key@ && i == pool_index(
                strings_view(string_pools@),
                key@,
            ),
            None => !strings_view(string_pools@).contains(key@),
        },
{
    let ghost pv = strings_view(string_pools@);
    let mut i: usize = 0;
    while i < string_pools.len()
        invariant
            pv == strings_view(string_pools@),
            string_pools@.len() <= u32::MAX,
            i <= string_pools@.len(),
            forall|j: int| 0 <= j < i ==> pv[j] != key@,
        decreases string_pools.len() - i,
    {
        if string_pools[i] == *key {
            let ghost k = pool_index(pv, key@);
            assert(pv[i as int] == key@);
            assert(k == i) by {
                if k < i {
                    assert(pv[k] != key@);
                } else if k > i {
                    assert(pv[i as int] != key@);
                }
            }
            return Some(i as u32);
        }
        i += 1;
    }
    assert forall|j: int| 0 <= j < pv.len() implies pv[j] != key@ by {}
    None
}

/// Append a key, inline or as its pool index.
fn write_key(out: &mut Vec<u8>, key: &String, pool: &Vec<String>)
    requires
        pool_serves(strings_view(pool@), set![key@]),
    ensures
        final(out)@ == old(out)@ + key_bytes(key@, strings_view(pool@)),
{
    if pool.len() == 0 {
        write_utf8(out, key.as_str());
    } else {
        assert(strings_view(pool@).contains(key@)) by {
            assert(set![key@].contains(key@));
        }
        match find_key_index(key, pool) {
            Some(i) => push_u32(out, i),
            None => {},
        }
    }
}

/// Append the bytes of `value` that follow its tag and key.
fn write_value(out: &mut Vec<u8>, value: &Value, pool: &Vec<String>)
    requires
        pool_serves(strings_view(pool@), value_keys(value@)),
    ensures
        final(out)@ == old(out)@ + enc_value(value@, strings_view(pool@)),
    decreases value, 1int,
{
    match value {
        Value::StringType(s) => write_utf8(out, s.as_str()),
        Value::WideStringType(s) => write_utf16(out, s.as_str()),
        Value::Int32Type(x) => push_u32(out, *x as u32),
        Value::PointerType(x) => push_u32(out, *x as u32),
        Value::ColorType(x) => push_u32(out, *x as u32),
        Value::UInt64Type(x) => push_u64(out, *x),
        Value::Int64Type(x) => push_u64(out, *x as u64),
        Value::Float32Type(b) => push_u32(out, *b),
        Value::KeyValueType(kv) => {
            proof {
                lemma_node_view(*kv);
                assert(decreases_to!(value => value->KeyValueType_0));
            }
            write_keyvalues_internal(out, kv, pool);
        },
        Value::ArrayType(a) => write_items(out, value, a, pool),
    }
}

/// Append the entries of `keyvalues` in key order, and the end marker.
pub fn write_keyvalues_internal(out: &mut Vec<u8>, keyvalues: &KeyValues, pool: &Vec<String>)
    requires
        pool_serves(strings_view(pool@), entries_keys(keyvalues@, 0)),
    ensures
        final(out)@ == old(out)@ + enc_entries(keyvalues@, strings_view(pool@), 0),
    decreases keyvalues, 0int,
{
    let ghost es = keyvalues@;
    let ghost pv = strings_view(pool@);
    let n = keyvalues.entries.len();
    let mut keys: Vec<String> = Vec::new();
    let mut i: usize = 0;
    while i < n
        invariant
            es == keyvalues@,
            n == es.len(),
            i <= n,
            keys@.len() == i,
            forall|j: int| 0 <= j < i ==> (#[trigger] keys@[j])@ == es[j].0,
        decreases n - i,
    {
        keys.push(keyvalues.entries[i].0.clone());
        i += 1;
    }
    let order = key_positions(&keys, Ghost(es));
    proof {
        lemma_entries_keys_contain(es, 0);
    }
    let mut k: usize = 0;
    while k < n
        invariant
            es == keyvalues@,
            pv == strings_view(pool@),
            n == es.len(),
            k <= n,
            order@.len() == n,
            forall|m: int| 0 <= m < n ==> #[trigger] order@[m] as int == key_order(es, n as int)[m],
            forall|m: int| 0 <= m < n ==> #[trigger] order@[m] < n,
            pool_serves(pv, entries_keys(es, 0)),
            forall|j: int|
                0 <= j < es.len() ==> entries_keys(es, 0).contains((#[trigger] es[j]).0)
                    && value_keys(es[j].1).subset_of(entries_keys(es, 0)),
            old(out)@ + enc_entries(es, pv, 0) == out@ + enc_entries(es, pv, k as int),
        decreases n - k,
    {
        let ghost before = out@;
        let j = order[k];
        let value = &keyvalues.entries[j].1;
        proof {
            assert(decreases_to!(keyvalues => keyvalues.entries));
            assert(decreases_to!(keyvalues.entries => keyvalues.entries[j as int]));
            assert(decreases_to!(keyvalues.entries[j as int] => keyvalues.entries[j as int].1));
            assert(entries_keys(es, 0).contains(es[j as int].0));
            assert(set![es[j as int].0].subset_of(entries_keys(es, 0)));
        }
        out.push(tag(value));
        write_key(out, &keyvalues.entries[j].0, pool);
        write_value(out, value, pool);
        k += 1;
        proof {
            assert(out@ =~= before + (seq![tag_of(es[j as int].1)] + key_bytes(es[j as int].0, pv)
                + enc_value(es[j as int].1, pv)));
        }
    }
    out.push(BIN_END);
}

/// Every key of the entries from the `i`-th on, and of their values, is
/// among `entries_keys(es, i)`.
proof fn lemma_entries_keys_contain(es: NodeModel, i: int)
    requires
        0 <= i,
    ensures
        forall|j: int|
            i <= j < es.len() ==> entries_keys(es, i).contains((#[trigger] es[j]).0) && value_keys(
                es[j].1,
            ).subset_of(entries_keys(es, i)),
    decreases es.len() - i,
{
    if i < es.len() {
        lemma_entries_keys_contain(es, i + 1);
    }
}

/// Every index key of the elements from the `i`-th on, and every key of
/// those elements, is among `items_keys(s, i)`.
proof fn lemma_items_keys_contain(s: Seq<VdfValue>, i: int)
    requires
        0 <= i,
    ensures
        forall|j: int|
            i <= j < s.len() ==> items_keys(s, i).contains(#[trigger] dec(j as nat)) && value_keys(
                s[j],
            ).subset_of(items_keys(s, i)),
    decreases s.len() - i,
{
    if i < s.len() {
        lemma_items_keys_contain(s, i + 1);
    }
}

/// Append the elements of the sequence `value`, keyed by their decimal
/// indices in the key order of those indices, and the end marker.
fn write_items(out: &mut Vec<u8>, value: &Value, a: &Vec<Value>, pool: &Vec<String>)
    requires
        *value == Value::ArrayType(*a),
        pool_serves(strings_view(pool@), value_keys(value@)),
    ensures
        final(out)@ == old(out)@ + enc_value(value@, strings_view(pool@)),
    decreases value, 0int,
{
    let ghost s = value@->Array_0;
    let ghost pv = strings_view(pool@);
    let ghost inode = index_node(s);
    let n = a.len();
    let mut keys: Vec<String> = Vec::new();
    let mut i: usize = 0;
    while i < n
        invariant
            s == value@->Array_0,
            s.len() == n,
            inode == index_node(s),
            i <= n,
            keys@.len() == i,
            forall|j: int| 0 <= j < i ==> (#[trigger] keys@[j])@ == inode[j].0,
        decreases n - i,
    {
        keys.push(decimal(i));
        i += 1;
    }
    let order = key_positions(&keys, Ghost(inode));
    proof {
        lemma_items_keys_contain(s, 0);
    }
    let mut k: usize = 0;
    while k < n
        invariant
            *value == Value::ArrayType(*a),
            s == value@->Array_0,
            s.len() == n,
            inode == index_node(s),
            forall|m: int| 0 <= m < s.len() ==> s[m] == (#[trigger] a@[m])@,
            pv == strings_view(pool@),
            k <= n,
            order@.len() == n,
            forall|m: int| 0 <= m < n ==> #[trigger] order@[m] as int == key_order(inode, n as int)[m],
            forall|m: int| 0 <= m < n ==> #[trigger] order@[m] < n,
            pool_serves(pv, items_keys(s, 0)),
            forall|j: int|
                0 <= j < s.len() ==> items_keys(s, 0).contains(#[trigger] dec(j as nat))
                    && value_keys(s[j]).subset_of(items_keys(s, 0)),
            old(out)@ + enc_items(s, pv, 0) == out@ + enc_items(s, pv, k as int),
        decreases n - k,
    {
        let ghost before = out@;
        let j = order[k];
        proof {
            assert(decreases_to!(value => value->ArrayType_0));
            assert(decreases_to!(*a => a[j as int]));
            let jj: int = j as int;
            assert(items_keys(s, 0).contains(dec(jj as nat)));
            assert(set![dec(jj as nat)].subset_of(items_keys(s, 0)));
            assert(value_keys(s[jj]).subset_of(items_keys(s, 0)));
        }
        let key = decimal(j);
        out.push(tag(&a[j]));
        write_key(out, &key, pool);
        write_value(out, &a[j], pool);
        k += 1;
        proof {
            assert(out@ =~= before + (seq![tag_of(s[j as int])] + key_bytes(dec(j as nat), pv)
                + enc_value(s[j as int], pv)));
        }
    }
    out.push(BIN_END);
    assert(value_keys(value@) == items_keys(s, 0));
}

/// The type tag of `value`.
fn tag(value: &Value) -> (r: u8)
    ensures
        r == tag_of(value@),
{
    match value {
        Value::StringType(_) => BIN_STRING,
        Value::WideStringType(_) => BIN_WIDESTRING,
        Value::Int32Type(_) => BIN_INT32,
        Value::PointerType(_) => BIN_POINTER,
        Value::ColorType(_) => BIN_COLOR,
        Value::UInt64Type(_) => BIN_UINT64,
        Value::Int64Type(_) => BIN_INT64,
        Value::Float32Type(_) => BIN_FLOAT32,
        Value::KeyValueType(_) => BIN_KV,
        Value::ArrayType(_) => BIN_KV,
    }
}

/// Append `keyvalues` with inline keys, entries in key order at every level.
pub fn write_keyvalues(out: &mut Vec<u8>, keyvalues: &KeyValues)
    ensures
        final(out)@ == old(out)@ + enc_entries(keyvalues@, Seq::empty(), 0),
{
    let pool: Vec<String> = Vec::new();
    assert(strings_view(pool@) =~= Seq::<Seq<char>>::empty());
    write_keyvalues_internal(out, keyvalues, &pool);
}

/// Add `key` to `pool` unless it is there.
fn add_key(pool: &mut Vec<String>, key: String)
    requires
        strings_view(old(pool)@).no_duplicates(),
    ensures
        strings_view(final(pool)@).no_duplicates(),
        strings_view(final(pool)@).to_set() == strings_view(old(pool)@).to_set().insert(key@),
{
    let ghost pv = strings_view(pool@);
    let mut i: usize = 0;
    while i < pool.len()
        invariant
            pool@ == old(pool)@,
            pv == strings_view(pool@),
            pv.no_duplicates(),
            i <= pool@.len(),
            forall|j: int| 0 <= j < i ==> pv[j] != key@,
        decreases pool.len() - i,
    {
        if pool[i] == key {
            assert(pv[i as int] == key@);
            assert(pv.to_set() =~= pv.to_set().insert(key@));
            return;
        }
        i += 1;
    }
    let ghost kv = key@;
    pool.push(key);
    assert(strings_view(pool@) =~= pv.push(kv));
    proof {
        pv.lemma_push_to_set_commute(kv);
    }
}

/// Add to `string_pools` every key that writing `key_values` emits.
pub fn collect_string_pools(string_pools: &mut Vec<String>, key_values: &KeyValues)
    requires
        strings_view(old(string_pools)@).no_duplicates(),
    ensures
        strings_view(final(string_pools)@).no_duplicates(),
        strings_view(final(string_pools)@).to_set() == strings_view(old(string_pools)@).to_set().union(
            entries_keys(key_values@, 0),
        ),
    decreases key_values, 0int,
{
    let ghost es = key_values@;
    let ghost old_set = strings_view(string_pools@).to_set();
    let mut i: usize = key_values.entries.len();
    assert(old_set =~= old_set.union(entries_keys(es, i as int)));
    while i > 0
        invariant
            es == key_values@,
            i <= es.len(),
            strings_view(string_pools@).no_duplicates(),
            strings_view(string_pools@).to_set() == old_set.union(entries_keys(es, i as int)),
        decreases i,
    {
        i -= 1;
        proof {
            assert(decreases_to!(key_values => key_values.entries));
            assert(decreases_to!(key_values.entries => key_values.entries[i as int]));
            assert(decreases_to!(key_values.entries[i as int] => key_values.entries[i as int].1));
        }
        add_key(string_pools, key_values.entries[i].0.clone());
        collect_string_pools_from_value(string_pools, &key_values.entries[i].1);
        proof {
            let e = entries_keys(es, i as int);
            assert(e == entries_keys(es, i + 1).insert(es[i as int].0).union(
                value_keys(es[i as int].1),
            ));
            assert(strings_view(string_pools@).to_set() =~= old_set.union(e));
        }
    }
}

/// Add to `string_pools` every key that writing `value` emits.
fn collect_string_pools_from_value(string_pools: &mut Vec<String>, value: &Value)
    requires
        strings_view(old(string_pools)@).no_duplicates(),
    ensures
        strings_view(final(string_pools)@).no_duplicates(),
        strings_view(final(string_pools)@).to_set() == strings_view(old(string_pools)@).to_set().union(
            value_keys(value@),
        ),
    decreases value, 1int,
{
    match value {
        Value::KeyValueType(kv) => {
            proof {
                lemma_node_view(*kv);
                assert(decreases_to!(value => value->KeyValueType_0));
            }
            collect_string_pools(string_pools, kv);
            assert(value_keys(value@) == entries_keys(kv@, 0));
        },
        Value::ArrayType(a) => collect_items(string_pools, value, a),
        _ => {
            assert(strings_view(string_pools@).to_set() =~= strings_view(string_pools@).to_set().union(
                value_keys(value@),
            ));
        },
    }
}

/// Add to `string_pools` every key that writing the sequence `value` emits.
fn collect_items(string_pools: &mut Vec<String>, value: &Value, a: &Vec<Value>)
    requires
        *value == Value::ArrayType(*a),
        strings_view(old(string_pools)@).no_duplicates(),
    ensures
        strings_view(final(string_pools)@).no_duplicates(),
        strings_view(final(string_pools)@).to_set() == strings_view(old(string_pools)@).to_set().union(
            value_keys(value@),
        ),
    decreases value, 0int,
{
    let ghost s = value@->Array_0;
    let ghost old_set = strings_view(string_pools@).to_set();
    let mut i: usize = a.len();
    assert(old_set =~= old_set.union(items_keys(s, i as int)));
    while i > 0
        invariant
            *value == Value::ArrayType(*a),
            s == value@->Array_0,
            s.len() == a.len(),
            forall|m: int| 0 <= m < s.len() ==> s[m] == (#[trigger] a@[m])@,
            i <= a.len(),
            strings_view(string_pools@).no_duplicates(),
            strings_view(string_pools@).to_set() == old_set.union(items_keys(s, i as int)),
        decreases i,
    {
        i -= 1;
        proof {
            assert(decreases_to!(value => value->ArrayType_0));
            assert(decreases_to!(*a => a[i as int]));
        }
        add_key(string_pools, decimal(i));
        collect_string_pools_from_value(string_pools, &a[i]);
        proof {
            let e = items_keys(s, i as int);
            assert(e == items_keys(s, i + 1).insert(dec(i as nat)).union(value_keys(s[i as int])));
            assert(strings_view(string_pools@).to_set() =~= old_set.union(e));
        }
    }
    assert(value_keys(value@) == items_keys(s, 0));
}

} // verus!
