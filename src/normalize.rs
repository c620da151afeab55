//! Recovery of sequences: a nested node whose keys are exactly the decimal
//! strings `"0"`, ..., `"n-1"` (n >= 1) becomes a sequence.

use vstd::prelude::*;

use vstd::utf8::{encode_utf8, encode_utf8_decode_utf8};

use crate::value::{
    KeyValues, NodeModel, Value, VdfValue, has_key, key_index, keys_unique, lemma_node_view,
    node_nul_free, nul_free, lemma_key_index,
};

verus! {

broadcast use vstd::std_specs::vec::group_vec_axioms;

/// The character of the decimal digit `d`.
pub open spec fn digit_char(d: nat) -> char {
    seq!['0', '1', '2', '3', '4', '5', '6', '7', '8', '9'][d as int]
}

/// The decimal string of `n`, without leading zeros.
pub open spec fn dec(n: nat) -> Seq<char>
    decreases n,
{
    if n < 10 {
        seq![digit_char(n)]
    } else {
        dec(n / 10).push(digit_char(n % 10))
    }
}

/// The decimal string of a number has at least two digits from 10 on.
proof fn lemma_dec_len(n: nat)
    ensures
        dec(n).len() >= 1,
        n >= 10 ==> dec(n).len() >= 2,
    decreases n,
{
    if n >= 10 {
        lemma_dec_len(n / 10);
    }
}

/// Distinct numbers have distinct decimal strings.
pub proof fn lemma_dec_injective(a: nat, b: nat)
    requires
        dec(a) == dec(b),
    ensures
        a == b,
    decreases a,
{
    let digits = seq!['0', '1', '2', '3', '4', '5', '6', '7', '8', '9'];
    assert(forall|x: int, y: int| 0 <= x < 10 && 0 <= y < 10 && digits[x] == digits[y] ==> x == y);
    lemma_dec_len(a);
    lemma_dec_len(b);
    if a < 10 && b < 10 {
        assert(dec(a)[0] == digit_char(a) && dec(b)[0] == digit_char(b));
    } else if a >= 10 && b >= 10 {
        let da = dec(a);
        assert(da.last() == digit_char(a % 10) && dec(b).last() == digit_char(b % 10));
        assert(da.drop_last() == dec(a / 10)) by {
            assert(dec(a / 10).push(digit_char(a % 10)).drop_last() =~= dec(a / 10));
        }
        assert(dec(b).drop_last() == dec(b / 10)) by {
            assert(dec(b / 10).push(digit_char(b % 10)).drop_last() =~= dec(b / 10));
        }
        lemma_dec_injective(a / 10, b / 10);
    }
}

/// Decimal strings hold no NUL character.
pub proof fn lemma_dec_no_nul(n: nat)
    ensures
        !dec(n).contains('\0'),
    decreases n,
{
    let digits = seq!['0', '1', '2', '3', '4', '5', '6', '7', '8', '9'];
    assert(forall|x: int| 0 <= x < 10 ==> digits[x] != '\0');
    if n >= 10 {
        lemma_dec_no_nul(n / 10);
        assert(dec(n) == dec(n / 10).push(digit_char(n % 10)));
        assert forall|k: int| 0 <= k < dec(n).len() implies dec(n)[k] != '\0' by {
            if k < dec(n / 10).len() {
                assert(dec(n)[k] == dec(n / 10)[k]);
            }
        }
    } else {
        assert(dec(n)[0] != '\0');
    }
}

/// The keys of `n` are exactly `dec(0)`, ..., `dec(len - 1)`, and `n` is
/// not empty.
pub open spec fn is_array(n: NodeModel) -> bool {
    n.len() > 0 && forall|i: int| 0 <= i < n.len() ==> has_key(n, #[trigger] dec(i as nat))
}

/// `a` sorts before `b` in byte order.
pub open spec fn bytes_lt(a: Seq<u8>, b: Seq<u8>) -> bool
    decreases a.len(),
{
    if a.len() == 0 {
        b.len() > 0
    } else if b.len() == 0 {
        false
    } else if a[0] != b[0] {
        a[0] < b[0]
    } else {
        bytes_lt(a.drop_first(), b.drop_first())
    }
}

/// Key `a` sorts before key `b`: byte order of their UTF-8 encodings, the
/// order of `str`.
pub open spec fn key_lt(a: Seq<char>, b: Seq<char>) -> bool {
    bytes_lt(encode_utf8(a), encode_utf8(b))
}

/// Where an entry with key `k` goes in `n`: after the last entry whose key
/// sorts before `k`.
pub open spec fn sorted_pos(n: NodeModel, k: Seq<char>) -> int
    decreases n.len(),
{
    if n.len() == 0 {
        0
    } else if key_lt(n.last().0, k) {
        n.len() as int
    } else {
        sorted_pos(n.drop_last(), k)
    }
}

/// The entries of `n` in key order.
pub open spec fn sort_entries(n: NodeModel) -> NodeModel
    decreases n.len(),
{
    if n.len() == 0 {
        n
    } else {
        let s = sort_entries(n.drop_last());
        s.insert(sorted_pos(s, n.last().0), n.last())
    }
}

/// Each key of `n` sorts before the next one.
pub open spec fn keys_in_order(n: NodeModel) -> bool {
    forall|i: int| 0 < i < n.len() ==> key_lt(#[trigger] n[i - 1].0, n[i].0)
}

/// `v` with every nested node re-examined: array-shaped nodes become
/// sequences, in index order; other nodes keep their entries in key order.
pub open spec fn normalize_value(v: VdfValue) -> VdfValue
    decreases v, 1int,
{
    match v {
        VdfValue::Node(es) => if is_array(es) {
            VdfValue::Array(
                Seq::new(
                    es.len(),
                    |i: int|
                        {
                            let j = key_index(es, dec(i as nat));
                            if 0 <= j < es.len() {
                                normalize_value(es[j].1)
                            } else {
                                VdfValue::Int32(0)
                            }
                        },
                ),
            )
        } else {
            VdfValue::Node(sort_entries(mapped_entries(es)))
        },
        VdfValue::Array(s) => VdfValue::Array(
            Seq::new(
                s.len(),
                |i: int|
                    if 0 <= i < s.len() {
                        normalize_value(s[i])
                    } else {
                        VdfValue::Int32(0)
                    },
            ),
        ),
        _ => v,
    }
}

/// The entries of `n` with their values normalized.
pub open spec fn mapped_entries(n: NodeModel) -> NodeModel
    decreases n, 0int,
{
    Seq::new(
        n.len(),
        |i: int|
            if 0 <= i < n.len() {
                (n[i].0, normalize_value(n[i].1))
            } else {
                (Seq::empty(), VdfValue::Int32(0))
            },
    )
}

/// `n` with each of its values normalized and its entries in key order; the
/// node itself stays a node.
pub open spec fn normalized_node(n: NodeModel) -> NodeModel {
    sort_entries(mapped_entries(n))
}

/// The decimal digit `d` as text.
fn digit_str(d: usize) -> (r: &'static str)
    requires
        d < 10,
    ensures
        r@ == seq![digit_char(d as nat)],
{
    proof {
        reveal_strlit("0");
        reveal_strlit("1");
        reveal_strlit("2");
        reveal_strlit("3");
        reveal_strlit("4");
        reveal_strlit("5");
        reveal_strlit("6");
        reveal_strlit("7");
        reveal_strlit("8");
        reveal_strlit("9");
    }
    let r = if d == 0 {
        "0"
    } else if d == 1 {
        "1"
    } else if d == 2 {
        "2"
    } else if d == 3 {
        "3"
    } else if d == 4 {
        "4"
    } else if d == 5 {
        "5"
    } else if d == 6 {
        "6"
    } else if d == 7 {
        "7"
    } else if d == 8 {
        "8"
    } else {
        "9"
    };
    assert(r@ =~= seq![digit_char(d as nat)]);
    r
}

/// The decimal string of `n`.
pub fn decimal(n: usize) -> (r: String)
    ensures
        r@ == dec(n as nat),
    decreases n,
{
    if n < 10 {
        digit_str(n).to_owned()
    } else {
        let mut s = decimal(n / 10);
        s.append(digit_str(n % 10));
        assert(s@ =~= dec(n as nat));
        s
    }
}

/// Normalize each value of `key_values` and put the entries in key order;
/// the node itself stays a node.
pub fn map_keyvalues_sequence(key_values: &KeyValues) -> (r: KeyValues)
    ensures
        r@ == normalized_node(key_values@),
        key_values.wf() ==> r.wf(),
    decreases key_values, 0nat,
{
    let ghost m = mapped_entries(key_values@);
    let mut out = KeyValues::new();
    let mut i: usize = 0;
    assert(m.subrange(0, 0) =~= Seq::<(Seq<char>, VdfValue)>::empty());
    while i < key_values.entries.len()
        invariant
            m == mapped_entries(key_values@),
            i <= key_values.entries.len(),
            out@ == sort_entries(m.subrange(0, i as int)),
        decreases key_values.entries.len() - i,
    {
        proof {
            assert(decreases_to!(key_values => key_values.entries));
            assert(decreases_to!(key_values.entries => key_values.entries[i as int]));
            assert(decreases_to!(key_values.entries[i as int] => key_values.entries[i as int].1));
        }
        let k = key_values.entries[i].0.clone();
        let v = map_value_data(&key_values.entries[i].1);
        out.insert_sorted(k, v);
        i += 1;
        assert(m.subrange(0, i as int).drop_last() =~= m.subrange(0, i - 1));
    }
    assert(m.subrange(0, m.len() as int) =~= m);
    proof {
        if key_values.wf() {
            lemma_sort_entries(m);
        }
    }
    out
}

/// Where `key_values` is array-shaped, the position of the key of each
/// index.
fn array_positions(key_values: &KeyValues) -> (r: Option<Vec<usize>>)
    ensures
        r is Some <==> is_array(key_values@),
        match r {
            Some(idx) => idx.len() == key_values@.len() && forall|k: int|
                0 <= k < idx.len() ==> #[trigger] idx@[k] < key_values@.len() && idx@[k]
                    == key_index(key_values@, dec(k as nat)),
            None => true,
        },
{
    let ghost es = key_values@;
    let n = key_values.entries.len();
    if n == 0 {
        return None;
    }
    let mut idx: Vec<usize> = Vec::new();
    let mut i: usize = 0;
    while i < n
        invariant
            n == es.len(),
            es == key_values@,
            i <= n,
            idx.len() == i,
            forall|k: int|
                0 <= k < i ==> #[trigger] idx@[k] < n && idx@[k] == key_index(es, dec(k as nat))
                    && es[idx@[k] as int].0 == dec(k as nat),
        decreases n - i,
    {
        let key = decimal(i);
        match key_values.position(&key) {
            Some(j) => {
                idx.push(j);
                i += 1;
            },
            None => {
                assert(!has_key(es, dec(i as nat)));
                assert(!is_array(es)) by {
                    let ii: int = i as int;
                    if is_array(es) {
                        assert(has_key(es, dec(ii as nat)));
                    }
                }
                return None;
            },
        }
    }
    assert forall|k: int| 0 <= k < n implies has_key(es, #[trigger] dec(k as nat)) by {
        assert(es[idx@[k] as int].0 == dec(k as nat));
    }
    Some(idx)
}

/// The sequence of the array-shaped node `value`, its elements normalized.
#[verifier::rlimit(40)]
fn array_from_node(value: &Value, kv: &KeyValues, idx: Vec<usize>) -> (r: Value)
    requires
        *value == Value::KeyValueType(*kv),
        is_array(kv@),
        idx.len() == kv@.len(),
        forall|k: int|
            0 <= k < idx.len() ==> #[trigger] idx@[k] < kv@.len() && idx@[k] == key_index(
                kv@,
                dec(k as nat),
            ),
    ensures
        r@ == normalize_value(value@),
    decreases value, 0nat,
{
    proof {
        lemma_node_view(*kv);
    }
    let ghost es = kv@;
    let n = kv.entries.len();
    let mut elems: Vec<Value> = Vec::new();
    let mut k: usize = 0;
    while k < n
        invariant
            *value == Value::KeyValueType(*kv),
            n == es.len(),
            es == kv@,
            idx.len() == n,
            k <= n,
            elems.len() == k,
            forall|m: int|
                0 <= m < n ==> #[trigger] idx@[m] < n && idx@[m] == key_index(es, dec(m as nat)),
            forall|m: int|
                0 <= m < k ==> (#[trigger] elems@[m])@ == normalize_value(
                    es[key_index(es, dec(m as nat))].1,
                ),
        decreases n - k,
    {
        let j = idx[k];
        proof {
            assert(decreases_to!(value => value->KeyValueType_0));
            assert(decreases_to!(*kv => kv.entries));
            assert(decreases_to!(kv.entries => kv.entries[j as int]));
            assert(decreases_to!(kv.entries[j as int] => kv.entries[j as int].1));
        }
        let e = map_value_data(&kv.entries[j].1);
        elems.push(e);
        k += 1;
    }
    let r = Value::ArrayType(elems);
    proof {
        if let VdfValue::Array(x) = r@ {
            if let VdfValue::Array(y) = normalize_value(value@) {
                assert forall|m: int| 0 <= m < n implies x[m] == y[m] by {
                    assert(idx@[m] < n);
                }
                assert(x =~= y);
            }
        }
    }
    r
}

/// The sequence `value` with each element normalized.
fn map_array(value: &Value, a: &Vec<Value>) -> (r: Value)
    requires
        *value == Value::ArrayType(*a),
    ensures
        r@ == normalize_value(value@),
    decreases value, 0nat,
{
    let mut elems: Vec<Value> = Vec::new();
    let mut k: usize = 0;
    while k < a.len()
        invariant
            *value == Value::ArrayType(*a),
            k <= a.len(),
            elems.len() == k,
            forall|m: int| 0 <= m < k ==> (#[trigger] elems@[m])@ == normalize_value(a@[m]@),
        decreases a.len() - k,
    {
        proof {
            assert(decreases_to!(value => value->ArrayType_0));
            assert(decreases_to!(*a => a[k as int]));
        }
        let e = map_value_data(&a[k]);
        elems.push(e);
        k += 1;
    }
    let r = Value::ArrayType(elems);
    proof {
        if let VdfValue::Array(x) = r@ {
            if let VdfValue::Array(y) = normalize_value(value@) {
                assert(x =~= y);
            }
        }
    }
    r
}

/// `value` normalized: an array-shaped nested node becomes a sequence.
pub fn map_value_data(value: &Value) -> (r: Value)
    ensures
        r@ == normalize_value(value@),
    decreases value, 1nat,
{
    match value {
        Value::KeyValueType(kv) => {
            proof {
                assert(decreases_to!(value => value->KeyValueType_0));
            }
            match array_positions(kv) {
                Some(idx) => array_from_node(value, kv, idx),
                None => {
                    let m = map_keyvalues_sequence(kv);
                    proof {
                        lemma_node_view(*kv);
                        lemma_node_view(m);
                    }
                    Value::KeyValueType(m)
                },
            }
        },
        Value::ArrayType(a) => map_array(value, a),
        Value::StringType(s) => Value::StringType(s.clone()),
        Value::WideStringType(s) => Value::WideStringType(s.clone()),
        Value::Int32Type(x) => Value::Int32Type(*x),
        Value::PointerType(x) => Value::PointerType(*x),
        Value::ColorType(x) => Value::ColorType(*x),
        Value::UInt64Type(x) => Value::UInt64Type(*x),
        Value::Int64Type(x) => Value::Int64Type(*x),
        Value::Float32Type(x) => Value::Float32Type(*x),
    }
}

/// Normalizing keeps keys and strings, so adds no NUL character.
pub proof fn lemma_normalize_nul_free(v: VdfValue)
    requires
        nul_free(v),
    ensures
        nul_free(normalize_value(v)),
    decreases v,
{
    match v {
        VdfValue::Node(es) => {
            if is_array(es) {
                let s = normalize_value(v)->Array_0;
                assert forall|i: int| 0 <= i < s.len() implies nul_free(#[trigger] s[i]) by {
                    let j = key_index(es, dec(i as nat));
                    assert(has_key(es, dec(i as nat)));
                    lemma_key_index(es, dec(i as nat));
                    lemma_normalize_nul_free(es[j].1);
                }
            } else {
                let m = mapped_entries(es);
                let ns = sort_entries(m);
                lemma_sort_entries(m);
                assert forall|i: int| 0 <= i < ns.len() implies !(#[trigger] ns[i]).0.contains('\0')
                    && nul_free(ns[i].1) by {
                    assert(m.contains(ns[i]));
                    let j = choose|j: int| 0 <= j < m.len() && m[j] == ns[i];
                    lemma_normalize_nul_free(es[j].1);
                }
            }
        },
        VdfValue::Array(s) => {
            let ns = normalize_value(v)->Array_0;
            assert forall|i: int| 0 <= i < ns.len() implies nul_free(#[trigger] ns[i]) by {
                lemma_normalize_nul_free(s[i]);
            }
        },
        _ => {},
    }
}

/// Normalizing the values of a node adds no NUL character.
pub proof fn lemma_normalized_nul_free(n: NodeModel)
    requires
        node_nul_free(n),
    ensures
        node_nul_free(normalized_node(n)),
{
    let m = mapped_entries(n);
    let s = normalized_node(n);
    lemma_sort_entries(m);
    assert forall|i: int| 0 <= i < s.len() implies !(#[trigger] s[i]).0.contains('\0') && nul_free(
        s[i].1,
    ) by {
        assert(m.contains(s[i]));
        let j = choose|j: int| 0 <= j < m.len() && m[j] == s[i];
        lemma_normalize_nul_free(n[j].1);
    }
}

/// Distinct byte strings are ordered one way or the other.
proof fn lemma_bytes_lt_total(a: Seq<u8>, b: Seq<u8>)
    requires
        a != b,
    ensures
        bytes_lt(a, b) || bytes_lt(b, a),
    decreases a.len(),
{
    if a.len() == 0 {
        assert(b.len() > 0) by {
            if b.len() == 0 {
                assert(a =~= b);
            }
        }
    } else if b.len() > 0 && a[0] == b[0] {
        if a.drop_first() == b.drop_first() {
            assert(a =~= seq![a[0]] + a.drop_first());
            assert(b =~= seq![b[0]] + b.drop_first());
        }
        lemma_bytes_lt_total(a.drop_first(), b.drop_first());
    }
}

/// Distinct keys are ordered one way or the other.
pub proof fn lemma_key_lt_total(a: Seq<char>, b: Seq<char>)
    requires
        a != b,
    ensures
        key_lt(a, b) || key_lt(b, a),
{
    encode_utf8_decode_utf8(a);
    encode_utf8_decode_utf8(b);
    lemma_bytes_lt_total(encode_utf8(a), encode_utf8(b));
}

/// `sorted_pos` lies after every key that sorts before `k` found from the
/// end, and before the entries whose keys do not.
proof fn lemma_sorted_pos(n: NodeModel, k: Seq<char>)
    ensures
        0 <= sorted_pos(n, k) <= n.len(),
        sorted_pos(n, k) > 0 ==> key_lt(n[sorted_pos(n, k) - 1].0, k),
        forall|j: int| sorted_pos(n, k) <= j < n.len() ==> !key_lt(#[trigger] n[j].0, k),
    decreases n.len(),
{
    if n.len() > 0 && !key_lt(n.last().0, k) {
        lemma_sorted_pos(n.drop_last(), k);
        assert forall|j: int| sorted_pos(n, k) <= j < n.len() implies !key_lt(#[trigger] n[j].0, k) by {
            if j < n.len() - 1 {
                assert(n[j] == n.drop_last()[j]);
            }
        }
    }
}

/// Where the entries from `i` on do not sort before `k`, the position of
/// `k` is its position in the entries before `i`.
pub proof fn lemma_sorted_pos_prefix(n: NodeModel, k: Seq<char>, i: int)
    requires
        0 <= i <= n.len(),
        forall|j: int| i <= j < n.len() ==> !key_lt(#[trigger] n[j].0, k),
    ensures
        sorted_pos(n, k) == sorted_pos(n.subrange(0, i), k),
    decreases n.len(),
{
    if i == n.len() {
        assert(n.subrange(0, i) =~= n);
    } else {
        let m = n.drop_last();
        assert forall|j: int| i <= j < m.len() implies !key_lt(#[trigger] m[j].0, k) by {
            assert(m[j] == n[j]);
        }
        lemma_sorted_pos_prefix(m, k, i);
        assert(m.subrange(0, i) =~= n.subrange(0, i));
    }
}

/// Sorting keeps the entries: the same number, each from `n`, each of `n`
/// present; with distinct keys they end up distinct and in key order.
pub proof fn lemma_sort_entries(n: NodeModel)
    ensures
        sort_entries(n).len() == n.len(),
        forall|m: int| 0 <= m < n.len() ==> n.contains(#[trigger] sort_entries(n)[m]),
        forall|j: int| 0 <= j < n.len() ==> sort_entries(n).contains(#[trigger] n[j]),
        keys_unique(n) ==> keys_unique(sort_entries(n)) && keys_in_order(sort_entries(n)),
    decreases n.len(),
{
    if n.len() > 0 {
        let d = n.drop_last();
        let s = sort_entries(d);
        let e = n.last();
        lemma_sort_entries(d);
        lemma_sorted_pos(s, e.0);
        let p = sorted_pos(s, e.0);
        let r = s.insert(p, e);
        assert(sort_entries(n) == r);
        assert forall|m: int| 0 <= m < n.len() implies n.contains(#[trigger] r[m]) by {
            if m < p {
                assert(r[m] == s[m]);
                let j = choose|j: int| 0 <= j < d.len() && d[j] == s[m];
                assert(n[j] == d[j]);
            } else if m == p {
                assert(n[n.len() - 1] == e);
            } else {
                assert(r[m] == s[m - 1]);
                let j = choose|j: int| 0 <= j < d.len() && d[j] == s[m - 1];
                assert(n[j] == d[j]);
            }
        }
        assert forall|j: int| 0 <= j < n.len() implies r.contains(#[trigger] n[j]) by {
            if j == n.len() - 1 {
                assert(r[p] == e);
            } else {
                assert(n[j] == d[j]);
                assert(s.contains(d[j]));
                let m = choose|m: int| 0 <= m < s.len() && s[m] == d[j];
                if m < p {
                    assert(r[m] == s[m]);
                } else {
                    assert(r[m + 1] == s[m]);
                }
            }
        }
        if keys_unique(n) {
            assert(keys_unique(d));
            assert forall|m: int| 0 <= m < s.len() implies s[m].0 != e.0 by {
                let j = choose|j: int| 0 <= j < d.len() && d[j] == s[m];
                assert(n[j].0 != n[n.len() - 1].0);
            }
            lemma_insert_unique_in_order(s, p, e);
        }
    }
}

/// Inserting an entry with a new key at its sorted position keeps keys
/// distinct and in order.
proof fn lemma_insert_unique_in_order(s: NodeModel, p: int, e: (Seq<char>, VdfValue))
    requires
        keys_unique(s),
        keys_in_order(s),
        p == sorted_pos(s, e.0),
        forall|m: int| 0 <= m < s.len() ==> s[m].0 != e.0,
    ensures
        keys_unique(s.insert(p, e)),
        keys_in_order(s.insert(p, e)),
{
    lemma_sorted_pos(s, e.0);
    let r = s.insert(p, e);
    assert forall|x: int, y: int| 0 <= x < y < r.len() implies r[x].0 != r[y].0 by {
        if x < p && y < p {
        } else if x < p && y == p {
        } else if x < p && y > p {
            assert(r[y] == s[y - 1]);
        } else if x == p {
            assert(r[y] == s[y - 1]);
        } else {
            assert(r[x] == s[x - 1] && r[y] == s[y - 1]);
        }
    }
    assert forall|i: int| 0 < i < r.len() implies key_lt(#[trigger] r[i - 1].0, r[i].0) by {
        if i < p {
            assert(r[i - 1] == s[i - 1] && r[i] == s[i]);
            assert(key_lt(s[i - 1].0, s[i].0));
        } else if i == p {
            assert(r[i - 1] == s[p - 1]);
            assert(r[i] == e);
        } else if i == p + 1 {
            assert(r[i] == s[p]);
            assert(r[i - 1] == e);
            assert(!key_lt(s[p].0, e.0));
            lemma_key_lt_total(s[p].0, e.0);
        } else {
            let k = i - 1;
            assert(r[i - 1] == s[k - 1] && r[i] == s[k]);
            assert(key_lt(s[k - 1].0, s[k].0));
        }
    }
}

/// Entries already in key order, with distinct keys, stay as they are.
pub proof fn lemma_sort_identity(n: NodeModel)
    requires
        keys_unique(n),
        keys_in_order(n),
    ensures
        sort_entries(n) == n,
    decreases n.len(),
{
    if n.len() > 0 {
        let d = n.drop_last();
        assert(keys_unique(d));
        assert(keys_in_order(d)) by {
            assert forall|i: int| 0 < i < d.len() implies key_lt(#[trigger] d[i - 1].0, d[i].0) by {
                assert(d[i - 1] == n[i - 1] && d[i] == n[i]);
            }
        }
        lemma_sort_identity(d);
        if d.len() > 0 {
            assert(key_lt(n[n.len() - 2].0, n[n.len() - 1].0));
            assert(d.last() == n[n.len() - 2]);
        }
        assert(d.insert(sorted_pos(d, n.last().0), n.last()) =~= n);
    }
}

/// Key `a` sorts before key `b`.
pub fn key_before(a: &String, b: &String) -> (r: bool)
    ensures
        r == key_lt(a@, b@),
{
    let x = a.as_str().as_bytes();
    let y = b.as_str().as_bytes();
    let ghost xs = x@;
    let ghost ys = y@;
    let mut i: usize = 0;
    assert(xs.subrange(0, xs.len() as int) =~= xs);
    assert(ys.subrange(0, ys.len() as int) =~= ys);
    loop
        invariant
            xs == x@,
            ys == y@,
            xs == encode_utf8(a@),
            ys == encode_utf8(b@),
            i <= xs.len(),
            i <= ys.len(),
            key_lt(a@, b@) == bytes_lt(xs.subrange(i as int, xs.len() as int), ys.subrange(i as int, ys.len() as int)),
        decreases xs.len() - i,
    {
        let ghost xr = xs.subrange(i as int, xs.len() as int);
        let ghost yr = ys.subrange(i as int, ys.len() as int);
        if i == x.len() {
            return i < y.len();
        }
        if i == y.len() {
            return false;
        }
        if x[i] != y[i] {
            return x[i] < y[i];
        }
        assert(xr.drop_first() =~= xs.subrange(i + 1, xs.len() as int));
        assert(yr.drop_first() =~= ys.subrange(i + 1, ys.len() as int));
        i += 1;
    }
}

impl KeyValues {
    /// Insert an entry after the last entry whose key sorts before `key`.
    pub fn insert_sorted(&mut self, key: String, value: Value)
        ensures
            final(self)@ == old(self)@.insert(sorted_pos(old(self)@, key@), (key@, value@)),
    {
        let ghost n = self@;
        let mut i: usize = self.entries.len();
        while i > 0 && !key_before(&self.entries[i - 1].0, &key)
            invariant
                n == self@,
                i <= n.len(),
                forall|j: int| i <= j < n.len() ==> !key_lt(#[trigger] n[j].0, key@),
            decreases i,
        {
            i -= 1;
        }
        proof {
            lemma_sorted_pos_prefix(n, key@, i as int);
            let pre = n.subrange(0, i as int);
            if i > 0 {
                assert(pre.last() == n[i - 1]);
            }
        }
        let ghost kv = (key@, value@);
        self.entries.insert(i, (key, value));
        assert(self@ =~= n.insert(i as int, kv));
    }
}

/// The entries of `n` at the positions `o`.
pub open spec fn pick(n: NodeModel, o: Seq<int>) -> NodeModel {
    Seq::new(o.len(), |m: int| n[o[m]])
}

/// The positions of the first `i` entries of `n`, in the key order of those
/// entries.
pub open spec fn key_order(n: NodeModel, i: int) -> Seq<int>
    decreases i,
{
    if i <= 0 {
        Seq::empty()
    } else {
        let o = key_order(n, i - 1);
        o.insert(sorted_pos(pick(n, o), n[i - 1].0), i - 1)
    }
}

/// `key_order` lists positions before `i`, and picks the sorted entries.
pub proof fn lemma_key_order(n: NodeModel, i: int)
    requires
        0 <= i <= n.len(),
    ensures
        key_order(n, i).len() == i,
        forall|m: int| 0 <= m < i ==> 0 <= #[trigger] key_order(n, i)[m] < i,
        pick(n, key_order(n, i)) == sort_entries(n.subrange(0, i)),
    decreases i,
{
    if i > 0 {
        lemma_key_order(n, i - 1);
        let o = key_order(n, i - 1);
        let p = sorted_pos(pick(n, o), n[i - 1].0);
        lemma_sorted_pos(pick(n, o), n[i - 1].0);
        let o2 = o.insert(p, i - 1);
        assert forall|m: int| 0 <= m < i implies 0 <= #[trigger] o2[m] < i by {
            if m < p {
                assert(o2[m] == o[m]);
            } else if m > p {
                assert(o2[m] == o[m - 1]);
            }
        }
        let s = n.subrange(0, i);
        assert(s.drop_last() =~= n.subrange(0, i - 1));
        assert(pick(n, o2) =~= pick(n, o).insert(p, n[i - 1]));
    } else {
        assert(n.subrange(0, 0) =~= Seq::<(Seq<char>, VdfValue)>::empty());
        assert(pick(n, key_order(n, i)) =~= Seq::<(Seq<char>, VdfValue)>::empty());
    }
}

/// `key_order` depends on the keys alone.
pub proof fn lemma_key_order_keys(a: NodeModel, b: NodeModel, i: int)
    requires
        0 <= i <= a.len(),
        a.len() == b.len(),
        forall|j: int| 0 <= j < a.len() ==> (#[trigger] a[j]).0 == b[j].0,
    ensures
        key_order(a, i) == key_order(b, i),
    decreases i,
{
    if i > 0 {
        lemma_key_order_keys(a, b, i - 1);
        lemma_key_order(a, i - 1);
        let o = key_order(a, i - 1);
        let pa = pick(a, o);
        let pb = pick(b, o);
        assert forall|j: int| 0 <= j < pa.len() implies (#[trigger] pa[j]).0 == pb[j].0 by {
            assert(0 <= o[j] < i - 1);
            assert(a[o[j]].0 == b[o[j]].0);
        }
        lemma_sorted_pos_keys(pa, pb, a[i - 1].0);
    }
}

/// `sorted_pos` depends on the keys alone.
proof fn lemma_sorted_pos_keys(a: NodeModel, b: NodeModel, k: Seq<char>)
    requires
        a.len() == b.len(),
        forall|j: int| 0 <= j < a.len() ==> (#[trigger] a[j]).0 == b[j].0,
    ensures
        sorted_pos(a, k) == sorted_pos(b, k),
    decreases a.len(),
{
    if a.len() > 0 {
        assert(a.last().0 == b.last().0) by {
            assert(a[a.len() - 1].0 == b[b.len() - 1].0);
        }
        let (da, db) = (a.drop_last(), b.drop_last());
        assert forall|j: int| 0 <= j < da.len() implies (#[trigger] da[j]).0 == db[j].0 by {
            assert(a[j].0 == b[j].0);
        }
        lemma_sorted_pos_keys(da, db, k);
    }
}

/// Entries already in key order with distinct keys are visited in place.
pub proof fn lemma_key_order_identity(n: NodeModel, i: int)
    requires
        0 <= i <= n.len(),
        keys_in_order(n),
    ensures
        forall|m: int| 0 <= m < i ==> #[trigger] key_order(n, i)[m] == m,
        key_order(n, i).len() == i,
    decreases i,
{
    lemma_key_order(n, i);
    if i > 0 {
        lemma_key_order_identity(n, i - 1);
        let o = key_order(n, i - 1);
        let p = pick(n, o);
        assert(p =~= n.subrange(0, i - 1)) by {
            assert forall|m: int| 0 <= m < i - 1 implies p[m] == n[m] by {
                assert(o[m] == m);
            }
        }
        if i > 1 {
            assert(key_lt(n[i - 2].0, n[i - 1].0));
            assert(p.last() == n[i - 2]);
        }
        assert(sorted_pos(p, n[i - 1].0) == i - 1);
        let o2 = o.insert(i - 1, i - 1);
        assert forall|m: int| 0 <= m < i implies #[trigger] o2[m] == m by {
            if m < i - 1 {
                assert(o2[m] == o[m]);
            }
        }
    }
}

/// The positions of the entries of `n`, whose keys are `keys`, in key
/// order.
pub(crate) fn key_positions(keys: &Vec<String>, Ghost(n): Ghost<NodeModel>) -> (r: Vec<usize>)
    requires
        keys@.len() == n.len(),
        forall|j: int| 0 <= j < n.len() ==> (#[trigger] keys@[j])@ == n[j].0,
    ensures
        r@.len() == n.len(),
        forall|m: int| 0 <= m < n.len() ==> #[trigger] r@[m] as int == key_order(n, n.len() as int)[m],
        forall|m: int| 0 <= m < n.len() ==> #[trigger] r@[m] < n.len(),
{
    let mut r: Vec<usize> = Vec::new();
    let mut i: usize = 0;
    while i < keys.len()
        invariant
            keys@.len() == n.len(),
            forall|j: int| 0 <= j < n.len() ==> (#[trigger] keys@[j])@ == n[j].0,
            i <= n.len(),
            r@.len() == i,
            forall|m: int| 0 <= m < i ==> #[trigger] r@[m] as int == key_order(n, i as int)[m],
            forall|m: int| 0 <= m < i ==> #[trigger] r@[m] < i,
        decreases keys.len() - i,
    {
        let ghost o = key_order(n, i as int);
        let ghost pk = pick(n, o);
        proof {
            lemma_key_order(n, i as int);
        }
        let mut j: usize = i;
        while j > 0 && !key_before(&keys[r[j - 1]], &keys[i])
            invariant
                keys@.len() == n.len(),
                forall|x: int| 0 <= x < n.len() ==> (#[trigger] keys@[x])@ == n[x].0,
                i < n.len(),
                r@.len() == i,
                j <= i,
                o == key_order(n, i as int),
                pk == pick(n, o),
                o.len() == i,
                forall|m: int| 0 <= m < i ==> #[trigger] r@[m] as int == o[m],
                forall|m: int| 0 <= m < i ==> #[trigger] r@[m] < i,
                forall|x: int| j <= x < i ==> !key_lt(#[trigger] pk[x].0, n[i as int].0),
            decreases j,
        {
            j -= 1;
        }
        proof {
            lemma_sorted_pos_prefix(pk, n[i as int].0, j as int);
            if j > 0 {
                assert(pk.subrange(0, j as int).last() == pk[j - 1]);
            }
            assert(sorted_pos(pk, n[i as int].0) == j);
        }
        let ghost before = r@;
        r.insert(j, i);
        i += 1;
        proof {
            let o2 = key_order(n, i as int);
            assert(o2 == o.insert(j as int, i - 1));
            assert forall|m: int| 0 <= m < i implies #[trigger] r@[m] as int == o2[m] && r@[m] < i by {
                if m < j {
                    assert(r@[m] == before[m]);
                } else if m > j {
                    assert(r@[m] == before[m - 1]);
                }
            }
        }
    }
    r
}

} // verus!
