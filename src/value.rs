//! The value model: decoded scalars, nodes and sequences, with their
//! mathematical views.

use vstd::prelude::*;

verus! {

broadcast use vstd::std_specs::vec::group_vec_axioms;

/// Tag of a nested node.
pub const BIN_KV: u8 = 0x00;
/// Tag of a NUL-terminated byte string.
pub const BIN_STRING: u8 = 0x01;
/// Tag of a signed 32-bit integer.
pub const BIN_INT32: u8 = 0x02;
/// Tag of a 32-bit float.
pub const BIN_FLOAT32: u8 = 0x03;
/// Tag of a pointer (wire shape of a signed 32-bit integer).
pub const BIN_POINTER: u8 = 0x04;
/// Tag of a UTF-16 string.
pub const BIN_WIDESTRING: u8 = 0x05;
/// Tag of a color (wire shape of a signed 32-bit integer).
pub const BIN_COLOR: u8 = 0x06;
/// Tag of an unsigned 64-bit integer.
pub const BIN_UINT64: u8 = 0x07;
/// End of a node, normal format.
pub const BIN_END: u8 = 0x08;
/// Tag of a signed 64-bit integer.
pub const BIN_INT64: u8 = 0x0A;
/// End of a node, alternate format.
pub const BIN_END_ALT: u8 = 0x0B;

/// A decoded value, as a mathematical object.
pub enum VdfValue {
    Str(Seq<char>),
    WStr(Seq<char>),
    Int32(i32),
    Pointer(i32),
    Color(i32),
    UInt64(u64),
    Int64(i64),
    /// The IEEE-754 bit pattern of the float.
    Float32(u32),
    Node(Seq<(Seq<char>, VdfValue)>),
    Array(Seq<VdfValue>),
}

/// A node as a mathematical object: its entries in storage order.
pub type NodeModel = Seq<(Seq<char>, VdfValue)>;

/// A decoded value.
#[derive(Debug)]
pub enum Value {
    StringType(String),
    WideStringType(String),
    Int32Type(i32),
    PointerType(i32),
    ColorType(i32),
    UInt64Type(u64),
    Int64Type(i64),
    /// The IEEE-754 bit pattern of a 32-bit float (`f32::to_bits`).
    Float32Type(u32),
    KeyValueType(KeyValues),
    ArrayType(Vec<Value>),
}

/// A node: entries with pairwise distinct keys. Decoded nodes hold their
/// entries in key order, the byte order of the keys, and the writer emits
/// entries in that order whatever their storage order.
#[derive(Debug)]
pub struct KeyValues {
    pub entries: Vec<(String, Value)>,
}

impl Value {
    /// The mathematical value.
    pub open spec fn model(&self) -> VdfValue
        decreases self,
    {
        match self {
            Value::StringType(s) => VdfValue::Str(s@),
            Value::WideStringType(s) => VdfValue::WStr(s@),
            Value::Int32Type(i) => VdfValue::Int32(*i),
            Value::PointerType(i) => VdfValue::Pointer(*i),
            Value::ColorType(i) => VdfValue::Color(*i),
            Value::UInt64Type(i) => VdfValue::UInt64(*i),
            Value::Int64Type(i) => VdfValue::Int64(*i),
            Value::Float32Type(b) => VdfValue::Float32(*b),
            Value::KeyValueType(kv) => VdfValue::Node(
                Seq::new(
                    kv.entries.len() as nat,
                    |i: int|
                        if 0 <= i < kv.entries.len() {
                            (kv.entries@[i].0@, kv.entries@[i].1.model())
                        } else {
                            (Seq::empty(), VdfValue::Int32(0))
                        },
                ),
            ),
            Value::ArrayType(a) => VdfValue::Array(
                Seq::new(
                    a.len() as nat,
                    |i: int|
                        if 0 <= i < a.len() {
                            a@[i].model()
                        } else {
                            VdfValue::Int32(0)
                        },
                ),
            ),
        }
    }
}

impl View for Value {
    type V = VdfValue;

    open spec fn view(&self) -> VdfValue {
        self.model()
    }
}

impl View for KeyValues {
    type V = NodeModel;

    open spec fn view(&self) -> NodeModel {
        Seq::new(self.entries.len() as nat, |i: int| (self.entries@[i].0@, self.entries@[i].1@))
    }
}

/// The strings of `v` as character sequences.
pub open spec fn strings_view(v: Seq<String>) -> Seq<Seq<char>> {
    v.map_values(|s: String| s@)
}

/// No string and no key of `v` holds a NUL character.
pub open spec fn nul_free(v: VdfValue) -> bool
    decreases v,
{
    match v {
        VdfValue::Str(s) => !s.contains('\0'),
        VdfValue::Node(es) => forall|i: int|
            0 <= i < es.len() ==> !(#[trigger] es[i]).0.contains('\0') && nul_free(es[i].1),
        VdfValue::Array(s) => forall|i: int| 0 <= i < s.len() ==> nul_free(#[trigger] s[i]),
        _ => true,
    }
}

/// No key and no string of the node `n` holds a NUL character.
pub open spec fn node_nul_free(n: NodeModel) -> bool {
    forall|i: int| 0 <= i < n.len() ==> !(#[trigger] n[i]).0.contains('\0') && nul_free(n[i].1)
}

/// `s` with each quote and backslash preceded by a backslash.
pub open spec fn escaped(s: Seq<char>) -> Seq<char>
    decreases s.len(),
{
    if s.len() == 0 {
        Seq::empty()
    } else {
        let c = s.last();
        escaped(s.drop_last()) + if c == '"' {
            seq!['\\', '"']
        } else if c == '\\' {
            seq!['\\', '\\']
        } else {
            seq![c]
        }
    }
}

/// Escape quotes and backslashes of `s` for display between quotes.
pub fn fmt_string(s: &str) -> (r: String)
    ensures
        r@ == escaped(s@),
{
    let n = s.unicode_len();
    let mut out = String::new();
    let mut i: usize = 0;
    while i < n
        invariant
            n == s@.len(),
            i <= n,
            out@ == escaped(s@.subrange(0, i as int)),
        decreases n - i,
    {
        let c = s.get_char(i);
        let ghost before = out@;
        if c == '"' {
            proof {
                reveal_strlit("\\\"");
            }
            out.append("\\\"");
            assert(out@ =~= before + seq!['\\', '"']);
        } else if c == '\\' {
            proof {
                reveal_strlit("\\\\");
            }
            out.append("\\\\");
            assert(out@ =~= before + seq!['\\', '\\']);
        } else {
            let one = s.substring_char(i, i + 1);
            assert(one@ =~= seq![c]);
            out.append(one);
        }
        i += 1;
        assert(s@.subrange(0, i as int).last() == c);
        assert(s@.subrange(0, i as int).drop_last() =~= s@.subrange(0, i - 1));
        assert(out@ =~= escaped(s@.subrange(0, i as int)));
    }
    assert(s@.subrange(0, n as int) =~= s@);
    out
}

/// No two entries of `n` share a key.
pub open spec fn keys_unique(n: NodeModel) -> bool {
    forall|i: int, j: int| 0 <= i < j < n.len() ==> n[i].0 != n[j].0
}

/// `n` has an entry with key `k`.
pub open spec fn has_key(n: NodeModel, k: Seq<char>) -> bool {
    exists|i: int| 0 <= i < n.len() && n[i].0 == k
}

/// The position of the first entry with key `k` (meaningful where
/// `has_key(n, k)`).
pub open spec fn key_index(n: NodeModel, k: Seq<char>) -> int {
    choose|i: int| 0 <= i < n.len() && n[i].0 == k && forall|j: int| 0 <= j < i ==> n[j].0 != k
}

/// `n` with `v` stored under `k`: in place where `k` is present, else appended.
pub open spec fn node_insert(n: NodeModel, k: Seq<char>, v: VdfValue) -> NodeModel {
    if has_key(n, k) {
        n.update(key_index(n, k), (k, v))
    } else {
        n.push((k, v))
    }
}

/// Where `n` has key `k`, `key_index` is the position of its first entry.
pub proof fn lemma_key_index(n: NodeModel, k: Seq<char>)
    requires
        has_key(n, k),
    ensures
        0 <= key_index(n, k) < n.len(),
        n[key_index(n, k)].0 == k,
        forall|j: int| 0 <= j < key_index(n, k) ==> n[j].0 != k,
    decreases n.len(),
{
    let m = n.drop_last();
    if has_key(m, k) {
        lemma_key_index(m, k);
        let w = key_index(m, k);
        assert(forall|j: int| 0 <= j < m.len() ==> m[j] == n[j]);
        assert(0 <= w < n.len() && n[w].0 == k && forall|j: int| 0 <= j < w ==> n[j].0 != k);
    } else {
        let w = n.len() - 1;
        assert forall|j: int| 0 <= j < w implies n[j].0 != k by {
            if n[j].0 == k {
                assert(m[j].0 == k);
            }
        }
        assert(n[w].0 == k) by {
            let i = choose|i: int| 0 <= i < n.len() && n[i].0 == k;
            if i < w {
                assert(m[i].0 == k);
            }
        }
        assert(0 <= w < n.len() && n[w].0 == k && forall|j: int| 0 <= j < w ==> n[j].0 != k);
    }
}

/// The entries of `node_insert(n, k, v)` are `(k, v)` and entries of `n`.
pub proof fn lemma_node_insert_from(n: NodeModel, k: Seq<char>, v: VdfValue, j: int)
    requires
        keys_unique(n),
        0 <= j < node_insert(n, k, v).len(),
    ensures
        node_insert(n, k, v)[j] == (k, v) || (j < n.len() && node_insert(n, k, v)[j] == n[j]),
{
    if has_key(n, k) {
        let w = choose|i: int| 0 <= i < n.len() && n[i].0 == k;
        assert(forall|i: int| 0 <= i < w ==> n[i].0 != k);
    }
}

/// Storing a value keeps keys distinct, and the key is then present.
pub proof fn lemma_node_insert_unique(n: NodeModel, k: Seq<char>, v: VdfValue)
    requires
        keys_unique(n),
    ensures
        keys_unique(node_insert(n, k, v)),
        has_key(node_insert(n, k, v), k),
{
    if has_key(n, k) {
        let i = key_index(n, k);
        assert(node_insert(n, k, v)[i].0 == k);
    } else {
        assert(node_insert(n, k, v)[n.len() as int].0 == k);
    }
}

impl KeyValues {
    /// Keys are distinct.
    pub open spec fn wf(&self) -> bool {
        keys_unique(self@)
    }

    /// An empty node.
    pub fn new() -> (r: KeyValues)
        ensures
            r@ == Seq::<(Seq<char>, VdfValue)>::empty(),
            r.wf(),
    {
        let r = KeyValues { entries: Vec::new() };
        assert(r@ =~= Seq::<(Seq<char>, VdfValue)>::empty());
        r
    }

    /// The number of entries.
    pub fn len(&self) -> (r: usize)
        ensures
            r == self@.len(),
    {
        self.entries.len()
    }

    /// Position of the entry with key `key`, if there is one.
    pub fn position(&self, key: &String) -> (r: Option<usize>)
        ensures
            match r {
                Some(i) => i < self@.len() && self@[i as int].0 == key@ && key_index(self@, key@)
                    == i,
                None => !has_key(self@, key@),
            },
    {
        let mut i: usize = 0;
        while i < self.entries.len()
            invariant
                i <= self.entries.len(),
                forall|j: int| 0 <= j < i ==> self@[j].0 != key@,
            decreases self.entries.len() - i,
        {
            if self.entries[i].0 == *key {
                assert(self@[i as int].0 == key@);
                let ghost k = key_index(self@, key@);
                assert(0 <= k < self@.len() && self@[k].0 == key@ && forall|j: int|
                    0 <= j < k ==> self@[j].0 != key@);
                assert(k == i) by {
                    if k < i {
                        assert(self@[k].0 != key@);
                    } else if k > i {
                        assert(self@[i as int].0 != key@);
                    }
                }
                return Some(i);
            }
            i += 1;
        }
        None
    }

    /// The value stored under `key`.
    pub fn get(&self, key: &str) -> (r: Option<&Value>)
        ensures
            match r {
                Some(v) => has_key(self@, key@) && v@ == self@[key_index(self@, key@)].1,
                None => !has_key(self@, key@),
            },
    {
        let owned = key.to_owned();
        match self.position(&owned) {
            Some(i) => Some(&self.entries[i].1),
            None => None,
        }
    }

    /// Store `value` under `key`: in place of the value already there, else
    /// as a new last entry.
    pub fn insert(&mut self, key: String, value: Value)
        requires
            old(self).wf(),
        ensures
            final(self).wf(),
            final(self)@ == node_insert(old(self)@, key@, value@),
    {
        proof {
            lemma_node_insert_unique(self@, key@, value@);
        }
        let ghost k = key@;
        let ghost v = value@;
        match self.position(&key) {
            Some(i) => {
                self.entries.set(i, (key, value));
                assert(self@ =~= node_insert(old(self)@, k, v));
            },
            None => {
                self.entries.push((key, value));
                assert(self@ =~= node_insert(old(self)@, k, v));
            },
        }
    }
}

} // verus!

verus! {

/// The view of a node value is the view of its node.
pub proof fn lemma_node_view(kv: KeyValues)
    ensures
        Value::KeyValueType(kv)@ == VdfValue::Node(kv@),
{
    let v = Value::KeyValueType(kv);
    if let VdfValue::Node(x) = v@ {
        assert(x =~= kv@);
    }
}

} // verus!
