//! The node parser: a tag/key/value list ended by an end marker, with keys
//! inline or taken from a string pool.

use vstd::prelude::*;

pub use crate::catalog::{parse_app_info, parse_app_info_with, parse_package_info, parse_package_info_with};

use crate::bytes::{le_u32, le_u64, read_cstring, read_u32, read_u64, read_u8, read_wide_string, spec_cstring, spec_wide_string};
use crate::error::VdfrError;
use crate::normalize::{
    keys_in_order, lemma_normalized_nul_free, lemma_sort_entries, map_keyvalues_sequence,
    mapped_entries, normalized_node,
};
use crate::value::{
    KeyValues, NodeModel, Value, VdfValue, lemma_node_insert_from, lemma_node_view, node_insert,
    keys_unique, node_nul_free, nul_free, strings_view, BIN_COLOR, BIN_END,
    BIN_END_ALT, BIN_FLOAT32, BIN_INT32, BIN_INT64, BIN_KV, BIN_POINTER, BIN_STRING, BIN_UINT64,
    BIN_WIDESTRING,
};

verus! {

broadcast use vstd::std_specs::vec::group_vec_axioms;

/// Nesting ceiling of the default options.
pub const DEFAULT_MAX_DEPTH: usize = 128;

/// Options for reading key-value data.
#[derive(Debug)]
pub struct KeyValueOptions {
    /// Keys by index; when empty, keys are inline strings.
    pub string_pool: Vec<String>,
    /// Nodes end with the alternate end marker.
    pub alt_format: bool,
    /// How many levels of nested nodes a parse accepts.
    pub max_depth: usize,
}

impl KeyValueOptions {
    /// The string pool as character sequences.
    pub open spec fn pool(&self) -> Seq<Seq<char>> {
        strings_view(self.string_pool@)
    }
}

impl Default for KeyValueOptions {
    fn default() -> (r: KeyValueOptions)
        ensures
            r.string_pool@.len() == 0,
            !r.alt_format,
            r.max_depth == DEFAULT_MAX_DEPTH,
    {
        KeyValueOptions { string_pool: Vec::new(), alt_format: false, max_depth: DEFAULT_MAX_DEPTH }
    }
}

/// No string of `pool` holds a NUL character.
pub open spec fn pool_nul_free(pool: Seq<Seq<char>>) -> bool {
    forall|j: int| 0 <= j < pool.len() ==> !(#[trigger] pool[j]).contains('\0')
}

/// The byte that ends a node.
pub open spec fn end_marker(alt: bool) -> u8 {
    if alt {
        BIN_END_ALT
    } else {
        BIN_END
    }
}

/// A key at `p`: an inline string, or with a non-empty pool a 32-bit index
/// into it.
pub open spec fn spec_key(d: Seq<u8>, p: int, pool: Seq<Seq<char>>) -> Result<
    (Seq<char>, int),
    VdfrError,
> {
    if pool.len() == 0 {
        spec_cstring(d, p)
    } else if p + 4 > d.len() {
        Err(VdfrError::UnexpectedEof)
    } else {
        let j = le_u32(d, p);
        if j >= pool.len() {
            Err(VdfrError::InvalidStringIndex(j as usize, pool.len() as usize))
        } else {
            Ok((pool[j as int], p + 4))
        }
    }
}

/// A value other than a node at `p`, shaped by `tag`.
pub open spec fn spec_scalar(d: Seq<u8>, p: int, tag: u8) -> Result<(VdfValue, int), VdfrError> {
    if tag == BIN_STRING {
        match spec_cstring(d, p) {
            Ok((s, q)) => Ok((VdfValue::Str(s), q)),
            Err(e) => Err(e),
        }
    } else if tag == BIN_WIDESTRING {
        match spec_wide_string(d, p) {
            Ok((s, q)) => Ok((VdfValue::WStr(s), q)),
            Err(e) => Err(e),
        }
    } else if tag == BIN_INT32 || tag == BIN_POINTER || tag == BIN_COLOR || tag == BIN_FLOAT32 {
        if p + 4 > d.len() {
            Err(VdfrError::UnexpectedEof)
        } else {
            let x = le_u32(d, p);
            let v = if tag == BIN_INT32 {
                VdfValue::Int32(x as i32)
            } else if tag == BIN_POINTER {
                VdfValue::Pointer(x as i32)
            } else if tag == BIN_COLOR {
                VdfValue::Color(x as i32)
            } else {
                VdfValue::Float32(x)
            };
            Ok((v, p + 4))
        }
    } else if tag == BIN_UINT64 || tag == BIN_INT64 {
        if p + 8 > d.len() {
            Err(VdfrError::UnexpectedEof)
        } else {
            let x = le_u64(d, p);
            let v = if tag == BIN_UINT64 {
                VdfValue::UInt64(x)
            } else {
                VdfValue::Int64(x as i64)
            };
            Ok((v, p + 8))
        }
    } else {
        Err(VdfrError::InvalidType(tag))
    }
}

/// The entries from `p` to the end marker, stored into `acc`, and the
/// position after the marker. A nested node takes one level of `depth`.
pub open spec fn spec_entries(
    d: Seq<u8>,
    p: int,
    pool: Seq<Seq<char>>,
    alt: bool,
    depth: nat,
    acc: NodeModel,
) -> Result<(NodeModel, int), VdfrError>
    decreases depth, d.len() - p,
{
    if p < 0 || p >= d.len() {
        Err(VdfrError::UnexpectedEof)
    } else if d[p] == end_marker(alt) {
        Ok((acc, p + 1))
    } else {
        let tag = d[p];
        match spec_key(d, p + 1, pool) {
            Err(e) => Err(e),
            Ok((k, key_end)) => {
                let value = if tag == BIN_KV {
                    if depth == 0 {
                        Err(VdfrError::TooDeep)
                    } else {
                        match spec_entries(d, key_end, pool, alt, (depth - 1) as nat, Seq::empty()) {
                            Ok((n, q)) => Ok((VdfValue::Node(n), q)),
                            Err(e) => Err(e),
                        }
                    }
                } else {
                    spec_scalar(d, key_end, tag)
                };
                match value {
                    Err(e) => Err(e),
                    Ok((v, q)) => if p < q <= d.len() {
                        spec_entries(d, q, pool, alt, depth, node_insert(acc, k, v))
                    } else {
                        Err(VdfrError::UnexpectedEof)
                    },
                }
            },
        }
    }
}

/// A node at `p`: its entries and the position after its end marker.
pub open spec fn spec_node(d: Seq<u8>, p: int, pool: Seq<Seq<char>>, alt: bool, depth: nat) -> Result<
    (NodeModel, int),
    VdfrError,
> {
    spec_entries(d, p, pool, alt, depth, Seq::empty())
}

/// A key at `pos`.
fn read_key(d: &[u8], pos: usize, opts: &KeyValueOptions) -> (r: Result<(String, usize), VdfrError>)
    ensures
        match r {
            Ok((k, q)) => spec_key(d@, pos as int, opts.pool()) == Ok::<(Seq<char>, int), VdfrError>(
                (k@, q as int),
            ) && pos < q <= d@.len() && (pool_nul_free(opts.pool()) ==> !k@.contains('\0')),
            Err(e) => spec_key(d@, pos as int, opts.pool()) == Err::<(Seq<char>, int), VdfrError>(e),
        },
{
    if opts.string_pool.len() == 0 {
        read_cstring(d, pos)
    } else {
        match read_u32(d, pos) {
            Err(e) => Err(e),
            Ok(j) => {
                let n = d.len();
                let j = j as usize;
                if j >= opts.string_pool.len() {
                    Err(VdfrError::InvalidStringIndex(j, opts.string_pool.len()))
                } else {
                    let k = opts.string_pool[j].clone();
                    assert(opts.pool()[j as int] == k@);
                    Ok((k, pos + 4))
                }
            },
        }
    }
}

/// A value other than a node at `pos`, shaped by `tag`.
fn read_scalar(d: &[u8], pos: usize, tag: u8) -> (r: Result<(Value, usize), VdfrError>)
    ensures
        match r {
            Ok((v, q)) => spec_scalar(d@, pos as int, tag) == Ok::<(VdfValue, int), VdfrError>(
                (v@, q as int),
            ) && pos < q <= d@.len() && nul_free(v@),
            Err(e) => spec_scalar(d@, pos as int, tag) == Err::<(VdfValue, int), VdfrError>(e),
        },
{
    if tag == BIN_STRING {
        match read_cstring(d, pos) {
            Ok((s, q)) => Ok((Value::StringType(s), q)),
            Err(e) => Err(e),
        }
    } else if tag == BIN_WIDESTRING {
        match read_wide_string(d, pos) {
            Ok((s, q)) => Ok((Value::WideStringType(s), q)),
            Err(e) => Err(e),
        }
    } else if tag == BIN_INT32 || tag == BIN_POINTER || tag == BIN_COLOR || tag == BIN_FLOAT32 {
        let n = d.len();
        match read_u32(d, pos) {
            Err(e) => Err(e),
            Ok(x) => {
                let v = if tag == BIN_INT32 {
                    Value::Int32Type(#[verifier::truncate] (x as i32))
                } else if tag == BIN_POINTER {
                    Value::PointerType(#[verifier::truncate] (x as i32))
                } else if tag == BIN_COLOR {
                    Value::ColorType(#[verifier::truncate] (x as i32))
                } else {
                    Value::Float32Type(x)
                };
                Ok((v, pos + 4))
            },
        }
    } else if tag == BIN_UINT64 || tag == BIN_INT64 {
        let n = d.len();
        match read_u64(d, pos) {
            Err(e) => Err(e),
            Ok(x) => {
                let v = if tag == BIN_UINT64 {
                    Value::UInt64Type(x)
                } else {
                    Value::Int64Type(#[verifier::truncate] (x as i64))
                };
                Ok((v, pos + 8))
            },
        }
    } else {
        Err(VdfrError::InvalidType(tag))
    }
}

/// Parse one node at `pos`, up to and including its end marker; `depth`
/// levels of nested nodes are accepted.
pub fn parse_bytes_kv(d: &[u8], pos: usize, opts: &KeyValueOptions, depth: usize) -> (r: Result<
    (KeyValues, usize),
    VdfrError,
>)
    ensures
        match r {
            Ok((kv, q)) => spec_node(d@, pos as int, opts.pool(), opts.alt_format, depth as nat)
                == Ok::<(NodeModel, int), VdfrError>((kv@, q as int)) && kv.wf() && pos < q
                <= d@.len() && (pool_nul_free(opts.pool()) ==> node_nul_free(kv@)),
            Err(e) => spec_node(d@, pos as int, opts.pool(), opts.alt_format, depth as nat) == Err::<
                (NodeModel, int),
                VdfrError,
            >(e),
        },
    decreases depth,
{
    let bin_end: u8 = if opts.alt_format {
        BIN_END_ALT
    } else {
        BIN_END
    };
    let ghost pool = opts.pool();
    let ghost alt = opts.alt_format;
    let ghost whole = spec_node(d@, pos as int, pool, alt, depth as nat);
    if pos >= d.len() {
        return Err(VdfrError::UnexpectedEof);
    }
    let dlen = d.len();
    let mut node = KeyValues::new();
    let mut p: usize = pos;
    loop
        invariant
            pool_nul_free(pool) ==> node_nul_free(node@),
            dlen == d@.len(),
            pos <= p <= d@.len(),
            node.wf(),
            bin_end == end_marker(alt),
            pool == opts.pool(),
            alt == opts.alt_format,
            whole == spec_node(d@, pos as int, pool, alt, depth as nat),
            whole == spec_entries(d@, p as int, pool, alt, depth as nat, node@),
        decreases d@.len() - p,
    {
        let tag = match read_u8(d, p) {
            Ok(t) => t,
            Err(e) => {
                return Err(e);
            },
        };
        if tag == bin_end {
            return Ok((node, p + 1));
        }
        let (key, key_end) = match read_key(d, p + 1, opts) {
            Ok(kq) => kq,
            Err(e) => {
                return Err(e);
            },
        };
        let (value, q) = if tag == BIN_KV {
            if depth == 0 {
                return Err(VdfrError::TooDeep);
            }
            match parse_bytes_kv(d, key_end, opts, depth - 1) {
                Ok((sub, q)) => {
                    proof {
                        lemma_node_view(sub);
                    }
                    (Value::KeyValueType(sub), q)
                },
                Err(e) => {
                    return Err(e);
                },
            }
        } else {
            match read_scalar(d, key_end, tag) {
                Ok(vq) => vq,
                Err(e) => {
                    return Err(e);
                },
            }
        };
        let ghost acc = node@;
        let ghost kv = (key@, value@);
        node.insert(key, value);
        proof {
            if pool_nul_free(pool) {
                assert forall|i: int| 0 <= i < node@.len() implies !(#[trigger] node@[i]).0.contains(
                    '\0',
                ) && nul_free(node@[i].1) by {
                    lemma_node_insert_from(acc, kv.0, kv.1, i);
                }
            }
        }
        p = q;
    }
}

/// A bare node from the start of `d`, normalized.
pub open spec fn spec_parse_keyvalues(d: Seq<u8>, pool: Seq<Seq<char>>, alt: bool, depth: nat) -> Result<
    NodeModel,
    VdfrError,
> {
    match spec_node(d, 0, pool, alt, depth) {
        Ok((n, _)) => Ok(normalized_node(n)),
        Err(e) => Err(e),
    }
}

/// Parse a bare node with the given options, then normalize it.
pub fn parse_keyvalues_with(data: &[u8], options: &KeyValueOptions) -> (r: Result<KeyValues, VdfrError>)
    ensures
        match r {
            Ok(kv) => spec_parse_keyvalues(
                data@,
                options.pool(),
                options.alt_format,
                options.max_depth as nat,
            ) == Ok::<NodeModel, VdfrError>(kv@) && kv.wf() && keys_in_order(kv@) && (
            pool_nul_free(options.pool()) ==> node_nul_free(kv@)),
            Err(e) => spec_parse_keyvalues(
                data@,
                options.pool(),
                options.alt_format,
                options.max_depth as nat,
            ) == Err::<NodeModel, VdfrError>(e),
        },
{
    match parse_bytes_kv(data, 0, options, options.max_depth) {
        Ok((kv, _)) => {
            proof {
                if pool_nul_free(options.pool()) {
                    lemma_normalized_nul_free(kv@);
                }
                lemma_sort_entries(mapped_entries(kv@));
                assert(keys_unique(mapped_entries(kv@)));
            }
            Ok(map_keyvalues_sequence(&kv))
        },
        Err(e) => Err(e),
    }
}

/// Parse a bare node with inline keys and the normal end marker, then
/// normalize it.
pub fn parse_keyvalues(data: &[u8]) -> (r: Result<KeyValues, VdfrError>)
    ensures
        match r {
            Ok(kv) => spec_parse_keyvalues(data@, Seq::empty(), false, DEFAULT_MAX_DEPTH as nat)
                == Ok::<NodeModel, VdfrError>(kv@) && kv.wf() && keys_in_order(kv@) && node_nul_free(
                kv@,
            ),
            Err(e) => spec_parse_keyvalues(data@, Seq::empty(), false, DEFAULT_MAX_DEPTH as nat)
                == Err::<NodeModel, VdfrError>(e),
        },
{
    let options = KeyValueOptions::default();
    assert(options.pool() =~= Seq::<Seq<char>>::empty());
    parse_keyvalues_with(data, &options)
}

} // verus!
