//! Lookup of a value by a path of keys.

use vstd::prelude::*;

use crate::normalize::{dec, decimal, lemma_dec_injective};
use crate::value::{has_key, key_index, lemma_node_view, KeyValues, NodeModel, Value, VdfValue};

verus! {

broadcast use vstd::std_specs::vec::group_vec_axioms;

/// The value reached from `v` by following `keys`: a key selects an entry
/// of a node, or an element of a sequence by its decimal index.
pub open spec fn find_path(v: VdfValue, keys: Seq<Seq<char>>) -> Option<VdfValue>
    decreases keys.len(),
{
    if keys.len() == 0 {
        Some(v)
    } else {
        match v {
            VdfValue::Node(es) => if has_key(es, keys[0]) {
                find_path(es[key_index(es, keys[0])].1, keys.drop_first())
            } else {
                None
            },
            VdfValue::Array(s) => if exists|i: int| 0 <= i < s.len() && keys[0] == #[trigger] dec(i as nat) {
                find_path(
                    s[choose|i: int| 0 <= i < s.len() && keys[0] == #[trigger] dec(i as nat)],
                    keys.drop_first(),
                )
            } else {
                None
            },
            _ => None,
        }
    }
}

/// The value reached from the node `n` by following a non-empty path.
pub open spec fn find_keys_spec(n: NodeModel, keys: Seq<Seq<char>>) -> Option<VdfValue> {
    if keys.len() == 0 {
        None
    } else {
        find_path(VdfValue::Node(n), keys)
    }
}

/// The keys of a path as character sequences.
pub open spec fn path_view(keys: Seq<&str>) -> Seq<Seq<char>> {
    keys.map_values(|k: &str| k@)
}

/// The element of `a` whose decimal index is `key`.
fn element_by_key<'a>(a: &'a Vec<Value>, key: &str) -> (r: Option<&'a Value>)
    ensures
        match r {
            Some(v) => exists|i: int| 0 <= i < a.len() && key@ == #[trigger] dec(i as nat) && *v == a@[i],
            None => !exists|i: int| 0 <= i < a.len() && key@ == #[trigger] dec(i as nat),
        },
{
    let owned = key.to_owned();
    let mut i: usize = 0;
    while i < a.len()
        invariant
            owned@ == key@,
            i <= a.len(),
            forall|j: int| 0 <= j < i ==> key@ != #[trigger] dec(j as nat),
        decreases a.len() - i,
    {
        let index_key = decimal(i);
        if index_key == owned {
            let r = &a[i];
            let ghost ii: int = i as int;
            assert(0 <= ii < a.len() && key@ == dec(ii as nat) && *r == a@[ii]);
            return Some(r);
        }
        i += 1;
    }
    None
}

/// The value reached from `value` by following `keys` from the `start`-th
/// on.
fn find_key_next<'a>(value: &'a Value, keys: &[&str], start: usize) -> (r: Option<&'a Value>)
    requires
        start <= keys@.len(),
    ensures
        match r {
            Some(v) => find_path(value@, path_view(keys@).subrange(start as int, keys@.len() as int))
                == Some(v@),
            None => find_path(
                value@,
                path_view(keys@).subrange(start as int, keys@.len() as int),
            ) is None,
        },
    decreases keys@.len() - start,
{
    let ghost path = path_view(keys@).subrange(start as int, keys@.len() as int);
    if start == keys.len() {
        return Some(value);
    }
    let ghost rest = path_view(keys@).subrange(start + 1, keys@.len() as int);
    assert(rest =~= path.drop_first());
    assert(path[0] == keys@[start as int]@);
    match value {
        Value::KeyValueType(kv) => {
            proof {
                lemma_node_view(*kv);
            }
            match kv.get(keys[start]) {
                Some(next) => find_key_next(next, keys, start + 1),
                None => None,
            }
        },
        Value::ArrayType(a) => {
            let ghost s = value@->Array_0;
            assert(forall|i: int| 0 <= i < a.len() ==> s[i] == a@[i]@);
            match element_by_key(a, keys[start]) {
                Some(next) => {
                    proof {
                        let w = choose|i: int|
                            0 <= i < a.len() && keys@[start as int]@ == #[trigger] dec(i as nat)
                                && *next == a@[i];
                        assert(0 <= w < s.len() && path[0] == dec(w as nat));
                        let c = choose|i: int| 0 <= i < s.len() && path[0] == #[trigger] dec(i as nat);
                        lemma_dec_injective(c as nat, w as nat);
                    }
                    find_key_next(next, keys, start + 1)
                },
                None => None,
            }
        },
        _ => None,
    }
}

/// The value reached from `kv` by following the non-empty path `keys`.
pub fn find_keys<'a>(kv: &'a KeyValues, keys: &[&str]) -> (r: Option<&'a Value>)
    ensures
        match r {
            Some(v) => find_keys_spec(kv@, path_view(keys@)) == Some(v@),
            None => find_keys_spec(kv@, path_view(keys@)) is None,
        },
{
    if keys.len() == 0 {
        return None;
    }
    let ghost path = path_view(keys@);
    let ghost rest = path_view(keys@).subrange(1, keys@.len() as int);
    assert(rest =~= path.drop_first());
    assert(path[0] == keys@[0]@);
    match kv.get(keys[0]) {
        Some(next) => find_key_next(next, keys, 1),
        None => None,
    }
}

} // verus!
