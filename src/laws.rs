//! Laws that relate the parsers, the normalizer and the writer.

use vstd::prelude::*;

use crate::bytes::le_u32;
use crate::catalog::{
    app_node_start, by_app_id, by_package_id, insert_by_id, lemma_insert_by_id_from, spec_app, spec_apps, spec_packages,
    AppInfoVersion, AppModel, PackageModel, APP_END_ID, PACKAGE_END_ID,
};
use crate::error::VdfrError;
use crate::normalize::{dec, is_array, mapped_entries, normalize_value};
use crate::parser::{end_marker, spec_entries, spec_key, spec_node};
use crate::value::{has_key, key_index, keys_unique, NodeModel, VdfValue};

verus! {

/// A node whose keys are exactly the decimal strings `"0"`, ..., `"n-1"`
/// (n >= 1: n distinct keys, each of those strings among them) normalizes to a sequence of length n whose i-th element is the
/// value stored under key i, itself normalized.
pub proof fn lemma_array_recovery(es: NodeModel)
    requires
        es.len() >= 1,
        forall|i: int| 0 <= i < es.len() ==> has_key(es, #[trigger] dec(i as nat)),
        keys_unique(es),
    ensures
        normalize_value(VdfValue::Node(es)) is Array,
        normalize_value(VdfValue::Node(es))->Array_0.len() == es.len(),
        forall|i: int|
            0 <= i < es.len() ==> normalize_value(VdfValue::Node(es))->Array_0[i] == normalize_value(
                es[key_index(es, #[trigger] dec(i as nat))].1,
            ),
{
    assert(is_array(es));
    let r = normalize_value(VdfValue::Node(es))->Array_0;
    assert forall|i: int| 0 <= i < es.len() implies r[i] == normalize_value(
        es[key_index(es, #[trigger] dec(i as nat))].1,
    ) by {
        assert(has_key(es, dec(i as nat)));
    }
}

/// An empty node normalizes to itself, never to an empty sequence.
pub proof fn lemma_empty_node_stays()
    ensures
        normalize_value(VdfValue::Node(Seq::empty())) == VdfValue::Node(Seq::empty()),
{
    assert(mapped_entries(Seq::empty()) =~= Seq::<(Seq<char>, VdfValue)>::empty());
}

/// Application records stop exactly at the id `0`: that id ends the
/// records, whatever follows it.
pub proof fn lemma_app_terminator(
    d: Seq<u8>,
    p: int,
    version: AppInfoVersion,
    pool: Seq<Seq<char>>,
    depth: nat,
    acc: Seq<AppModel>,
)
    requires
        0 <= p,
        p + 4 <= d.len(),
        le_u32(d, p) == APP_END_ID,
    ensures
        spec_apps(d, p, version, pool, depth, acc) == Ok::<(Seq<AppModel>, int), VdfrError>(
            (acc, p + 4),
        ),
{
}

/// No application record with the id `0` is ever stored.
pub proof fn lemma_app_terminator_not_stored(
    d: Seq<u8>,
    p: int,
    version: AppInfoVersion,
    pool: Seq<Seq<char>>,
    depth: nat,
    acc: Seq<AppModel>,
)
    requires
        forall|k: int| 0 <= k < acc.len() ==> (#[trigger] acc[k]).id != APP_END_ID,
    ensures
        match spec_apps(d, p, version, pool, depth, acc) {
            Ok((apps, _)) => forall|k: int| 0 <= k < apps.len() ==> (#[trigger] apps[k]).id != APP_END_ID,
            Err(_) => true,
        },
    decreases d.len() - p,
{
    if 0 <= p && p + 4 <= d.len() && le_u32(d, p) != APP_END_ID {
        if let Ok((a, q)) = spec_app(d, p, version, pool, depth) {
            if p < q <= d.len() {
                let next = insert_by_id(acc, a, by_app_id());
                assert forall|k: int| 0 <= k < next.len() implies (#[trigger] next[k]).id != APP_END_ID by {
                    assert(next.contains(next[k]));
                    lemma_insert_by_id_from(acc, a, by_app_id(), next[k]);
                }
                lemma_app_terminator_not_stored(d, q, version, pool, depth, next);
            }
        }
    }
}

/// Package records stop exactly at the id `0xFFFFFFFF`: that id ends the
/// records, whatever follows it.
pub proof fn lemma_package_terminator(d: Seq<u8>, p: int, depth: nat, acc: Seq<PackageModel>)
    requires
        0 <= p,
        p + 4 <= d.len(),
        le_u32(d, p) == PACKAGE_END_ID,
    ensures
        spec_packages(d, p, depth, acc) == Ok::<(Seq<PackageModel>, int), VdfrError>((acc, p + 4)),
{
}

/// No package record with the id `0xFFFFFFFF` is ever stored.
pub proof fn lemma_package_terminator_not_stored(
    d: Seq<u8>,
    p: int,
    depth: nat,
    acc: Seq<PackageModel>,
)
    requires
        forall|k: int| 0 <= k < acc.len() ==> (#[trigger] acc[k]).id != PACKAGE_END_ID,
    ensures
        match spec_packages(d, p, depth, acc) {
            Ok((packages, _)) => forall|k: int|
                0 <= k < packages.len() ==> (#[trigger] packages[k]).id != PACKAGE_END_ID,
            Err(_) => true,
        },
    decreases d.len() - p,
{
    if 0 <= p && p + 4 <= d.len() && le_u32(d, p) != PACKAGE_END_ID {
        if let Ok((a, q)) = crate::catalog::spec_package(d, p, depth) {
            if p < q <= d.len() {
                let next = insert_by_id(acc, a, by_package_id());
                assert forall|k: int| 0 <= k < next.len() implies (#[trigger] next[k]).id != PACKAGE_END_ID by {
                    assert(next.contains(next[k]));
                    lemma_insert_by_id_from(acc, a, by_package_id(), next[k]);
                }
                lemma_package_terminator_not_stored(d, q, depth, next);
            }
        }
    }
}

/// Records of the oldest layout have no binary checksum and their node
/// follows the change number directly; records of the other layouts read
/// the 20 bytes after the change number as that checksum, and their node
/// follows it.
pub proof fn lemma_version_gating(
    d: Seq<u8>,
    p: int,
    version: AppInfoVersion,
    pool: Seq<Seq<char>>,
    depth: nat,
)
    requires
        0 <= p,
    ensures
        version == AppInfoVersion::V27 ==> app_node_start(p, version) == p + 48,
        version != AppInfoVersion::V27 ==> app_node_start(p, version) == p + 68,
        match spec_app(d, p, version, pool, depth) {
            Ok((a, q)) => {
                &&& version == AppInfoVersion::V27 ==> a.checksum_bin is None
                &&& version != AppInfoVersion::V27 ==> a.checksum_bin == Some(
                    d.subrange(p + 48, p + 68),
                )
                &&& spec_node(d, app_node_start(p, version), pool, false, depth) matches Ok((_, q2))
                    && q2 == q
            },
            Err(e) => app_node_start(p, version) > d.len() || spec_node(
                d,
                app_node_start(p, version),
                pool,
                false,
                depth,
            ) == Err::<(NodeModel, int), VdfrError>(e),
        },
{
}

/// With a pool of size k, a key index j fails with the out-of-range error
/// exactly when j >= k.
pub proof fn lemma_pool_resolution(d: Seq<u8>, p: int, pool: Seq<Seq<char>>)
    requires
        0 < pool.len() <= usize::MAX,
        0 <= p,
        p + 4 <= d.len(),
    ensures
        spec_key(d, p, pool) == Err::<(Seq<char>, int), VdfrError>(
            VdfrError::InvalidStringIndex(le_u32(d, p) as usize, pool.len() as usize),
        ) <==> le_u32(d, p) >= pool.len(),
        le_u32(d, p) < pool.len() ==> spec_key(d, p, pool) == Ok::<(Seq<char>, int), VdfrError>(
            (pool[le_u32(d, p) as int], p + 4),
        ),
{
}

/// In a node, an entry whose key index is out of range fails the whole
/// decode with that error.
pub proof fn lemma_pool_resolution_in_node(
    d: Seq<u8>,
    p: int,
    pool: Seq<Seq<char>>,
    alt: bool,
    depth: nat,
    acc: NodeModel,
)
    requires
        0 < pool.len() <= usize::MAX,
        0 <= p,
        p + 5 <= d.len(),
        d[p] != end_marker(alt),
        le_u32(d, p + 1) >= pool.len(),
    ensures
        spec_entries(d, p, pool, alt, depth, acc) == Err::<(NodeModel, int), VdfrError>(
            VdfrError::InvalidStringIndex(le_u32(d, p + 1) as usize, pool.len() as usize),
        ),
{
}

} // verus!
