//! Catalogs: a header, then records with fixed fields and a node each,
//! up to a terminating id.

use vstd::prelude::*;

use crate::bytes::{le_u32, le_u64, push_u32, push_u64, read_cstring, read_u32, read_u64, spec_cstring, u32_le, u64_le};
use crate::error::VdfrError;
use crate::normalize::{map_keyvalues_sequence, normalized_node};
use crate::parser::{parse_bytes_kv, spec_node, KeyValueOptions, DEFAULT_MAX_DEPTH};
use crate::lookup::{find_keys, find_keys_spec, path_view};
use crate::value::{KeyValues, NodeModel, Value, strings_view};
use crate::writer::{collect_string_pools, enc_entries, entries_keys, pool_serves, write_keyvalues_internal};
use crate::bytes::write_utf8;

verus! {

broadcast use vstd::std_specs::vec::group_vec_axioms;

/// Version tag of the oldest catalog layout, without the binary checksum.
pub const MAGIC_27: u32 = 0x07564427;
/// Version tag of the layout with both checksums.
pub const MAGIC_28: u32 = 0x07564428;
/// Version tag of the layout whose keys are indices into a string pool.
pub const MAGIC_29: u32 = 0x07564429;
/// The id that ends the records of an application catalog.
pub const APP_END_ID: u32 = 0;
/// The id that ends the records of a package catalog.
pub const PACKAGE_END_ID: u32 = 0xFFFF_FFFF;

/// A 20-byte digest.
#[derive(Clone, Copy, Debug, PartialEq, Eq)]
pub struct SHA1(pub [u8; 20]);

impl SHA1 {
    /// The digest with bytes `data`.
    pub fn new(data: [u8; 20]) -> (r: SHA1)
        ensures
            r.0@ == data@,
    {
        SHA1(data)
    }

    /// The bytes of the digest.
    pub fn as_bytes(&self) -> (r: &[u8; 20])
        ensures
            r@ == self.0@,
    {
        &self.0
    }
}

/// The lowercase hexadecimal digit of `n`.
pub open spec fn hex_digit(n: nat) -> char {
    seq!['0', '1', '2', '3', '4', '5', '6', '7', '8', '9', 'a', 'b', 'c', 'd', 'e', 'f'][n as int]
}

/// The lowercase hexadecimal text of `b`, two digits a byte.
pub open spec fn hex_of(b: Seq<u8>) -> Seq<char>
    decreases b.len(),
{
    if b.len() == 0 {
        Seq::empty()
    } else {
        hex_of(b.drop_last()) + seq![hex_digit(b.last() as nat / 16), hex_digit(b.last() as nat % 16)]
    }
}

/// The hexadecimal digit of `n` as text.
fn hex_digit_str(n: u8) -> (r: &'static str)
    requires
        n < 16,
    ensures
        r@ == seq![hex_digit(n as nat)],
{
    proof {
        reveal_strlit("0");
        reveal_strlit("1");
        reveal_strlit("2");
        reveal_strlit("3");
        reveal_strlit("4");
        reveal_strlit("5");
        reveal_strlit("6");
        reveal_strlit("7");
        reveal_strlit("8");
        reveal_strlit("9");
        reveal_strlit("a");
        reveal_strlit("b");
        reveal_strlit("c");
        reveal_strlit("d");
        reveal_strlit("e");
        reveal_strlit("f");
    }
    let r = if n == 0 {
        "0"
    } else if n == 1 {
        "1"
    } else if n == 2 {
        "2"
    } else if n == 3 {
        "3"
    } else if n == 4 {
        "4"
    } else if n == 5 {
        "5"
    } else if n == 6 {
        "6"
    } else if n == 7 {
        "7"
    } else if n == 8 {
        "8"
    } else if n == 9 {
        "9"
    } else if n == 10 {
        "a"
    } else if n == 11 {
        "b"
    } else if n == 12 {
        "c"
    } else if n == 13 {
        "d"
    } else if n == 14 {
        "e"
    } else {
        "f"
    };
    assert(r@ =~= seq![hex_digit(n as nat)]);
    r
}

impl SHA1 {
    /// The digest as lowercase hexadecimal text.
    pub fn to_hex(&self) -> (r: String)
        ensures
            r@ == hex_of(self.0@),
    {
        let mut out = String::new();
        let mut i: usize = 0;
        while i < 20
            invariant
                self.0@.len() == 20,
                i <= 20,
                out@ == hex_of(self.0@.subrange(0, i as int)),
            decreases 20 - i,
        {
            let b = self.0[i];
            out.append(hex_digit_str(b / 16));
            out.append(hex_digit_str(b % 16));
            i += 1;
            assert(self.0@.subrange(0, i as int).drop_last() =~= self.0@.subrange(0, i - 1));
            assert(out@ =~= hex_of(self.0@.subrange(0, i as int)));
        }
        assert(self.0@.subrange(0, 20) =~= self.0@);
        out
    }
}

/// The recognized layouts of an application catalog.
#[derive(Debug, Clone, Copy, PartialEq, Eq, Structural)]
pub enum AppInfoVersion {
    V27,
    V28,
    V29,
}

/// The version tag of `v`.
pub open spec fn magic_of(v: AppInfoVersion) -> u32 {
    match v {
        AppInfoVersion::V27 => MAGIC_27,
        AppInfoVersion::V28 => MAGIC_28,
        AppInfoVersion::V29 => MAGIC_29,
    }
}

/// The layout with version tag `m`.
pub open spec fn version_of(m: u32) -> Result<AppInfoVersion, VdfrError> {
    if m == MAGIC_27 {
        Ok(AppInfoVersion::V27)
    } else if m == MAGIC_28 {
        Ok(AppInfoVersion::V28)
    } else if m == MAGIC_29 {
        Ok(AppInfoVersion::V29)
    } else {
        Err(VdfrError::UnknownMagic(m))
    }
}

impl AppInfoVersion {
    /// The version tag.
    pub fn magic(&self) -> (r: u32)
        ensures
            r == magic_of(*self),
    {
        match self {
            AppInfoVersion::V27 => MAGIC_27,
            AppInfoVersion::V28 => MAGIC_28,
            AppInfoVersion::V29 => MAGIC_29,
        }
    }

    /// The layout with version tag `m`.
    pub fn from_magic(m: u32) -> (r: Result<AppInfoVersion, VdfrError>)
        ensures
            r == version_of(m),
    {
        if m == MAGIC_27 {
            Ok(AppInfoVersion::V27)
        } else if m == MAGIC_28 {
            Ok(AppInfoVersion::V28)
        } else if m == MAGIC_29 {
            Ok(AppInfoVersion::V29)
        } else {
            Err(VdfrError::UnknownMagic(m))
        }
    }

    /// Whether records of this layout carry the binary checksum.
    pub open spec fn spec_has_checksum_bin(self) -> bool {
        self != AppInfoVersion::V27
    }
}

/// An application record.
#[derive(Debug)]
pub struct App {
    pub id: u32,
    pub size: u32,
    pub state: u32,
    pub last_update: u32,
    pub access_token: u64,
    pub checksum_txt: SHA1,
    pub checksum_bin: Option<SHA1>,
    pub change_number: u32,
    pub key_values: KeyValues,
}

impl App {
    /// The value reached from the record's node by following the non-empty
    /// path `keys`.
    pub fn get(&self, keys: &[&str]) -> (r: Option<&Value>)
        ensures
            match r {
                Some(v) => find_keys_spec(self.key_values@, path_view(keys@)) == Some(v@),
                None => find_keys_spec(self.key_values@, path_view(keys@)) is None,
            },
    {
        find_keys(&self.key_values, keys)
    }

    /// The text checksum as lowercase hexadecimal text.
    pub fn checksum_sha1_txt(&self) -> (r: String)
        ensures
            r@ == hex_of(self.checksum_txt.0@),
    {
        self.checksum_txt.to_hex()
    }

    /// The binary checksum, where present, as lowercase hexadecimal text.
    pub fn checksum_sha1_bin(&self) -> (r: Option<String>)
        ensures
            match self.checksum_bin {
                Some(c) => r matches Some(h) && h@ == hex_of(c.0@),
                None => r is None,
            },
    {
        match &self.checksum_bin {
            Some(c) => Some(c.to_hex()),
            None => None,
        }
    }
}

/// An application record as a mathematical object.
pub struct AppModel {
    pub id: u32,
    pub size: u32,
    pub state: u32,
    pub last_update: u32,
    pub access_token: u64,
    pub checksum_txt: Seq<u8>,
    pub checksum_bin: Option<Seq<u8>>,
    pub change_number: u32,
    pub key_values: NodeModel,
}

impl View for App {
    type V = AppModel;

    open spec fn view(&self) -> AppModel {
        AppModel {
            id: self.id,
            size: self.size,
            state: self.state,
            last_update: self.last_update,
            access_token: self.access_token,
            checksum_txt: self.checksum_txt.0@,
            checksum_bin: match self.checksum_bin {
                Some(c) => Some(c.0@),
                None => None,
            },
            change_number: self.change_number,
            key_values: self.key_values@,
        }
    }
}

/// An application catalog; its records are ordered by id, ids distinct.
#[derive(Debug)]
pub struct AppInfo {
    pub version: AppInfoVersion,
    pub universe: u32,
    pub apps: Vec<App>,
}

/// An application catalog as a mathematical object.
pub struct AppInfoModel {
    pub version: AppInfoVersion,
    pub universe: u32,
    pub apps: Seq<AppModel>,
}

impl View for AppInfo {
    type V = AppInfoModel;

    open spec fn view(&self) -> AppInfoModel {
        AppInfoModel {
            version: self.version,
            universe: self.universe,
            apps: apps_view(self.apps@),
        }
    }
}

/// A package record.
#[derive(Debug)]
pub struct Package {
    pub id: u32,
    pub checksum: SHA1,
    pub change_number: u32,
    pub pics: u64,
    pub key_values: KeyValues,
}

impl Package {
    /// The value reached from the record's node by following the non-empty
    /// path `keys`.
    pub fn get(&self, keys: &[&str]) -> (r: Option<&Value>)
        ensures
            match r {
                Some(v) => find_keys_spec(self.key_values@, path_view(keys@)) == Some(v@),
                None => find_keys_spec(self.key_values@, path_view(keys@)) is None,
            },
    {
        find_keys(&self.key_values, keys)
    }
}

/// A package record as a mathematical object.
pub struct PackageModel {
    pub id: u32,
    pub checksum: Seq<u8>,
    pub change_number: u32,
    pub pics: u64,
    pub key_values: NodeModel,
}

impl View for Package {
    type V = PackageModel;

    open spec fn view(&self) -> PackageModel {
        PackageModel {
            id: self.id,
            checksum: self.checksum.0@,
            change_number: self.change_number,
            pics: self.pics,
            key_values: self.key_values@,
        }
    }
}

/// A package catalog; its records are ordered by id, ids distinct.
#[derive(Debug)]
pub struct PackageInfo {
    pub version: u32,
    pub universe: u32,
    pub packages: Vec<Package>,
}

/// A package catalog as a mathematical object.
pub struct PackageInfoModel {
    pub version: u32,
    pub universe: u32,
    pub packages: Seq<PackageModel>,
}

impl View for PackageInfo {
    type V = PackageInfoModel;

    open spec fn view(&self) -> PackageInfoModel {
        PackageInfoModel {
            version: self.version,
            universe: self.universe,
            packages: packages_view(self.packages@),
        }
    }
}

/// `s` with `a` stored by its id: in place of the record with that id, else
/// before the first record with a greater id.
pub open spec fn insert_by_id<T>(s: Seq<T>, a: T, id: spec_fn(T) -> u32) -> Seq<T>
    decreases s.len(),
{
    if s.len() == 0 {
        seq![a]
    } else if id(s[0]) == id(a) {
        s.update(0, a)
    } else if id(s[0]) > id(a) {
        s.insert(0, a)
    } else {
        insert_by_id(s.drop_first(), a, id).insert(0, s[0])
    }
}

/// Ids strictly increase along `s`.
pub open spec fn ids_increasing<T>(s: Seq<T>, id: spec_fn(T) -> u32) -> bool {
    forall|i: int, j: int| 0 <= i < j < s.len() ==> id(s[i]) < id(s[j])
}

/// Records stored by id come from the records before and the new one.
pub proof fn lemma_insert_by_id_from<T>(s: Seq<T>, a: T, id: spec_fn(T) -> u32, x: T)
    requires
        insert_by_id(s, a, id).contains(x),
    ensures
        x == a || s.contains(x),
    decreases s.len(),
{
    if s.len() == 0 {
        assert(seq![a][0] == a);
    } else if id(s[0]) == id(a) {
        let k = choose|k: int| 0 <= k < s.len() && s.update(0, a)[k] == x;
        if k != 0 {
            assert(s[k] == x);
        }
    } else if id(s[0]) > id(a) {
        let k = choose|k: int| 0 <= k <= s.len() && s.insert(0, a)[k] == x;
        if k != 0 {
            assert(s[k - 1] == x);
        }
    } else {
        let t = insert_by_id(s.drop_first(), a, id);
        let k = choose|k: int| 0 <= k <= t.len() && t.insert(0, s[0])[k] == x;
        if k == 0 {
            assert(s[0] == x);
        } else {
            assert(t[k - 1] == x);
            lemma_insert_by_id_from(s.drop_first(), a, id, x);
            if s.drop_first().contains(x) {
                let m = choose|m: int| 0 <= m < s.len() - 1 && s.drop_first()[m] == x;
                assert(s[m + 1] == x);
            }
        }
    }
}

/// Where the records before `i` have smaller ids than `a` and the one at
/// `i` (if any) not, storing `a` by its id replaces or inserts at `i`.
pub proof fn lemma_insert_by_id_at<T>(s: Seq<T>, a: T, id: spec_fn(T) -> u32, i: int)
    requires
        0 <= i <= s.len(),
        forall|j: int| 0 <= j < i ==> id(s[j]) < id(a),
        i < s.len() ==> id(s[i]) >= id(a),
    ensures
        insert_by_id(s, a, id) == if i < s.len() && id(s[i]) == id(a) {
            s.update(i, a)
        } else {
            s.insert(i, a)
        },
    decreases i,
{
    if i > 0 {
        let t = s.drop_first();
        assert forall|j: int| 0 <= j < i - 1 implies id(t[j]) < id(a) by {
            assert(t[j] == s[j + 1]);
        }
        lemma_insert_by_id_at(t, a, id, i - 1);
        if i < s.len() && id(s[i]) == id(a) {
            assert(t.update(i - 1, a).insert(0, s[0]) =~= s.update(i, a));
        } else {
            assert(t.insert(i - 1, a).insert(0, s[0]) =~= s.insert(i, a));
        }
    } else {
        if s.len() > 0 && id(s[0]) == id(a) {
        } else if s.len() > 0 {
        } else {
            assert(s.insert(0, a) =~= seq![a]);
        }
    }
}

/// Storing by id keeps ids strictly increasing.
pub proof fn lemma_insert_by_id_increasing<T>(s: Seq<T>, a: T, id: spec_fn(T) -> u32, i: int)
    requires
        ids_increasing(s, id),
        0 <= i <= s.len(),
        forall|j: int| 0 <= j < i ==> id(s[j]) < id(a),
        i < s.len() ==> id(s[i]) >= id(a),
    ensures
        ids_increasing(insert_by_id(s, a, id), id),
{
    lemma_insert_by_id_at(s, a, id, i);
    let r = insert_by_id(s, a, id);
    if i < s.len() && id(s[i]) == id(a) {
        assert forall|x: int, y: int| 0 <= x < y < r.len() implies id(r[x]) < id(r[y]) by {
            if x == i {
                assert(id(s[i]) < id(s[y]));
            } else if y == i {
                assert(id(s[x]) < id(s[i]));
            }
        }
    } else {
        assert forall|x: int, y: int| 0 <= x < y < r.len() implies id(r[x]) < id(r[y]) by {
            if x < i && y == i {
            } else if x < i && y > i {
                assert(r[y] == s[y - 1]);
            } else if x == i && y > i {
                assert(r[y] == s[y - 1]);
                assert(id(s[i]) <= id(s[y - 1]));
            } else if x > i {
                assert(r[x] == s[x - 1] && r[y] == s[y - 1]);
            }
        }
    }
}

/// The bytes `d[p..p + 20]` as a digest.
fn read_sha1(d: &[u8], pos: usize) -> (r: SHA1)
    requires
        pos + 20 <= d@.len(),
    ensures
        r.0@ == d@.subrange(pos as int, pos + 20),
{
    let n = d.len();
    let mut a: [u8; 20] = [0u8; 20];
    let mut i: usize = 0;
    while i < 20
        invariant
            n == d@.len(),
            pos + 20 <= d@.len(),
            i <= 20,
            a@.len() == 20,
            forall|j: int| 0 <= j < i ==> a@[j] == d@[pos + j],
        decreases 20 - i,
    {
        a[i] = d[pos + i];
        i += 1;
    }
    assert(a@ =~= d@.subrange(pos as int, pos + 20));
    SHA1(a)
}

/// Ids of application records.
pub open spec fn by_app_id() -> spec_fn(AppModel) -> u32 {
    |a: AppModel| a.id
}

/// Ids of package records.
pub open spec fn by_package_id() -> spec_fn(PackageModel) -> u32 {
    |p: PackageModel| p.id
}

/// Where the node of an application record at `p` starts: after 48 bytes
/// of fixed fields, and 20 more where the layout has the binary checksum.
pub open spec fn app_node_start(p: int, version: AppInfoVersion) -> int {
    if version.spec_has_checksum_bin() {
        p + 68
    } else {
        p + 48
    }
}

/// The application record at `p` and the position after it.
pub open spec fn spec_app(
    d: Seq<u8>,
    p: int,
    version: AppInfoVersion,
    pool: Seq<Seq<char>>,
    depth: nat,
) -> Result<(AppModel, int), VdfrError> {
    let start = app_node_start(p, version);
    if p < 0 || start > d.len() {
        Err(VdfrError::UnexpectedEof)
    } else {
        match spec_node(d, start, pool, false, depth) {
            Err(e) => Err(e),
            Ok((n, q)) => Ok(
                (
                    AppModel {
                        id: le_u32(d, p),
                        size: le_u32(d, p + 4),
                        state: le_u32(d, p + 8),
                        last_update: le_u32(d, p + 12),
                        access_token: le_u64(d, p + 16),
                        checksum_txt: d.subrange(p + 24, p + 44),
                        change_number: le_u32(d, p + 44),
                        checksum_bin: if version.spec_has_checksum_bin() {
                            Some(d.subrange(p + 48, p + 68))
                        } else {
                            None
                        },
                        key_values: normalized_node(n),
                    },
                    q,
                ),
            ),
        }
    }
}

/// The application records from `p` up to the id `0`, stored by id into
/// `acc`, and the position after that id.
pub open spec fn spec_apps(
    d: Seq<u8>,
    p: int,
    version: AppInfoVersion,
    pool: Seq<Seq<char>>,
    depth: nat,
    acc: Seq<AppModel>,
) -> Result<(Seq<AppModel>, int), VdfrError>
    decreases d.len() - p,
{
    if p < 0 || p + 4 > d.len() {
        Err(VdfrError::UnexpectedEof)
    } else if le_u32(d, p) == APP_END_ID {
        Ok((acc, p + 4))
    } else {
        match spec_app(d, p, version, pool, depth) {
            Err(e) => Err(e),
            Ok((a, q)) => if p < q <= d.len() {
                spec_apps(d, q, version, pool, depth, insert_by_id(acc, a, by_app_id()))
            } else {
                Err(VdfrError::UnexpectedEof)
            },
        }
    }
}

/// `count` NUL-terminated strings from `p`, appended to `acc`.
pub open spec fn spec_pool(d: Seq<u8>, p: int, count: nat, acc: Seq<Seq<char>>) -> Result<
    (Seq<Seq<char>>, int),
    VdfrError,
>
    decreases count,
{
    if count == 0 {
        Ok((acc, p))
    } else {
        match spec_cstring(d, p) {
            Err(e) => Err(e),
            Ok((s, q)) => spec_pool(d, q, (count - 1) as nat, acc.push(s)),
        }
    }
}

/// The string pool of a catalog and where its records start: with the
/// pooled layout, a 64-bit offset after the header points at a count and
/// the strings; otherwise the pool is empty.
pub open spec fn spec_catalog_pool(d: Seq<u8>, version: AppInfoVersion) -> Result<
    (Seq<Seq<char>>, int),
    VdfrError,
> {
    if version == AppInfoVersion::V29 {
        if d.len() < 16 {
            Err(VdfrError::UnexpectedEof)
        } else {
            let off = le_u64(d, 8) as i64 as int;
            if off < 0 || off + 4 > d.len() {
                Err(VdfrError::UnexpectedEof)
            } else {
                match spec_pool(d, off + 4, le_u32(d, off) as nat, Seq::empty()) {
                    Ok((pool, _)) => Ok((pool, 16)),
                    Err(e) => Err(e),
                }
            }
        }
    } else {
        Ok((Seq::empty(), 8))
    }
}

/// An application catalog whose nodes nest `depth` levels deep at most.
pub open spec fn spec_app_info(d: Seq<u8>, depth: nat) -> Result<AppInfoModel, VdfrError> {
    if d.len() < 8 {
        Err(VdfrError::UnexpectedEof)
    } else {
        match version_of(le_u32(d, 0)) {
            Err(e) => Err(e),
            Ok(version) => match spec_catalog_pool(d, version) {
                Err(e) => Err(e),
                Ok((pool, start)) => match spec_apps(
                    d,
                    start,
                    version,
                    pool,
                    depth,
                    Seq::empty(),
                ) {
                    Err(e) => Err(e),
                    Ok((apps, _)) => Ok(
                        AppInfoModel { version, universe: le_u32(d, 4), apps },
                    ),
                },
            },
        }
    }
}

/// The package record at `p` and the position after it.
pub open spec fn spec_package(d: Seq<u8>, p: int, depth: nat) -> Result<(PackageModel, int), VdfrError> {
    if p < 0 || p + 36 > d.len() {
        Err(VdfrError::UnexpectedEof)
    } else {
        match spec_node(d, p + 36, Seq::empty(), false, depth) {
            Err(e) => Err(e),
            Ok((n, q)) => Ok(
                (
                    PackageModel {
                        id: le_u32(d, p),
                        checksum: d.subrange(p + 4, p + 24),
                        change_number: le_u32(d, p + 24),
                        pics: le_u64(d, p + 28),
                        key_values: normalized_node(n),
                    },
                    q,
                ),
            ),
        }
    }
}

/// The package records from `p` up to the id `0xFFFFFFFF`, stored by id
/// into `acc`, and the position after that id.
pub open spec fn spec_packages(d: Seq<u8>, p: int, depth: nat, acc: Seq<PackageModel>) -> Result<
    (Seq<PackageModel>, int),
    VdfrError,
>
    decreases d.len() - p,
{
    if p < 0 || p + 4 > d.len() {
        Err(VdfrError::UnexpectedEof)
    } else if le_u32(d, p) == PACKAGE_END_ID {
        Ok((acc, p + 4))
    } else {
        match spec_package(d, p, depth) {
            Err(e) => Err(e),
            Ok((a, q)) => if p < q <= d.len() {
                spec_packages(d, q, depth, insert_by_id(acc, a, by_package_id()))
            } else {
                Err(VdfrError::UnexpectedEof)
            },
        }
    }
}

/// A package catalog whose nodes nest `depth` levels deep at most.
pub open spec fn spec_package_info(d: Seq<u8>, depth: nat) -> Result<PackageInfoModel, VdfrError> {
    if d.len() < 8 {
        Err(VdfrError::UnexpectedEof)
    } else {
        match spec_packages(d, 8, depth, Seq::empty()) {
            Err(e) => Err(e),
            Ok((packages, _)) => Ok(
                PackageInfoModel { version: le_u32(d, 0), universe: le_u32(d, 4), packages },
            ),
        }
    }
}

/// The records of `apps` as mathematical objects.
pub open spec fn apps_view(apps: Seq<App>) -> Seq<AppModel> {
    apps.map_values(|a: App| a@)
}

/// The records of `packages` as mathematical objects.
pub open spec fn packages_view(packages: Seq<Package>) -> Seq<PackageModel> {
    packages.map_values(|p: Package| p@)
}

/// Store `app` by its id, replacing a record with the same id.
fn store_app(apps: &mut Vec<App>, app: App)
    requires
        ids_increasing(apps_view(old(apps)@), by_app_id()),
    ensures
        apps_view(final(apps)@) == insert_by_id(apps_view(old(apps)@), app@, by_app_id()),
        ids_increasing(apps_view(final(apps)@), by_app_id()),
{
    let ghost s = apps_view(apps@);
    let mut i: usize = 0;
    while i < apps.len() && apps[i].id < app.id
        invariant
            s == apps_view(apps@),
            i <= apps@.len(),
            forall|j: int| 0 <= j < i ==> by_app_id()(s[j]) < by_app_id()(app@),
        decreases apps.len() - i,
    {
        i += 1;
    }
    proof {
        lemma_insert_by_id_at(s, app@, by_app_id(), i as int);
        lemma_insert_by_id_increasing(s, app@, by_app_id(), i as int);
    }
    let ghost a = app@;
    if i < apps.len() && apps[i].id == app.id {
        apps.set(i, app);
        assert(apps_view(apps@) =~= s.update(i as int, a));
    } else {
        apps.insert(i, app);
        assert(apps_view(apps@) =~= s.insert(i as int, a));
    }
}

/// Store `package` by its id, replacing a record with the same id.
fn store_package(packages: &mut Vec<Package>, package: Package)
    requires
        ids_increasing(packages_view(old(packages)@), by_package_id()),
    ensures
        packages_view(final(packages)@) == insert_by_id(
            packages_view(old(packages)@),
            package@,
            by_package_id(),
        ),
        ids_increasing(packages_view(final(packages)@), by_package_id()),
{
    let ghost s = packages_view(packages@);
    let mut i: usize = 0;
    while i < packages.len() && packages[i].id < package.id
        invariant
            s == packages_view(packages@),
            i <= packages@.len(),
            forall|j: int| 0 <= j < i ==> by_package_id()(s[j]) < by_package_id()(package@),
        decreases packages.len() - i,
    {
        i += 1;
    }
    proof {
        lemma_insert_by_id_at(s, package@, by_package_id(), i as int);
        lemma_insert_by_id_increasing(s, package@, by_package_id(), i as int);
    }
    let ghost a = package@;
    if i < packages.len() && packages[i].id == package.id {
        packages.set(i, package);
        assert(packages_view(packages@) =~= s.update(i as int, a));
    } else {
        packages.insert(i, package);
        assert(packages_view(packages@) =~= s.insert(i as int, a));
    }
}

/// The node of a record at `pos`, normalized.
fn parse_record_node(d: &[u8], pos: usize, opts: &KeyValueOptions) -> (r: Result<
    (KeyValues, usize),
    VdfrError,
>)
    ensures
        match r {
            Ok((kv, q)) => match spec_node(d@, pos as int, opts.pool(), opts.alt_format, opts.max_depth as nat) {
                Ok((n, q2)) => kv@ == normalized_node(n) && q == q2 && pos < q <= d@.len(),
                Err(_) => false,
            },
            Err(e) => spec_node(d@, pos as int, opts.pool(), opts.alt_format, opts.max_depth as nat)
                == Err::<(NodeModel, int), VdfrError>(e),
        },
{
    match parse_bytes_kv(d, pos, opts, opts.max_depth) {
        Ok((kv, q)) => Ok((map_keyvalues_sequence(&kv), q)),
        Err(e) => Err(e),
    }
}

/// The application record at `pos`, whose id is not the terminator.
fn parse_app(d: &[u8], pos: usize, version: AppInfoVersion, opts: &KeyValueOptions) -> (r: Result<
    (App, usize),
    VdfrError,
>)
    requires
        !opts.alt_format,
    ensures
        match r {
            Ok((a, q)) => spec_app(d@, pos as int, version, opts.pool(), opts.max_depth as nat)
                == Ok::<(AppModel, int), VdfrError>((a@, q as int)) && pos < q <= d@.len(),
            Err(e) => spec_app(d@, pos as int, version, opts.pool(), opts.max_depth as nat) == Err::<
                (AppModel, int),
                VdfrError,
            >(e),
        },
{
    let n = d.len();
    let fixed: usize = if version != AppInfoVersion::V27 {
        68
    } else {
        48
    };
    if n < fixed || pos > n - fixed {
        return Err(VdfrError::UnexpectedEof);
    }
    let id = match read_u32(d, pos) {
        Ok(x) => x,
        Err(e) => return Err(e),
    };
    let size = match read_u32(d, pos + 4) {
        Ok(x) => x,
        Err(e) => return Err(e),
    };
    let state = match read_u32(d, pos + 8) {
        Ok(x) => x,
        Err(e) => return Err(e),
    };
    let last_update = match read_u32(d, pos + 12) {
        Ok(x) => x,
        Err(e) => return Err(e),
    };
    let access_token = match read_u64(d, pos + 16) {
        Ok(x) => x,
        Err(e) => return Err(e),
    };
    let checksum_txt = read_sha1(d, pos + 24);
    let change_number = match read_u32(d, pos + 44) {
        Ok(x) => x,
        Err(e) => return Err(e),
    };
    let checksum_bin = if version != AppInfoVersion::V27 {
        Some(read_sha1(d, pos + 48))
    } else {
        None
    };
    match parse_record_node(d, pos + fixed, opts) {
        Ok((key_values, q)) => {
            let app = App {
                id,
                size,
                state,
                last_update,
                access_token,
                checksum_txt,
                checksum_bin,
                change_number,
                key_values,
            };
            Ok((app, q))
        },
        Err(e) => Err(e),
    }
}

/// `count` NUL-terminated strings at `pos`.
fn read_string_pools(d: &[u8], pos: usize, count: u32) -> (r: Result<(Vec<String>, usize), VdfrError>)
    ensures
        match r {
            Ok((v, q)) => spec_pool(d@, pos as int, count as nat, Seq::empty()) == Ok::<
                (Seq<Seq<char>>, int),
                VdfrError,
            >((v@.map_values(|s: String| s@), q as int)),
            Err(e) => spec_pool(d@, pos as int, count as nat, Seq::empty()) == Err::<
                (Seq<Seq<char>>, int),
                VdfrError,
            >(e),
        },
{
    let mut pool: Vec<String> = Vec::new();
    let mut p: usize = pos;
    let mut left: u32 = count;
    assert(strings_view(pool@) =~= Seq::<Seq<char>>::empty());
    while left > 0
        invariant
            spec_pool(d@, pos as int, count as nat, Seq::empty()) == spec_pool(
                d@,
                p as int,
                left as nat,
                strings_view(pool@),
            ),
        decreases left,
    {
        match read_cstring(d, p) {
            Ok((s, q)) => {
                let ghost before = strings_view(pool@);
                let ghost sv = s@;
                pool.push(s);
                assert(strings_view(pool@) =~= before.push(sv));
                p = q;
                left -= 1;
            },
            Err(e) => return Err(e),
        }
    }
    Ok((pool, p))
}

/// The string pool of a catalog of layout `version`, and where its records
/// start.
fn read_catalog_pool(data: &[u8], version: AppInfoVersion) -> (r: Result<(Vec<String>, usize), VdfrError>)
    ensures
        match r {
            Ok((pool, start)) => spec_catalog_pool(data@, version) == Ok::<
                (Seq<Seq<char>>, int),
                VdfrError,
            >((strings_view(pool@), start as int)) && start <= 16,
            Err(e) => spec_catalog_pool(data@, version) == Err::<(Seq<Seq<char>>, int), VdfrError>(e),
        },
{
    if version != AppInfoVersion::V29 {
        let pool: Vec<String> = Vec::new();
        assert(strings_view(pool@) =~= Seq::<Seq<char>>::empty());
        return Ok((pool, 8));
    }
    let n = data.len();
    let raw = match read_u64(data, 8) {
        Ok(x) => x,
        Err(e) => return Err(e),
    };
    let off = #[verifier::truncate] (raw as i64);
    assert(off == le_u64(data@, 8) as i64);
    if off < 0 || off as u64 >= n as u64 || n - (off as usize) < 4 {
        return Err(VdfrError::UnexpectedEof);
    }
    let off = off as usize;
    let count = match read_u32(data, off) {
        Ok(x) => x,
        Err(e) => return Err(e),
    };
    match read_string_pools(data, off + 4, count) {
        Ok((pool, _)) => Ok((pool, 16)),
        Err(e) => Err(e),
    }
}

/// Parse an application catalog with the default nesting ceiling.
pub fn parse_app_info(data: &[u8]) -> (r: Result<AppInfo, VdfrError>)
    ensures
        match r {
            Ok(info) => spec_app_info(data@, DEFAULT_MAX_DEPTH as nat) == Ok::<AppInfoModel, VdfrError>(
                info@,
            ) && app_info_writable(info@),
            Err(e) => spec_app_info(data@, DEFAULT_MAX_DEPTH as nat) == Err::<AppInfoModel, VdfrError>(e),
        },
{
    parse_app_info_with(data, DEFAULT_MAX_DEPTH)
}

/// Parse an application catalog whose nodes nest `max_depth` levels deep
/// at most.
pub fn parse_app_info_with(data: &[u8], max_depth: usize) -> (r: Result<AppInfo, VdfrError>)
    ensures
        match r {
            Ok(info) => spec_app_info(data@, max_depth as nat) == Ok::<AppInfoModel, VdfrError>(info@)
                && app_info_writable(info@),
            Err(e) => spec_app_info(data@, max_depth as nat) == Err::<AppInfoModel, VdfrError>(e),
        },
{
    let n = data.len();
    if n < 8 {
        return Err(VdfrError::UnexpectedEof);
    }
    let magic = match read_u32(data, 0) {
        Ok(x) => x,
        Err(e) => return Err(e),
    };
    let universe = match read_u32(data, 4) {
        Ok(x) => x,
        Err(e) => return Err(e),
    };
    let version = match AppInfoVersion::from_magic(magic) {
        Ok(v) => v,
        Err(e) => return Err(e),
    };
    let (string_pool, start) = match read_catalog_pool(data, version) {
        Ok(ps) => ps,
        Err(e) => return Err(e),
    };
    let opts = KeyValueOptions { string_pool, alt_format: false, max_depth };
    let ghost pool = opts.pool();
    let mut apps: Vec<App> = Vec::new();
    let mut p: usize = start;
    let ghost whole = spec_apps(data@, start as int, version, pool, max_depth as nat, Seq::empty());
    assert(apps_view(apps@) =~= Seq::<AppModel>::empty());
    loop
        invariant
            n == data@.len(),
            n >= 8,
            version_of(le_u32(data@, 0)) == Ok::<AppInfoVersion, VdfrError>(version),
            universe == le_u32(data@, 4),
            spec_catalog_pool(data@, version) == Ok::<(Seq<Seq<char>>, int), VdfrError>(
                (pool, start as int),
            ),
            pool == opts.pool(),
            !opts.alt_format,
            opts.max_depth == max_depth,
            whole == spec_apps(data@, start as int, version, pool, max_depth as nat, Seq::empty()),
            whole == spec_apps(data@, p as int, version, pool, max_depth as nat, apps_view(apps@)),
            ids_increasing(apps_view(apps@), by_app_id()),
            version.spec_has_checksum_bin() ==> forall|k: int|
                0 <= k < apps@.len() ==> (#[trigger] apps_view(apps@)[k]).checksum_bin is Some,
        decreases n - p,
    {
        let id = match read_u32(data, p) {
            Ok(x) => x,
            Err(e) => return Err(e),
        };
        if id == APP_END_ID {
            return Ok(AppInfo { version, universe, apps });
        }
        match parse_app(data, p, version, &opts) {
            Ok((app, q)) => {
                let ghost before = apps_view(apps@);
                let ghost a = app@;
                store_app(&mut apps, app);
                proof {
                    if version.spec_has_checksum_bin() {
                        assert forall|k: int| 0 <= k < apps@.len() implies (#[trigger] apps_view(
                            apps@,
                        )[k]).checksum_bin is Some by {
                            let x = apps_view(apps@)[k];
                            assert(insert_by_id(before, a, by_app_id()).contains(x));
                            lemma_insert_by_id_from(before, a, by_app_id(), x);
                        }
                    }
                }
                p = q;
            },
            Err(e) => return Err(e),
        }
    }
}

/// The package record at `pos`, whose id is not the terminator.
fn parse_package(d: &[u8], pos: usize, opts: &KeyValueOptions) -> (r: Result<(Package, usize), VdfrError>)
    requires
        !opts.alt_format,
        opts.string_pool@.len() == 0,
    ensures
        match r {
            Ok((a, q)) => spec_package(d@, pos as int, opts.max_depth as nat) == Ok::<
                (PackageModel, int),
                VdfrError,
            >((a@, q as int)) && pos < q <= d@.len(),
            Err(e) => spec_package(d@, pos as int, opts.max_depth as nat) == Err::<
                (PackageModel, int),
                VdfrError,
            >(e),
        },
{
    let n = d.len();
    if n < 36 || pos > n - 36 {
        return Err(VdfrError::UnexpectedEof);
    }
    assert(opts.pool() =~= Seq::<Seq<char>>::empty());
    let id = match read_u32(d, pos) {
        Ok(x) => x,
        Err(e) => return Err(e),
    };
    let checksum = read_sha1(d, pos + 4);
    let change_number = match read_u32(d, pos + 24) {
        Ok(x) => x,
        Err(e) => return Err(e),
    };
    let pics = match read_u64(d, pos + 28) {
        Ok(x) => x,
        Err(e) => return Err(e),
    };
    match parse_record_node(d, pos + 36, opts) {
        Ok((key_values, q)) => Ok((Package { id, checksum, change_number, pics, key_values }, q)),
        Err(e) => Err(e),
    }
}

/// Parse a package catalog with the default nesting ceiling.
pub fn parse_package_info(data: &[u8]) -> (r: Result<PackageInfo, VdfrError>)
    ensures
        match r {
            Ok(info) => spec_package_info(data@, DEFAULT_MAX_DEPTH as nat) == Ok::<
                PackageInfoModel,
                VdfrError,
            >(info@) && ids_increasing(info@.packages, by_package_id()),
            Err(e) => spec_package_info(data@, DEFAULT_MAX_DEPTH as nat) == Err::<
                PackageInfoModel,
                VdfrError,
            >(e),
        },
{
    parse_package_info_with(data, DEFAULT_MAX_DEPTH)
}

/// Parse a package catalog whose nodes nest `max_depth` levels deep at
/// most.
pub fn parse_package_info_with(data: &[u8], max_depth: usize) -> (r: Result<PackageInfo, VdfrError>)
    ensures
        match r {
            Ok(info) => spec_package_info(data@, max_depth as nat) == Ok::<PackageInfoModel, VdfrError>(
                info@,
            ) && ids_increasing(info@.packages, by_package_id()),
            Err(e) => spec_package_info(data@, max_depth as nat) == Err::<PackageInfoModel, VdfrError>(e),
        },
{
    let n = data.len();
    if n < 8 {
        return Err(VdfrError::UnexpectedEof);
    }
    let version = match read_u32(data, 0) {
        Ok(x) => x,
        Err(e) => return Err(e),
    };
    let universe = match read_u32(data, 4) {
        Ok(x) => x,
        Err(e) => return Err(e),
    };
    let opts = KeyValueOptions { string_pool: Vec::new(), alt_format: false, max_depth };
    let mut packages: Vec<Package> = Vec::new();
    let mut p: usize = 8;
    let ghost whole = spec_packages(data@, 8, max_depth as nat, Seq::empty());
    assert(packages_view(packages@) =~= Seq::<PackageModel>::empty());
    loop
        invariant
            n == data@.len(),
            n >= 8,
            version == le_u32(data@, 0),
            universe == le_u32(data@, 4),
            !opts.alt_format,
            opts.string_pool@.len() == 0,
            opts.max_depth == max_depth,
            whole == spec_packages(data@, 8, max_depth as nat, Seq::empty()),
            whole == spec_packages(data@, p as int, max_depth as nat, packages_view(packages@)),
            ids_increasing(packages_view(packages@), by_package_id()),
        decreases n - p,
    {
        let id = match read_u32(data, p) {
            Ok(x) => x,
            Err(e) => return Err(e),
        };
        if id == PACKAGE_END_ID {
            return Ok(PackageInfo { version, universe, packages });
        }
        match parse_package(data, p, &opts) {
            Ok((package, q)) => {
                store_package(&mut packages, package);
                p = q;
            },
            Err(e) => return Err(e),
        }
    }
}

/// The bytes of application record `a` in layout `version`: the binary
/// checksum only where the layout has one.
pub open spec fn enc_app(a: AppModel, version: AppInfoVersion, pool: Seq<Seq<char>>) -> Seq<u8> {
    u32_le(a.id) + u32_le(a.size) + u32_le(a.state) + u32_le(a.last_update) + u64_le(a.access_token)
        + a.checksum_txt + u32_le(a.change_number) + if version.spec_has_checksum_bin() {
        a.checksum_bin->Some_0
    } else {
        Seq::empty()
    } + enc_entries(a.key_values, pool, 0)
}

/// A catalog that can be written: records in ascending id, each with a
/// binary checksum where the layout has one.
pub open spec fn app_info_writable(info: AppInfoModel) -> bool {
    &&& ids_increasing(info.apps, by_app_id())
    &&& info.version.spec_has_checksum_bin() ==> forall|k: int|
        0 <= k < info.apps.len() ==> (#[trigger] info.apps[k]).checksum_bin is Some
}

/// The bytes of the records `s`, in order.
pub open spec fn enc_apps(s: Seq<AppModel>, version: AppInfoVersion, pool: Seq<Seq<char>>) -> Seq<u8>
    decreases s.len(),
{
    if s.len() == 0 {
        Seq::empty()
    } else {
        enc_apps(s.drop_last(), version, pool) + enc_app(s.last(), version, pool)
    }
}

/// Every key that writing the records `s` emits.
pub open spec fn apps_keys(s: Seq<AppModel>) -> Set<Seq<char>>
    decreases s.len(),
{
    if s.len() == 0 {
        Set::empty()
    } else {
        apps_keys(s.drop_last()).union(entries_keys(s.last().key_values, 0))
    }
}

/// The strings of `pool`, each NUL-terminated.
pub open spec fn enc_pool_strings(pool: Seq<Seq<char>>) -> Seq<u8>
    decreases pool.len(),
{
    if pool.len() == 0 {
        Seq::empty()
    } else {
        enc_pool_strings(pool.drop_last()) + vstd::utf8::encode_utf8(pool.last()).push(0u8)
    }
}

/// The bytes of an application catalog written at position `base` of a
/// stream, keys indexed into `pool` for the pooled layout. That layout puts
/// the pool after the records and its absolute position after the header.
pub open spec fn enc_app_info(info: AppInfoModel, pool: Seq<Seq<char>>, base: int) -> Seq<u8> {
    let head = u32_le(magic_of(info.version)) + u32_le(info.universe);
    if info.version == AppInfoVersion::V29 {
        let recs = enc_apps(info.apps, info.version, pool) + u32_le(APP_END_ID);
        head + u64_le((base + 16 + recs.len()) as u64) + recs + u32_le(pool.len() as u32)
            + enc_pool_strings(pool)
    } else {
        head + enc_apps(info.apps, info.version, Seq::empty()) + u32_le(APP_END_ID)
    }
}

/// The bytes of package record `p`.
pub open spec fn enc_package(p: PackageModel) -> Seq<u8> {
    u32_le(p.id) + p.checksum + u32_le(p.change_number) + u64_le(p.pics) + enc_entries(
        p.key_values,
        Seq::empty(),
        0,
    )
}

/// The bytes of the records `s`, in order.
pub open spec fn enc_packages(s: Seq<PackageModel>) -> Seq<u8>
    decreases s.len(),
{
    if s.len() == 0 {
        Seq::empty()
    } else {
        enc_packages(s.drop_last()) + enc_package(s.last())
    }
}

/// The bytes of a package catalog.
pub open spec fn enc_package_info(info: PackageInfoModel) -> Seq<u8> {
    u32_le(info.version) + u32_le(info.universe) + enc_packages(info.packages) + u32_le(
        PACKAGE_END_ID,
    )
}

/// Append the bytes of a digest.
fn push_sha1(out: &mut Vec<u8>, c: &SHA1)
    ensures
        final(out)@ == old(out)@ + c.0@,
{
    let mut i: usize = 0;
    while i < 20
        invariant
            c.0@.len() == 20,
            i <= 20,
            out@ == old(out)@ + c.0@.subrange(0, i as int),
        decreases 20 - i,
    {
        out.push(c.0[i]);
        i += 1;
        assert(out@ =~= old(out)@ + c.0@.subrange(0, i as int));
    }
    assert(c.0@.subrange(0, 20) =~= c.0@);
}

/// Append one application record.
fn write_app(out: &mut Vec<u8>, app: &App, version: AppInfoVersion, pool: &Vec<String>)
    requires
        pool_serves(strings_view(pool@), entries_keys(app.key_values@, 0)),
        version.spec_has_checksum_bin() ==> app.checksum_bin is Some,
    ensures
        final(out)@ == old(out)@ + enc_app(app@, version, strings_view(pool@)),
{
    push_u32(out, app.id);
    push_u32(out, app.size);
    push_u32(out, app.state);
    push_u32(out, app.last_update);
    push_u64(out, app.access_token);
    push_sha1(out, &app.checksum_txt);
    push_u32(out, app.change_number);
    if version != AppInfoVersion::V27 {
        match &app.checksum_bin {
            Some(c) => push_sha1(out, c),
            None => {},
        }
    }
    write_keyvalues_internal(out, &app.key_values, pool);
    assert(out@ =~= old(out)@ + enc_app(app@, version, strings_view(pool@)));
}

/// Overwrite the eight bytes at `at` with the little-endian bytes of `x`.
fn patch_u64(out: &mut Vec<u8>, at: usize, x: u64)
    requires
        at + 8 <= old(out)@.len(),
    ensures
        final(out)@ == old(out)@.subrange(0, at as int) + u64_le(x) + old(out)@.subrange(
            at + 8,
            old(out)@.len() as int,
        ),
{
    let mut bytes: Vec<u8> = Vec::new();
    push_u64(&mut bytes, x);
    assert(bytes@ =~= u64_le(x));
    let n = out.len();
    let mut i: usize = 0;
    while i < 8
        invariant
            n == old(out)@.len(),
            at + 8 <= old(out)@.len(),
            bytes@ == u64_le(x),
            bytes@.len() == 8,
            i <= 8,
            out@ == old(out)@.subrange(0, at as int) + bytes@.subrange(0, i as int) + old(
                out,
            )@.subrange(at + i, old(out)@.len() as int),
        decreases 8 - i,
    {
        out.set(at + i, bytes[i]);
        i += 1;
        assert(out@ =~= old(out)@.subrange(0, at as int) + bytes@.subrange(0, i as int) + old(
            out,
        )@.subrange(at + i, old(out)@.len() as int));
    }
    assert(bytes@.subrange(0, 8) =~= bytes@);
}

/// Every key of the records of `app_info`, each once.
fn collect_app_pool(app_info: &AppInfo) -> (r: Vec<String>)
    ensures
        strings_view(r@).no_duplicates(),
        strings_view(r@).to_set() == apps_keys(app_info@.apps),
{
    let ghost apps = app_info@.apps;
    let mut pool: Vec<String> = Vec::new();
    assert(strings_view(pool@).to_set() =~= Set::<Seq<char>>::empty());
    let mut i: usize = 0;
    while i < app_info.apps.len()
        invariant
            apps == app_info@.apps,
            i <= apps.len(),
            strings_view(pool@).no_duplicates(),
            strings_view(pool@).to_set() == apps_keys(apps.subrange(0, i as int)),
        decreases app_info.apps.len() - i,
    {
        collect_string_pools(&mut pool, &app_info.apps[i].key_values);
        i += 1;
        assert(apps.subrange(0, i as int).drop_last() =~= apps.subrange(0, i - 1));
    }
    assert(apps.subrange(0, apps.len() as int) =~= apps);
    pool
}

/// Append the records of `app_info`, keys indexed into `pool` where it is
/// not empty.
fn write_apps(out: &mut Vec<u8>, app_info: &AppInfo, pool: &Vec<String>)
    requires
        pool_serves(strings_view(pool@), apps_keys(app_info@.apps)),
        app_info_writable(app_info@),
    ensures
        final(out)@ == old(out)@ + enc_apps(app_info@.apps, app_info@.version, strings_view(pool@)),
{
    let ghost apps = app_info@.apps;
    let ghost pv = strings_view(pool@);
    assert forall|k: int| 0 <= k < apps.len() implies entries_keys(
        #[trigger] apps[k].key_values,
        0,
    ).subset_of(apps_keys(apps)) by {
        lemma_apps_keys_contain(apps, k);
    }
    let mut i: usize = 0;
    while i < app_info.apps.len()
        invariant
            apps == app_info@.apps,
            pv == strings_view(pool@),
            i <= apps.len(),
            pool_serves(pv, apps_keys(apps)),
            forall|k: int|
                0 <= k < apps.len() ==> entries_keys(#[trigger] apps[k].key_values, 0).subset_of(
                    apps_keys(apps),
                ),
            app_info_writable(app_info@),
            out@ == old(out)@ + enc_apps(apps.subrange(0, i as int), app_info@.version, pv),
        decreases app_info.apps.len() - i,
    {
        assert(entries_keys(apps[i as int].key_values, 0).subset_of(apps_keys(apps)));
        assert(apps[i as int].checksum_bin == app_info.apps@[i as int]@.checksum_bin);
        write_app(out, &app_info.apps[i], app_info.version, pool);
        i += 1;
        assert(apps.subrange(0, i as int).drop_last() =~= apps.subrange(0, i - 1));
    }
    assert(apps.subrange(0, apps.len() as int) =~= apps);
}

/// Append the count of `pool` and its strings.
fn write_pool(out: &mut Vec<u8>, pool: &Vec<String>)
    requires
        pool@.len() <= u32::MAX,
    ensures
        final(out)@ == old(out)@ + u32_le(pool@.len() as u32) + enc_pool_strings(strings_view(pool@)),
{
    let ghost pv = strings_view(pool@);
    push_u32(out, pool.len() as u32);
    let ghost before = out@;
    let mut j: usize = 0;
    while j < pool.len()
        invariant
            pv == strings_view(pool@),
            j <= pool@.len(),
            out@ == before + enc_pool_strings(pv.subrange(0, j as int)),
        decreases pool.len() - j,
    {
        write_utf8(out, pool[j].as_str());
        j += 1;
        assert(pv.subrange(0, j as int).drop_last() =~= pv.subrange(0, j - 1));
    }
    assert(pv.subrange(0, pv.len() as int) =~= pv);
}

/// Write an application catalog of the pooled layout: the offset of the
/// pool is reserved after the header and filled in once the records are
/// written.
#[verifier::rlimit(50)]
fn write_pooled_app_info(out: &mut Vec<u8>, app_info: &AppInfo, pool: &Vec<String>)
    requires
        app_info@.version == AppInfoVersion::V29,
        app_info_writable(app_info@),
        pool_serves(strings_view(pool@), apps_keys(app_info@.apps)),
        pool@.len() <= u32::MAX,
    ensures
        final(out)@ == old(out)@ + enc_app_info(
            app_info@,
            strings_view(pool@),
            old(out)@.len() as int,
        ),
{
    let ghost pv = strings_view(pool@);
    let ghost base = out@.len();
    push_u32(out, app_info.version.magic());
    push_u32(out, app_info.universe);
    let ghost prefix = out@;
    let offset_at = out.len();
    push_u64(out, 0);
    let ghost head = out@;
    write_apps(out, app_info, pool);
    push_u32(out, APP_END_ID);
    let ghost recs = enc_apps(app_info@.apps, app_info@.version, pv) + u32_le(APP_END_ID);
    assert(out@ =~= head + recs);
    let pool_at = out.len();
    write_pool(out, pool);
    let ghost tail = recs + u32_le(pool@.len() as u32) + enc_pool_strings(pv);
    let ghost unpatched = out@;
    assert(unpatched =~= prefix + u64_le(0) + tail);
    patch_u64(out, offset_at, pool_at as u64);
    assert(unpatched.subrange(0, offset_at as int) =~= prefix);
    assert(unpatched.subrange(offset_at + 8, unpatched.len() as int) =~= tail);
    assert(pool_at == base + 16 + recs.len());
    assert(out@ =~= old(out)@ + enc_app_info(app_info@, pv, base as int));
}

/// `after` is `before` followed by `info` written with keys indexed into
/// `pool`: every key of the records once for the pooled layout, none
/// otherwise.
pub open spec fn app_info_written(
    info: AppInfoModel,
    pool: Seq<Seq<char>>,
    before: Seq<u8>,
    after: Seq<u8>,
) -> bool {
    &&& if info.version == AppInfoVersion::V29 {
        pool_serves(pool, apps_keys(info.apps)) && pool.to_set() == apps_keys(info.apps)
    } else {
        pool.len() == 0
    }
    &&& after == before + enc_app_info(info, pool, before.len() as int)
}

/// Write an application catalog at the end of `out`, records in ascending
/// id. For the pooled layout every key goes into the pool, which fails only
/// where there are more distinct keys than a 32-bit index can address.
pub fn write_app_info(out: &mut Vec<u8>, app_info: &AppInfo) -> (r: Result<(), VdfrError>)
    requires
        app_info_writable(app_info@),
    ensures
        match r {
            Ok(()) => exists|pool: Seq<Seq<char>>|
                #[trigger] app_info_written(app_info@, pool, old(out)@, final(out)@),
            Err(e) => app_info@.version == AppInfoVersion::V29 && e is PoolTooLarge && exists|
                pool: Seq<Seq<char>>,
            | pool.no_duplicates() && pool.to_set() == apps_keys(app_info@.apps) && pool.len()
                > u32::MAX,
        },
{
    let ghost base = out@.len();
    if app_info.version == AppInfoVersion::V29 {
        let pool = collect_app_pool(app_info);
        let ghost pv = strings_view(pool@);
        if pool.len() > 0xFFFF_FFFF {
            assert(pv.no_duplicates() && pv.to_set() == apps_keys(app_info@.apps) && pv.len()
                > u32::MAX);
            return Err(VdfrError::PoolTooLarge(pool.len()));
        }
        assert(pool_serves(pv, apps_keys(app_info@.apps)));
        write_pooled_app_info(out, app_info, &pool);
        assert(app_info_written(app_info@, pv, old(out)@, out@));
        Ok(())
    } else {
        let pool: Vec<String> = Vec::new();
        let ghost pv = strings_view(pool@);
        assert(pv =~= Seq::<Seq<char>>::empty());
        push_u32(out, app_info.version.magic());
        push_u32(out, app_info.universe);
        write_apps(out, app_info, &pool);
        push_u32(out, APP_END_ID);
        assert(out@ =~= old(out)@ + enc_app_info(app_info@, pv, base as int));
        assert(app_info_written(app_info@, pv, old(out)@, out@));
        Ok(())
    }
}

/// The keys of each record are among the keys of all records.
proof fn lemma_apps_keys_contain(s: Seq<AppModel>, k: int)
    requires
        0 <= k < s.len(),
    ensures
        entries_keys(s[k].key_values, 0).subset_of(apps_keys(s)),
    decreases s.len(),
{
    if k < s.len() - 1 {
        lemma_apps_keys_contain(s.drop_last(), k);
    }
}

/// Append one package record.
fn write_package(out: &mut Vec<u8>, package: &Package)
    ensures
        final(out)@ == old(out)@ + enc_package(package@),
{
    let pool: Vec<String> = Vec::new();
    assert(strings_view(pool@) =~= Seq::<Seq<char>>::empty());
    push_u32(out, package.id);
    push_sha1(out, &package.checksum);
    push_u32(out, package.change_number);
    push_u64(out, package.pics);
    write_keyvalues_internal(out, &package.key_values, &pool);
    assert(out@ =~= old(out)@ + enc_package(package@));
}

/// Write a package catalog at the end of `out`, records in ascending id.
pub fn write_package_info(out: &mut Vec<u8>, package_info: &PackageInfo)
    requires
        ids_increasing(package_info@.packages, by_package_id()),
    ensures
        final(out)@ == old(out)@ + enc_package_info(package_info@),
{
    let ghost packages = package_info@.packages;
    push_u32(out, package_info.version);
    push_u32(out, package_info.universe);
    let ghost head = out@;
    let mut i: usize = 0;
    while i < package_info.packages.len()
        invariant
            packages == package_info@.packages,
            i <= packages.len(),
            out@ == head + enc_packages(packages.subrange(0, i as int)),
        decreases package_info.packages.len() - i,
    {
        write_package(out, &package_info.packages[i]);
        i += 1;
        assert(packages.subrange(0, i as int).drop_last() =~= packages.subrange(0, i - 1));
    }
    assert(packages.subrange(0, packages.len() as int) =~= packages);
    push_u32(out, PACKAGE_END_ID);
    assert(out@ =~= old(out)@ + enc_package_info(package_info@));
}

} // verus!
