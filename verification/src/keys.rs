use vstd::prelude::*;
use vstd::string::StringSliceAdditionalSpecFns;
use vstd::string::StringExecFns;

verus! {

use crate::types::StorageDriver;

/// Logical address of one record inside a contract's storage namespace.
///
/// `Var`, `MapEntry`, `FT` and `NFT` address the current value of an item;
/// the `*Event` variants address one entry of the item's event log, keyed by
/// block height and by the event's index within that block; the `*Scan`
/// variants are the prefixes that bound range scans over current values or
/// over event logs.
#[derive(Clone, Copy, Debug)]
pub enum DBKey<'a> {
    FullAnalysis,
    Interface,
    Var(&'a str),
    VarEvent(&'a str, u64, u32),
    VarEventScanBlock(&'a str, u64),
    VarEventScan(&'a str),
    MapEntry(&'a str, &'a str),
    MapScan(&'a str),
    MapEvent(&'a str, u64, u32),
    MapEventScanBlock(&'a str, u64),
    MapEventScan(&'a str),
    FT(&'a str, &'a str),
    FTScan(&'a str),
    FTEvent(&'a str, u64, u32),
    FTEventScanBlock(&'a str, u64),
    FTEventScan(&'a str),
    NFT(&'a str, &'a str),
    NFTScan(&'a str),
    NFTEvent(&'a str, u64, u32),
    NFTEventScan(&'a str),
    NFTEventScanBlock(&'a str, u64),
}

/// Big-endian bytes of a block height. Fixed width, so that the
/// lexicographic order of encoded keys agrees with the numeric order of
/// heights (decimal text would not).
pub open spec fn spec_u64_be(v: u64) -> Seq<u8> {
    seq![
        (v >> 56) as u8,
        (v >> 48) as u8,
        (v >> 40) as u8,
        (v >> 32) as u8,
        (v >> 24) as u8,
        (v >> 16) as u8,
        (v >> 8) as u8,
        v as u8,
    ]
}

/// Big-endian bytes of an event index within a block. Fixed width.
pub open spec fn spec_u32_be(v: u32) -> Seq<u8> {
    seq![(v >> 24) as u8, (v >> 16) as u8, (v >> 8) as u8, v as u8]
}

pub fn u64_be_bytes(v: u64) -> (r: Vec<u8>)
    ensures
        r@ == spec_u64_be(v),
{
    let mut r: Vec<u8> = Vec::new();
    r.push(#[verifier::truncate] ((v >> 56) as u8));
    r.push(#[verifier::truncate] ((v >> 48) as u8));
    r.push(#[verifier::truncate] ((v >> 40) as u8));
    r.push(#[verifier::truncate] ((v >> 32) as u8));
    r.push(#[verifier::truncate] ((v >> 24) as u8));
    r.push(#[verifier::truncate] ((v >> 16) as u8));
    r.push(#[verifier::truncate] ((v >> 8) as u8));
    r.push(#[verifier::truncate] (v as u8));
    proof {
        assert(r@ =~= spec_u64_be(v));
    }
    r
}

pub fn u32_be_bytes(v: u32) -> (r: Vec<u8>)
    ensures
        r@ == spec_u32_be(v),
{
    let mut r: Vec<u8> = Vec::new();
    r.push(#[verifier::truncate] ((v >> 24) as u8));
    r.push(#[verifier::truncate] ((v >> 16) as u8));
    r.push(#[verifier::truncate] ((v >> 8) as u8));
    r.push(#[verifier::truncate] (v as u8));
    proof {
        assert(r@ =~= spec_u32_be(v));
    }
    r
}

/// Two heights with the same fixed-width encoding are the same height.
pub proof fn lemma_u64_be_injective(a: u64, b: u64)
    requires
        spec_u64_be(a) == spec_u64_be(b),
    ensures
        a == b,
{
    assert(spec_u64_be(a)[0] == spec_u64_be(b)[0]);
    assert(spec_u64_be(a)[1] == spec_u64_be(b)[1]);
    assert(spec_u64_be(a)[2] == spec_u64_be(b)[2]);
    assert(spec_u64_be(a)[3] == spec_u64_be(b)[3]);
    assert(spec_u64_be(a)[4] == spec_u64_be(b)[4]);
    assert(spec_u64_be(a)[5] == spec_u64_be(b)[5]);
    assert(spec_u64_be(a)[6] == spec_u64_be(b)[6]);
    assert(spec_u64_be(a)[7] == spec_u64_be(b)[7]);
    assert((((a >> 56) as u8) == ((b >> 56) as u8) && ((a >> 48) as u8) == ((b >> 48) as u8)
        && ((a >> 40) as u8) == ((b >> 40) as u8) && ((a >> 32) as u8) == ((b >> 32) as u8)
        && ((a >> 24) as u8) == ((b >> 24) as u8) && ((a >> 16) as u8) == ((b >> 16) as u8)
        && ((a >> 8) as u8) == ((b >> 8) as u8) && (a as u8) == (b as u8)) ==> a == b)
        by (bit_vector);
}


/// Strict lexicographic order on equal-length byte strings: some position
/// holds a smaller byte and everything before it is equal. This is the
/// order in which a byte-ordered store returns keys.
pub open spec fn bytes_lex_lt(a: Seq<u8>, b: Seq<u8>) -> bool {
    exists|k: int|
        0 <= k < a.len() && k < b.len() && #[trigger] a[k] < #[trigger] b[k] && (forall|j: int|
            0 <= j < k ==> a[j] == b[j])
}

/// The fixed-width big-endian height encoding sorts lexicographically in
/// numeric order, so range scans over event keys walk heights in order;
/// decimal text would not give this.
pub proof fn lemma_u64_be_order(a: u64, b: u64)
    requires
        a < b,
    ensures
        bytes_lex_lt(spec_u64_be(a), spec_u64_be(b)),
{
    let sa = spec_u64_be(a);
    let sb = spec_u64_be(b);
    assert((((a >> 56) as u8) < ((b >> 56) as u8)) || ((a >> 56) as u8 == (b >> 56) as u8 && ((((a
        >> 48) as u8) < ((b >> 48) as u8)) || ((a >> 48) as u8 == (b >> 48) as u8 && ((((a >> 40) as u8)
        < ((b >> 40) as u8)) || ((a >> 40) as u8 == (b >> 40) as u8 && ((((a >> 32) as u8) < ((b
        >> 32) as u8)) || ((a >> 32) as u8 == (b >> 32) as u8 && ((((a >> 24) as u8) < ((b
        >> 24) as u8)) || ((a >> 24) as u8 == (b >> 24) as u8 && ((((a >> 16) as u8) < ((b
        >> 16) as u8)) || ((a >> 16) as u8 == (b >> 16) as u8 && ((((a >> 8) as u8) < ((b
        >> 8) as u8)) || ((a >> 8) as u8 == (b >> 8) as u8 && (a as u8) < (b as u8)))))))))))))))
        by (bit_vector)
        requires
            a < b,
    ;
    if sa[0] < sb[0] {
        assert(bytes_lex_lt(sa, sb)) by {
            assert(0 <= 0 < sa.len() && 0 < sb.len() && sa[0] < sb[0] && (forall|j: int|
                0 <= j < 0 ==> sa[j] == sb[j]));
        }
    } else if sa[1] < sb[1] {
        assert(0 <= 1 < sa.len() && 1 < sb.len() && sa[1] < sb[1] && (forall|j: int|
            0 <= j < 1 ==> sa[j] == sb[j]));
    } else if sa[2] < sb[2] {
        assert(0 <= 2 < sa.len() && 2 < sb.len() && sa[2] < sb[2] && (forall|j: int|
            0 <= j < 2 ==> sa[j] == sb[j]));
    } else if sa[3] < sb[3] {
        assert(0 <= 3 < sa.len() && 3 < sb.len() && sa[3] < sb[3] && (forall|j: int|
            0 <= j < 3 ==> sa[j] == sb[j]));
    } else if sa[4] < sb[4] {
        assert(0 <= 4 < sa.len() && 4 < sb.len() && sa[4] < sb[4] && (forall|j: int|
            0 <= j < 4 ==> sa[j] == sb[j]));
    } else if sa[5] < sb[5] {
        assert(0 <= 5 < sa.len() && 5 < sb.len() && sa[5] < sb[5] && (forall|j: int|
            0 <= j < 5 ==> sa[j] == sb[j]));
    } else if sa[6] < sb[6] {
        assert(0 <= 6 < sa.len() && 6 < sb.len() && sa[6] < sb[6] && (forall|j: int|
            0 <= j < 6 ==> sa[j] == sb[j]));
    } else {
        assert(0 <= 7 < sa.len() && 7 < sb.len() && sa[7] < sb[7] && (forall|j: int|
            0 <= j < 7 ==> sa[j] == sb[j]));
    }
}

/// No byte of the string's UTF-8 encoding is a colon, the byte the `::`
/// separator is made of. Chain identifiers satisfy this.
pub open spec fn colon_free(s: &str) -> bool {
    forall|j: int| 0 <= j < s.spec_bytes().len() ==> s.spec_bytes()[j] != 58u8
}

/// Joining separator-free front parts with a separator byte is injective:
/// equal joined byte strings have equal parts.
proof fn lemma_separator_join_injective(
    p: Seq<u8>,
    a1: Seq<u8>,
    b1: Seq<u8>,
    a2: Seq<u8>,
    b2: Seq<u8>,
    sep: u8,
)
    requires
        forall|j: int| 0 <= j < a1.len() ==> a1[j] != sep,
        forall|j: int| 0 <= j < a2.len() ==> a2[j] != sep,
        p + a1 + seq![sep] + b1 == p + a2 + seq![sep] + b2,
    ensures
        a1 == a2,
        b1 == b2,
{
    let k1 = p + a1 + seq![sep] + b1;
    let k2 = p + a2 + seq![sep] + b2;
    let n = p.len() as int;
    assert(forall|j: int| 0 <= j < a1.len() ==> k1[n + j] == a1[j]);
    assert(forall|j: int| 0 <= j < a2.len() ==> k2[n + j] == a2[j]);
    assert(k1[n + a1.len()] == sep);
    assert(k2[n + a2.len()] == sep);
    if a1.len() < a2.len() {
        assert(k2[n + a1.len()] == a2[a1.len() as int]);
        assert(k1[n + a1.len()] == k2[n + a1.len()]);
    }
    if a2.len() < a1.len() {
        assert(k1[n + a2.len()] == a1[a2.len() as int]);
    }
    assert(a1.len() == a2.len());
    assert(a1 =~= a2);
    assert(k1.len() == n + a1.len() + 1 + b1.len());
    assert(k2.len() == n + a2.len() + 1 + b2.len());
    assert(b1.len() == b2.len());
    assert forall|j: int| 0 <= j < b1.len() implies b1[j] == b2[j] by {
        assert(k1[n + a1.len() + 1 + j] == b1[j]);
        assert(k2[n + a2.len() + 1 + j] == b2[j]);
    }
    assert(b1 =~= b2);
}

/// On separator-free contract identifiers the encoder is injective for the
/// variable family: two variable addresses with the same key name the same
/// variable of the same contract.
pub proof fn lemma_var_keys_injective(c1: &str, v1: &str, c2: &str, v2: &str)
    requires
        colon_free(c1),
        colon_free(c2),
        spec_db_key(DBKey::Var(v1), c1) == spec_db_key(DBKey::Var(v2), c2),
    ensures
        c1@ == c2@,
        v1@ == v2@,
{
    reveal_strlit("::");
    assert("::"@ =~= seq![':', ':']);
    vstd::string::is_ascii_spec_bytes("::");
    assert(vstd::string::is_ascii("::")) by {
        assert(forall|i: int| 0 <= i < "::"@.len() ==> ("::"@[i] as u32) < 128);
    }
    assert("::".spec_bytes() =~= seq![58u8, 58u8]);
    let sep: Seq<u8> = seq![58u8];
    assert("::".spec_bytes() =~= sep + sep);
    let p = "var::".spec_bytes();
    assert(p + c1.spec_bytes() + sep + (sep + v1.spec_bytes()) =~= spec_db_key(
        DBKey::Var(v1),
        c1,
    ));
    assert(p + c2.spec_bytes() + sep + (sep + v2.spec_bytes()) =~= spec_db_key(
        DBKey::Var(v2),
        c2,
    ));
    lemma_separator_join_injective(
        p,
        c1.spec_bytes(),
        sep + v1.spec_bytes(),
        c2.spec_bytes(),
        sep + v2.spec_bytes(),
        58u8,
    );
    assert(v1.spec_bytes() =~= v2.spec_bytes()) by {
        assert(forall|j: int|
            0 <= j < v1.spec_bytes().len() ==> v1.spec_bytes()[j] == (sep + v1.spec_bytes())[j
                + 1]);
    }
    vstd::utf8::encode_utf8_decode_utf8(c1@);
    vstd::utf8::encode_utf8_decode_utf8(c2@);
    vstd::utf8::encode_utf8_decode_utf8(v1@);
    vstd::utf8::encode_utf8_decode_utf8(v2@);
}

/// The digest used for content-hashed sub-keys.
pub uninterp spec fn ripemd160_of(data: Seq<u8>) -> Seq<u8>;

/// Relies on `ripemd::Ripemd160` through the `digest` traits: the RIPEMD-160
/// digest of the input, 20 bytes, a function of the input bytes alone.
///
/// Digest-based sub-keys keep key sizes bounded for arbitrarily long map
/// keys and asset identifiers. Digest collisions are an accepted risk in
/// this domain: keys are not adversarial input.
#[verifier::external_body]
pub fn ripemd160(data: &[u8]) -> (r: Vec<u8>)
    ensures
        r@ == ripemd160_of(data@),
        r@.len() == 20,
{
    let mut hasher = <ripemd::Ripemd160 as ripemd::Digest>::new();
    ripemd::Digest::update(&mut hasher, data);
    ripemd::Digest::finalize(hasher).to_vec()
}

/// Appends the UTF-8 bytes of `s` to `out`.
fn append_str(out: &mut Vec<u8>, s: &str)
    ensures
        final(out)@ == old(out)@ + s.spec_bytes(),
{
    out.extend_from_slice(s.as_bytes());
}

/// The byte key that `db_key` produces for a logical address.
pub open spec fn spec_db_key(key: DBKey<'_>, contract_id: &str) -> Seq<u8> {
    match key {
        DBKey::FullAnalysis => contract_id.spec_bytes() + "::#analysis".spec_bytes(),
        DBKey::Interface => contract_id.spec_bytes() + "::#interface".spec_bytes(),
        DBKey::Var(var) => "var::".spec_bytes() + contract_id.spec_bytes() + "::".spec_bytes()
            + var.spec_bytes(),
        DBKey::VarEvent(var, height, ei) => "var::".spec_bytes() + contract_id.spec_bytes()
            + "::".spec_bytes() + var.spec_bytes() + "#events::".spec_bytes() + spec_u64_be(height)
            + "/".spec_bytes() + spec_u32_be(ei),
        DBKey::VarEventScanBlock(var, height) => "var::".spec_bytes() + contract_id.spec_bytes()
            + "::".spec_bytes() + var.spec_bytes() + "#events::".spec_bytes() + spec_u64_be(height)
            + "/".spec_bytes(),
        DBKey::VarEventScan(var) => "var::".spec_bytes() + contract_id.spec_bytes()
            + "::".spec_bytes() + var.spec_bytes() + "#events::".spec_bytes(),
        DBKey::MapEntry(map, sub_key) => "map::".spec_bytes() + contract_id.spec_bytes()
            + "::".spec_bytes() + map.spec_bytes() + "@".spec_bytes()
            + ripemd160_of(sub_key.spec_bytes()),
        DBKey::MapScan(map) => "map::".spec_bytes() + contract_id.spec_bytes() + "::".spec_bytes()
            + map.spec_bytes() + "@".spec_bytes(),
        DBKey::MapEvent(map, height, ei) => "map::".spec_bytes() + contract_id.spec_bytes()
            + "::".spec_bytes() + map.spec_bytes() + "#events::".spec_bytes() + spec_u64_be(height)
            + "/".spec_bytes() + spec_u32_be(ei),
        DBKey::MapEventScanBlock(map, height) => "map::".spec_bytes() + contract_id.spec_bytes()
            + "::".spec_bytes() + map.spec_bytes() + "#events::".spec_bytes() + spec_u64_be(height)
            + "/".spec_bytes(),
        DBKey::MapEventScan(map) => "map::".spec_bytes() + contract_id.spec_bytes()
            + "::".spec_bytes() + map.spec_bytes() + "#events::".spec_bytes(),
        DBKey::FT(asset_id, owner) => "ft::".spec_bytes() + asset_id.spec_bytes()
            + "@".spec_bytes() + owner.spec_bytes(),
        DBKey::FTScan(asset_id) => "ft::".spec_bytes() + asset_id.spec_bytes() + "@".spec_bytes(),
        DBKey::FTEvent(asset_id, height, ei) => "ft::".spec_bytes() + asset_id.spec_bytes()
            + "#events::".spec_bytes() + spec_u64_be(height) + "/".spec_bytes() + spec_u32_be(ei),
        DBKey::FTEventScanBlock(asset_id, height) => "ft::".spec_bytes() + asset_id.spec_bytes()
            + "#events::".spec_bytes() + spec_u64_be(height) + "/".spec_bytes(),
        DBKey::FTEventScan(asset_id) => "ft::".spec_bytes() + asset_id.spec_bytes()
            + "#events::".spec_bytes(),
        DBKey::NFT(asset_id, sub_key) => "nft::".spec_bytes() + asset_id.spec_bytes()
            + "::id@".spec_bytes() + ripemd160_of(sub_key.spec_bytes()),
        DBKey::NFTScan(asset_id) => "nft::".spec_bytes() + asset_id.spec_bytes()
            + "::id@".spec_bytes(),
        DBKey::NFTEvent(asset_id, height, ei) => "nft::".spec_bytes() + asset_id.spec_bytes()
            + "#events::".spec_bytes() + spec_u64_be(height) + "/".spec_bytes() + spec_u32_be(ei),
        DBKey::NFTEventScan(asset_id) => "nft::".spec_bytes() + asset_id.spec_bytes()
            + "#events::".spec_bytes(),
        DBKey::NFTEventScanBlock(asset_id, height) => "nft::".spec_bytes() + asset_id.spec_bytes()
            + "#events::".spec_bytes() + spec_u64_be(height) + "/".spec_bytes(),
    }
}

/// Appends `"#events::" + be(height) + "/"`, the sortable event-log segment.
fn append_event_segment(out: &mut Vec<u8>, height: u64)
    ensures
        final(out)@ == old(out)@ + "#events::".spec_bytes() + spec_u64_be(height) + "/".spec_bytes(),
{
    append_str(out, "#events::");
    let hb = u64_be_bytes(height);
    out.extend_from_slice(hb.as_slice());
    append_str(out, "/");
}

/// Deterministic mapping from a logical address to a sortable byte key.
///
/// Heights and event indices are encoded as fixed-width big-endian bytes so
/// that the lexicographic order of sibling event keys equals the numeric
/// order of `(height, event_index)`.
///
/// Textual segments are joined with the separators `::`, `@` and
/// `#events::`. Like the digest, this rests on a documented assumption
/// about the domain, not on a property of arbitrary strings: chain
/// identifiers never contain `::`, `@` or `#`, and only on that domain do
/// distinct addresses map to distinct keys — an identifier carrying a
/// separator could collide with another address.
/// `lemma_var_keys_injective` proves the separator-free case for the
/// variable family; the same boundary argument applies segment for
/// segment to the other textual families.
pub fn db_key(key: DBKey<'_>, contract_id: &str) -> (r: Vec<u8>)
    ensures
        r@ == spec_db_key(key, contract_id),
{
    let mut out: Vec<u8> = Vec::new();
    match key {
        DBKey::FullAnalysis => {
            append_str(&mut out, contract_id);
            append_str(&mut out, "::#analysis");
        },
        DBKey::Interface => {
            append_str(&mut out, contract_id);
            append_str(&mut out, "::#interface");
        },
        DBKey::Var(var) => {
            append_str(&mut out, "var::");
            append_str(&mut out, contract_id);
            append_str(&mut out, "::");
            append_str(&mut out, var);
        },
        DBKey::VarEvent(var, height, ei) => {
            append_str(&mut out, "var::");
            append_str(&mut out, contract_id);
            append_str(&mut out, "::");
            append_str(&mut out, var);
            append_event_segment(&mut out, height);
            let ib = u32_be_bytes(ei);
            out.extend_from_slice(ib.as_slice());
        },
        DBKey::VarEventScanBlock(var, height) => {
            append_str(&mut out, "var::");
            append_str(&mut out, contract_id);
            append_str(&mut out, "::");
            append_str(&mut out, var);
            append_event_segment(&mut out, height);
        },
        DBKey::VarEventScan(var) => {
            append_str(&mut out, "var::");
            append_str(&mut out, contract_id);
            append_str(&mut out, "::");
            append_str(&mut out, var);
            append_str(&mut out, "#events::");
        },
        DBKey::MapEntry(map, sub_key) => {
            append_str(&mut out, "map::");
            append_str(&mut out, contract_id);
            append_str(&mut out, "::");
            append_str(&mut out, map);
            append_str(&mut out, "@");
            let digest = ripemd160(sub_key.as_bytes());
            out.extend_from_slice(digest.as_slice());
        },
        DBKey::MapScan(map) => {
            append_str(&mut out, "map::");
            append_str(&mut out, contract_id);
            append_str(&mut out, "::");
            append_str(&mut out, map);
            append_str(&mut out, "@");
        },
        DBKey::MapEvent(map, height, ei) => {
            append_str(&mut out, "map::");
            append_str(&mut out, contract_id);
            append_str(&mut out, "::");
            append_str(&mut out, map);
            append_event_segment(&mut out, height);
            let ib = u32_be_bytes(ei);
            out.extend_from_slice(ib.as_slice());
        },
        DBKey::MapEventScanBlock(map, height) => {
            append_str(&mut out, "map::");
            append_str(&mut out, contract_id);
            append_str(&mut out, "::");
            append_str(&mut out, map);
            append_event_segment(&mut out, height);
        },
        DBKey::MapEventScan(map) => {
            append_str(&mut out, "map::");
            append_str(&mut out, contract_id);
            append_str(&mut out, "::");
            append_str(&mut out, map);
            append_str(&mut out, "#events::");
        },
        DBKey::FT(asset_id, owner) => {
            append_str(&mut out, "ft::");
            append_str(&mut out, asset_id);
            append_str(&mut out, "@");
            append_str(&mut out, owner);
        },
        DBKey::FTScan(asset_id) => {
            append_str(&mut out, "ft::");
            append_str(&mut out, asset_id);
            append_str(&mut out, "@");
        },
        DBKey::FTEvent(asset_id, height, ei) => {
            append_str(&mut out, "ft::");
            append_str(&mut out, asset_id);
            append_event_segment(&mut out, height);
            let ib = u32_be_bytes(ei);
            out.extend_from_slice(ib.as_slice());
        },
        DBKey::FTEventScanBlock(asset_id, height) => {
            append_str(&mut out, "ft::");
            append_str(&mut out, asset_id);
            append_event_segment(&mut out, height);
        },
        DBKey::FTEventScan(asset_id) => {
            append_str(&mut out, "ft::");
            append_str(&mut out, asset_id);
            append_str(&mut out, "#events::");
        },
        DBKey::NFT(asset_id, sub_key) => {
            append_str(&mut out, "nft::");
            append_str(&mut out, asset_id);
            append_str(&mut out, "::id@");
            let digest = ripemd160(sub_key.as_bytes());
            out.extend_from_slice(digest.as_slice());
        },
        DBKey::NFTScan(asset_id) => {
            append_str(&mut out, "nft::");
            append_str(&mut out, asset_id);
            append_str(&mut out, "::id@");
        },
        DBKey::NFTEvent(asset_id, height, ei) => {
            append_str(&mut out, "nft::");
            append_str(&mut out, asset_id);
            append_event_segment(&mut out, height);
            let ib = u32_be_bytes(ei);
            out.extend_from_slice(ib.as_slice());
        },
        DBKey::NFTEventScan(asset_id) => {
            append_str(&mut out, "nft::");
            append_str(&mut out, asset_id);
            append_str(&mut out, "#events::");
        },
        DBKey::NFTEventScanBlock(asset_id, height) => {
            append_str(&mut out, "nft::");
            append_str(&mut out, asset_id);
            append_event_segment(&mut out, height);
        },
    }
    out
}

/// The directory that holds one contract's storage namespace.
pub open spec fn spec_contract_db_path(storage_driver: StorageDriver, contract_id: &str) -> Seq<
    char,
> {
    match storage_driver {
        StorageDriver::Filesystem(config) => config.working_dir@ + "/contracts/"@ + contract_id@,
    }
}

/// Each contract gets its own isolated namespace under the working
/// directory, so that wiping or rolling back one contract never touches
/// another's keys.
pub fn contract_db_path(storage_driver: &StorageDriver, contract_id: &str) -> (r: String)
    ensures
        r@ == spec_contract_db_path(*storage_driver, contract_id),
{
    let mut working_dir = match storage_driver {
        StorageDriver::Filesystem(config) => config.working_dir.clone(),
    };
    working_dir.append("/contracts/");
    working_dir.append(contract_id);
    working_dir
}

} // verus!
