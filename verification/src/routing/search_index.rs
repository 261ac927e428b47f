//! The search index files: fixed-size entry records and the name bytes
//! they point into, the index values stored under each normalized name,
//! and how a query's matches become results.
//!
//! An entry record is 23 bytes: latitude and longitude (the bits of an
//! `f64`, little-endian), the category byte, the offset of the name in the
//! name file (`u32`, little-endian) and the name's length in bytes (`u16`,
//! little-endian). Names longer than 65535 bytes are cut to that length.
use vstd::prelude::*;

use vstd::utf8::{decode_utf8, encode_utf8, valid_utf8};

use crate::routing::search::{
    category_byte, category_of_byte, decode_index_value, encode_index_value, index_value,
    normalize_name, normalized, PlaceCategory,
};

verus! {

/// Size of an entry record in bytes.
pub const ENTRY_SIZE: usize = 23;

/// `256^n`.
pub open spec fn pow256(n: nat) -> nat
    decreases n,
{
    if n == 0 {
        1
    } else {
        256 * pow256((n - 1) as nat)
    }
}

/// The `n` little-endian bytes of `v` (taken modulo `256^n`).
pub open spec fn le_bytes(v: nat, n: nat) -> Seq<u8>
    decreases n,
{
    if n == 0 {
        Seq::empty()
    } else {
        seq![(v % 256) as u8] + le_bytes(v / 256, (n - 1) as nat)
    }
}

/// The number that little-endian bytes encode.
pub open spec fn le_value(s: Seq<u8>) -> nat
    decreases s.len(),
{
    if s.len() == 0 {
        0
    } else {
        s[0] as nat + 256 * le_value(s.drop_first())
    }
}

proof fn lemma_le_bytes_len(v: nat, n: nat)
    ensures
        le_bytes(v, n).len() == n,
    decreases n,
{
    if n > 0 {
        lemma_le_bytes_len(v / 256, (n - 1) as nat);
    }
}

proof fn lemma_le_value_bound(s: Seq<u8>)
    ensures
        le_value(s) < pow256(s.len()),
    decreases s.len(),
{
    if s.len() > 0 {
        let r = s.drop_first();
        lemma_le_value_bound(r);
        let a = s[0] as nat;
        let b = le_value(r);
        let p = pow256(r.len());
        assert(a + 256 * b < 256 * p) by (nonlinear_arith)
            requires
                a < 256,
                b < p,
        ;
    }
}

/// Decoding the `n` little-endian bytes of a number below `256^n` gives
/// the number back.
pub proof fn lemma_le_roundtrip(v: nat, n: nat)
    requires
        v < pow256(n),
    ensures
        le_bytes(v, n).len() == n,
        le_value(le_bytes(v, n)) == v,
    decreases n,
{
    lemma_le_bytes_len(v, n);
    if n > 0 {
        let q = v / 256;
        assert(q < pow256((n - 1) as nat)) by (nonlinear_arith)
            requires
                v < 256 * pow256((n - 1) as nat),
                q == v / 256,
        ;
        lemma_le_roundtrip(q, (n - 1) as nat);
        let s = le_bytes(v, n);
        assert(s.drop_first() =~= le_bytes(q, (n - 1) as nat));
        assert(v == v % 256 + 256 * q) by (nonlinear_arith)
            requires
                q == v / 256,
        ;
    }
}

pub(crate) proof fn lemma_pow256_values()
    ensures
        pow256(2) == 0x1_0000,
        pow256(4) == 0x1_0000_0000,
        pow256(8) == 0x1_0000_0000_0000_0000,
{
    reveal_with_fuel(pow256, 9);
}

/// Appends the `n` little-endian bytes of `v`.
pub(crate) fn push_le(out: &mut Vec<u8>, v: u64, n: usize)
    requires
        n <= 8,
    ensures
        final(out)@ == old(out)@ + le_bytes(v as nat, n as nat),
{
    let mut x = v;
    let mut k: usize = 0;
    while k < n
        invariant
            k <= n,
            old(out)@ + le_bytes(v as nat, n as nat) == out@ + le_bytes(x as nat, (n - k) as nat),
        decreases n - k,
    {
        let ghost rest = le_bytes(x as nat, (n - k) as nat);
        assert(rest == seq![(x % 256) as u8] + le_bytes((x / 256) as nat, (n - k - 1) as nat));
        out.push((x % 256) as u8);
        x = x / 256;
        k = k + 1;
        assert(old(out)@ + le_bytes(v as nat, n as nat) =~= out@ + le_bytes(x as nat, (n - k) as nat));
    }
    assert(le_bytes(x as nat, 0) =~= Seq::<u8>::empty());
    assert(out@ + le_bytes(x as nat, 0) =~= out@);
}

/// The number in the `n` little-endian bytes of `data` at `start`.
pub(crate) fn read_le(data: &[u8], start: usize, n: usize) -> (r: u64)
    requires
        n <= 8,
        start + n <= data@.len(),
    ensures
        r as nat == le_value(data@.subrange(start as int, start + n)),
{
    let mut acc: u64 = 0;
    let mut k: usize = n;
    let len = data.len();
    proof {
        lemma_pow256_values();
    }
    while k > 0
        invariant
            len == data@.len(),
            k <= n,
            n <= 8,
            start + n <= data@.len(),
            acc as nat == le_value(data@.subrange(start + k, start + n)),
            pow256(8) == 0x1_0000_0000_0000_0000,
        decreases k,
    {
        let ghost s = data@.subrange(start + k - 1, start + n);
        assert(s.drop_first() =~= data@.subrange(start + k, start + n));
        proof {
            lemma_le_value_bound(s);
            lemma_pow256_mono(s.len(), 8);
        }
        let b = data[start + (k - 1)];
        acc = acc * 256 + b as u64;
        k = k - 1;
    }
    acc
}

proof fn lemma_pow256_mono(a: nat, b: nat)
    requires
        a <= b,
    ensures
        pow256(a) <= pow256(b),
    decreases b,
{
    if a < b {
        lemma_pow256_mono(a, (b - 1) as nat);
    }
}

// ---------------------------------------------------------------------------
// Entry records
// ---------------------------------------------------------------------------

/// An entry record. Coordinates are the bits of an `f64` in degrees.
#[derive(Debug, Clone, Copy, PartialEq, Eq, Structural)]
pub struct EntryRecord {
    pub lat_bits: u64,
    pub lon_bits: u64,
    pub category: PlaceCategory,
    pub name_offset: u32,
    pub name_len: u16,
}

/// The 23 bytes of an entry record.
pub open spec fn entry_bytes(r: EntryRecord) -> Seq<u8> {
    le_bytes(r.lat_bits as nat, 8) + le_bytes(r.lon_bits as nat, 8) + seq![category_byte(r.category)]
        + le_bytes(r.name_offset as nat, 4) + le_bytes(r.name_len as nat, 2)
}

/// The record that 23 bytes encode.
pub open spec fn decode_entry(s: Seq<u8>) -> EntryRecord {
    EntryRecord {
        lat_bits: le_value(s.subrange(0, 8)) as u64,
        lon_bits: le_value(s.subrange(8, 16)) as u64,
        category: category_of_byte(s[16]),
        name_offset: le_value(s.subrange(17, 21)) as u32,
        name_len: le_value(s.subrange(21, 23)) as u16,
    }
}

/// Record `id` of an entry file, if the file holds it.
pub open spec fn record_at(data: Seq<u8>, id: int) -> Option<EntryRecord> {
    if 0 <= id && (id + 1) * 23 <= data.len() {
        Some(decode_entry(data.subrange(id * 23, id * 23 + 23)))
    } else {
        None
    }
}

/// Appends the bytes of an entry record.
pub fn push_entry(out: &mut Vec<u8>, r: EntryRecord)
    ensures
        final(out)@ == old(out)@ + entry_bytes(r),
{
    push_le(out, r.lat_bits, 8);
    push_le(out, r.lon_bits, 8);
    out.push(r.category.to_u8());
    push_le(out, r.name_offset as u64, 4);
    push_le(out, r.name_len as u64, 2);
    assert(final(out)@ =~= old(out)@ + entry_bytes(r));
}

/// Reads record `id` of an entry file; `None` past the end of the file
/// (or when the record's position does not fit in `usize`).
pub fn read_record(data: &[u8], id: usize) -> (r: Option<EntryRecord>)
    ensures
        (id as int + 1) * 23 <= usize::MAX ==> r == record_at(data@, id as int),
        (id as int + 1) * 23 > usize::MAX ==> r is None,
        r matches Some(e) ==> record_at(data@, id as int) == Some(e),
{
    let offset = match id.checked_mul(ENTRY_SIZE) {
        Some(o) => o,
        None => return None,
    };
    let end = match offset.checked_add(ENTRY_SIZE) {
        Some(e) => e,
        None => return None,
    };
    if end > data.len() {
        return None;
    }
    let lat = read_le(data, offset, 8);
    let lon = read_le(data, offset + 8, 8);
    let cat = PlaceCategory::from_u8(data[offset + 16]);
    let off = read_le(data, offset + 17, 4);
    let len = read_le(data, offset + 21, 2);
    proof {
        let s = data@.subrange(offset as int, offset + 23);
        assert(s.subrange(0, 8) =~= data@.subrange(offset as int, offset + 8));
        assert(s.subrange(8, 16) =~= data@.subrange(offset + 8, offset + 16));
        assert(s.subrange(17, 21) =~= data@.subrange(offset + 17, offset + 21));
        assert(s.subrange(21, 23) =~= data@.subrange(offset + 21, offset + 23));
        lemma_le_value_bound(data@.subrange(offset + 17, offset + 21));
        lemma_le_value_bound(data@.subrange(offset + 21, offset + 23));
        lemma_pow256_values();
    }
    Some(
        EntryRecord {
            lat_bits: lat,
            lon_bits: lon,
            category: cat,
            name_offset: off as u32,
            name_len: len as u16,
        },
    )
}

/// Reading back the bytes of a record placed at position `id` gives the
/// record (the category as `category_of_byte` reads its byte).
pub proof fn lemma_entry_roundtrip(prefix: Seq<u8>, r: EntryRecord, suffix: Seq<u8>, id: int)
    requires
        prefix.len() == id * 23,
        0 <= id,
    ensures
        record_at(prefix + entry_bytes(r) + suffix, id) == Some(
            EntryRecord { category: category_of_byte(category_byte(r.category)), ..r },
        ),
{
    lemma_pow256_values();
    lemma_le_roundtrip(r.lat_bits as nat, 8);
    lemma_le_roundtrip(r.lon_bits as nat, 8);
    lemma_le_roundtrip(r.name_offset as nat, 4);
    lemma_le_roundtrip(r.name_len as nat, 2);
    let data = prefix + entry_bytes(r) + suffix;
    let s = data.subrange(id * 23, id * 23 + 23);
    assert(entry_bytes(r).len() == 23);
    assert(s =~= entry_bytes(r));
    assert(s.subrange(0, 8) =~= le_bytes(r.lat_bits as nat, 8));
    assert(s.subrange(8, 16) =~= le_bytes(r.lon_bits as nat, 8));
    assert(s.subrange(17, 21) =~= le_bytes(r.name_offset as nat, 4));
    assert(s.subrange(21, 23) =~= le_bytes(r.name_len as nat, 2));
}

// ---------------------------------------------------------------------------
// Reading places
// ---------------------------------------------------------------------------

/// Calls `std::str::from_utf8`, which the standard library documents as
/// succeeding exactly on valid UTF-8; the contract states that, with the
/// decoded characters.
#[verifier::external_body]
fn utf8_to_string(bytes: &[u8]) -> (r: Option<String>)
    ensures
        r is Some <==> valid_utf8(bytes@),
        r matches Some(s) ==> s@ == decode_utf8(bytes@),
{
    std::str::from_utf8(bytes).ok().map(|s| s.to_string())
}

/// The name a record points at: its bytes in the name file, when they lie
/// inside it and are valid UTF-8.
pub open spec fn record_name(names: Seq<u8>, e: EntryRecord) -> Option<Seq<char>> {
    let start = e.name_offset as int;
    let end = start + e.name_len as int;
    if end <= names.len() && valid_utf8(names.subrange(start, end)) {
        Some(decode_utf8(names.subrange(start, end)))
    } else {
        None
    }
}

/// A place read from the index.
#[derive(Debug, Clone)]
pub struct RawPlace {
    pub name: String,
    pub record: EntryRecord,
}

/// Place `id` of the index: its record and name, when both can be read.
pub open spec fn place_at(entries: Seq<u8>, names: Seq<u8>, id: int) -> Option<(Seq<char>, EntryRecord)> {
    match record_at(entries, id) {
        Some(e) => match record_name(names, e) {
            Some(n) => Some((n, e)),
            None => None,
        },
        None => None,
    }
}

/// Read an entry by ID.
pub fn read_entry(entries: &[u8], names: &[u8], entry_id: usize) -> (r: Option<RawPlace>)
    ensures
        (entry_id as int + 1) * 23 <= usize::MAX ==> (r is Some <==> place_at(
            entries@,
            names@,
            entry_id as int,
        ) is Some),
        (entry_id as int + 1) * 23 > usize::MAX ==> r is None,
        r matches Some(p) ==> place_at(entries@, names@, entry_id as int) == Some(
            (p.name@, p.record),
        ),
{
    let e = match read_record(entries, entry_id) {
        Some(e) => e,
        None => return None,
    };
    let start = e.name_offset as usize;
    let len = e.name_len as usize;
    if start as u64 + len as u64 > names.len() as u64 {
        return None;
    }
    let bytes = vstd::slice::slice_subrange(names, start, start + len);
    match utf8_to_string(bytes) {
        Some(name) => Some(RawPlace { name, record: e }),
        None => None,
    }
}

// ---------------------------------------------------------------------------
// Query results
// ---------------------------------------------------------------------------

/// A search result: a place and how well its key matched (lower is better).
#[derive(Debug, Clone)]
pub struct RawSearchResult {
    pub name: String,
    pub record: EntryRecord,
    pub score: u32,
}

/// A result as a value: name, record, score.
pub type ResultView = (Seq<char>, EntryRecord, u32);

/// The results, as values.
pub open spec fn results_view(v: Seq<RawSearchResult>) -> Seq<ResultView> {
    Seq::new(v.len(), |k: int| (v[k].name@, v[k].record, v[k].score))
}

/// The results with score `m`, in order.
pub open spec fn with_score(s: Seq<ResultView>, m: u32) -> Seq<ResultView>
    decreases s.len(),
{
    if s.len() == 0 {
        s
    } else if s.last().2 == m {
        with_score(s.drop_last(), m).push(s.last())
    } else {
        with_score(s.drop_last(), m)
    }
}

/// The results with a score other than `m`, in order.
pub open spec fn without_score(s: Seq<ResultView>, m: u32) -> Seq<ResultView>
    decreases s.len(),
{
    if s.len() == 0 {
        s
    } else if s.last().2 != m {
        without_score(s.drop_last(), m).push(s.last())
    } else {
        without_score(s.drop_last(), m)
    }
}

/// The lowest score of a nonempty list.
pub open spec fn min_score(s: Seq<ResultView>) -> u32
    decreases s.len(),
{
    if s.len() <= 1 {
        s[0].2
    } else {
        let m = min_score(s.drop_last());
        if s.last().2 < m {
            s.last().2
        } else {
            m
        }
    }
}

pub proof fn lemma_split_len(s: Seq<ResultView>, m: u32)
    ensures
        with_score(s, m).len() + without_score(s, m).len() == s.len(),
    decreases s.len(),
{
    if s.len() > 0 {
        lemma_split_len(s.drop_last(), m);
    }
}

pub proof fn lemma_min_score_present(s: Seq<ResultView>)
    requires
        s.len() > 0,
    ensures
        with_score(s, min_score(s)).len() > 0,
        forall|k: int| 0 <= k < s.len() ==> min_score(s) <= #[trigger] s[k].2,
    decreases s.len(),
{
    if s.len() > 1 {
        let d = s.drop_last();
        lemma_min_score_present(d);
        assert forall|k: int| 0 <= k < s.len() implies min_score(s) <= #[trigger] s[k].2 by {
            if k < s.len() - 1 {
                assert(s[k] == d[k]);
            }
        }
    }
}

/// The results ordered by score, keeping the order of equal scores (a
/// stable sort by score).
pub open spec fn sort_by_score(s: Seq<ResultView>) -> Seq<ResultView>
    decreases s.len(),
{
    if s.len() == 0 {
        s
    } else {
        let m = min_score(s);
        proof {
            lemma_min_score_present(s);
            lemma_split_len(s, m);
        }
        with_score(s, m) + sort_by_score(without_score(s, m))
    }
}


/// The lowest score of a nonempty list of results.
fn lowest_score(v: &Vec<RawSearchResult>) -> (r: u32)
    requires
        v@.len() > 0,
    ensures
        r == min_score(results_view(v@)),
{
    let ghost s = results_view(v@);
    let mut m = v[0].score;
    let mut k: usize = 1;
    assert(s.subrange(0, 1).len() == 1);
    while k < v.len()
        invariant
            1 <= k <= v@.len(),
            s == results_view(v@),
            m == min_score(s.subrange(0, k as int)),
        decreases v@.len() - k,
    {
        assert(s.subrange(0, k + 1).drop_last() =~= s.subrange(0, k as int));
        if v[k].score < m {
            m = v[k].score;
        }
        k = k + 1;
    }
    assert(s.subrange(0, k as int) =~= s);
    m
}

/// Sort results by score, keeping the order of equal scores.
pub fn sort_results(v: Vec<RawSearchResult>) -> (r: Vec<RawSearchResult>)
    ensures
        results_view(r@) == sort_by_score(results_view(v@)),
{
    let ghost whole = sort_by_score(results_view(v@));
    let mut out: Vec<RawSearchResult> = Vec::new();
    let mut rest = v;
    assert(results_view(out@) + sort_by_score(results_view(rest@)) =~= whole);
    while rest.len() > 0
        invariant
            results_view(out@) + sort_by_score(results_view(rest@)) == whole,
        decreases rest@.len(),
    {
        let m = lowest_score(&rest);
        let ghost orig = results_view(rest@);
        let ghost out0 = results_view(out@);
        let n = rest.len();
        let mut others: Vec<RawSearchResult> = Vec::new();
        let mut i: usize = 0;
        while i < n
            invariant
                i <= n,
                n == orig.len(),
                results_view(rest@) == orig.subrange(i as int, n as int),
                results_view(out@) == out0 + with_score(orig.subrange(0, i as int), m),
                results_view(others@) == without_score(orig.subrange(0, i as int), m),
            decreases n - i,
        {
            let ghost before_rest = rest@;
            assert(results_view(rest@).len() == rest@.len());
            assert(rest@.len() > 0);
            let x = rest.remove(0);
            proof {
                assert(results_view(before_rest)[0] == (x.name@, x.record, x.score));
                assert(orig[i as int] == (x.name@, x.record, x.score));
                assert(orig.subrange(0, i + 1).drop_last() =~= orig.subrange(0, i as int));
                assert forall|k: int| 0 <= k < rest@.len() implies results_view(rest@)[k] == orig[i
                    + 1 + k] by {
                    assert(rest@[k] == before_rest[k + 1]);
                    assert(results_view(before_rest)[k + 1] == orig.subrange(i as int, n as int)[k
                        + 1]);
                }
                assert(results_view(rest@) =~= orig.subrange(i + 1, n as int));
            }
            let ghost out_before = out@;
            let ghost others_before = others@;
            if x.score == m {
                out.push(x);
                assert(results_view(out@) =~= results_view(out_before).push(orig[i as int]));
            } else {
                others.push(x);
                assert(results_view(others@) =~= results_view(others_before).push(orig[i as int]));
            }
            i = i + 1;
        }
        proof {
            assert(orig.subrange(0, n as int) =~= orig);
            lemma_min_score_present(orig);
            lemma_split_len(orig, m);
            assert(sort_by_score(orig) == with_score(orig, m) + sort_by_score(without_score(orig, m)));
            assert(results_view(out@) + sort_by_score(results_view(others@)) =~= whole);
        }
        rest = others;
    }
    assert(results_view(out@) + sort_by_score(results_view(rest@)) =~= results_view(out@));
    out
}

/// Score of an index key against a query of `qlen` bytes: the difference
/// of their lengths, a key that is not UTF-8 counting as empty.
pub open spec fn key_score(key: Seq<u8>, qlen: int) -> u32 {
    let kl = if valid_utf8(key) {
        key.len() as int
    } else {
        0
    };
    crate::routing::search::match_score(kl, qlen) as u32
}

/// Place `id`, when it can be read.
pub open spec fn readable(entries: Seq<u8>, names: Seq<u8>, id: int) -> Option<(Seq<char>, EntryRecord)> {
    if (id + 1) * 23 <= usize::MAX {
        place_at(entries, names, id)
    } else {
        None
    }
}

/// Results for places `first .. first + k` that can be read.
pub open spec fn places_from(entries: Seq<u8>, names: Seq<u8>, first: int, k: int, score: u32) -> Seq<
    ResultView,
>
    decreases k,
{
    if k <= 0 {
        Seq::empty()
    } else {
        let r = places_from(entries, names, first, k - 1, score);
        match readable(entries, names, first + k - 1) {
            Some(p) => r.push((p.0, p.1, score)),
            None => r,
        }
    }
}

/// The index matches, as values.
pub open spec fn matches_view(ms: Seq<(Vec<u8>, u64)>) -> Seq<(Seq<u8>, u64)> {
    Seq::new(ms.len(), |k: int| (ms[k].0@, ms[k].1))
}

/// Results gathered from the matches of a query (in index order): for each
/// match, while fewer than `limit` results are gathered, its places up to
/// the number still wanted, scored by its key.
pub open spec fn gather(
    ms: Seq<(Seq<u8>, u64)>,
    qlen: int,
    limit: int,
    entries: Seq<u8>,
    names: Seq<u8>,
    acc: Seq<ResultView>,
) -> Seq<ResultView>
    decreases ms.len(),
{
    if ms.len() == 0 || acc.len() >= limit {
        acc
    } else {
        let v = ms[0].1;
        let count = v / 0x100_0000_0000;
        let first = v % 0x100_0000_0000;
        let k = if count < limit - acc.len() {
            count as int
        } else {
            limit - acc.len()
        };
        gather(
            ms.drop_first(),
            qlen,
            limit,
            entries,
            names,
            acc + places_from(entries, names, first as int, k, key_score(ms[0].0, qlen)),
        )
    }
}

/// Turns the matches of a prefix query (keys and index values, in index
/// order) into results: gathered as `gather` says, then sorted by score,
/// equal scores keeping their order.
pub fn collect_results(
    matches: &Vec<(Vec<u8>, u64)>,
    query_len: usize,
    limit: usize,
    entries: &[u8],
    names: &[u8],
) -> (r: Vec<RawSearchResult>)
    requires
        query_len <= i32::MAX,
        forall|k: int| 0 <= k < matches@.len() ==> (#[trigger] matches@[k]).0@.len() <= i32::MAX,
    ensures
        results_view(r@) == sort_by_score(
            gather(
                matches_view(matches@),
                query_len as int,
                limit as int,
                entries@,
                names@,
                Seq::empty(),
            ),
        ),
{
    let ghost ms = matches_view(matches@);
    let ghost target = gather(ms, query_len as int, limit as int, entries@, names@, Seq::empty());
    let mut results: Vec<RawSearchResult> = Vec::new();
    let mut m: usize = 0;
    assert(ms.subrange(0, ms.len() as int) =~= ms);
    while m < matches.len()
        invariant
            m <= matches@.len(),
            ms == matches_view(matches@),
            query_len <= i32::MAX,
            forall|k: int| 0 <= k < matches@.len() ==> (#[trigger] matches@[k]).0@.len() <= i32::MAX,
            target == gather(
                ms.subrange(m as int, ms.len() as int),
                query_len as int,
                limit as int,
                entries@,
                names@,
                results_view(results@),
            ),
        ensures
            target == gather(
                ms.subrange(m as int, ms.len() as int),
                query_len as int,
                limit as int,
                entries@,
                names@,
                results_view(results@),
            ),
            m == matches@.len() || results@.len() >= limit,
        decreases matches@.len() - m,
    {
        let ghost rest = ms.subrange(m as int, ms.len() as int);
        if results.len() >= limit {
            break;
        }
        let (key, value) = (&matches[m].0, matches[m].1);
        let (count, first) = decode_index_value(value);
        let key_len = match utf8_to_string(key.as_slice()) {
            Some(_) => key.len(),
            None => 0,
        };
        let score = crate::routing::search::score_for(key_len, query_len);
        let wanted = limit - results.len();
        let k: u64 = if count < wanted as u64 {
            count
        } else {
            wanted as u64
        };
        let ghost acc0 = results_view(results@);
        let mut i: u64 = 0;
        while i < k
            invariant
                i <= k,
                first < 0x100_0000_0000,
                k <= count,
                count <= 0xFF_FFFF,
                results_view(results@) == acc0 + places_from(
                    entries@,
                    names@,
                    first as int,
                    i as int,
                    score,
                ),
            decreases k - i,
        {
            let id = first + i;
            let ghost before = results@;
            if id <= usize::MAX as u64 {
                if let Some(p) = read_entry(entries, names, id as usize) {
                    results.push(RawSearchResult { name: p.name, record: p.record, score });
                    assert(results_view(results@) =~= results_view(before).push(
                        (p.name@, p.record, score),
                    ));
                }
            }
            i = i + 1;
        }
        proof {
            assert(rest.drop_first() =~= ms.subrange(m + 1, ms.len() as int));
            assert(rest[0] == (matches@[m as int].0@, matches@[m as int].1));
            assert(matches@[m as int].0@ == key@);
        }
        m = m + 1;
    }
    proof {
        let rest = ms.subrange(m as int, ms.len() as int);
        assert(results_view(results@).len() == results@.len());
        if m == matches@.len() {
            assert(rest.len() == 0);
        }
        assert(target == results_view(results@));
    }
    sort_results(results)
}

/// The result of an exact query whose normalized name has this index
/// value: the first place stored under it, with score 0.
pub fn exact_result(value: u64, entries: &[u8], names: &[u8]) -> (r: Option<RawSearchResult>)
    ensures
        match readable(entries@, names@, (value % 0x100_0000_0000) as int) {
            Some(p) => r matches Some(x) && (x.name@, x.record, x.score) == (p.0, p.1, 0u32),
            None => r is None,
        },
{
    let (_, first) = decode_index_value(value);
    if first > usize::MAX as u64 {
        return None;
    }
    match read_entry(entries, names, first as usize) {
        Some(p) => Some(RawSearchResult { name: p.name, record: p.record, score: 0 }),
        None => None,
    }
}

// ---------------------------------------------------------------------------
// Building the index
// ---------------------------------------------------------------------------

/// Byte-wise lexicographic order (the order of `str` and of the index
/// keys).
pub open spec fn bytes_lt(a: Seq<u8>, b: Seq<u8>) -> bool
    decreases a.len(),
{
    if a.len() == 0 {
        b.len() > 0
    } else if b.len() == 0 {
        false
    } else if a[0] != b[0] {
        a[0] < b[0]
    } else {
        bytes_lt(a.drop_first(), b.drop_first())
    }
}

pub proof fn lemma_bytes_lt_order(a: Seq<u8>, b: Seq<u8>, c: Seq<u8>)
    ensures
        !bytes_lt(a, a),
        bytes_lt(a, b) ==> !bytes_lt(b, a),
        a != b ==> bytes_lt(a, b) || bytes_lt(b, a),
        bytes_lt(a, b) && bytes_lt(b, c) ==> bytes_lt(a, c),
    decreases a.len(),
{
    if a.len() > 0 && b.len() > 0 && c.len() > 0 {
        lemma_bytes_lt_order(a.drop_first(), b.drop_first(), c.drop_first());
    } else if a.len() > 0 && b.len() > 0 {
        lemma_bytes_lt_order(a.drop_first(), b.drop_first(), a.drop_first());
    } else if a.len() > 0 {
        lemma_bytes_lt_order(a.drop_first(), a.drop_first(), a.drop_first());
    }
    if a != b && a.len() > 0 && b.len() > 0 && a[0] == b[0] {
        assert(a.drop_first() != b.drop_first()) by {
            if a.drop_first() == b.drop_first() {
                assert(a.len() == b.len());
                assert forall|i: int| 0 <= i < a.len() implies a[i] == b[i] by {
                    if i > 0 {
                        assert(a[i] == a.drop_first()[i - 1]);
                        assert(b[i] == b.drop_first()[i - 1]);
                    }
                }
                assert(a =~= b);
            }
        }
    }
    if a != b && a.len() == 0 && b.len() == 0 {
        assert(a =~= b);
    }
}

/// Whether `a` comes before `b` in byte order.
pub(crate) fn bytes_less(a: &[u8], b: &[u8]) -> (r: bool)
    ensures
        r == bytes_lt(a@, b@),
{
    let mut i: usize = 0;
    assert(a@.subrange(0, a@.len() as int) =~= a@);
    assert(b@.subrange(0, b@.len() as int) =~= b@);
    while i < a.len() && i < b.len()
        invariant
            i <= a@.len(),
            i <= b@.len(),
            forall|j: int| 0 <= j < i ==> a@[j] == b@[j],
            bytes_lt(a@, b@) == bytes_lt(a@.subrange(i as int, a@.len() as int), b@.subrange(
                i as int,
                b@.len() as int,
            )),
        decreases a@.len() - i,
    {
        let ghost sa = a@.subrange(i as int, a@.len() as int);
        let ghost sb = b@.subrange(i as int, b@.len() as int);
        if a[i] != b[i] {
            return a[i] < b[i];
        }
        assert(sa.drop_first() =~= a@.subrange(i + 1, a@.len() as int));
        assert(sb.drop_first() =~= b@.subrange(i + 1, b@.len() as int));
        i = i + 1;
    }
    i == a.len() && i < b.len()
}

/// A place to add to the index. Coordinates are the bits of an `f64`.
#[derive(Debug, Clone)]
pub struct PlaceInput {
    pub name: String,
    pub lat_bits: u64,
    pub lon_bits: u64,
    pub category: PlaceCategory,
}

/// A place, as a value.
pub type PlaceView = (Seq<char>, u64, u64, PlaceCategory);

pub open spec fn place_view(p: PlaceInput) -> PlaceView {
    (p.name@, p.lat_bits, p.lon_bits, p.category)
}

/// The places of a group, as values.
pub open spec fn places_view(v: Seq<PlaceInput>) -> Seq<PlaceView> {
    Seq::new(v.len(), |k: int| place_view(v[k]))
}

/// Builder for creating a search index: places grouped under their
/// normalized name, the groups in byte order of the names.
pub struct SearchIndexBuilder {
    groups: Vec<(String, Vec<PlaceInput>)>,
    count: usize,
}

impl SearchIndexBuilder {
    /// The groups: each normalized name with its places, in byte order of
    /// the names.
    pub closed spec fn groups_view(&self) -> Seq<(Seq<char>, Seq<PlaceView>)> {
        Seq::new(self.groups@.len(), |k: int| (self.groups@[k].0@, places_view(self.groups@[k].1@)))
    }

    /// The number of places added.
    pub closed spec fn count_view(&self) -> usize {
        self.count
    }

    /// The names are in strictly increasing byte order.
    pub open spec fn sorted(g: Seq<(Seq<char>, Seq<PlaceView>)>) -> bool {
        forall|i: int, j: int|
            0 <= i < j < g.len() ==> bytes_lt(encode_utf8(#[trigger] g[i].0), encode_utf8(#[trigger] g[j].0))
    }

    pub closed spec fn wf(&self) -> bool {
        Self::sorted(self.groups_view())
    }

    /// Create a new empty builder.
    pub fn new() -> (r: Self)
        ensures
            r.wf(),
            r.groups_view() == Seq::<(Seq<char>, Seq<PlaceView>)>::empty(),
            r.count_view() == 0,
    {
        let r = SearchIndexBuilder { groups: Vec::new(), count: 0 };
        assert(r.groups_view() =~= Seq::<(Seq<char>, Seq<PlaceView>)>::empty());
        r
    }

    /// Get the number of entries added.
    pub fn len(&self) -> (r: usize)
        ensures
            r == self.count_view(),
    {
        self.count
    }

    /// Check if the builder is empty.
    pub fn is_empty(&self) -> (r: bool)
        ensures
            r == (self.count_view() == 0),
    {
        self.count == 0
    }

    /// Add a place to the index under its normalized name; a name that
    /// normalizes to nothing is not added.
    pub fn add(&mut self, place: PlaceInput)
        requires
            old(self).wf(),
            old(self).count_view() < usize::MAX,
        ensures
            final(self).wf(),
            ({
                let k = normalized(place.name@);
                let g = old(self).groups_view();
                if k.len() == 0 {
                    final(self).groups_view() == g && final(self).count_view() == old(self).count_view()
                } else {
                    &&& final(self).count_view() == old(self).count_view() + 1
                    &&& (exists|i: int| 0 <= i < g.len() && g[i].0 == k) ==> exists|i: int|
                        0 <= i < g.len() && g[i].0 == k && final(self).groups_view() == g.update(
                            i,
                            (k, g[i].1.push(place_view(place))),
                        )
                    &&& !(exists|i: int| 0 <= i < g.len() && g[i].0 == k) ==> exists|j: int|
                        0 <= j <= g.len() && final(self).groups_view() == g.insert(
                            j,
                            (k, seq![place_view(place)]),
                        )
                }
            }),
    {
        let key = normalize_name(place.name.as_str());
        if key.as_str().unicode_len() == 0 {
            return;
        }
        let ghost g = self.groups_view();
        let kb = key.as_str().as_bytes();
        let mut j: usize = 0;
        while j < self.groups.len() && bytes_less(self.groups[j].0.as_str().as_bytes(), kb)
            invariant
                j <= self.groups@.len(),
                g == self.groups_view(),
                kb@ == encode_utf8(key@),
                forall|q: int| 0 <= q < j ==> bytes_lt(encode_utf8(#[trigger] g[q].0), kb@),
            decreases self.groups@.len() - j,
        {
            j = j + 1;
        }
        self.count = self.count + 1;
        proof {
            broadcast use vstd::utf8::encode_utf8_decode_utf8;
        }
        if j < self.groups.len() && crate::text::str_eq(self.groups[j].0.as_str(), key.as_str()) {
            let ghost old_groups = self.groups@;
            self.groups[j].1.push(place);
            proof {
                assert(g[j as int].0 == key@);
                assert(self.groups_view() =~= g.update(
                    j as int,
                    (key@, g[j as int].1.push(place_view(place))),
                )) by {
                    assert(places_view(self.groups@[j as int].1@) =~= places_view(
                        old_groups[j as int].1@,
                    ).push(place_view(place)));
                }
                assert forall|a: int, b: int|
                    0 <= a < b < self.groups_view().len() implies bytes_lt(
                    encode_utf8(#[trigger] self.groups_view()[a].0),
                    encode_utf8(#[trigger] self.groups_view()[b].0),
                ) by {
                    assert(self.groups_view()[a].0 == g[a].0);
                    assert(self.groups_view()[b].0 == g[b].0);
                }
            }
        } else {
            proof {
                // The key is new: it is before every later name and after
                // every earlier one.
                if j < g.len() {
                    lemma_bytes_lt_order(encode_utf8(g[j as int].0), kb@, kb@);
                    assert(g[j as int].0 != key@);
                    assert(encode_utf8(g[j as int].0) != kb@) by {
                        if encode_utf8(g[j as int].0) == kb@ {
                            assert(decode_utf8(encode_utf8(g[j as int].0)) == decode_utf8(
                                encode_utf8(key@),
                            ));
                        }
                    }
                }
                assert forall|i: int| 0 <= i < g.len() implies g[i].0 != key@ by {
                    if i < j {
                        lemma_bytes_lt_order(kb@, kb@, kb@);
                    } else if i > j {
                        lemma_bytes_lt_order(kb@, encode_utf8(g[j as int].0), encode_utf8(g[i].0));
                    }
                }
            }
            let mut v: Vec<PlaceInput> = Vec::new();
            v.push(place);
            let ghost old_groups = self.groups@;
            self.groups.insert(j, (key, v));
            proof {
                assert(self.groups_view() =~= g.insert(j as int, (key@, seq![place_view(place)]))) by {
                    assert(places_view(v@) =~= seq![place_view(place)]);
                }
                let ng = self.groups_view();
                assert forall|a: int, b: int| 0 <= a < b < ng.len() implies bytes_lt(
                    encode_utf8(#[trigger] ng[a].0),
                    encode_utf8(#[trigger] ng[b].0),
                ) by {
                    if a < j && b < j {
                        assert(ng[a] == g[a] && ng[b] == g[b]);
                    } else if a < j && b == j {
                    } else if a < j && b > j {
                        assert(ng[a] == g[a] && ng[b] == g[b - 1]);
                        if j < g.len() {
                            lemma_bytes_lt_order(encode_utf8(g[a].0), kb@, encode_utf8(g[j as int].0));
                            if b - 1 > j {
                                lemma_bytes_lt_order(encode_utf8(g[a].0), encode_utf8(g[j as int].0), encode_utf8(g[b - 1].0));
                            }
                        }
                    } else if a == j {
                        assert(ng[b] == g[b - 1]);
                        lemma_bytes_lt_order(kb@, encode_utf8(g[j as int].0), encode_utf8(g[b - 1].0));
                    } else {
                        assert(ng[a] == g[a - 1] && ng[b] == g[b - 1]);
                    }
                }
            }
        }
    }
}

/// A name's bytes, cut to at most 65535.
pub open spec fn cut_name(b: Seq<u8>) -> Seq<u8> {
    if b.len() > 65535 {
        b.subrange(0, 65535)
    } else {
        b
    }
}

/// The entry and name files after appending the records of places `ps`
/// to `entries` and `names`.
pub open spec fn places_files(ps: Seq<PlaceView>, entries: Seq<u8>, names: Seq<u8>) -> (Seq<u8>, Seq<u8>)
    decreases ps.len(),
{
    if ps.len() == 0 {
        (entries, names)
    } else {
        let p = ps[0];
        let nb = cut_name(encode_utf8(p.0));
        let rec = EntryRecord {
            lat_bits: p.1,
            lon_bits: p.2,
            category: p.3,
            name_offset: names.len() as u32,
            name_len: nb.len() as u16,
        };
        places_files(ps.drop_first(), entries + entry_bytes(rec), names + nb)
    }
}

/// The index contents after appending `groups` to `acc` = (keys with
/// their values, entry file, name file, next entry id): each group's
/// name bytes get the value of its place count and first entry id.
pub open spec fn files_of(
    groups: Seq<(Seq<char>, Seq<PlaceView>)>,
    acc: (Seq<(Seq<u8>, u64)>, Seq<u8>, Seq<u8>, nat),
) -> (Seq<(Seq<u8>, u64)>, Seq<u8>, Seq<u8>, nat)
    decreases groups.len(),
{
    if groups.len() == 0 {
        acc
    } else {
        let k = groups[0].0;
        let ps = groups[0].1;
        let files = places_files(ps, acc.1, acc.2);
        files_of(
            groups.drop_first(),
            (
                acc.0.push((encode_utf8(k), index_value(ps.len() as u64, acc.3 as u64))),
                files.0,
                files.1,
                acc.3 + ps.len(),
            ),
        )
    }
}

/// What is written for an index: its keys (in byte order) with their
/// values, the entry file and the name file.
pub struct IndexFiles {
    pub keys: Vec<(Vec<u8>, u64)>,
    pub entries: Vec<u8>,
    pub names: Vec<u8>,
}

impl SearchIndexBuilder {
    /// The contents of the index files for the places added.
    pub fn index_files(&self) -> (r: IndexFiles)
        ensures
            ({
                let f = files_of(self.groups_view(), (Seq::empty(), Seq::empty(), Seq::empty(), 0));
                &&& matches_view(r.keys@) == f.0
                &&& r.entries@ == f.1
                &&& r.names@ == f.2
            }),
    {
        let ghost gv = self.groups_view();
        let ghost target = files_of(gv, (Seq::empty(), Seq::empty(), Seq::empty(), 0));
        let mut keys: Vec<(Vec<u8>, u64)> = Vec::new();
        let mut entries: Vec<u8> = Vec::new();
        let mut names: Vec<u8> = Vec::new();
        let mut next_id: u64 = 0;
        let mut g: usize = 0;
        assert(gv.subrange(0, gv.len() as int) =~= gv);
        assert(matches_view(keys@) =~= Seq::<(Seq<u8>, u64)>::empty());
        while g < self.groups.len()
            invariant
                g <= self.groups@.len(),
                gv == self.groups_view(),
                entries@.len() == 23 * next_id,
                target == files_of(
                    gv.subrange(g as int, gv.len() as int),
                    (matches_view(keys@), entries@, names@, next_id as nat),
                ),
            decreases self.groups@.len() - g,
        {
            let ghost rest = gv.subrange(g as int, gv.len() as int);
            let group = &self.groups[g];
            let count = group.1.len() as u64;
            let value = encode_index_value(count, next_id);
            let ghost ps = places_view(group.1@);
            let ghost acc_e = entries@;
            let ghost acc_n = names@;
            let ghost id0 = next_id;
            let mut k: usize = 0;
            assert(ps.subrange(0, ps.len() as int) =~= ps);
            while k < group.1.len()
                invariant
                    k <= group.1@.len(),
                    next_id == id0 + k,
                    ps == places_view(group.1@),
                    entries@.len() == 23 * next_id,
                    places_files(ps, acc_e, acc_n) == places_files(
                        ps.subrange(k as int, ps.len() as int),
                        entries@,
                        names@,
                    ),
                decreases group.1@.len() - k,
            {
                let place = &group.1[k];
                let bytes = place.name.as_str().as_bytes();
                let cut = if bytes.len() > 65535 {
                    65535
                } else {
                    bytes.len()
                };
                let rec = EntryRecord {
                    lat_bits: place.lat_bits,
                    lon_bits: place.lon_bits,
                    category: place.category,
                    name_offset: names.len() as u32,
                    name_len: cut as u16,
                };
                let ghost e0 = entries@;
                let ghost n0 = names@;
                push_entry(&mut entries, rec);
                let mut b: usize = 0;
                while b < cut
                    invariant
                        b <= cut,
                        cut <= bytes@.len(),
                        names@ == n0 + bytes@.subrange(0, b as int),
                    decreases cut - b,
                {
                    names.push(bytes[b]);
                    b = b + 1;
                    assert(names@ =~= n0 + bytes@.subrange(0, b as int));
                }
                proof {
                    let sub = ps.subrange(k as int, ps.len() as int);
                    assert(sub[0] == place_view(*place));
                    assert(sub.drop_first() =~= ps.subrange(k + 1, ps.len() as int));
                    assert(bytes@.subrange(0, cut as int) == cut_name(encode_utf8(place.name@)));
                    assert(entry_bytes(rec).len() == 23) by {
                        lemma_le_bytes_len(rec.lat_bits as nat, 8);
                        lemma_le_bytes_len(rec.lon_bits as nat, 8);
                        lemma_le_bytes_len(rec.name_offset as nat, 4);
                        lemma_le_bytes_len(rec.name_len as nat, 2);
                    }
                }
                let el = entries.len();
                assert(el == 23 * (next_id + 1));
                next_id = next_id + 1;
                k = k + 1;
            }
            let mut kb: Vec<u8> = Vec::new();
            let key_bytes = group.0.as_str().as_bytes();
            let mut q: usize = 0;
            while q < key_bytes.len()
                invariant
                    q <= key_bytes@.len(),
                    kb@ == key_bytes@.subrange(0, q as int),
                decreases key_bytes@.len() - q,
            {
                kb.push(key_bytes[q]);
                q = q + 1;
                assert(kb@ =~= key_bytes@.subrange(0, q as int));
            }
            assert(key_bytes@.subrange(0, q as int) =~= key_bytes@);
            let ghost keys0 = matches_view(keys@);
            keys.push((kb, value));
            proof {
                assert(matches_view(keys@) =~= keys0.push((encode_utf8(group.0@), value)));
                assert(rest[0] == (group.0@, ps));
                assert(rest.drop_first() =~= gv.subrange(g + 1, gv.len() as int));
                assert(ps.subrange(group.1@.len() as int, ps.len() as int) =~= Seq::<PlaceView>::empty());
            }
            g = g + 1;
        }
        proof {
            assert(gv.subrange(g as int, gv.len() as int) =~= Seq::<(Seq<char>, Seq<PlaceView>)>::empty());
        }
        IndexFiles { keys, entries, names }
    }
}

proof fn lemma_places_files_prefix(ps: Seq<PlaceView>, entries: Seq<u8>, names: Seq<u8>)
    ensures
        places_files(ps, entries, names).0.len() == entries.len() + 23 * ps.len(),
        places_files(ps, entries, names).1.len() >= names.len(),
        places_files(ps, entries, names).0.subrange(0, entries.len() as int) == entries,
        places_files(ps, entries, names).1.subrange(0, names.len() as int) == names,
    decreases ps.len(),
{
    if ps.len() > 0 {
        let p = ps[0];
        let nb = cut_name(encode_utf8(p.0));
        let rec = EntryRecord {
            lat_bits: p.1,
            lon_bits: p.2,
            category: p.3,
            name_offset: names.len() as u32,
            name_len: nb.len() as u16,
        };
        let e2 = entries + entry_bytes(rec);
        let n2 = names + nb;
        lemma_places_files_prefix(ps.drop_first(), e2, n2);
        lemma_le_bytes_len(rec.lat_bits as nat, 8);
        lemma_le_bytes_len(rec.lon_bits as nat, 8);
        lemma_le_bytes_len(rec.name_offset as nat, 4);
        lemma_le_bytes_len(rec.name_len as nat, 2);
        let f = places_files(ps.drop_first(), e2, n2);
        assert(f.0.subrange(0, entries.len() as int) =~= f.0.subrange(0, e2.len() as int).subrange(
            0,
            entries.len() as int,
        ));
        assert(f.1.subrange(0, names.len() as int) =~= f.1.subrange(0, n2.len() as int).subrange(
            0,
            names.len() as int,
        ));
    } else {
        assert(entries.subrange(0, entries.len() as int) =~= entries);
        assert(names.subrange(0, names.len() as int) =~= names);
    }
}

/// The entry and name files written for places read back as those places:
/// place `k` is entry `first + k`, with its name (when the name has at most
/// 65535 bytes and the name file stays within `u32` offsets), coordinates
/// and category.
pub proof fn lemma_places_read_back(ps: Seq<PlaceView>, entries: Seq<u8>, names: Seq<u8>, first: int)
    requires
        first >= 0,
        entries.len() == 23 * first,
        places_files(ps, entries, names).1.len() <= u32::MAX,
        forall|k: int| 0 <= k < ps.len() ==> encode_utf8((#[trigger] ps[k]).0).len() <= 65535,
    ensures
        forall|k: int|
            0 <= k < ps.len() ==> match place_at(
                places_files(ps, entries, names).0,
                places_files(ps, entries, names).1,
                first + k,
            ) {
                Some(pl) => pl.0 == (#[trigger] ps[k]).0 && pl.1.lat_bits == ps[k].1 && pl.1.lon_bits
                    == ps[k].2 && pl.1.category == ps[k].3,
                None => false,
            },
    decreases ps.len(),
{
    if ps.len() > 0 {
        let p = ps[0];
        let nb = cut_name(encode_utf8(p.0));
        let rec = EntryRecord {
            lat_bits: p.1,
            lon_bits: p.2,
            category: p.3,
            name_offset: names.len() as u32,
            name_len: nb.len() as u16,
        };
        let e2 = entries + entry_bytes(rec);
        let n2 = names + nb;
        let f = places_files(ps, entries, names);
        assert(f == places_files(ps.drop_first(), e2, n2));
        lemma_places_files_prefix(ps.drop_first(), e2, n2);
        lemma_le_bytes_len(rec.lat_bits as nat, 8);
        lemma_le_bytes_len(rec.lon_bits as nat, 8);
        lemma_le_bytes_len(rec.name_offset as nat, 4);
        lemma_le_bytes_len(rec.name_len as nat, 2);
        assert(e2.len() == 23 * (first + 1));
        lemma_places_read_back(ps.drop_first(), e2, n2, first + 1);
        // place 0
        assert(encode_utf8(ps[0].0).len() <= 65535);
        assert(nb == encode_utf8(p.0));
        let suffix = f.0.subrange(e2.len() as int, f.0.len() as int);
        assert(f.0 =~= entries + entry_bytes(rec) + suffix) by {
            assert(f.0.subrange(0, e2.len() as int) == e2);
        }
        lemma_entry_roundtrip(entries, rec, suffix, first);
        crate::routing::search::lemma_category_byte_roundtrip(rec.category);
        let got = record_at(f.0, first).unwrap();
        assert(got.name_offset == names.len()) by {
            assert(n2.len() <= f.1.len());
        }
        assert(got.name_len == nb.len());
        assert(f.1.subrange(names.len() as int, (names.len() + nb.len()) as int) =~= nb) by {
            assert(f.1.subrange(0, n2.len() as int) == n2);
            assert forall|i: int| 0 <= i < nb.len() implies f.1.subrange(
                names.len() as int,
                (names.len() + nb.len()) as int,
            )[i] == nb[i] by {
                assert(f.1[names.len() + i] == f.1.subrange(0, n2.len() as int)[names.len() + i]);
                assert(n2[names.len() + i] == nb[i]);
            }
        }
        vstd::utf8::encode_utf8_valid_utf8(p.0);
        vstd::utf8::encode_utf8_decode_utf8(p.0);
        assert forall|k: int| 0 <= k < ps.len() implies match place_at(f.0, f.1, first + k) {
            Some(pl) => pl.0 == (#[trigger] ps[k]).0 && pl.1.lat_bits == ps[k].1 && pl.1.lon_bits
                == ps[k].2 && pl.1.category == ps[k].3,
            None => false,
        } by {
            if k > 0 {
                assert(ps[k] == ps.drop_first()[k - 1]);
                assert(first + k == (first + 1) + (k - 1));
            }
        }
    }
}
} // verus!
