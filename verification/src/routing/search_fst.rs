//! The search index's name map, an `fst` map from normalized names (as
//! UTF-8 bytes) to index values, and the queries run on it.
use vstd::prelude::*;

use fst::{Automaton, IntoStreamer};
use vstd::utf8::encode_utf8;

use crate::routing::search::{normalize_name, normalized};
use crate::routing::search_index::{
    bytes_less, bytes_lt, collect_results, exact_result, files_of, gather, matches_view,
    read_entry, readable, results_view, sort_by_score, RawPlace, RawSearchResult,
    SearchIndexBuilder,
};

verus! {

// ---------------------------------------------------------------------------
// The `fst` map
// ---------------------------------------------------------------------------

#[verifier::external_type_specification]
#[verifier::external_body]
#[verifier::reject_recursive_types(D)]
pub struct ExFstMap<D>(fst::Map<D>);

/// The key-value pairs that an `fst` map holds.
pub uninterp spec fn fst_entries(m: fst::Map<Vec<u8>>) -> Map<Seq<u8>, u64>;

/// The key-value pairs of the `fst` map stored in `bytes`.
pub uninterp spec fn fst_decoded(bytes: Seq<u8>) -> Map<Seq<u8>, u64>;

/// The keys of `ms` increase strictly in byte order.
pub open spec fn keys_increasing(ms: Seq<(Seq<u8>, u64)>) -> bool {
    forall|i: int, j: int| 0 <= i < j < ms.len() ==> bytes_lt(#[trigger] ms[i].0, #[trigger] ms[j].0)
}

/// The map of the pairs `ms` (a later pair wins for a repeated key).
pub open spec fn pairs_map(ms: Seq<(Seq<u8>, u64)>) -> Map<Seq<u8>, u64>
    decreases ms.len(),
{
    if ms.len() == 0 {
        Map::empty()
    } else {
        pairs_map(ms.drop_last()).insert(ms.last().0, ms.last().1)
    }
}

/// `ms` lists, in increasing key order, exactly the pairs of `m` whose key
/// starts with `prefix`.
pub open spec fn prefix_listing(m: Map<Seq<u8>, u64>, prefix: Seq<u8>, ms: Seq<(Seq<u8>, u64)>) -> bool {
    &&& keys_increasing(ms)
    &&& forall|i: int|
        0 <= i < ms.len() ==> m.contains_key(#[trigger] ms[i].0) && m[ms[i].0] == ms[i].1
            && prefix.is_prefix_of(ms[i].0)
    &&& forall|k: Seq<u8>|
        #[trigger] m.contains_key(k) && prefix.is_prefix_of(k) ==> exists|i: int|
            0 <= i < ms.len() && #[trigger] ms[i].0 == k
}

/// The pairs of `ms` whose key starts with `prefix`, in order.
pub open spec fn with_prefix(ms: Seq<(Seq<u8>, u64)>, prefix: Seq<u8>) -> Seq<(Seq<u8>, u64)>
    decreases ms.len(),
{
    if ms.len() == 0 {
        ms
    } else if prefix.is_prefix_of(ms.last().0) {
        with_prefix(ms.drop_last(), prefix).push(ms.last())
    } else {
        with_prefix(ms.drop_last(), prefix)
    }
}

/// The map of pairs with distinct keys holds exactly those pairs.
proof fn lemma_pairs_map(ms: Seq<(Seq<u8>, u64)>)
    requires
        keys_increasing(ms),
    ensures
        forall|k: Seq<u8>|
            #[trigger] pairs_map(ms).contains_key(k) <==> exists|i: int| 0 <= i < ms.len() && ms[i].0 == k,
        forall|i: int| 0 <= i < ms.len() ==> #[trigger] pairs_map(ms)[ms[i].0] == ms[i].1,
    decreases ms.len(),
{
    if ms.len() > 0 {
        let d = ms.drop_last();
        assert(keys_increasing(d)) by {
            assert forall|i: int, j: int| 0 <= i < j < d.len() implies bytes_lt(#[trigger] d[i].0, #[trigger] d[j].0) by {
                assert(d[i] == ms[i] && d[j] == ms[j]);
            }
        }
        lemma_pairs_map(d);
        let last = ms.last();
        assert forall|k: Seq<u8>|
            #[trigger] pairs_map(ms).contains_key(k) <==> exists|i: int| 0 <= i < ms.len() && ms[i].0 == k by {
            if pairs_map(d).contains_key(k) {
                let i = choose|i: int| 0 <= i < d.len() && d[i].0 == k;
                assert(ms[i].0 == k);
            }
            if exists|i: int| 0 <= i < ms.len() && ms[i].0 == k {
                let i = choose|i: int| 0 <= i < ms.len() && ms[i].0 == k;
                if i < ms.len() - 1 {
                    assert(d[i].0 == k);
                }
            }
        }
        assert forall|i: int| 0 <= i < ms.len() implies #[trigger] pairs_map(ms)[ms[i].0] == ms[i].1 by {
            if i < ms.len() - 1 {
                assert(d[i] == ms[i]);
                assert(bytes_lt(ms[i].0, last.0));
                crate::routing::search_index::lemma_bytes_lt_order(ms[i].0, last.0, last.0);
                assert(pairs_map(d)[d[i].0] == d[i].1);
            }
        }
    }
}

/// The pairs of `ms` with the prefix: members of `ms` with the prefix, all
/// of them, with increasing keys.
proof fn lemma_with_prefix(ms: Seq<(Seq<u8>, u64)>, prefix: Seq<u8>)
    requires
        keys_increasing(ms),
    ensures
        keys_increasing(with_prefix(ms, prefix)),
        forall|x: (Seq<u8>, u64)|
            #[trigger] with_prefix(ms, prefix).contains(x) <==> ms.contains(x) && prefix.is_prefix_of(x.0),
    decreases ms.len(),
{
    if ms.len() > 0 {
        let d = ms.drop_last();
        assert(keys_increasing(d)) by {
            assert forall|i: int, j: int| 0 <= i < j < d.len() implies bytes_lt(#[trigger] d[i].0, #[trigger] d[j].0) by {
                assert(d[i] == ms[i] && d[j] == ms[j]);
            }
        }
        lemma_with_prefix(d, prefix);
        let w = with_prefix(d, prefix);
        let last = ms.last();
        assert forall|x: (Seq<u8>, u64)|
            #[trigger] with_prefix(ms, prefix).contains(x) <==> ms.contains(x) && prefix.is_prefix_of(x.0) by {
            if w.contains(x) {
                let i = choose|i: int| 0 <= i < d.len() && d[i] == x;
                assert(ms[i] == x);
            }
            if ms.contains(x) {
                let i = choose|i: int| 0 <= i < ms.len() && ms[i] == x;
                if i < ms.len() - 1 {
                    assert(d[i] == x);
                    assert(d.contains(x));
                }
            }
            if with_prefix(ms, prefix).contains(x) && !w.contains(x) {
                let i = choose|i: int| 0 <= i < with_prefix(ms, prefix).len() && with_prefix(ms, prefix)[i] == x;
                assert(i == w.len());
            }
            if ms.contains(x) && prefix.is_prefix_of(x.0) && x == last && prefix.is_prefix_of(last.0) {
                assert(with_prefix(ms, prefix)[w.len() as int] == x);
            }
            if w.contains(x) && prefix.is_prefix_of(last.0) {
                let i = choose|i: int| 0 <= i < w.len() && w[i] == x;
                assert(with_prefix(ms, prefix)[i] == x);
            }
        }
        if prefix.is_prefix_of(last.0) {
            let full = with_prefix(ms, prefix);
            assert forall|i: int, j: int| 0 <= i < j < full.len() implies bytes_lt(#[trigger] full[i].0, #[trigger] full[j].0) by {
                if j == w.len() {
                    assert(w.contains(w[i]));
                    let a = choose|a: int| 0 <= a < d.len() && d[a] == w[i];
                    assert(ms[a] == w[i]);
                    assert(full[j] == ms[ms.len() - 1]);
                } else {
                    assert(full[i] == w[i] && full[j] == w[j]);
                }
            }
        }
    }
}

/// Two sequences with strictly increasing keys and the same members are
/// equal.
proof fn lemma_increasing_unique(a: Seq<(Seq<u8>, u64)>, b: Seq<(Seq<u8>, u64)>)
    requires
        keys_increasing(a),
        keys_increasing(b),
        forall|x: (Seq<u8>, u64)| a.contains(x) <==> b.contains(x),
    ensures
        a == b,
    decreases a.len(),
{
    if a.len() == 0 {
        if b.len() > 0 {
            assert(b.contains(b[0]));
        }
        assert(a =~= b);
    } else {
        assert(a.contains(a[0]));
        let i = choose|i: int| 0 <= i < b.len() && b[i] == a[0];
        assert(b.contains(b[0]));
        let j = choose|j: int| 0 <= j < a.len() && a[j] == b[0];
        if i > 0 {
            assert(bytes_lt(b[0].0, b[i].0));
            if j > 0 {
                assert(bytes_lt(a[0].0, a[j].0));
                crate::routing::search_index::lemma_bytes_lt_order(a[0].0, b[0].0, a[0].0);
            }
        }
        assert(a[0] == b[0]);
        let a1 = a.drop_first();
        let b1 = b.drop_first();
        assert(keys_increasing(a1)) by {
            assert forall|p: int, q: int| 0 <= p < q < a1.len() implies bytes_lt(#[trigger] a1[p].0, #[trigger] a1[q].0) by {
                assert(a1[p] == a[p + 1] && a1[q] == a[q + 1]);
            }
        }
        assert(keys_increasing(b1)) by {
            assert forall|p: int, q: int| 0 <= p < q < b1.len() implies bytes_lt(#[trigger] b1[p].0, #[trigger] b1[q].0) by {
                assert(b1[p] == b[p + 1] && b1[q] == b[q + 1]);
            }
        }
        assert forall|x: (Seq<u8>, u64)| a1.contains(x) <==> b1.contains(x) by {
            if a1.contains(x) {
                let p = choose|p: int| 0 <= p < a1.len() && a1[p] == x;
                assert(a[p + 1] == x);
                assert(bytes_lt(a[0].0, x.0));
                crate::routing::search_index::lemma_bytes_lt_order(a[0].0, x.0, x.0);
                assert(b.contains(x));
                let q = choose|q: int| 0 <= q < b.len() && b[q] == x;
                assert(q != 0);
                assert(b1[q - 1] == x);
            }
            if b1.contains(x) {
                let p = choose|p: int| 0 <= p < b1.len() && b1[p] == x;
                assert(b[p + 1] == x);
                assert(bytes_lt(b[0].0, x.0));
                crate::routing::search_index::lemma_bytes_lt_order(b[0].0, x.0, x.0);
                assert(a.contains(x));
                let q = choose|q: int| 0 <= q < a.len() && a[q] == x;
                assert(q != 0);
                assert(a1[q - 1] == x);
            }
        }
        lemma_increasing_unique(a1, b1);
        assert(a =~= seq![a[0]] + a1);
        assert(b =~= seq![b[0]] + b1);
    }
}

/// In the name map of strictly increasing keys, the listing of a prefix is
/// exactly the keys with that prefix, in order.
pub proof fn lemma_prefix_listing_of_keys(keys: Seq<(Seq<u8>, u64)>, prefix: Seq<u8>, ms: Seq<(Seq<u8>, u64)>)
    requires
        keys_increasing(keys),
        prefix_listing(pairs_map(keys), prefix, ms),
    ensures
        ms == with_prefix(keys, prefix),
{
    lemma_pairs_map(keys);
    lemma_with_prefix(keys, prefix);
    let w = with_prefix(keys, prefix);
    let m = pairs_map(keys);
    assert forall|x: (Seq<u8>, u64)| ms.contains(x) <==> w.contains(x) by {
        if ms.contains(x) {
            let i = choose|i: int| 0 <= i < ms.len() && ms[i] == x;
            assert(m.contains_key(ms[i].0));
            let k = choose|k: int| 0 <= k < keys.len() && keys[k].0 == x.0;
            assert(m[keys[k].0] == keys[k].1);
            assert(keys[k] == x);
            assert(keys.contains(x));
        }
        if w.contains(x) {
            assert(keys.contains(x));
            let k = choose|k: int| 0 <= k < keys.len() && keys[k] == x;
            assert(m.contains_key(keys[k].0));
            assert(m[keys[k].0] == keys[k].1);
            let i = choose|i: int| 0 <= i < ms.len() && #[trigger] ms[i].0 == x.0;
            assert(ms[i].1 == m[ms[i].0]);
            assert(ms[i] == x);
        }
    }
    lemma_increasing_unique(ms, w);
}

/// `fst::Map::new` accepts `bytes`: their header names a map of a format
/// the crate reads.
pub uninterp spec fn fst_readable(bytes: Seq<u8>) -> bool;

/// `bytes` are a map as the crate's builder writes it. The crate's
/// documentation leaves it to the caller to read only such maps: on other
/// bytes that pass the header check, reading the map may panic.
pub uninterp spec fn fst_valid(bytes: Seq<u8>) -> bool;

/// The bytes that an `fst` map reads.
pub uninterp spec fn fst_bytes_of(m: fst::Map<Vec<u8>>) -> Seq<u8>;

/// Calls `fst::Map::new`, which checks the header of the map stored in
/// `bytes` (a function of the bytes alone). On success the map reads
/// those bytes and holds the pairs stored there.
#[verifier::external_body]
fn fst_open(bytes: Vec<u8>) -> (r: Option<fst::Map<Vec<u8>>>)
    ensures
        r is Some <==> fst_readable(bytes@),
        r matches Some(m) ==> fst_entries(m) == fst_decoded(bytes@) && fst_bytes_of(m) == bytes@,
{
    fst::Map::new(bytes).ok()
}

/// Calls `fst::Map::get` on a map read from bytes its builder wrote: the
/// value stored under `key`, if any.
#[verifier::external_body]
fn fst_get(m: &fst::Map<Vec<u8>>, key: &[u8]) -> (r: Option<u64>)
    requires
        fst_valid(fst_bytes_of(*m)),
    ensures
        r == (if fst_entries(*m).contains_key(key@) {
            Some(fst_entries(*m)[key@])
        } else {
            None
        }),
{
    m.get(key)
}

/// Runs `fst::Map::search` with `Str::new(prefix).starts_with()` on a map
/// read from bytes its builder wrote, and collects the stream
/// (`into_byte_vec`): the pairs whose key starts with the prefix's bytes,
/// in increasing key order.
#[verifier::external_body]
fn fst_prefix(m: &fst::Map<Vec<u8>>, prefix: &str) -> (r: Vec<(Vec<u8>, u64)>)
    requires
        fst_valid(fst_bytes_of(*m)),
    ensures
        prefix_listing(fst_entries(*m), encode_utf8(prefix@), matches_view(r@)),
{
    m.search(fst::automaton::Str::new(prefix).starts_with()).into_stream().into_byte_vec()
}

/// Calls `fst::Map::from_iter` on pairs whose keys increase strictly, and
/// returns the bytes of the map built (`into_fst().into_inner()`): a map as
/// the builder writes it, which `fst::Map::new` accepts, storing exactly
/// those pairs.
#[verifier::external_body]
fn fst_build(keys: &Vec<(Vec<u8>, u64)>) -> (r: Vec<u8>)
    requires
        keys_increasing(matches_view(keys@)),
    ensures
        fst_valid(r@),
        fst_readable(r@),
        fst_decoded(r@) == pairs_map(matches_view(keys@)),
{
    match fst::Map::from_iter(keys.iter().map(|p| (p.0.as_slice(), p.1))) {
        Ok(m) => m.into_fst().into_inner(),
        Err(_) => Vec::new(),
    }
}

/// The bytes of the name map for index keys (as `IndexFiles::keys` holds
/// them): `None` when the keys do not increase strictly in byte order.
pub fn name_map_bytes(keys: &Vec<(Vec<u8>, u64)>) -> (r: Option<Vec<u8>>)
    ensures
        r is Some <==> keys_increasing(matches_view(keys@)),
        r matches Some(b) ==> fst_decoded(b@) == pairs_map(matches_view(keys@)) && fst_valid(b@)
            && fst_readable(b@),
{
    let ghost ms = matches_view(keys@);
    let mut i: usize = 1;
    while i < keys.len()
        invariant
            1 <= i,
            ms == matches_view(keys@),
            forall|a: int, b: int| 0 <= a < b < i && b < ms.len() ==> bytes_lt(#[trigger] ms[a].0, #[trigger] ms[b].0),
        decreases keys@.len() - i,
    {
        if !bytes_less(keys[i - 1].0.as_slice(), keys[i].0.as_slice()) {
            proof {
                assert(ms[i - 1].0 == keys@[i - 1].0@);
                assert(ms[i as int].0 == keys@[i as int].0@);
            }
            return None;
        }
        proof {
            assert forall|a: int, b: int| 0 <= a < b < i + 1 && b < ms.len() implies bytes_lt(
                #[trigger] ms[a].0,
                #[trigger] ms[b].0,
            ) by {
                if b == i && a < i - 1 {
                    crate::routing::search_index::lemma_bytes_lt_order(ms[a].0, ms[i - 1].0, ms[b].0);
                }
            }
        }
        i = i + 1;
    }
    Some(fst_build(keys))
}

// ---------------------------------------------------------------------------
// Queries
// ---------------------------------------------------------------------------

/// The pairs of `ms` whose key is at most `i32::MAX` bytes long.
pub open spec fn short_keys(ms: Seq<(Seq<u8>, u64)>) -> Seq<(Seq<u8>, u64)>
    decreases ms.len(),
{
    if ms.len() == 0 {
        ms
    } else if ms.last().0.len() <= i32::MAX {
        short_keys(ms.drop_last()).push(ms.last())
    } else {
        short_keys(ms.drop_last())
    }
}

/// A place search index: the name map, the entry file and the name file.
pub struct SearchIndex {
    fst: fst::Map<Vec<u8>>,
    entries: Vec<u8>,
    names: Vec<u8>,
}

impl SearchIndex {
    /// The pairs of the name map.
    pub closed spec fn names_map(&self) -> Map<Seq<u8>, u64> {
        fst_entries(self.fst)
    }

    /// The entry file.
    pub closed spec fn entry_bytes(&self) -> Seq<u8> {
        self.entries@
    }

    /// The name file.
    pub closed spec fn name_bytes(&self) -> Seq<u8> {
        self.names@
    }

    /// The name map was read from bytes as the `fst` builder writes them,
    /// so it can be queried.
    pub closed spec fn map_valid(&self) -> bool {
        fst_valid(fst_bytes_of(self.fst))
    }

    /// An index from the bytes of its three files; `None` exactly when
    /// `fst` refuses the name map's header. It can be queried when the name
    /// map bytes are as the builder wrote them (`name_map_bytes`).
    pub fn from_parts(fst_bytes: Vec<u8>, entries: Vec<u8>, names: Vec<u8>) -> (r: Option<Self>)
        ensures
            r is Some <==> fst_readable(fst_bytes@),
            r matches Some(ix) ==> ix.names_map() == fst_decoded(fst_bytes@) && ix.entry_bytes()
                == entries@ && ix.name_bytes() == names@ && ix.map_valid() == fst_valid(fst_bytes@),
    {
        match fst_open(fst_bytes) {
            Some(fst) => Some(SearchIndex { fst, entries, names }),
            None => None,
        }
    }

    /// The index of the places added to a builder, with its name map
    /// built in memory; `None` when the index keys do not increase strictly
    /// in byte order.
    pub fn from_builder(builder: &SearchIndexBuilder) -> (r: Option<Self>)
        ensures
            ({
                let f = files_of(builder.groups_view(), (Seq::empty(), Seq::empty(), Seq::empty(), 0));
                &&& r is Some <==> keys_increasing(f.0)
                &&& r matches Some(ix) ==> ix.map_valid() && ix.names_map() == pairs_map(f.0)
                    && ix.entry_bytes() == f.1 && ix.name_bytes() == f.2
            }),
    {
        let files = builder.index_files();
        match name_map_bytes(&files.keys) {
            Some(b) => Self::from_parts(b, files.entries, files.names),
            None => None,
        }
    }

    /// Number of entries.
    pub fn entry_count(&self) -> (r: usize)
        ensures
            r == self.entry_bytes().len() / 23,
    {
        self.entries.len() / 23
    }

    /// Read an entry by id.
    pub fn read_entry(&self, entry_id: usize) -> (r: Option<RawPlace>)
        ensures
            r is Some <==> readable(self.entry_bytes(), self.name_bytes(), entry_id as int) is Some,
            r matches Some(p) ==> readable(self.entry_bytes(), self.name_bytes(), entry_id as int)
                == Some((p.name@, p.record)),
    {
        read_entry(self.entries.as_slice(), self.names.as_slice(), entry_id)
    }

    /// Places whose normalized name starts with the normalized query, best
    /// scores first, at most `limit`: the places of the matching names, in
    /// name order (names longer than `i32::MAX` bytes left out), gathered
    /// and sorted by score. An empty query, or one longer than `i32::MAX`
    /// bytes, finds nothing.
    pub fn prefix_search(&self, query: &str, limit: usize) -> (r: Vec<RawSearchResult>)
        requires
            self.map_valid(),
        ensures
            ({
                let q = encode_utf8(normalized(query@));
                &&& (normalized(query@).len() == 0 || q.len() > i32::MAX) ==> r@.len() == 0
                &&& (normalized(query@).len() > 0 && q.len() <= i32::MAX) ==> exists|ms: Seq<(Seq<u8>, u64)>|
                    #[trigger] prefix_listing(self.names_map(), q, ms) && results_view(r@)
                        == sort_by_score(
                        gather(
                            short_keys(ms),
                            q.len() as int,
                            limit as int,
                            self.entry_bytes(),
                            self.name_bytes(),
                            Seq::empty(),
                        ),
                    )
            }),
    {
        let key = normalize_name(query);
        if key.as_str().unicode_len() == 0 {
            return Vec::new();
        }
        let kb = key.as_str().as_bytes();
        if kb.len() > 0x7fff_ffff {
            return Vec::new();
        }
        let listed = fst_prefix(&self.fst, key.as_str());
        let ghost all = matches_view(listed@);
        let mut ms: Vec<(Vec<u8>, u64)> = Vec::new();
        let mut i: usize = 0;
        while i < listed.len()
            invariant
                i <= listed@.len(),
                all == matches_view(listed@),
                matches_view(ms@) == short_keys(all.subrange(0, i as int)),
                forall|k: int| 0 <= k < ms@.len() ==> (#[trigger] ms@[k]).0@.len() <= i32::MAX,
            decreases listed@.len() - i,
        {
            let ghost before = ms@;
            proof {
                assert(all.subrange(0, i + 1).drop_last() =~= all.subrange(0, i as int));
                assert(all.subrange(0, i + 1).last() == all[i as int]);
            }
            if listed[i].0.len() <= 0x7fff_ffff {
                let k = vec_copy(&listed[i].0);
                ms.push((k, listed[i].1));
                proof {
                    assert(matches_view(ms@) =~= matches_view(before).push(all[i as int]));
                }
            }
            i = i + 1;
        }
        proof {
            assert(all.subrange(0, i as int) =~= all);
        }
        let r = collect_results(&ms, kb.len(), limit, self.entries.as_slice(), self.names.as_slice());
        proof {
            let q = encode_utf8(normalized(query@));
            assert(kb@ == q);
            assert(prefix_listing(self.names_map(), q, all));
        }
        r
    }

    /// The first place stored under exactly the normalized query, with
    /// score 0; nothing for an empty query.
    pub fn exact_search(&self, query: &str) -> (r: Option<RawSearchResult>)
        requires
            self.map_valid(),
        ensures
            ({
                let q = encode_utf8(normalized(query@));
                if normalized(query@).len() == 0 || !self.names_map().contains_key(q) {
                    r is None
                } else {
                    match readable(
                        self.entry_bytes(),
                        self.name_bytes(),
                        (self.names_map()[q] % 0x100_0000_0000) as int,
                    ) {
                        Some(p) => r matches Some(x) && (x.name@, x.record, x.score) == (
                            p.0,
                            p.1,
                            0u32,
                        ),
                        None => r is None,
                    }
                }
            }),
    {
        let key = normalize_name(query);
        if key.as_str().unicode_len() == 0 {
            return None;
        }
        let kb = key.as_str().as_bytes();
        match fst_get(&self.fst, kb) {
            Some(v) => exact_result(v, self.entries.as_slice(), self.names.as_slice()),
            None => None,
        }
    }
}

/// A copy of a byte vector.
fn vec_copy(v: &Vec<u8>) -> (r: Vec<u8>)
    ensures
        r@ == v@,
{
    let mut out: Vec<u8> = Vec::new();
    let mut i: usize = 0;
    while i < v.len()
        invariant
            i <= v@.len(),
            out@ == v@.subrange(0, i as int),
        decreases v@.len() - i,
    {
        out.push(v[i]);
        i = i + 1;
        assert(out@ =~= v@.subrange(0, i as int));
    }
    assert(v@.subrange(0, i as int) =~= v@);
    out
}

} // verus!
