//! Place search: name normalization, place categories, and the values
//! stored in the search index.
//!
//! The index maps each normalized name to one 64-bit value that packs the
//! number of places with that name (high 24 bits) and the id of the first
//! of them (low 40 bits).
use vstd::prelude::*;

use crate::text::{
    char_is_alphanumeric, char_lowercase_first, is_white_space, str_chars, string_from_chars, trim, trim_end,
    trim_range, trim_start, unicode_alphanumeric, unicode_lowercase_first,
};

pub use crate::routing::search_fst::SearchIndex;

verus! {

/// Category of a place for filtering search results.
#[derive(Debug, Clone, Copy, PartialEq, Eq, Structural)]
pub enum PlaceCategory {
    /// City, town, village
    Settlement,
    /// Street, road
    Street,
    /// POI (gas station, restaurant, etc.)
    Poi,
    /// Transport (airport, station, etc.)
    Transport,
    /// Natural feature (lake, mountain, etc.)
    Natural,
    /// Other/unknown
    Other,
}

/// The byte stored for each category.
pub open spec fn category_byte(c: PlaceCategory) -> u8 {
    match c {
        PlaceCategory::Settlement => 0,
        PlaceCategory::Street => 1,
        PlaceCategory::Poi => 2,
        PlaceCategory::Transport => 3,
        PlaceCategory::Natural => 4,
        PlaceCategory::Other => 255,
    }
}

/// The category a stored byte names: unknown bytes are `Other`.
pub open spec fn category_of_byte(v: u8) -> PlaceCategory {
    if v == 0 {
        PlaceCategory::Settlement
    } else if v == 1 {
        PlaceCategory::Street
    } else if v == 2 {
        PlaceCategory::Poi
    } else if v == 3 {
        PlaceCategory::Transport
    } else if v == 4 {
        PlaceCategory::Natural
    } else {
        PlaceCategory::Other
    }
}

impl PlaceCategory {
    pub fn from_u8(value: u8) -> (r: Self)
        ensures
            r == category_of_byte(value),
    {
        match value {
            0 => PlaceCategory::Settlement,
            1 => PlaceCategory::Street,
            2 => PlaceCategory::Poi,
            3 => PlaceCategory::Transport,
            4 => PlaceCategory::Natural,
            _ => PlaceCategory::Other,
        }
    }

    /// The byte stored for this category.
    pub fn to_u8(&self) -> (r: u8)
        ensures
            r == category_byte(*self),
    {
        match self {
            PlaceCategory::Settlement => 0,
            PlaceCategory::Street => 1,
            PlaceCategory::Poi => 2,
            PlaceCategory::Transport => 3,
            PlaceCategory::Natural => 4,
            PlaceCategory::Other => 255,
        }
    }
}

/// Reading back the stored byte of a category gives the category.
pub proof fn lemma_category_byte_roundtrip(c: PlaceCategory)
    ensures
        category_of_byte(category_byte(c)) == c,
{
}

/// The characters a name keeps before trimming: letters, digits and spaces,
/// each replaced by the first character of its lowercase form.
pub open spec fn name_chars(s: Seq<char>) -> Seq<char>
    decreases s.len(),
{
    if s.len() == 0 {
        Seq::empty()
    } else {
        let rest = name_chars(s.drop_last());
        let c = s.last();
        if unicode_alphanumeric(c) || c == ' ' {
            rest.push(unicode_lowercase_first(c))
        } else {
            rest
        }
    }
}

/// The normalized form of a name: its kept characters, lowercased, with
/// surrounding white space trimmed.
pub open spec fn normalized(s: Seq<char>) -> Seq<char> {
    trim(name_chars(s))
}

/// `x` is the lowercase form of a letter, digit or space of `s`.
pub open spec fn kept_from(s: Seq<char>, x: char) -> bool {
    exists|j: int|
        0 <= j < s.len() && (unicode_alphanumeric(s[j]) || s[j] == ' ') && x == unicode_lowercase_first(
            #[trigger] s[j],
        )
}

/// Trimming keeps only characters of the trimmed text.
proof fn lemma_trim_members(s: Seq<char>)
    ensures
        forall|x: char| #[trigger] trim_start(s).contains(x) ==> s.contains(x),
        forall|x: char| #[trigger] trim_end(s).contains(x) ==> s.contains(x),
    decreases s.len(),
{
    if s.len() > 0 {
        lemma_trim_members(s.drop_first());
        lemma_trim_members(s.drop_last());
        assert forall|x: char| #[trigger] trim_start(s).contains(x) implies s.contains(x) by {
            if is_white_space(s[0]) {
                assert(trim_start(s.drop_first()).contains(x));
                assert(s.drop_first().contains(x));
                let i = choose|i: int| 0 <= i < s.drop_first().len() && s.drop_first()[i] == x;
                assert(s[i + 1] == x);
            }
        }
        assert forall|x: char| #[trigger] trim_end(s).contains(x) implies s.contains(x) by {
            if is_white_space(s.last()) {
                assert(trim_end(s.drop_last()).contains(x));
                assert(s.drop_last().contains(x));
                let i = choose|i: int| 0 <= i < s.drop_last().len() && s.drop_last()[i] == x;
                assert(s[i] == x);
            }
        }
    }
}

/// Every kept character is the lowercase form of a letter, digit or space
/// of the name.
proof fn lemma_name_chars_members(s: Seq<char>)
    ensures
        forall|x: char|
            #[trigger] name_chars(s).contains(x) ==> exists|j: int|
                0 <= j < s.len() && (unicode_alphanumeric(s[j]) || s[j] == ' ') && x
                    == unicode_lowercase_first(#[trigger] s[j]),
    decreases s.len(),
{
    if s.len() > 0 {
        let d = s.drop_last();
        lemma_name_chars_members(d);
        assert forall|x: char| #[trigger] name_chars(s).contains(x) implies exists|j: int|
            0 <= j < s.len() && (unicode_alphanumeric(s[j]) || s[j] == ' ') && x
                == unicode_lowercase_first(#[trigger] s[j]) by {
            if name_chars(d).contains(x) {
                let j = choose|j: int|
                    0 <= j < d.len() && (unicode_alphanumeric(d[j]) || d[j] == ' ') && x
                        == unicode_lowercase_first(#[trigger] d[j]);
                assert(s[j] == d[j]);
            } else {
                let k = s.len() - 1;
                assert(s[k] == s.last());
            }
        }
    }
}

/// Every letter, digit and space of a name is kept, lowercased.
pub proof fn lemma_name_chars_keeps(s: Seq<char>)
    ensures
        forall|j: int|
            0 <= j < s.len() && (unicode_alphanumeric(s[j]) || s[j] == ' ') ==> name_chars(s).contains(
                unicode_lowercase_first(#[trigger] s[j]),
            ),
    decreases s.len(),
{
    if s.len() > 0 {
        let d = s.drop_last();
        lemma_name_chars_keeps(d);
        assert forall|j: int|
            0 <= j < s.len() && (unicode_alphanumeric(s[j]) || s[j] == ' ') implies name_chars(s).contains(
                unicode_lowercase_first(#[trigger] s[j]),
            ) by {
            let r = name_chars(d);
            if j < s.len() - 1 {
                assert(d[j] == s[j]);
                assert(r.contains(unicode_lowercase_first(d[j])));
                let k = choose|k: int| 0 <= k < r.len() && r[k] == unicode_lowercase_first(d[j]);
                if unicode_alphanumeric(s.last()) || s.last() == ' ' {
                    assert(name_chars(s)[k] == r[k]);
                }
            } else {
                assert(name_chars(s)[r.len() as int] == unicode_lowercase_first(s[j]));
            }
        }
    }
}

/// Characters other than letters, digits and spaces play no part in a
/// name's normalized form: dropping one leaves it unchanged.
pub proof fn lemma_normalized_ignores(s: Seq<char>, i: int)
    requires
        0 <= i < s.len(),
        !unicode_alphanumeric(s[i]),
        s[i] != ' ',
    ensures
        normalized(s.remove(i)) == normalized(s),
    decreases s.len(),
{
    lemma_name_chars_ignores(s, i);
}

proof fn lemma_name_chars_ignores(s: Seq<char>, i: int)
    requires
        0 <= i < s.len(),
        !unicode_alphanumeric(s[i]),
        s[i] != ' ',
    ensures
        name_chars(s.remove(i)) == name_chars(s),
    decreases s.len(),
{
    if i == s.len() - 1 {
        assert(s.remove(i) =~= s.drop_last());
    } else {
        let t = s.remove(i);
        assert(t.drop_last() =~= s.drop_last().remove(i));
        assert(t.last() == s.last());
        lemma_name_chars_ignores(s.drop_last(), i);
    }
}

/// Normalize a name for indexing/searching: keep letters, digits and
/// spaces, lowercase them, and trim.
pub fn normalize_name(name: &str) -> (r: String)
    ensures
        r@ == normalized(name@),
        forall|i: int| 0 <= i < r@.len() ==> kept_from(name@, #[trigger] r@[i]),
{
    proof {
        let k = name_chars(name@);
        lemma_name_chars_members(name@);
        lemma_trim_members(k);
        lemma_trim_members(trim_start(k));
        assert forall|x: char| #[trigger] normalized(name@).contains(x) implies kept_from(name@, x) by {
            assert(trim_start(k).contains(x));
            assert(k.contains(x));
        }
    }
    let chars = str_chars(name);
    let mut kept: Vec<char> = Vec::new();
    let mut i: usize = 0;
    while i < chars.len()
        invariant
            i <= chars@.len(),
            chars@ == name@,
            kept@ == name_chars(chars@.subrange(0, i as int)),
        decreases chars@.len() - i,
    {
        let c = chars[i];
        assert(chars@.subrange(0, i + 1).drop_last() =~= chars@.subrange(0, i as int));
        if char_is_alphanumeric(c) || c == ' ' {
            kept.push(char_lowercase_first(c));
        }
        i = i + 1;
    }
    assert(chars@.subrange(0, i as int) =~= chars@);
    assert(kept@.subrange(0, kept@.len() as int) =~= kept@);
    let (a, b) = trim_range(&kept, 0, kept.len());
    let mut out: Vec<char> = Vec::new();
    let mut j: usize = a;
    while j < b
        invariant
            a <= j <= b <= kept@.len(),
            out@ == kept@.subrange(a as int, j as int),
        decreases b - j,
    {
        out.push(kept[j]);
        j = j + 1;
    }
    let r = string_from_chars(&out);
    proof {
        assert forall|i: int| 0 <= i < r@.len() implies kept_from(name@, #[trigger] r@[i]) by {
            assert(normalized(name@).contains(r@[i]));
        }
    }
    r
}

/// Largest number of places one index value can count.
pub const MAX_PLACES_PER_NAME: u64 = 0xFF_FFFF;

/// Mask of the first-entry id in an index value.
pub const ENTRY_ID_MASK: u64 = 0xFF_FFFF_FFFF;

/// The index value for `count` places starting at `first_entry_id`: the
/// count (at most `MAX_PLACES_PER_NAME`) in the high 24 bits, the low 40
/// bits of the id below.
pub open spec fn index_value(count: u64, first_entry_id: u64) -> u64 {
    let c = if count > MAX_PLACES_PER_NAME {
        MAX_PLACES_PER_NAME
    } else {
        count
    };
    ((c << 40u64) | (first_entry_id & ENTRY_ID_MASK)) as u64
}

/// Pack a place count and a first-entry id into an index value.
pub fn encode_index_value(count: u64, first_entry_id: u64) -> (r: u64)
    ensures
        r == index_value(count, first_entry_id),
        r == (if count > MAX_PLACES_PER_NAME {
            MAX_PLACES_PER_NAME
        } else {
            count
        }) * 0x100_0000_0000 + first_entry_id % 0x100_0000_0000,
{
    let c = if count > MAX_PLACES_PER_NAME {
        MAX_PLACES_PER_NAME
    } else {
        count
    };
    let id = first_entry_id;
    let r = (c << 40u64) | (id & ENTRY_ID_MASK);
    assert(r == c * 0x100_0000_0000 + id % 0x100_0000_0000) by (bit_vector)
        requires
            c <= 0xFF_FFFF,
            r == (c << 40u64) | (id & 0xFF_FFFF_FFFF),
    ;
    r
}

/// Unpack an index value into (place count, first entry id).
pub fn decode_index_value(value: u64) -> (r: (u64, u64))
    ensures
        r.0 == value / 0x100_0000_0000,
        r.1 == value % 0x100_0000_0000,
        r.0 <= MAX_PLACES_PER_NAME,
{
    let count = (value >> 40u64) & MAX_PLACES_PER_NAME;
    let first = value & ENTRY_ID_MASK;
    assert(count == value / 0x100_0000_0000 && first == value % 0x100_0000_0000 && count
        <= 0xFF_FFFF) by (bit_vector)
        requires
            count == (value >> 40u64) & 0xFF_FFFF,
            first == value & 0xFF_FFFF_FFFF,
    ;
    (count, first)
}

/// Decoding an index value gives back the count (capped at
/// `MAX_PLACES_PER_NAME`) and the first entry id (below 2^40) it was made of.
pub proof fn lemma_index_value_roundtrip(count: u64, first_entry_id: u64)
    requires
        first_entry_id < 0x100_0000_0000,
    ensures
        ({
            let c = if count > MAX_PLACES_PER_NAME {
                MAX_PLACES_PER_NAME
            } else {
                count
            };
            let v = index_value(count, first_entry_id);
            &&& v / 0x100_0000_0000 == c
            &&& v % 0x100_0000_0000 == first_entry_id
        }),
{
    let c = if count > MAX_PLACES_PER_NAME {
        MAX_PLACES_PER_NAME
    } else {
        count
    };
    let id = first_entry_id;
    let v = index_value(count, first_entry_id);
    assert(v == (c << 40u64) | (id & 0xFF_FFFF_FFFF));
    assert(v / 0x100_0000_0000 == c && v % 0x100_0000_0000 == id) by (bit_vector)
        requires
            c <= 0xFF_FFFF,
            id < 0x100_0000_0000,
            v == (c << 40u64) | (id & 0xFF_FFFF_FFFF),
    ;
}

/// Match score of an index key against a normalized query: the difference
/// of their lengths in bytes (lower is better, 0 for an exact match).
pub open spec fn match_score(key_len: int, query_len: int) -> int {
    if key_len >= query_len {
        key_len - query_len
    } else {
        query_len - key_len
    }
}

/// Score of a key of `key_len` bytes for a query of `query_len` bytes.
pub fn score_for(key_len: usize, query_len: usize) -> (r: u32)
    requires
        key_len <= i32::MAX,
        query_len <= i32::MAX,
    ensures
        r == match_score(key_len as int, query_len as int),
{
    if key_len >= query_len {
        (key_len - query_len) as u32
    } else {
        (query_len - key_len) as u32
    }
}

} // verus!
