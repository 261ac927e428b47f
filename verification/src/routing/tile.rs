//! Routing tile bookkeeping: which tiles exist at each level, how their files
//! are named, and how tile indices are read.
use vstd::prelude::*;

use crate::partition::{decode_tile_index, decoded_tile_index};
use crate::routing::types::{level_index, HierarchyLevel, TileError};
use crate::text::{
    find_char, first_index_of, int_decimal, is_digit, is_white_space, lemma_decimal_chars,
    lemma_decimal_roundtrip, lemma_first_index_of, lemma_first_index_of_concat, lemma_nat_digits,
    lemma_trim_no_white_space, nat_digits, parse_i32, parse_i32_spec, push_chars, push_decimal, str_chars,
    string_from_chars, trim, trim_range,
};
use crate::tiles::{tile_filename, tile_filename_chars};

verus! {

/// `str::split(',')` on tile coordinates `"x,y"`: the first two parts,
/// trimmed and parsed as `i32`; anything else is rejected.
pub open spec fn parse_tile_coords_spec(s: Seq<char>) -> Option<(i32, i32)> {
    let p = first_index_of(s, ',');
    match parse_i32_spec(trim(s.subrange(0, p))) {
        None => None,
        Some(x) => if p >= s.len() {
            None
        } else {
            let rest = s.subrange(p + 1, s.len() as int);
            let q = first_index_of(rest, ',');
            match parse_i32_spec(trim(rest.subrange(0, q))) {
                None => None,
                Some(y) => Some((x, y)),
            }
        },
    }
}

/// The file name `tile_{x}_{y}.bin` read back: strip the prefix and the
/// suffix, then parse the first two `_`-separated parts as `i32`.
pub open spec fn parse_tile_filename_spec(s: Seq<char>) -> Option<(i32, i32)> {
    if s.len() < 5 || s.subrange(0, 5) != seq!['t', 'i', 'l', 'e', '_'] {
        None
    } else if s.len() < 9 || s.subrange(s.len() - 4, s.len() as int) != seq!['.', 'b', 'i', 'n'] {
        None
    } else {
        let u = s.subrange(5, s.len() - 4);
        let p = first_index_of(u, '_');
        match parse_i32_spec(u.subrange(0, p)) {
            None => None,
            Some(x) => if p >= u.len() {
                None
            } else {
                let rest = u.subrange(p + 1, u.len() as int);
                let q = first_index_of(rest, '_');
                match parse_i32_spec(rest.subrange(0, q)) {
                    None => None,
                    Some(y) => Some((x, y)),
                }
            },
        }
    }
}

/// The index line of a tile: `x,y`.
pub open spec fn coords_line(x: i32, y: i32) -> Seq<char> {
    int_decimal(x as int) + seq![','] + int_decimal(y as int)
}

/// Parse tile coordinates from the `x,y` format.
pub fn parse_tile_coords(s: &str) -> (r: Option<(i32, i32)>)
    ensures
        r == parse_tile_coords_spec(s@),
{
    let cs = str_chars(s);
    assert(cs@.subrange(0, cs@.len() as int) =~= s@);
    parse_coords_range(&cs, 0, cs.len())
}

fn parse_coords_range(cs: &Vec<char>, start: usize, end: usize) -> (r: Option<(i32, i32)>)
    requires
        start <= end <= cs@.len(),
    ensures
        r == parse_tile_coords_spec(cs@.subrange(start as int, end as int)),
{
    let ghost s = cs@.subrange(start as int, end as int);
    let p = find_char(cs, ',', start, end);
    let (a, b) = trim_range(cs, start, p);
    assert(s.subrange(0, p - start) =~= cs@.subrange(start as int, p as int));
    let x = match parse_i32(cs, a, b) {
        Some(x) => x,
        None => {
            return None;
        },
    };
    if p == end {
        return None;
    }
    let ghost rest = s.subrange(p - start + 1, s.len() as int);
    assert(rest =~= cs@.subrange(p + 1, end as int));
    let q = find_char(cs, ',', p + 1, end);
    assert(rest.subrange(0, q - (p + 1)) =~= cs@.subrange(p + 1, q as int));
    let (c, d) = trim_range(cs, p + 1, q);
    match parse_i32(cs, c, d) {
        Some(y) => Some((x, y)),
        None => None,
    }
}

/// Parse tile coordinates from a file name `tile_{x}_{y}.bin`.
pub fn parse_tile_filename(name: &str) -> (r: Option<(i32, i32)>)
    ensures
        r == parse_tile_filename_spec(name@),
{
    let cs = str_chars(name);
    let len = cs.len();
    if len < 5 || !(cs[0] == 't' && cs[1] == 'i' && cs[2] == 'l' && cs[3] == 'e' && cs[4] == '_') {
        proof {
            if len >= 5 && cs@.subrange(0, 5) == seq!['t', 'i', 'l', 'e', '_'] {
                assert(cs@[0] == cs@.subrange(0, 5)[0]);
                assert(cs@[1] == cs@.subrange(0, 5)[1]);
                assert(cs@[2] == cs@.subrange(0, 5)[2]);
                assert(cs@[3] == cs@.subrange(0, 5)[3]);
                assert(cs@[4] == cs@.subrange(0, 5)[4]);
            }
        }
        return None;
    }
    assert(cs@.subrange(0, 5) =~= seq!['t', 'i', 'l', 'e', '_']);
    if len < 9 || !(cs[len - 4] == '.' && cs[len - 3] == 'b' && cs[len - 2] == 'i' && cs[len - 1]
        == 'n') {
        proof {
            if len >= 9 && cs@.subrange(len - 4, len as int) == seq!['.', 'b', 'i', 'n'] {
                assert(cs@[len - 4] == cs@.subrange(len - 4, len as int)[0]);
                assert(cs@[len - 3] == cs@.subrange(len - 4, len as int)[1]);
                assert(cs@[len - 2] == cs@.subrange(len - 4, len as int)[2]);
                assert(cs@[len - 1] == cs@.subrange(len - 4, len as int)[3]);
            }
        }
        return None;
    }
    assert(cs@.subrange(len - 4, len as int) =~= seq!['.', 'b', 'i', 'n']);
    let end = len - 4;
    let ghost u = cs@.subrange(5, end as int);
    let p = find_char(&cs, '_', 5, end);
    assert(u.subrange(0, p - 5) =~= cs@.subrange(5, p as int));
    let x = match parse_i32(&cs, 5, p) {
        Some(x) => x,
        None => {
            return None;
        },
    };
    if p == end {
        return None;
    }
    let ghost rest = u.subrange(p - 5 + 1, u.len() as int);
    assert(rest =~= cs@.subrange(p + 1, end as int));
    let q = find_char(&cs, '_', p + 1, end);
    assert(rest.subrange(0, q - (p + 1)) =~= cs@.subrange(p + 1, q as int));
    match parse_i32(&cs, p + 1, q) {
        Some(y) => Some((x, y)),
        None => None,
    }
}

/// Reading back the file name of a tile gives its coordinates.
pub proof fn lemma_tile_filename_roundtrip(x: i32, y: i32)
    ensures
        parse_tile_filename_spec(tile_filename_chars(x, y)) == Some((x, y)),
{
    let dx = int_decimal(x as int);
    let dy = int_decimal(y as int);
    let s = tile_filename_chars(x, y);
    lemma_decimal_chars(x as int);
    lemma_decimal_chars(y as int);
    lemma_decimal_roundtrip(x);
    lemma_decimal_roundtrip(y);
    assert(s.subrange(0, 5) =~= seq!['t', 'i', 'l', 'e', '_']);
    assert(s.subrange(s.len() - 4, s.len() as int) =~= seq!['.', 'b', 'i', 'n']);
    let u = s.subrange(5, s.len() - 4);
    assert(u =~= dx + seq!['_'] + dy);
    lemma_first_index_of_concat(dx, '_', dy);
    lemma_first_index_of_concat(dy, '_', Seq::empty());
    assert(u.subrange(0, dx.len() as int) =~= dx);
    let rest = u.subrange(dx.len() + 1int, u.len() as int);
    assert(rest =~= dy);
    assert(rest.subrange(0, dy.len() as int) =~= dy);
}

/// Reading back an index line `x,y` gives its coordinates.
pub proof fn lemma_coords_line_roundtrip(x: i32, y: i32)
    ensures
        parse_tile_coords_spec(coords_line(x, y)) == Some((x, y)),
{
    let dx = int_decimal(x as int);
    let dy = int_decimal(y as int);
    let s = coords_line(x, y);
    lemma_decimal_chars(x as int);
    lemma_decimal_chars(y as int);
    lemma_decimal_roundtrip(x);
    lemma_decimal_roundtrip(y);
    lemma_first_index_of_concat(dx, ',', dy);
    lemma_first_index_of_concat(dy, ',', Seq::empty());
    assert(s.subrange(0, dx.len() as int) =~= dx);
    lemma_trim_no_white_space(dx);
    let rest = s.subrange(dx.len() + 1int, s.len() as int);
    assert(rest =~= dy);
    assert(rest.subrange(0, dy.len() as int) =~= dy);
    lemma_trim_no_white_space(dy);
}

// ---------------------------------------------------------------------------
// Tile indices
// ---------------------------------------------------------------------------

/// `s[i..j]` is a whole line of `s` (lines end at `\n`).
pub open spec fn is_line(s: Seq<char>, i: int, j: int) -> bool {
    &&& 0 <= i <= j <= s.len()
    &&& (i == 0 || s[i - 1] == '\n')
    &&& (j == s.len() || s[j] == '\n')
    &&& forall|k: int| i <= k < j ==> s[k] != '\n'
}

/// The tile named by one line of an index file: blank lines and lines
/// starting with `#` name none.
pub open spec fn index_line_entry(line: Seq<char>) -> Option<(i32, i32)> {
    let t = trim(line);
    if t.len() == 0 || t[0] == '#' {
        None
    } else {
        parse_tile_coords_spec(t)
    }
}

/// The tile named by one line of a map tile index: `x,y` with exactly one
/// comma and no spaces; `ended` says whether a line break follows the line,
/// and a `\r` just before that line break is not part of the line.
pub open spec fn map_index_entry(line: Seq<char>, ended: bool) -> Option<(i32, i32)> {
    let l = if ended && line.len() > 0 && line.last() == '\r' {
        line.drop_last()
    } else {
        line
    };
    let k = first_index_of(l, ',');
    let rest = l.subrange(k + 1, l.len() as int);
    if k < l.len() && first_index_of(rest, ',') == rest.len() {
        match (parse_i32_spec(l.subrange(0, k)), parse_i32_spec(rest)) {
            (Some(x), Some(y)) => Some((x, y)),
            _ => None,
        }
    } else {
        None
    }
}

/// The tile named by a line, in the map index format or the routing one;
/// `ended` says whether a line break follows the line.
pub open spec fn line_entry(line: Seq<char>, map_format: bool, ended: bool) -> Option<(i32, i32)> {
    if map_format {
        map_index_entry(line, ended)
    } else {
        index_line_entry(line)
    }
}

/// The tile named by the line `s[i..j]`, in the given format.
pub open spec fn line_at(s: Seq<char>, i: int, j: int, map_format: bool) -> Option<(i32, i32)> {
    line_entry(s.subrange(i, j), map_format, j < s.len())
}

/// Some line of the index text names tile `c`, in the given format.
pub open spec fn index_names_in(s: Seq<char>, map_format: bool, c: (i32, i32)) -> bool {
    exists|i: int, j: int|
        is_line(s, i, j) && #[trigger] line_at(s, i, j, map_format) == Some(c)
}

/// Some line of the routing index text names tile `c`.
pub open spec fn index_names(s: Seq<char>, c: (i32, i32)) -> bool {
    index_names_in(s, false, c)
}

/// The tile named by the line `cs[start..end]` of a map tile index.
fn map_line_entry(cs: &Vec<char>, start: usize, end: usize, ended: bool) -> (r: Option<(i32, i32)>)
    requires
        start <= end <= cs@.len(),
    ensures
        r == map_index_entry(cs@.subrange(start as int, end as int), ended),
{
    let ghost line = cs@.subrange(start as int, end as int);
    let stop = if ended && end > start && cs[end - 1] == '\r' {
        end - 1
    } else {
        end
    };
    let ghost l = cs@.subrange(start as int, stop as int);
    assert(l == (if ended && line.len() > 0 && line.last() == '\r' {
        line.drop_last()
    } else {
        line
    }));
    let k = find_char(cs, ',', start, stop);
    if k == stop {
        return None;
    }
    let k2 = find_char(cs, ',', k + 1, stop);
    proof {
        assert(l.subrange(k - start + 1, l.len() as int) =~= cs@.subrange(k + 1, stop as int));
        assert(l.subrange(0, k - start) =~= cs@.subrange(start as int, k as int));
    }
    if k2 < stop {
        return None;
    }
    let x = match parse_i32(cs, start, k) {
        Some(x) => x,
        None => {
            return None;
        },
    };
    let y = match parse_i32(cs, k + 1, stop) {
        Some(y) => y,
        None => {
            return None;
        },
    };
    Some((x, y))
}

/// Adds `c` to a duplicate-free list unless it is already there.
fn insert_unique(v: &mut Vec<(i32, i32)>, c: (i32, i32))
    requires
        old(v)@.no_duplicates(),
    ensures
        final(v)@.no_duplicates(),
        forall|x: (i32, i32)| final(v)@.contains(x) <==> (old(v)@.contains(x) || x == c),
{
    let mut i: usize = 0;
    let mut found = false;
    while i < v.len()
        invariant
            v@ == old(v)@,
            i <= v@.len(),
            found ==> v@.contains(c),
            !found ==> forall|j: int| 0 <= j < i ==> v@[j] != c,
        ensures
            v@ == old(v)@,
            found ==> v@.contains(c),
            !found ==> forall|j: int| 0 <= j < v@.len() ==> v@[j] != c,
        decreases v@.len() - i,
    {
        if v[i].0 == c.0 && v[i].1 == c.1 {
            assert(v@[i as int] == c);
            found = true;
            break;
        }
        i = i + 1;
    }
    if found {
        return;
    }
    let ghost before = v@;
    assert(forall|j: int| 0 <= j < before.len() ==> before[j] != c);
    assert(before.no_duplicates());
    v.push(c);
    proof {
        assert forall|a: int, b: int|
            0 <= a < v@.len() && 0 <= b < v@.len() && a != b implies v@[a] != v@[b] by {
            if a < before.len() && b < before.len() {
                assert(v@[a] == before[a] && v@[b] == before[b]);
            } else if a < before.len() {
                assert(v@[a] == before[a]);
                assert(v@[b] == c);
            } else {
                assert(v@[a] == c);
                assert(v@[b] == before[b]);
            }
        }
        assert forall|x: (i32, i32)| v@.contains(x) <==> (old(v)@.contains(x) || x == c) by {
            if v@.contains(x) {
                let k = choose|k: int| 0 <= k < v@.len() && v@[k] == x;
                if k < old(v)@.len() {
                    assert(old(v)@[k] == x);
                }
            }
            if old(v)@.contains(x) {
                let k = choose|k: int| 0 <= k < old(v)@.len() && old(v)@[k] == x;
                assert(v@[k] == x);
            }
            if x == c {
                assert(v@[old(v)@.len() as int] == c);
            }
        }
    }
}

/// The tiles listed by an index file: one `x,y` per line; blank lines and
/// lines starting with `#` are skipped, unreadable lines are ignored.
pub fn parse_index_text(content: &str) -> (r: Vec<(i32, i32)>)
    ensures
        r@.no_duplicates(),
        forall|c: (i32, i32)| r@.contains(c) <==> index_names(content@, c),
{
    index_entries(content, false)
}

/// The tiles listed by a map tile index: one `x,y` per line, other lines
/// ignored.
pub fn parse_map_index(content: &str) -> (r: Vec<(i32, i32)>)
    ensures
        r@.no_duplicates(),
        forall|c: (i32, i32)| r@.contains(c) <==> index_names_in(content@, true, c),
{
    index_entries(content, true)
}

/// The distinct tiles named by the lines of an index text.
fn index_entries(content: &str, map_format: bool) -> (r: Vec<(i32, i32)>)
    ensures
        r@.no_duplicates(),
        forall|c: (i32, i32)| r@.contains(c) <==> index_names_in(content@, map_format, c),
{
    let cs = str_chars(content);
    let ghost s = cs@;
    let len = cs.len();
    let mut out: Vec<(i32, i32)> = Vec::new();
    let mut pos: usize = 0;
    loop
        invariant_except_break
            s == cs@,
            len == s.len(),
            pos <= len,
            pos == 0 || s[pos - 1] == '\n',
            out@.no_duplicates(),
            forall|c: (i32, i32)|
                out@.contains(c) <==> exists|i: int, j: int|
                    is_line(s, i, j) && i < pos && #[trigger] line_at(s, i, j, map_format)
                        == Some(c),
        ensures
            out@.no_duplicates(),
            forall|c: (i32, i32)| out@.contains(c) <==> index_names_in(s, map_format, c),
        decreases len - pos,
    {
        let e = find_char(&cs, '\n', pos, len);
        proof {
            lemma_first_index_of(s.subrange(pos as int, len as int), '\n');
            assert forall|k: int| pos <= k < e implies s[k] != '\n' by {
                assert(s[k] == s.subrange(pos as int, len as int)[k - pos]);
            }
            if e < len {
                assert(s[e as int] == s.subrange(pos as int, len as int)[e - pos]);
            }
            assert(is_line(s, pos as int, e as int));
        }
        let ghost entry = line_at(s, pos as int, e as int, map_format);
        let ghost old_out = out@;
        let mut got: Option<(i32, i32)> = None;
        if map_format {
            got = map_line_entry(&cs, pos, e, e < len);
        } else {
            let (a, b) = trim_range(&cs, pos, e);
            if a < b && cs[a] != '#' {
                got = parse_coords_range(&cs, a, b);
            }
            proof {
                let t = trim(s.subrange(pos as int, e as int));
                assert(t == s.subrange(a as int, b as int));
                if a < b {
                    assert(t[0] == s[a as int]);
                }
            }
        }
        assert(got == entry);
        if let Some(c) = got {
            insert_unique(&mut out, c);
        }
        proof {
            // lines starting before `pos` end before it; the line at `pos`
            // is the only one starting in `pos..=e`.
            assert forall|c: (i32, i32)|
                out@.contains(c) <==> exists|i: int, j: int|
                    is_line(s, i, j) && i < e + 1 && #[trigger] line_at(s, i, j, map_format)
                        == Some(c) by {
                if out@.contains(c) {
                    if old_out.contains(c) {
                    } else {
                        assert(got == Some(c));
                        assert(is_line(s, pos as int, e as int) && pos < e + 1
                            && line_at(s, pos as int, e as int, map_format) == Some(c));
                    }
                }
                if exists|i: int, j: int|
                    is_line(s, i, j) && i < e + 1 && #[trigger] line_at(s, i, j, map_format)
                        == Some(c) {
                    let (i, j) = choose|i: int, j: int|
                        is_line(s, i, j) && i < e + 1 && #[trigger] line_at(s, i, j, map_format) == Some(c);
                    if i < pos {
                        assert(old_out.contains(c));
                    } else {
                        // `i` is a line start in `pos..=e`, so it is `pos`.
                        if i > pos {
                            assert(s[i - 1] == '\n');
                            assert(false);
                        }
                        assert(i == pos);
                        if j < e {
                            assert(s[j] == '\n');
                            assert(false);
                        }
                        if j > e {
                            assert(s[e as int] == '\n');
                            assert(false);
                        }
                        assert(got == Some(c));
                    }
                }
            }
        }
        if e == len {
            proof {
                assert forall|c: (i32, i32)| out@.contains(c) <==> index_names_in(s, map_format, c) by {
                    if index_names_in(s, map_format, c) {
                        let (i, j) = choose|i: int, j: int|
                            is_line(s, i, j) && #[trigger] line_at(s, i, j, map_format)
                                == Some(c);
                        assert(i < e + 1);
                    }
                }
            }
            break;
        }
        pos = e + 1;
    }
    out
}

/// The text of an index listing `coords`: one `x,y` line each.
pub open spec fn index_text(coords: Seq<(i32, i32)>) -> Seq<char>
    decreases coords.len(),
{
    if coords.len() == 0 {
        Seq::empty()
    } else {
        index_text(coords.drop_last()) + coords_line(coords.last().0, coords.last().1) + seq!['\n']
    }
}

/// The index text listing `coords`.
pub fn write_index_text(coords: &Vec<(i32, i32)>) -> (r: String)
    ensures
        r@ == index_text(coords@),
{
    let mut v: Vec<char> = Vec::new();
    let mut k: usize = 0;
    while k < coords.len()
        invariant
            k <= coords@.len(),
            v@ == index_text(coords@.subrange(0, k as int)),
        decreases coords@.len() - k,
    {
        let (x, y) = coords[k];
        push_decimal(&mut v, x);
        v.push(',');
        push_decimal(&mut v, y);
        v.push('\n');
        proof {
            let p = coords@.subrange(0, k + 1);
            assert(p.drop_last() =~= coords@.subrange(0, k as int));
            assert(v@ =~= index_text(p));
        }
        k = k + 1;
    }
    assert(coords@.subrange(0, k as int) =~= coords@);
    string_from_chars(&v)
}

/// The line of a tile holds no line break, is not blank, and reads back
/// as the tile in both index formats.
proof fn lemma_coords_line(x: i32, y: i32)
    ensures
        coords_line(x, y).len() > 0,
        forall|i: int| 0 <= i < coords_line(x, y).len() ==> #[trigger] coords_line(x, y)[i] != '\n',
        forall|map_format: bool, ended: bool|
            #[trigger] line_entry(coords_line(x, y), map_format, ended) == Some((x, y)),
{
    let dx = int_decimal(x as int);
    let dy = int_decimal(y as int);
    let s = coords_line(x, y);
    lemma_decimal_chars(x as int);
    lemma_decimal_chars(y as int);
    lemma_decimal_roundtrip(x);
    lemma_decimal_roundtrip(y);
    lemma_coords_line_roundtrip(x, y);
    assert forall|i: int| 0 <= i < s.len() implies #[trigger] s[i] != '\n' by {
        if i < dx.len() {
            assert(s[i] == dx[i]);
        } else if i > dx.len() {
            assert(s[i] == dy[i - dx.len() - 1]);
        }
    }
    // Not blank, no `#` in front: the first character is a digit or `-`.
    assert forall|i: int| 0 <= i < s.len() implies !is_white_space(#[trigger] s[i]) by {
        if i < dx.len() {
            assert(s[i] == dx[i]);
        } else if i > dx.len() {
            assert(s[i] == dy[i - dx.len() - 1]);
        }
    }
    lemma_trim_no_white_space(s);
    lemma_decimal_first(x as int);
    assert(s[0] == dx[0]);
    // The map format: one comma, no `\r` at the end.
    assert(s.last() == dy.last());
    assert(s.last() != '\r');
    lemma_first_index_of_concat(dx, ',', dy);
    lemma_first_index_of_concat(dy, ',', Seq::empty());
    assert(s.subrange(0, dx.len() as int) =~= dx);
    assert(s.subrange(dx.len() + 1int, s.len() as int) =~= dy);
    assert(dy + Seq::<char>::empty() =~= dy);
}

/// Lines of an index text ending before `s.len()` keep their place when
/// more is written after `s`, which ends with a line break.
proof fn lemma_line_extends(s: Seq<char>, t: Seq<char>, i: int, j: int)
    requires
        is_line(s, i, j),
        j < s.len(),
    ensures
        is_line(s + t, i, j),
        (s + t).subrange(i, j) == s.subrange(i, j),
{
    assert((s + t).subrange(i, j) =~= s.subrange(i, j));
}

/// The tile `f` reads from the line `s[i..j]`.
spec fn f_at(f: spec_fn(Seq<char>, bool) -> Option<(i32, i32)>, s: Seq<char>, i: int, j: int) -> Option<(i32, i32)> {
    f(s.subrange(i, j), j < s.len())
}

/// Some line of `s` names tile `c` by `f`.
spec fn names_with(s: Seq<char>, f: spec_fn(Seq<char>, bool) -> Option<(i32, i32)>, c: (i32, i32)) -> bool {
    exists|i: int, j: int| is_line(s, i, j) && #[trigger] f_at(f, s, i, j) == Some(c)
}

/// The lines of `t + l + "\n"`, where `t` is empty or ends a line and `l`
/// holds no line break: the lines of `t` ending before its end, `l`, and
/// the empty line at the end.
proof fn lemma_lines_after_append(t: Seq<char>, l: Seq<char>, i: int, j: int)
    requires
        t.len() == 0 || t.last() == '\n',
        l.len() > 0,
        forall|k: int| 0 <= k < l.len() ==> #[trigger] l[k] != '\n',
        is_line(t + l + seq!['\n'], i, j),
    ensures
        ({
            let s = t + l + seq!['\n'];
            let a = t.len() as int;
            let b = a + l.len();
            ||| (j < a && is_line(t, i, j) && s.subrange(i, j) == t.subrange(i, j))
            ||| (i == a && j == b && s.subrange(i, j) == l)
            ||| (i == s.len() && j == s.len())
        }),
{
    let s = t + l + seq!['\n'];
    let a = t.len() as int;
    let b = a + l.len();
    assert(s[b] == '\n');
    if j < a {
        assert(s.subrange(i, j) =~= t.subrange(i, j));
        assert forall|k: int| i <= k < j implies t[k] != '\n' by {
            assert(s[k] == t[k]);
        }
        assert(t[j] == s[j]);
        if i > 0 {
            assert(t[i - 1] == s[i - 1]);
        }
    } else if i > b {
        assert(s[i - 1] == '\n');
        if i - 1 < b {
            assert(s[i - 1] == l[i - 1 - a]);
        }
    } else {
        if i < a {
            assert(s[a - 1] == t[a - 1]);
        }
        if i > a {
            assert(s[i - 1] == l[i - 1 - a]);
        }
        if j < b {
            assert(s[j] == l[j - a]);
        }
        assert(s.subrange(i, j) =~= l);
    }
}

/// The tiles named by the lines of an index text, when every tile line
/// reads back as its tile and an empty line names none.
proof fn lemma_text_names(coords: Seq<(i32, i32)>, f: spec_fn(Seq<char>, bool) -> Option<(i32, i32)>, c: (i32, i32))
    requires
        forall|ended: bool| #[trigger] f(Seq::empty(), ended) is None,
        forall|x: i32, y: i32, ended: bool| #[trigger] f(coords_line(x, y), ended) == Some((x, y)),
    ensures
        names_with(index_text(coords), f, c) <==> coords.contains(c),
    decreases coords.len(),
{
    let s = index_text(coords);
    if coords.len() == 0 {
        if names_with(s, f, c) {
            let (i, j) = choose|i: int, j: int| is_line(s, i, j) && #[trigger] f_at(f, s, i, j) == Some(c);
            assert(s.subrange(i, j) =~= Seq::<char>::empty());
        }
    } else {
        let p = coords.drop_last();
        let (x, y) = coords.last();
        let t = index_text(p);
        let l = coords_line(x, y);
        lemma_text_names(p, f, c);
        lemma_coords_line(x, y);
        assert(s == t + l + seq!['\n']);
        let a = t.len() as int;
        let b = a + l.len();
        if names_with(s, f, c) {
            let (i, j) = choose|i: int, j: int| is_line(s, i, j) && #[trigger] f_at(f, s, i, j) == Some(c);
            lemma_lines_after_append(t, l, i, j);
            if j < a {
                assert(f_at(f, t, i, j) == f_at(f, s, i, j));
                assert(names_with(t, f, c));
                let k = choose|k: int| 0 <= k < p.len() && p[k] == c;
                assert(coords[k] == c);
            } else if i == a && j == b {
                assert(coords[coords.len() - 1] == c);
            } else {
                assert(s.subrange(i, j) =~= Seq::<char>::empty());
            }
        }
        if coords.contains(c) {
            if c == (x, y) {
                assert(s.subrange(a, b) =~= l);
                assert forall|k: int| a <= k < b implies s[k] != '\n' by {
                    assert(s[k] == l[k - a]);
                }
                if a > 0 {
                    assert(s[a - 1] == t[a - 1]);
                }
                assert(s[b] == '\n');
                assert(is_line(s, a, b));
                assert(f_at(f, s, a, b) == Some(c));
            } else {
                let k = choose|k: int| 0 <= k < coords.len() && coords[k] == c;
                assert(p[k] == c);
                let (i, j) = choose|i: int, j: int| is_line(t, i, j) && #[trigger] f_at(f, t, i, j) == Some(c);
                if j == a {
                    if i < j {
                        assert(t[a - 1] == '\n');
                    }
                    assert(t.subrange(i, j) =~= Seq::<char>::empty());
                }
                lemma_line_extends(t, l + seq!['\n'], i, j);
                assert(t + (l + seq!['\n']) =~= s);
                assert(f_at(f, s, i, j) == Some(c));
            }
        }
    }
}

/// Reading an index text back gives the tiles it lists: the tiles named by
/// its lines are exactly the listed ones, in either index format.
pub proof fn lemma_index_text_roundtrip(coords: Seq<(i32, i32)>, map_format: bool, c: (i32, i32))
    ensures
        index_names_in(index_text(coords), map_format, c) <==> coords.contains(c),
{
    let f = |line: Seq<char>, ended: bool| line_entry(line, map_format, ended);
    assert forall|ended: bool| #[trigger] f(Seq::empty(), ended) is None by {
        lemma_empty_line_entry(map_format, ended);
    }
    assert forall|x: i32, y: i32, ended: bool| #[trigger] f(coords_line(x, y), ended) == Some((x, y)) by {
        lemma_coords_line(x, y);
        assert(line_entry(coords_line(x, y), map_format, ended) == Some((x, y)));
    }
    lemma_text_names(coords, f, c);
    let s = index_text(coords);
    if index_names_in(s, map_format, c) {
        let (i, j) = choose|i: int, j: int|
            is_line(s, i, j) && #[trigger] line_at(s, i, j, map_format) == Some(c);
        assert(f_at(f, s, i, j) == Some(c));
    }
    if names_with(s, f, c) {
        let (i, j) = choose|i: int, j: int| is_line(s, i, j) && #[trigger] f_at(f, s, i, j) == Some(c);
        assert(line_at(s, i, j, map_format) == Some(c));
    }
}

/// A decimal text is not empty and does not start with `#`.
proof fn lemma_decimal_first(v: int)
    ensures
        int_decimal(v).len() > 0,
        int_decimal(v)[0] != '#',
{
    let n: nat = if v < 0 {
        (-v) as nat
    } else {
        v as nat
    };
    lemma_nat_digits(n);
    if v >= 0 {
        assert(is_digit(nat_digits(n)[0]));
    }
}

/// A blank line names no tile.
proof fn lemma_empty_line_entry(map_format: bool, ended: bool)
    ensures
        line_entry(Seq::<char>::empty(), map_format, ended) is None,
{
    let e = Seq::<char>::empty();
    assert(trim(e) =~= e) by {
        lemma_trim_no_white_space(e);
    }
    assert(first_index_of(e, ',') == 0);
}


/// The tiles named by the `tile_{x}_{y}.bin` files among `names`.
pub fn tile_coords_from_names(names: &Vec<String>) -> (r: Vec<(i32, i32)>)
    ensures
        r@.no_duplicates(),
        forall|c: (i32, i32)|
            r@.contains(c) <==> exists|k: int|
                0 <= k < names@.len() && #[trigger] parse_tile_filename_spec(names@[k]@) == Some(c),
{
    let mut out: Vec<(i32, i32)> = Vec::new();
    let mut k: usize = 0;
    while k < names.len()
        invariant
            k <= names@.len(),
            out@.no_duplicates(),
            forall|c: (i32, i32)|
                out@.contains(c) <==> exists|q: int|
                    0 <= q < k && #[trigger] parse_tile_filename_spec(names@[q]@) == Some(c),
        decreases names@.len() - k,
    {
        let got = parse_tile_filename(names[k].as_str());
        let ghost old_out = out@;
        if let Some(c) = got {
            insert_unique(&mut out, c);
        }
        proof {
            assert forall|c: (i32, i32)|
                out@.contains(c) <==> exists|q: int|
                    0 <= q < k + 1 && #[trigger] parse_tile_filename_spec(names@[q]@) == Some(c) by {
                if out@.contains(c) && !old_out.contains(c) {
                    assert(parse_tile_filename_spec(names@[k as int]@) == Some(c));
                }
                if exists|q: int|
                    0 <= q < k + 1 && #[trigger] parse_tile_filename_spec(names@[q]@) == Some(c) {
                    let q = choose|q: int|
                        0 <= q < k + 1 && #[trigger] parse_tile_filename_spec(names@[q]@) == Some(
                            c,
                        );
                    if q < k {
                        assert(old_out.contains(c));
                    }
                }
            }
        }
        k = k + 1;
    }
    out
}

/// The tiles an `index.bin` lists, when it is present and readable.
pub open spec fn bin_tiles(index_bin: Option<Vec<u8>>) -> Option<Seq<(i32, i32)>> {
    match index_bin {
        Some(b) => decoded_tile_index(b@),
        None => None,
    }
}

/// The tiles of a level: those its `index.bin` lists when that file is
/// present and readable; else those its `index.txt` lists when present;
/// else those named by its `tile_{x}_{y}.bin` files.
pub fn level_tiles(index_bin: Option<Vec<u8>>, index_txt: Option<String>, names: &Vec<String>) -> (r: Vec<
    (i32, i32),
>)
    ensures
        bin_tiles(index_bin) is Some ==> r@ == bin_tiles(index_bin).unwrap(),
        bin_tiles(index_bin) is None ==> (index_txt matches Some(t) ==> forall|c: (i32, i32)|
            r@.contains(c) <==> index_names(t@, c)),
        bin_tiles(index_bin) is None && index_txt is None ==> forall|c: (i32, i32)|
            r@.contains(c) <==> exists|k: int|
                0 <= k < names@.len() && #[trigger] parse_tile_filename_spec(names@[k]@) == Some(c),
{
    if let Some(b) = &index_bin {
        if let Some(v) = decode_tile_index(b.as_slice()) {
            return v;
        }
    }
    match &index_txt {
        Some(t) => parse_index_text(t.as_str()),
        None => tile_coords_from_names(names),
    }
}

/// Name of the directory holding the tiles of a level.
pub open spec fn level_dir_name(level: HierarchyLevel) -> Seq<char> {
    match level {
        HierarchyLevel::Highway => "level0"@,
        HierarchyLevel::Arterial => "level1"@,
        HierarchyLevel::Local => "level2"@,
    }
}

/// Errors from tile loading operations.
#[derive(Debug, Clone)]
pub enum TileLoaderError {
    /// The routing directory does not exist.
    DirectoryNotFound(String),
    /// The requested tile file does not exist.
    FileNotFound(String),
    /// Reading from the filesystem failed.
    IoError(String),
    /// A tile could not be decoded.
    TileError(TileError),
}

/// Knows which routing tiles exist at each hierarchy level of a tile
/// directory (`base_dir/routing/level{0,1,2}/tile_{x}_{y}.bin`).
pub struct TileLoader {
    base_dir: String,
    highway: Vec<(i32, i32)>,
    arterial: Vec<(i32, i32)>,
    local: Vec<(i32, i32)>,
}

impl TileLoader {
    /// The list of available tiles of a level.
    pub closed spec fn level_list(&self, level: HierarchyLevel) -> Seq<(i32, i32)> {
        match level {
            HierarchyLevel::Highway => self.highway@,
            HierarchyLevel::Arterial => self.arterial@,
            HierarchyLevel::Local => self.local@,
        }
    }

    /// The tiles available at a level.
    pub open spec fn available(&self, level: HierarchyLevel) -> Set<(i32, i32)> {
        self.level_list(level).to_set()
    }

    /// The available-tile lists hold no duplicates.
    pub closed spec fn wf(&self) -> bool {
        &&& self.highway@.no_duplicates()
        &&& self.arterial@.no_duplicates()
        &&& self.local@.no_duplicates()
    }

    /// The tile directory.
    pub closed spec fn base(&self) -> Seq<char> {
        self.base_dir@
    }

    /// A loader for `base_dir` that knows of no tile yet.
    pub fn new(base_dir: String) -> (r: Self)
        ensures
            r.wf(),
            r.base() == base_dir@,
            forall|l: HierarchyLevel| r.available(l) == Set::<(i32, i32)>::empty(),
    {
        let r = TileLoader {
            base_dir,
            highway: Vec::new(),
            arterial: Vec::new(),
            local: Vec::new(),
        };
        assert forall|l: HierarchyLevel| r.available(l) == Set::<(i32, i32)>::empty() by {
            assert(r.available(l) =~= Set::<(i32, i32)>::empty());
        }
        r
    }

    /// The tile directory.
    pub fn base_dir(&self) -> (r: &str)
        ensures
            r@ == self.base(),
    {
        self.base_dir.as_str()
    }

    /// Name of the directory holding the tiles of a level.
    pub fn level_dir_name(level: HierarchyLevel) -> (r: &'static str)
        ensures
            r@ == level_dir_name(level),
    {
        match level {
            HierarchyLevel::Highway => "level0",
            HierarchyLevel::Arterial => "level1",
            HierarchyLevel::Local => "level2",
        }
    }

    /// Directory of the tiles of a level: `{base}/routing/level{n}`.
    pub fn level_dir(&self, level: HierarchyLevel) -> (r: String)
        ensures
            r@ == self.base() + "/routing/"@ + level_dir_name(level),
    {
        let mut v = str_chars(self.base_dir.as_str());
        push_chars(&mut v, "/routing/");
        push_chars(&mut v, Self::level_dir_name(level));
        string_from_chars(&v)
    }

    /// File of a tile: `{base}/routing/level{n}/tile_{x}_{y}.bin`.
    pub fn tile_path(&self, level: HierarchyLevel, tile_x: i32, tile_y: i32) -> (r: String)
        ensures
            r@ == self.base() + "/routing/"@ + level_dir_name(level) + "/"@ + tile_filename_chars(
                tile_x,
                tile_y,
            ),
    {
        let dir = self.level_dir(level);
        let mut v = str_chars(dir.as_str());
        push_chars(&mut v, "/");
        push_chars(&mut v, tile_filename(tile_x, tile_y).as_str());
        string_from_chars(&v)
    }

    /// Records tiles as available at a level.
    pub fn add_available(&mut self, level: HierarchyLevel, coords: &Vec<(i32, i32)>)
        requires
            old(self).wf(),
        ensures
            final(self).wf(),
            final(self).base() == old(self).base(),
            final(self).available(level) == old(self).available(level) + coords@.to_set(),
            forall|l: HierarchyLevel| l != level ==> final(self).available(l) == old(self).available(l),
    {
        let ghost before = self.level_list(level);
        let mut list: Vec<(i32, i32)> = Vec::new();
        match level {
            HierarchyLevel::Highway => core::mem::swap(&mut list, &mut self.highway),
            HierarchyLevel::Arterial => core::mem::swap(&mut list, &mut self.arterial),
            HierarchyLevel::Local => core::mem::swap(&mut list, &mut self.local),
        }
        assert(list@ == before);
        let mut i: usize = 0;
        while i < coords.len()
            invariant
                i <= coords@.len(),
                list@.no_duplicates(),
                forall|x: (i32, i32)|
                    #![trigger list@.contains(x)]
                    list@.contains(x) <==> (before.contains(x) || coords@.subrange(0, i as int).contains(x)),
            decreases coords@.len() - i,
        {
            let ghost prev = list@;
            insert_unique(&mut list, coords[i]);
            proof {
                assert forall|x: (i32, i32)|
                    list@.contains(x) <==> (before.contains(x) || coords@.subrange(0, i + 1).contains(x)) by {
                    assert(list@.contains(x) <==> (prev.contains(x) || x == coords@[i as int]));
                    assert(prev.contains(x) <==> (before.contains(x) || coords@.subrange(0, i as int).contains(x)));
                    if coords@.subrange(0, i + 1).contains(x) {
                        let k = choose|k: int| 0 <= k < i + 1 && #[trigger] coords@.subrange(0, i + 1)[k] == x;
                        if k < i {
                            assert(coords@.subrange(0, i as int)[k] == x);
                        }
                    }
                    if coords@.subrange(0, i as int).contains(x) {
                        let k = choose|k: int| 0 <= k < i && #[trigger] coords@.subrange(0, i as int)[k] == x;
                        assert(coords@.subrange(0, i + 1)[k] == x);
                    }
                    if x == coords@[i as int] {
                        assert(coords@.subrange(0, i + 1)[i as int] == x);
                    }
                }
            }
            i = i + 1;
        }
        assert(coords@.subrange(0, i as int) =~= coords@);
        match level {
            HierarchyLevel::Highway => {
                self.highway = list;
            },
            HierarchyLevel::Arterial => {
                self.arterial = list;
            },
            HierarchyLevel::Local => {
                self.local = list;
            },
        }
        assert(self.level_list(level) == list@);
        assert forall|x: (i32, i32)| self.available(level).contains(x) <==> (old(self).available(level) + coords@.to_set()).contains(x) by {
            assert(list@.contains(x) <==> (before.contains(x) || coords@.contains(x)));
        }
        assert(self.available(level) =~= old(self).available(level) + coords@.to_set());
    }

    /// Check whether a tile is available.
    pub fn has_tile(&self, level: HierarchyLevel, tile_x: i32, tile_y: i32) -> (r: bool)
        ensures
            r == self.available(level).contains((tile_x, tile_y)),
    {
        let list = self.available_tiles(level);
        let mut i: usize = 0;
        while i < list.len()
            invariant
                i <= list@.len(),
                list@ == self.level_list(level),
                forall|j: int| 0 <= j < i ==> list@[j] != (tile_x, tile_y),
            decreases list@.len() - i,
        {
            if list[i].0 == tile_x && list[i].1 == tile_y {
                assert(list@[i as int] == (tile_x, tile_y));
                return true;
            }
            i = i + 1;
        }
        false
    }

    /// All available tiles of a level, each listed once.
    pub fn available_tiles(&self, level: HierarchyLevel) -> (r: &Vec<(i32, i32)>)
        ensures
            r@ == self.level_list(level),
            r@.to_set() == self.available(level),
            self.wf() ==> r@.no_duplicates(),
    {
        match level {
            HierarchyLevel::Highway => &self.highway,
            HierarchyLevel::Arterial => &self.arterial,
            HierarchyLevel::Local => &self.local,
        }
    }
}

} // verus!
