//! Character-level text handling: decimal integers, trimming, splitting,
//! and the character classes used when normalising place names.
use vstd::prelude::*;

verus! {

// ---------------------------------------------------------------------------
// Character classes
// ---------------------------------------------------------------------------

/// ASCII decimal digit.
pub open spec fn is_digit(c: char) -> bool {
    48 <= (c as u32) && (c as u32) <= 57
}

/// Value of an ASCII decimal digit.
pub open spec fn digit_value(c: char) -> int {
    (c as u32) - 48
}

/// The ASCII character of a decimal digit `d < 10`.
pub open spec fn digit_char(d: int) -> char {
    ((d + 48) as u32) as char
}

/// Unicode `White_Space` property, as used by `str::trim`.
pub open spec fn is_white_space(c: char) -> bool {
    let u = c as u32;
    (9 <= u && u <= 13) || u == 32 || u == 0x85 || u == 0xA0 || u == 0x1680 || (0x2000 <= u && u
        <= 0x200A) || u == 0x2028 || u == 0x2029 || u == 0x202F || u == 0x205F || u == 0x3000
}

/// Unicode `Alphabetic` or `Numeric` property of a character.
pub uninterp spec fn unicode_alphanumeric(c: char) -> bool;

/// First character of the Unicode lowercase mapping of a character.
pub uninterp spec fn unicode_lowercase_first(c: char) -> char;

/// Whether `c` has the Unicode `White_Space` property (what
/// `char::is_whitespace` tests).
pub(crate) fn char_is_whitespace(c: char) -> (r: bool)
    ensures
        r == is_white_space(c),
{
    let u = c as u32;
    (9 <= u && u <= 13) || u == 32 || u == 0x85 || u == 0xA0 || u == 0x1680 || (0x2000 <= u && u
        <= 0x200A) || u == 0x2028 || u == 0x2029 || u == 0x202F || u == 0x205F || u == 0x3000
}

/// Calls `char::is_alphanumeric` (Unicode `Alphabetic` or `Numeric`); the
/// contract only names the result, the Unicode tables are not restated.
#[verifier::external_body]
pub(crate) fn char_is_alphanumeric(c: char) -> (r: bool)
    ensures
        r == unicode_alphanumeric(c),
{
    c.is_alphanumeric()
}

/// Calls `char::to_lowercase` and takes the first character of the mapping
/// (the mapping is never empty); the contract names the result.
#[verifier::external_body]
pub(crate) fn char_lowercase_first(c: char) -> (r: char)
    ensures
        r == unicode_lowercase_first(c),
{
    c.to_lowercase().next().unwrap_or(c)
}

// ---------------------------------------------------------------------------
// Conversions between strings and character vectors
// ---------------------------------------------------------------------------

/// The characters of a string slice.
pub fn str_chars(s: &str) -> (r: Vec<char>)
    ensures
        r@ == s@,
{
    let n = s.unicode_len();
    let mut out: Vec<char> = Vec::new();
    let mut i: usize = 0;
    while i < n
        invariant
            n == s@.len(),
            i <= n,
            out@ == s@.subrange(0, i as int),
        decreases n - i,
    {
        let c = s.get_char(i);
        out.push(c);
        i = i + 1;
        assert(out@ =~= s@.subrange(0, i as int));
    }
    assert(out@ =~= s@);
    out
}

/// Appends the characters of a string slice.
pub fn push_chars(out: &mut Vec<char>, s: &str)
    ensures
        final(out)@ == old(out)@ + s@,
{
    let cs = str_chars(s);
    let mut i: usize = 0;
    while i < cs.len()
        invariant
            i <= cs@.len(),
            cs@ == s@,
            out@ == old(out)@ + s@.subrange(0, i as int),
        decreases cs@.len() - i,
    {
        out.push(cs[i]);
        i = i + 1;
        assert(out@ =~= old(out)@ + s@.subrange(0, i as int));
    }
    assert(s@.subrange(0, i as int) =~= s@);
}

/// Builds a `String` from its characters (`String::from_iter`).
#[verifier::external_body]
pub(crate) fn string_from_chars(v: &Vec<char>) -> (r: String)
    ensures
        r@ == v@,
{
    v.iter().collect()
}

/// Character-wise equality of two string slices.
pub fn str_eq(a: &str, b: &str) -> (r: bool)
    ensures
        r == (a@ == b@),
{
    let n = a.unicode_len();
    let m = b.unicode_len();
    if n != m {
        return false;
    }
    let mut i: usize = 0;
    while i < n
        invariant
            n == a@.len(),
            m == b@.len(),
            n == m,
            i <= n,
            forall|j: int| 0 <= j < i ==> a@[j] == b@[j],
        decreases n - i,
    {
        if a.get_char(i) != b.get_char(i) {
            return false;
        }
        i = i + 1;
    }
    assert(a@ =~= b@);
    true
}

// ---------------------------------------------------------------------------
// Decimal integers
// ---------------------------------------------------------------------------

/// Every character of `s` is an ASCII digit.
pub open spec fn all_digits(s: Seq<char>) -> bool {
    forall|i: int| 0 <= i < s.len() ==> is_digit(#[trigger] s[i])
}

/// The number written by a sequence of decimal digits.
pub open spec fn digits_value(s: Seq<char>) -> nat
    decreases s.len(),
{
    if s.len() == 0 {
        0
    } else {
        (digits_value(s.drop_last()) * 10 + digit_value(s.last())) as nat
    }
}

/// The integer that `str::parse` reads from `s`: an optional sign followed
/// by at least one decimal digit; anything else is rejected.
pub open spec fn parse_int_spec(s: Seq<char>) -> Option<int> {
    if s.len() == 0 {
        None
    } else {
        let neg = s[0] == '-';
        let body = if s[0] == '-' || s[0] == '+' {
            s.drop_first()
        } else {
            s
        };
        if body.len() == 0 || !all_digits(body) {
            None
        } else if neg {
            Some(-(digits_value(body) as int))
        } else {
            Some(digits_value(body) as int)
        }
    }
}

/// `str::parse::<i32>`: the parsed integer when it fits in an `i32`.
pub open spec fn parse_i32_spec(s: Seq<char>) -> Option<i32> {
    match parse_int_spec(s) {
        Some(v) => if i32::MIN <= v <= i32::MAX {
            Some(v as i32)
        } else {
            None
        },
        None => None,
    }
}

/// Decimal digits of a natural number, without leading zeros.
pub open spec fn nat_digits(n: nat) -> Seq<char>
    decreases n,
{
    if n < 10 {
        seq![digit_char(n as int)]
    } else {
        nat_digits(n / 10).push(digit_char((n % 10) as int))
    }
}

/// Decimal text of an integer, with a leading `-` when negative.
pub open spec fn int_decimal(v: int) -> Seq<char> {
    if v < 0 {
        seq!['-'] + nat_digits((-v) as nat)
    } else {
        nat_digits(v as nat)
    }
}

proof fn lemma_digit_char(d: int)
    requires
        0 <= d < 10,
    ensures
        is_digit(digit_char(d)),
        digit_value(digit_char(d)) == d,
        digit_char(d) != '-',
        digit_char(d) != '+',
        digit_char(d) != '_',
        digit_char(d) != ',',
        !is_white_space(digit_char(d)),
{
}

/// The digits of `n` are digits, start with a digit, and read back as `n`.
pub proof fn lemma_nat_digits(n: nat)
    ensures
        nat_digits(n).len() > 0,
        all_digits(nat_digits(n)),
        digits_value(nat_digits(n)) == n,
    decreases n,
{
    if n < 10 {
        lemma_digit_char(n as int);
        let s = nat_digits(n);
        assert(s.drop_last() =~= Seq::<char>::empty());
        assert(digits_value(Seq::<char>::empty()) == 0);
        assert(digits_value(s) == digits_value(s.drop_last()) * 10 + digit_value(s.last()));
    } else {
        lemma_nat_digits(n / 10);
        lemma_digit_char((n % 10) as int);
        let s = nat_digits(n);
        assert(s.drop_last() =~= nat_digits(n / 10));
        assert(s.last() == digit_char((n % 10) as int));
        assert(digits_value(s) == digits_value(s.drop_last()) * 10 + digit_value(s.last()));
        assert(all_digits(s)) by {
            assert forall|i: int| 0 <= i < s.len() implies is_digit(#[trigger] s[i]) by {
                if i < s.len() - 1 {
                    assert(s[i] == nat_digits(n / 10)[i]);
                }
            }
        }
    }
}

/// Reading back the decimal text of an `i32` gives the same `i32`.
pub proof fn lemma_decimal_roundtrip(v: i32)
    ensures
        parse_i32_spec(int_decimal(v as int)) == Some(v),
        int_decimal(v as int).len() > 0,
{
    if v < 0 {
        let n = (-(v as int)) as nat;
        lemma_nat_digits(n);
        let s = int_decimal(v as int);
        assert(s.drop_first() =~= nat_digits(n));
    } else {
        let n = v as nat;
        lemma_nat_digits(n);
        lemma_digit_char(0);
        let s = nat_digits(n);
        assert(is_digit(s[0]));
    }
}

/// No character of a decimal text is one of the separators used in tile
/// names and tile indices, nor white space.
pub proof fn lemma_decimal_chars(v: int)
    ensures
        forall|i: int|
            0 <= i < int_decimal(v).len() ==> #[trigger] int_decimal(v)[i] != '_'
                && int_decimal(v)[i] != ',' && !is_white_space(int_decimal(v)[i]),
{
    let n: nat = if v < 0 {
        (-v) as nat
    } else {
        v as nat
    };
    lemma_nat_digits(n);
    assert forall|i: int| 0 <= i < nat_digits(n).len() implies #[trigger] nat_digits(n)[i] != '_'
        && nat_digits(n)[i] != ',' && !is_white_space(nat_digits(n)[i]) by {
        assert(is_digit(nat_digits(n)[i]));
    }
    if v < 0 {
        assert forall|i: int| 0 <= i < int_decimal(v).len() implies #[trigger] int_decimal(v)[i]
            != '_' && int_decimal(v)[i] != ',' && !is_white_space(int_decimal(v)[i]) by {
            if i > 0 {
                assert(int_decimal(v)[i] == nat_digits(n)[i - 1]);
            }
        }
    }
}

proof fn lemma_digits_value_prefix(s: Seq<char>, k: int)
    requires
        all_digits(s),
        0 <= k <= s.len(),
    ensures
        digits_value(s.subrange(0, k)) <= digits_value(s),
    decreases s.len(),
{
    if k == s.len() {
        assert(s.subrange(0, k) =~= s);
    } else {
        let t = s.drop_last();
        assert(all_digits(t));
        lemma_digits_value_prefix(t, k);
        assert(t.subrange(0, k) =~= s.subrange(0, k));
    }
}

/// Parses `s[start..end]` as an `i32`, as `str::parse::<i32>` does.
pub fn parse_i32(s: &Vec<char>, start: usize, end: usize) -> (r: Option<i32>)
    requires
        start <= end <= s@.len(),
    ensures
        r == parse_i32_spec(s@.subrange(start as int, end as int)),
{
    let ghost t = s@.subrange(start as int, end as int);
    if start == end {
        return None;
    }
    let first = s[start];
    let neg = first == '-';
    let mut i = start;
    if first == '-' || first == '+' {
        i = i + 1;
    }
    let body_start = i;
    let ghost body = s@.subrange(body_start as int, end as int);
    assert(body =~= (if t[0] == '-' || t[0] == '+' {
        t.drop_first()
    } else {
        t
    }));
    if i == end {
        return None;
    }
    let mut acc: u64 = 0;
    while i < end
        invariant
            start <= body_start <= i <= end <= s@.len(),
            body == s@.subrange(body_start as int, end as int),
            all_digits(s@.subrange(body_start as int, i as int)),
            acc == digits_value(s@.subrange(body_start as int, i as int)),
            acc <= 2147483648,
            t == s@.subrange(start as int, end as int),
            t.len() > 0,
            body.len() > 0,
            neg == (t[0] == '-'),
            body == (if t[0] == '-' || t[0] == '+' {
                t.drop_first()
            } else {
                t
            }),
        decreases end - i,
    {
        let c = s[i];
        let cu = c as u32;
        if !(48 <= cu && cu <= 57) {
            assert(!is_digit(body[i - body_start]));
            return None;
        }
        let d = (cu - 48) as u64;
        let ghost pre = s@.subrange(body_start as int, i as int);
        let ghost next = s@.subrange(body_start as int, i + 1);
        assert(next.drop_last() =~= pre);
        acc = acc * 10 + d;
        assert(all_digits(next));
        if acc > 2147483648 {
            proof {
                if all_digits(body) {
                    assert(body.subrange(0, i + 1 - body_start) =~= next);
                    lemma_digits_value_prefix(body, i + 1 - body_start);
                }
            }
            return None;
        }
        i = i + 1;
    }
    assert(s@.subrange(body_start as int, i as int) =~= body);
    if neg {
        Some((0i64 - acc as i64) as i32)
    } else if acc <= 2147483647 {
        Some(acc as i32)
    } else {
        None
    }
}

/// The decimal digits of `n`.
fn nat_to_digits(n: u64) -> (r: Vec<char>)
    ensures
        r@ == nat_digits(n as nat),
{
    let mut out: Vec<char> = Vec::new();
    let mut m = n;
    assert(nat_digits(n as nat) =~= nat_digits(m as nat) + out@);
    loop
        invariant_except_break
            nat_digits(n as nat) == nat_digits(m as nat) + out@,
        ensures
            nat_digits(n as nat) == out@,
        decreases m,
    {
        let d = m % 10;
        let c = ((d as u32) + 48) as u8 as char;
        assert(c == digit_char(d as int));
        let ghost old_out = out@;
        out.insert(0, c);
        assert(out@ =~= seq![c] + old_out);
        if m < 10 {
            assert(nat_digits(m as nat) =~= seq![c]);
            break;
        }
        let ghost old_m = m;
        m = m / 10;
        assert(nat_digits(old_m as nat) =~= nat_digits(m as nat).push(c));
        assert(nat_digits(m as nat) + out@ =~= nat_digits(m as nat).push(c) + old_out);
    }
    out
}

/// Appends the decimal text of `v` to `out`.
pub fn push_decimal(out: &mut Vec<char>, v: i32)
    ensures
        final(out)@ == old(out)@ + int_decimal(v as int),
{
    let mag: u64 = if v < 0 {
        (0i64 - v as i64) as u64
    } else {
        v as u64
    };
    if v < 0 {
        out.push('-');
    }
    let digits = nat_to_digits(mag);
    let mut i: usize = 0;
    let ghost base = out@;
    while i < digits.len()
        invariant
            i <= digits@.len(),
            out@ == base + digits@.subrange(0, i as int),
        decreases digits@.len() - i,
    {
        out.push(digits[i]);
        i = i + 1;
        assert(out@ =~= base + digits@.subrange(0, i as int));
    }
    assert(digits@.subrange(0, i as int) =~= digits@);
    assert(out@ =~= old(out)@ + int_decimal(v as int));
}

// ---------------------------------------------------------------------------
// Splitting and trimming
// ---------------------------------------------------------------------------

/// Index of the first `c` in `s`, or `s.len()` when there is none.
pub open spec fn first_index_of(s: Seq<char>, c: char) -> int
    decreases s.len(),
{
    if s.len() == 0 {
        0
    } else if s[0] == c {
        0
    } else {
        1 + first_index_of(s.drop_first(), c)
    }
}

/// `first_index_of` is a position in `s` (or its end) before which `c`
/// does not occur.
pub proof fn lemma_first_index_of(s: Seq<char>, c: char)
    ensures
        0 <= first_index_of(s, c) <= s.len(),
        first_index_of(s, c) < s.len() ==> s[first_index_of(s, c)] == c,
        forall|j: int| 0 <= j < first_index_of(s, c) ==> s[j] != c,
    decreases s.len(),
{
    if s.len() > 0 && s[0] != c {
        lemma_first_index_of(s.drop_first(), c);
        assert forall|j: int| 0 <= j < first_index_of(s, c) implies s[j] != c by {
            if j > 0 {
                assert(s[j] == s.drop_first()[j - 1]);
            }
        }
    }
}

/// A sequence without `c`, followed by `c`, has its first `c` at its end.
pub proof fn lemma_first_index_of_concat(a: Seq<char>, c: char, b: Seq<char>)
    requires
        forall|j: int| 0 <= j < a.len() ==> a[j] != c,
    ensures
        first_index_of(a + seq![c] + b, c) == a.len(),
        first_index_of(a, c) == a.len(),
    decreases a.len(),
{
    if a.len() > 0 {
        lemma_first_index_of_concat(a.drop_first(), c, b);
        assert((a + seq![c] + b).drop_first() =~= a.drop_first() + seq![c] + b);
    } else {
        assert((a + seq![c] + b)[0] == c);
    }
}

/// Leading white space removed.
pub open spec fn trim_start(s: Seq<char>) -> Seq<char>
    decreases s.len(),
{
    if s.len() > 0 && is_white_space(s[0]) {
        trim_start(s.drop_first())
    } else {
        s
    }
}

/// Trailing white space removed.
pub open spec fn trim_end(s: Seq<char>) -> Seq<char>
    decreases s.len(),
{
    if s.len() > 0 && is_white_space(s.last()) {
        trim_end(s.drop_last())
    } else {
        s
    }
}

/// `str::trim`: leading and trailing white space removed.
pub open spec fn trim(s: Seq<char>) -> Seq<char> {
    trim_end(trim_start(s))
}

/// The position of the first character of `s[start..end]` that
/// `str::trim_start` keeps.
fn skip_white_space(s: &Vec<char>, start: usize, end: usize) -> (r: usize)
    requires
        start <= end <= s@.len(),
    ensures
        start <= r <= end,
        trim_start(s@.subrange(start as int, end as int)) == s@.subrange(r as int, end as int),
{
    let mut a = start;
    while a < end && char_is_whitespace(s[a])
        invariant
            start <= a <= end <= s@.len(),
            trim_start(s@.subrange(start as int, end as int)) == trim_start(
                s@.subrange(a as int, end as int),
            ),
        decreases end - a,
    {
        assert(s@.subrange(a as int, end as int).drop_first() =~= s@.subrange(a + 1, end as int));
        a = a + 1;
    }
    a
}

/// The end of `s[start..end]` after `str::trim_end`.
fn back_over_white_space(s: &Vec<char>, start: usize, end: usize) -> (r: usize)
    requires
        start <= end <= s@.len(),
    ensures
        start <= r <= end,
        trim_end(s@.subrange(start as int, end as int)) == s@.subrange(start as int, r as int),
{
    let mut b = end;
    while b > start && char_is_whitespace(s[b - 1])
        invariant
            start <= b <= end <= s@.len(),
            trim_end(s@.subrange(start as int, end as int)) == trim_end(
                s@.subrange(start as int, b as int),
            ),
        decreases b - start,
    {
        assert(s@.subrange(start as int, b as int).drop_last() =~= s@.subrange(
            start as int,
            b - 1,
        ));
        b = b - 1;
    }
    b
}

/// The bounds of `s[start..end]` after `str::trim`.
pub fn trim_range(s: &Vec<char>, start: usize, end: usize) -> (r: (usize, usize))
    requires
        start <= end <= s@.len(),
    ensures
        start <= r.0 <= r.1 <= end,
        trim(s@.subrange(start as int, end as int)) == s@.subrange(r.0 as int, r.1 as int),
{
    let a = skip_white_space(s, start, end);
    let b = back_over_white_space(s, a, end);
    (a, b)
}

/// A sequence that neither starts nor ends with white space is its own trim.
pub proof fn lemma_trim_no_white_space(s: Seq<char>)
    requires
        forall|i: int| 0 <= i < s.len() ==> !is_white_space(#[trigger] s[i]),
    ensures
        trim(s) == s,
{
}

/// The first index at or after `start` (and before `end`) holding `c`,
/// or `end`.
pub fn find_char(s: &Vec<char>, c: char, start: usize, end: usize) -> (r: usize)
    requires
        start <= end <= s@.len(),
    ensures
        r == start + first_index_of(s@.subrange(start as int, end as int), c),
        start <= r <= end,
{
    let mut i = start;
    proof {
        lemma_first_index_of(s@.subrange(start as int, end as int), c);
    }
    while i < end && s[i] != c
        invariant
            start <= i <= end <= s@.len(),
            first_index_of(s@.subrange(start as int, end as int), c) == (i - start)
                + first_index_of(s@.subrange(i as int, end as int), c),
        decreases end - i,
    {
        assert(s@.subrange(i as int, end as int).drop_first() =~= s@.subrange(i + 1, end as int));
        i = i + 1;
    }
    i
}

} // verus!
