//! The text of option values: unsigned numbers, decimal numbers taken to a
//! fixed number of places, flags, and comma-separated lists.

use vstd::prelude::*;

verus! {

/// An ASCII digit.
pub open spec fn is_digit(b: u8) -> bool {
    48 <= b <= 57
}

/// ASCII white space.
pub open spec fn is_space(b: u8) -> bool {
    b == 32 || (9 <= b <= 13)
}

/// Every byte is a digit.
pub open spec fn all_digits(s: Seq<u8>) -> bool {
    forall|i: int| 0 <= i < s.len() ==> is_digit(#[trigger] s[i])
}

/// The number that the digits spell.
pub open spec fn digits_value(s: Seq<u8>) -> nat
    decreases s.len(),
{
    if s.len() == 0 {
        0
    } else {
        digits_value(s.drop_last()) * 10 + (s.last() - 48) as nat
    }
}

/// First position at or after `i` that does not hold white space.
pub open spec fn skip_spaces(s: Seq<u8>, i: int) -> int
    decreases s.len() - i,
{
    if i >= s.len() || !is_space(s[i]) {
        i
    } else {
        skip_spaces(s, i + 1)
    }
}

/// One past the last position before `j` that does not hold white space, and at least `lo`.
pub open spec fn back_spaces(s: Seq<u8>, lo: int, j: int) -> int
    decreases j,
{
    if j <= lo || j <= 0 || !is_space(s[j - 1]) {
        j
    } else {
        back_spaces(s, lo, j - 1)
    }
}

/// The text without white space at its ends.
pub open spec fn trimmed(s: Seq<u8>) -> Seq<u8> {
    let a = skip_spaces(s, 0);
    let a = if a > s.len() { s.len() as int } else { a };
    s.subrange(a, back_spaces(s, a, s.len() as int))
}

/// The bounds of the text without white space at its ends.
pub fn trim(bytes: &[u8]) -> (r: (usize, usize))
    ensures
        r.0 <= r.1 <= bytes@.len(),
        bytes@.subrange(r.0 as int, r.1 as int) == trimmed(bytes@),
{
    let len: usize = bytes.len();
    let mut a: usize = 0;
    while a < len && (bytes[a] == 32 || (9 <= bytes[a] && bytes[a] <= 13))
        invariant
            a <= len,
            len == bytes@.len(),
            skip_spaces(bytes@, a as int) == skip_spaces(bytes@, 0),
        decreases len - a,
    {
        a += 1;
    }
    let mut b: usize = len;
    while b > a && (bytes[b - 1] == 32 || (9 <= bytes[b - 1] && bytes[b - 1] <= 13))
        invariant
            a <= b <= len,
            len == bytes@.len(),
            back_spaces(bytes@, a as int, b as int) == back_spaces(bytes@, a as int, len as int),
        decreases b,
    {
        b -= 1;
    }
    (a, b)
}

/// The number that the text spells: digits alone, after an optional `+`,
/// white space at the ends aside; `None` for any other text and for a
/// number beyond 32 bits.
pub open spec fn parsed_u32(s: Seq<u8>) -> Option<u32> {
    let t = unsigned_part(trimmed(s));
    if t.len() > 0 && all_digits(t) && digits_value(t) <= u32::MAX {
        Some(digits_value(t) as u32)
    } else {
        None
    }
}

/// The text without a leading `+`.
pub open spec fn unsigned_part(t: Seq<u8>) -> Seq<u8> {
    if t.len() > 0 && t[0] == 43 {
        t.subrange(1, t.len() as int)
    } else {
        t
    }
}

/// A number of more digits is no smaller.
proof fn lemma_digits_grow(s: Seq<u8>, k: int)
    requires
        0 <= k <= s.len(),
        all_digits(s),
    ensures
        digits_value(s.take(k)) <= digits_value(s),
    decreases s.len() - k,
{
    if k < s.len() {
        lemma_digits_grow(s, k + 1);
        assert(s.take(k + 1).drop_last() =~= s.take(k));
        assert(is_digit(s[k]));
    } else {
        assert(s.take(k) =~= s);
    }
}

/// Reads the digits of `bytes` from `a` to `b`. `None` where a byte is no
/// digit or the number goes beyond `limit`.
fn read_digits(bytes: &[u8], a: usize, b: usize, limit: u64) -> (r: Option<u64>)
    requires
        a <= b <= bytes@.len(),
        limit <= 0x0fff_ffff_ffff_ffff,
    ensures
        r == (if all_digits(bytes@.subrange(a as int, b as int)) && digits_value(
            bytes@.subrange(a as int, b as int),
        ) <= limit {
            Some(digits_value(bytes@.subrange(a as int, b as int)) as u64)
        } else {
            None
        }),
{
    let ghost t = bytes@.subrange(a as int, b as int);
    let mut v: u64 = 0;
    let mut i: usize = a;
    proof {
        assert(t.take(0) =~= Seq::<u8>::empty());
    }
    while i < b
        invariant
            a <= i <= b <= bytes@.len(),
            t == bytes@.subrange(a as int, b as int),
            limit <= 0x0fff_ffff_ffff_ffff,
            all_digits(t.take(i - a)),
            v == digits_value(t.take(i - a)),
            v <= limit,
        decreases b - i,
    {
        let c: u8 = bytes[i];
        proof {
            assert(t[i - a] == c);
            assert(t.take(i - a + 1).drop_last() =~= t.take(i - a));
            assert(t.take(i - a + 1).last() == c);
        }
        if c < 48 || c > 57 {
            proof {
                assert(!is_digit(t[i - a]));
            }
            return None;
        }
        let next: u64 = v * 10 + (c - 48) as u64;
        if next > limit {
            proof {
                if all_digits(t) {
                    lemma_digits_grow(t, i - a + 1);
                }
            }
            return None;
        }
        proof {
            assert forall|j: int| 0 <= j < t.take(i - a + 1).len() implies is_digit(
                #[trigger] t.take(i - a + 1)[j],
            ) by {
                if j < i - a {
                    assert(t.take(i - a)[j] == t.take(i - a + 1)[j]);
                }
            }
        }
        v = next;
        i += 1;
    }
    proof {
        assert(t.take(b - a) =~= t);
    }
    Some(v)
}

/// Computes `parsed_u32`.
pub fn parse_u32(bytes: &[u8]) -> (r: Option<u32>)
    ensures
        r == parsed_u32(bytes@),
{
    let (a, b) = trim(bytes);
    let a2: usize = if a < b && bytes[a] == 43 { a + 1 } else { a };
    proof {
        let t = trimmed(bytes@);
        assert(unsigned_part(t) =~= bytes@.subrange(a2 as int, b as int));
    }
    if a2 == b {
        return None;
    }
    match read_digits(bytes, a2, b, u32::MAX as u64) {
        Some(v) => Some(v as u32),
        None => None,
    }
}

/// First position at or after `i` that holds `b`, or the length.
pub open spec fn find_byte(s: Seq<u8>, b: u8, i: int) -> int
    decreases s.len() - i,
{
    if i >= s.len() {
        s.len() as int
    } else if s[i] == b {
        i
    } else {
        find_byte(s, b, i + 1)
    }
}

/// The position found lies between the start and the length.
proof fn lemma_find_byte(s: Seq<u8>, b: u8, i: int)
    requires
        0 <= i <= s.len(),
    ensures
        i <= find_byte(s, b, i) <= s.len(),
    decreases s.len() - i,
{
    if i < s.len() && s[i] != b {
        lemma_find_byte(s, b, i + 1);
    }
}

/// Position of the first `b` in `bytes` from `a` to `e`, or `e`.
fn find_in(bytes: &[u8], b: u8, a: usize, e: usize) -> (r: usize)
    requires
        a <= e <= bytes@.len(),
    ensures
        a <= r <= e,
        r - a == find_byte(bytes@.subrange(a as int, e as int), b, 0),
{
    let ghost t = bytes@.subrange(a as int, e as int);
    let mut i: usize = a;
    while i < e && bytes[i] != b
        invariant
            a <= i <= e <= bytes@.len(),
            t == bytes@.subrange(a as int, e as int),
            find_byte(t, b, i - a) == find_byte(t, b, 0),
        decreases e - i,
    {
        proof {
            assert(t[i - a] == bytes@[i as int]);
        }
        i += 1;
    }
    proof {
        if i < e {
            assert(t[i - a] == bytes@[i as int]);
        }
    }
    i
}

/// The number of thousandths that a decimal text spells, places beyond
/// the third dropped: digits with at most one point among them, after an
/// optional `+`, white space at the ends aside. `None` for any other text
/// and for a number beyond `limit`.
pub open spec fn parsed_thousandths(s: Seq<u8>, limit: u64) -> Option<u64> {
    let t = unsigned_part(trimmed(s));
    let dot = find_byte(t, 46, 0);
    let whole = t.take(dot);
    let frac = if dot < t.len() {
        t.subrange(dot + 1, t.len() as int)
    } else {
        Seq::<u8>::empty()
    };
    let value = digits_value(whole) * 1000 + first_three(frac);
    if whole.len() + frac.len() > 0 && all_digits(whole) && all_digits(frac) && value <= limit {
        Some(value as u64)
    } else {
        None
    }
}

/// The first three places of a fraction, as thousandths.
pub open spec fn first_three(frac: Seq<u8>) -> nat {
    let d0 = if frac.len() > 0 { (frac[0] - 48) as nat } else { 0 };
    let d1 = if frac.len() > 1 { (frac[1] - 48) as nat } else { 0 };
    let d2 = if frac.len() > 2 { (frac[2] - 48) as nat } else { 0 };
    d0 * 100 + d1 * 10 + d2
}

/// Largest number of thousandths that `parse_thousandths` returns.
pub const THOUSANDTHS_MAX: u64 = 0x0fff_ffff_ffff_ffff;

/// Whether every byte of `bytes` from `a` to `b` is a digit.
fn digits_only(bytes: &[u8], a: usize, b: usize) -> (r: bool)
    requires
        a <= b <= bytes@.len(),
    ensures
        r == all_digits(bytes@.subrange(a as int, b as int)),
{
    let ghost t = bytes@.subrange(a as int, b as int);
    let mut i: usize = a;
    while i < b
        invariant
            a <= i <= b <= bytes@.len(),
            t == bytes@.subrange(a as int, b as int),
            forall|j: int| 0 <= j < i - a ==> is_digit(#[trigger] t[j]),
        decreases b - i,
    {
        if bytes[i] < 48 || bytes[i] > 57 {
            proof {
                assert(t[i - a] == bytes@[i as int]);
                assert(!is_digit(t[i - a]));
            }
            return false;
        }
        proof {
            assert(t[i - a] == bytes@[i as int]);
        }
        i += 1;
    }
    true
}

/// Computes `parsed_thousandths` with the limit `THOUSANDTHS_MAX`.
pub fn parse_thousandths(bytes: &[u8]) -> (r: Option<u64>)
    ensures
        r == parsed_thousandths(bytes@, THOUSANDTHS_MAX),
{
    let (a, b) = trim(bytes);
    let a2: usize = if a < b && bytes[a] == 43 { a + 1 } else { a };
    let ghost t = bytes@.subrange(a2 as int, b as int);
    proof {
        assert(unsigned_part(trimmed(bytes@)) =~= t);
        lemma_find_byte(t, 46, 0);
    }
    let dot: usize = find_in(bytes, 46, a2, b);
    let f0: usize = if dot < b { dot + 1 } else { b };
    let ghost whole = t.take(dot - a2);
    let ghost frac = if dot < b { t.subrange(dot - a2 + 1, t.len() as int) } else { Seq::<u8>::empty() };
    proof {
        assert(whole =~= bytes@.subrange(a2 as int, dot as int));
        assert(frac =~= bytes@.subrange(f0 as int, b as int));
    }
    if (dot - a2) + (b - f0) == 0 {
        return None;
    }
    if !digits_only(bytes, f0, b) {
        return None;
    }
    let w: u64 = match read_digits(bytes, a2, dot, THOUSANDTHS_MAX / 1000) {
        Some(w) => w,
        None => {
            return None;
        },
    };
    let d0: u64 = if b - f0 > 0 { (bytes[f0] - 48) as u64 } else { 0 };
    let d1: u64 = if b - f0 > 1 { (bytes[f0 + 1] - 48) as u64 } else { 0 };
    let d2: u64 = if b - f0 > 2 { (bytes[f0 + 2] - 48) as u64 } else { 0 };
    proof {
        if frac.len() > 0 {
            assert(is_digit(frac[0]));
            assert(frac[0] == bytes@[f0 as int]);
        }
        if frac.len() > 1 {
            assert(is_digit(frac[1]));
            assert(frac[1] == bytes@[f0 + 1]);
        }
        if frac.len() > 2 {
            assert(is_digit(frac[2]));
            assert(frac[2] == bytes@[f0 + 2]);
        }
    }
    let value: u64 = w * 1000 + d0 * 100 + d1 * 10 + d2;
    if value > THOUSANDTHS_MAX {
        None
    } else {
        Some(value)
    }
}

/// The text is `1`, or `true` in any case of letters.
pub open spec fn flag_set(s: Seq<u8>) -> bool {
    ||| s == seq![49u8]
    ||| (s.len() == 4 && (s[0] == 116 || s[0] == 84) && (s[1] == 114 || s[1] == 82) && (s[2] == 117
        || s[2] == 85) && (s[3] == 101 || s[3] == 69))
}

/// Computes `flag_set`.
pub fn parse_flag(bytes: &[u8]) -> (r: bool)
    ensures
        r == flag_set(bytes@),
{
    if bytes.len() == 1 {
        proof {
            if bytes@[0] == 49 {
                assert(bytes@ =~= seq![49u8]);
            }
        }
        bytes[0] == 49
    } else if bytes.len() == 4 {
        (bytes[0] == 116 || bytes[0] == 84) && (bytes[1] == 114 || bytes[1] == 82) && (bytes[2] == 117
            || bytes[2] == 85) && (bytes[3] == 101 || bytes[3] == 69)
    } else {
        false
    }
}

/// The text is `quantile`.
pub open spec fn names_quantile(s: Seq<u8>) -> bool {
    s == seq![113u8, 117, 97, 110, 116, 105, 108, 101]
}

/// Computes `names_quantile`.
pub fn parse_quantile(bytes: &[u8]) -> (r: bool)
    ensures
        r == names_quantile(bytes@),
{
    if bytes.len() != 8 {
        return false;
    }
    let r: bool = bytes[0] == 113 && bytes[1] == 117 && bytes[2] == 97 && bytes[3] == 110 && bytes[4]
        == 116 && bytes[5] == 105 && bytes[6] == 108 && bytes[7] == 101;
    proof {
        if r {
            assert(bytes@ =~= seq![113u8, 117, 97, 110, 116, 105, 108, 101]);
        }
    }
    r
}

/// The list with the value of a field added, where the field spells a positive number.
pub open spec fn with_field(acc: Seq<u64>, field: Seq<u8>) -> Seq<u64> {
    match parsed_thousandths(field, THOUSANDTHS_MAX) {
        Some(v) => if v > 0 {
            acc.push(v)
        } else {
            acc
        },
        None => acc,
    }
}

/// The positive numbers among the comma-separated fields of a text, in
/// thousandths, in order. `start` is where the field being read began, `i`
/// the position being read, `acc` the numbers of the fields before.
pub open spec fn list_values(s: Seq<u8>, start: int, i: int, acc: Seq<u64>) -> Seq<u64>
    decreases s.len() - i,
{
    if i >= s.len() {
        with_field(acc, s.subrange(start, s.len() as int))
    } else if s[i] == 44 {
        list_values(s, i + 1, i + 1, with_field(acc, s.subrange(start, i)))
    } else {
        list_values(s, start, i + 1, acc)
    }
}

/// The positive numbers among the comma-separated fields of `text`, in thousandths.
pub open spec fn parsed_list(s: Seq<u8>) -> Seq<u64> {
    list_values(s, 0, 0, Seq::empty())
}

/// Computes `parsed_list`.
pub fn parse_list(bytes: &[u8]) -> (out: Vec<u64>)
    ensures
        out@ == parsed_list(bytes@),
{
    let mut out: Vec<u64> = Vec::new();
    let len: usize = bytes.len();
    let mut start: usize = 0;
    let mut i: usize = 0;
    while i < len
        invariant
            start <= i <= len,
            len == bytes@.len(),
            list_values(bytes@, start as int, i as int, out@) == parsed_list(bytes@),
        decreases len - i,
    {
        if bytes[i] == 44 {
            let field = vstd::slice::slice_subrange(bytes, start, i);
            match parse_thousandths(field) {
                Some(v) => {
                    if v > 0 {
                        out.push(v);
                    }
                },
                None => {},
            }
            start = i + 1;
        }
        i += 1;
    }
    let field = vstd::slice::slice_subrange(bytes, start, len);
    match parse_thousandths(field) {
        Some(v) => {
            if v > 0 {
                out.push(v);
            }
        },
        None => {},
    }
    out
}

/// The number that an option spells, or `otherwise` where the option is
/// missing or spells none.
pub open spec fn u32_of(text: Option<&[u8]>, otherwise: u32) -> u32 {
    match text {
        Some(t) => match parsed_u32(t@) {
            Some(v) => v,
            None => otherwise,
        },
        None => otherwise,
    }
}

/// Computes `u32_of`.
pub fn u32_or(text: Option<&[u8]>, otherwise: u32) -> (r: u32)
    ensures
        r == u32_of(text, otherwise),
{
    match text {
        Some(t) => match parse_u32(t) {
            Some(v) => v,
            None => otherwise,
        },
        None => otherwise,
    }
}

/// The number that an option spells, where it is there and spells one.
pub open spec fn u32_if(text: Option<&[u8]>) -> Option<u32> {
    match text {
        Some(t) => parsed_u32(t@),
        None => None,
    }
}

/// Computes `u32_if`.
pub fn u32_opt(text: Option<&[u8]>) -> (r: Option<u32>)
    ensures
        r == u32_if(text),
{
    match text {
        Some(t) => parse_u32(t),
        None => None,
    }
}

/// The thousandths that an option spells, where it is there and spells a number.
pub open spec fn thousandths_if(text: Option<&[u8]>) -> Option<u64> {
    match text {
        Some(t) => parsed_thousandths(t@, THOUSANDTHS_MAX),
        None => None,
    }
}

/// Computes `thousandths_if`.
pub fn thousandths_opt(text: Option<&[u8]>) -> (r: Option<u64>)
    ensures
        r == thousandths_if(text),
{
    match text {
        Some(t) => parse_thousandths(t),
        None => None,
    }
}

/// The share in thousandths that an option spells, at most the largest
/// 32-bit number, or `otherwise` where the option is missing or spells none.
pub open spec fn share_of(text: Option<&[u8]>, otherwise: u32) -> u32 {
    match thousandths_if(text) {
        Some(v) => if v > u32::MAX {
            u32::MAX
        } else {
            v as u32
        },
        None => otherwise,
    }
}

/// Computes `share_of`.
pub fn share_or(text: Option<&[u8]>, otherwise: u32) -> (r: u32)
    ensures
        r == share_of(text, otherwise),
{
    match thousandths_opt(text) {
        Some(v) => if v > u32::MAX as u64 {
            u32::MAX
        } else {
            v as u32
        },
        None => otherwise,
    }
}

/// The bound in ticks that an option spells, a thousand ticks to the
/// thousandth and at most the largest finite distance; no bound where the
/// option is missing or spells no number.
pub open spec fn bound_of(text: Option<&[u8]>) -> u64 {
    match thousandths_if(text) {
        Some(v) => if v * 1000 >= u64::MAX {
            (u64::MAX - 1) as u64
        } else {
            (v * 1000) as u64
        },
        None => u64::MAX,
    }
}

/// Computes `bound_of`.
pub fn bound_or_none(text: Option<&[u8]>) -> (r: u64)
    ensures
        r == bound_of(text),
{
    match thousandths_opt(text) {
        Some(v) => if v > (u64::MAX - 1) / 1000 {
            u64::MAX - 1
        } else {
            v * 1000
        },
        None => u64::MAX,
    }
}

/// Whether an option is there and set.
pub open spec fn flag_of(text: Option<&[u8]>) -> bool {
    match text {
        Some(t) => flag_set(t@),
        None => false,
    }
}

/// Computes `flag_of`.
pub fn flag_or_unset(text: Option<&[u8]>) -> (r: bool)
    ensures
        r == flag_of(text),
{
    match text {
        Some(t) => parse_flag(t),
        None => false,
    }
}

} // verus!
