//! Byte-level text utilities: searching, prefix tests, appending, and the
//! decimal notation of unsigned integers.
use vstd::prelude::*;

verus! {

// ---------------------------------------------------------------------------
// Searching
// ---------------------------------------------------------------------------

/// `pat` occurs in `s` starting at index `i`.
pub open spec fn occurs_at(s: Seq<u8>, pat: Seq<u8>, i: int) -> bool {
    &&& 0 <= i
    &&& i + pat.len() <= s.len()
    &&& s.subrange(i, i + pat.len()) == pat
}

/// The first index `>= i` at which `pat` occurs in `s`, if any.
pub open spec fn first_occurrence_from(s: Seq<u8>, pat: Seq<u8>, i: int) -> Option<int>
    decreases s.len() + 1 - i,
{
    if i < 0 || i + pat.len() > s.len() {
        None
    } else if occurs_at(s, pat, i) {
        Some(i)
    } else {
        first_occurrence_from(s, pat, i + 1)
    }
}

/// The first index at which `pat` occurs in `s`, if any.
pub open spec fn first_occurrence(s: Seq<u8>, pat: Seq<u8>) -> Option<int> {
    first_occurrence_from(s, pat, 0)
}

/// What a found first occurrence means: it is an occurrence, and none starts earlier.
pub proof fn lemma_first_occurrence_from(s: Seq<u8>, pat: Seq<u8>, i: int)
    requires
        0 <= i,
    ensures
        match first_occurrence_from(s, pat, i) {
            Some(k) => i <= k && occurs_at(s, pat, k) && forall|j: int|
                i <= j < k ==> !occurs_at(s, pat, j),
            None => forall|j: int| i <= j ==> !occurs_at(s, pat, j),
        },
    decreases s.len() + 1 - i,
{
    if i + pat.len() > s.len() {
    } else if occurs_at(s, pat, i) {
    } else {
        lemma_first_occurrence_from(s, pat, i + 1);
    }
}

/// An occurrence found with none before it is the first occurrence.
pub proof fn lemma_first_occurrence_is(s: Seq<u8>, pat: Seq<u8>, i: int, k: int)
    requires
        0 <= i <= k,
        occurs_at(s, pat, k),
        forall|j: int| i <= j < k ==> !occurs_at(s, pat, j),
    ensures
        first_occurrence_from(s, pat, i) == Some(k),
{
    lemma_first_occurrence_from(s, pat, i);
}

/// Without any occurrence there is no first occurrence.
pub proof fn lemma_no_occurrence(s: Seq<u8>, pat: Seq<u8>, i: int)
    requires
        0 <= i,
        forall|j: int| i <= j ==> !occurs_at(s, pat, j),
    ensures
        first_occurrence_from(s, pat, i) is None,
{
    lemma_first_occurrence_from(s, pat, i);
}

/// Within a part of `s`, occurring in `s` is occurring in the part.
pub proof fn lemma_occurs_in_part(s: Seq<u8>, pat: Seq<u8>, a: int, part: Seq<u8>, j: int)
    requires
        0 <= a,
        a + part.len() <= s.len(),
        s.subrange(a, a + part.len()) == part,
        a <= j,
        j + pat.len() <= a + part.len(),
    ensures
        occurs_at(s, pat, j) == occurs_at(part, pat, j - a),
{
    assert(s.subrange(j, j + pat.len()) =~= part.subrange(j - a, j - a + pat.len())) by {
        assert forall|k: int| 0 <= k < pat.len() implies #[trigger] s.subrange(j, j + pat.len())[k]
            == part.subrange(j - a, j - a + pat.len())[k] by {
            assert(s.subrange(a, a + part.len())[j - a + k] == s[j + k]);
        }
    }
}

/// An occurrence starts with the pattern's first byte.
pub proof fn lemma_occurrence_first_byte(s: Seq<u8>, pat: Seq<u8>, j: int)
    requires
        occurs_at(s, pat, j),
        pat.len() > 0,
    ensures
        s[j] == pat[0],
{
    assert(s.subrange(j, j + pat.len())[0] == s[j]);
}

/// Whether `pat` occurs in `s` at index `i`.
pub fn matches_at(s: &[u8], pat: &[u8], i: usize) -> (r: bool)
    ensures
        r == occurs_at(s@, pat@, i as int),
{
    let n = s.len();
    let m = pat.len();
    if m > n || i > n - m {
        return false;
    }
    let mut j: usize = 0;
    while j < m
        invariant
            n == s@.len(),
            m == pat@.len(),
            i + m <= n,
            j <= m,
            forall|k: int| 0 <= k < j ==> s@[i + k] == pat@[k],
        decreases pat@.len() - j,
    {
        if s[i + j] != pat[j] {
            assert(s@.subrange(i as int, i + pat@.len())[j as int] != pat@[j as int]);
            return false;
        }
        j = j + 1;
    }
    assert(s@.subrange(i as int, i + pat@.len()) =~= pat@);
    true
}

/// The first index at or after `start` at which `pat` occurs in `s`.
pub fn find_from(s: &[u8], pat: &[u8], start: usize) -> (r: Option<usize>)
    ensures
        match r {
            Some(i) => first_occurrence_from(s@, pat@, start as int) == Some(i as int),
            None => first_occurrence_from(s@, pat@, start as int) is None,
        },
{
    let n = s.len();
    let m = pat.len();
    if m > n || start > n - m {
        return None;
    }
    if m == 0 {
        assert(s@.subrange(start as int, start as int) =~= pat@);
        return Some(start);
    }
    let mut i: usize = start;
    while i <= n - m
        invariant
            n == s@.len(),
            m == pat@.len(),
            1 <= m <= n,
            start <= i,
            first_occurrence_from(s@, pat@, start as int) == first_occurrence_from(
                s@,
                pat@,
                i as int,
            ),
            i <= n - m + 1,
        decreases n - i,
    {
        if matches_at(s, pat, i) {
            return Some(i);
        }
        i = i + 1;
    }
    None
}

/// The first index at which `pat` occurs in `s` (the byte-level `find`).
pub fn find(s: &[u8], pat: &[u8]) -> (r: Option<usize>)
    ensures
        match r {
            Some(i) => first_occurrence(s@, pat@) == Some(i as int),
            None => first_occurrence(s@, pat@) is None,
        },
{
    find_from(s, pat, 0)
}

/// `s` begins with `pat`.
pub open spec fn has_prefix(s: Seq<u8>, pat: Seq<u8>) -> bool {
    pat.len() <= s.len() && s.subrange(0, pat.len() as int) == pat
}

/// Whether `s` begins with `pat`.
pub fn starts_with(s: &[u8], pat: &[u8]) -> (r: bool)
    ensures
        r == has_prefix(s@, pat@),
{
    matches_at(s, pat, 0)
}

// ---------------------------------------------------------------------------
// Building byte strings
// ---------------------------------------------------------------------------

/// Appends the bytes of `s` to `v`.
pub fn push_all(v: &mut Vec<u8>, s: &[u8])
    ensures
        final(v)@ == old(v)@ + s@,
{
    let mut i: usize = 0;
    while i < s.len()
        invariant
            i <= s@.len(),
            v@ == old(v)@ + s@.subrange(0, i as int),
        decreases s@.len() - i,
    {
        v.push(s[i]);
        i = i + 1;
        assert(s@.subrange(0, i as int) =~= s@.subrange(0, i - 1).push(s@[i - 1]));
    }
    assert(s@.subrange(0, s@.len() as int) =~= s@);
}

/// A copy of `s[from..to]`.
pub fn copy_range(s: &[u8], from: usize, to: usize) -> (r: Vec<u8>)
    requires
        from <= to <= s@.len(),
    ensures
        r@ == s@.subrange(from as int, to as int),
{
    let mut r: Vec<u8> = Vec::new();
    let mut i: usize = from;
    while i < to
        invariant
            from <= i <= to <= s@.len(),
            r@ == s@.subrange(from as int, i as int),
        decreases to - i,
    {
        r.push(s[i]);
        i = i + 1;
        assert(s@.subrange(from as int, i as int) =~= s@.subrange(from as int, i - 1).push(
            s@[i - 1],
        ));
    }
    r
}

// ---------------------------------------------------------------------------
// Decimal notation
// ---------------------------------------------------------------------------

/// The ASCII decimal digit for `d < 10`.
pub open spec fn digit(d: nat) -> u8 {
    (48 + d) as u8
}

/// The decimal notation of `n`, most significant digit first, without leading zeros.
pub open spec fn decimal(n: nat) -> Seq<u8>
    decreases n,
{
    if n < 10 {
        seq![digit(n)]
    } else {
        decimal(n / 10).push(digit(n % 10))
    }
}

/// An ASCII decimal digit.
pub open spec fn is_digit(b: u8) -> bool {
    48 <= b <= 57
}

/// Every byte of `s` is an ASCII decimal digit.
pub open spec fn all_digits(s: Seq<u8>) -> bool {
    forall|i: int| 0 <= i < s.len() ==> is_digit(#[trigger] s[i])
}

/// The number that the digits `s` denote.
pub open spec fn digits_value(s: Seq<u8>) -> nat
    decreases s.len(),
{
    if s.len() == 0 {
        0
    } else {
        digits_value(s.drop_last()) * 10 + (s.last() - 48) as nat
    }
}

/// The digits of an unsigned number in text: a leading `+` is allowed.
pub open spec fn unsigned_digits(s: Seq<u8>) -> Seq<u8> {
    if s.len() > 0 && s[0] == 43 {
        s.drop_first()
    } else {
        s
    }
}

/// The value of the text `s` as a `u64`: an optional `+`, then one or more
/// decimal digits whose value fits in a `u64`; `None` for any other text.
pub open spec fn parse_u64_spec(s: Seq<u8>) -> Option<u64> {
    let d = unsigned_digits(s);
    if d.len() > 0 && all_digits(d) && digits_value(d) <= u64::MAX {
        Some(digits_value(d) as u64)
    } else {
        None
    }
}

/// The decimal notation of `n`.
pub fn format_decimal(n: u64) -> (r: Vec<u8>)
    ensures
        r@ == decimal(n as nat),
    decreases n,
{
    if n < 10 {
        let mut r: Vec<u8> = Vec::new();
        r.push((48 + n) as u8);
        assert(r@ =~= seq![digit(n as nat)]);
        r
    } else {
        let mut r = format_decimal(n / 10);
        r.push((48 + n % 10) as u8);
        r
    }
}

proof fn lemma_digits_value_prefix(s: Seq<u8>, i: int)
    requires
        all_digits(s),
        0 <= i <= s.len(),
    ensures
        digits_value(s.subrange(0, i)) <= digits_value(s),
    decreases s.len(),
{
    if i < s.len() {
        assert(all_digits(s.drop_last()));
        lemma_digits_value_prefix(s.drop_last(), i);
        assert(s.drop_last().subrange(0, i) =~= s.subrange(0, i));
    } else {
        assert(s.subrange(0, i) =~= s);
    }
}

/// Reads the text `s` as a `u64` (optional `+`, then decimal digits).
pub fn parse_u64(s: &[u8]) -> (r: Option<u64>)
    ensures
        r == parse_u64_spec(s@),
{
    let start: usize = if s.len() > 0 && s[0] == 43u8 { 1 } else { 0 };
    let ghost d = unsigned_digits(s@);
    assert(d =~= s@.subrange(start as int, s@.len() as int));
    if start >= s.len() {
        return None;
    }
    // every byte must be a digit
    let mut i: usize = start;
    while i < s.len()
        invariant
            start <= i <= s@.len(),
            d == unsigned_digits(s@),
            d =~= s@.subrange(start as int, s@.len() as int),
            forall|k: int| start <= k < i ==> is_digit(s@[k]),
        decreases s@.len() - i,
    {
        if !(48u8 <= s[i] && s[i] <= 57u8) {
            assert(!is_digit(d[i - start]));
            return None;
        }
        i = i + 1;
    }
    assert(all_digits(d));
    // accumulate, failing on overflow
    let mut acc: u64 = 0;
    let mut j: usize = start;
    while j < s.len()
        invariant
            start <= j <= s@.len(),
            d == unsigned_digits(s@),
            d =~= s@.subrange(start as int, s@.len() as int),
            all_digits(d),
            acc as nat == digits_value(d.subrange(0, j - start)),
        decreases s@.len() - j,
    {
        let ghost pre = d.subrange(0, j - start);
        let ghost next = d.subrange(0, j - start + 1);
        assert(next.drop_last() =~= pre);
        assert(next.last() == s@[j as int]);
        let dig: u64 = (s[j] - 48u8) as u64;
        if acc > 1844674407370955161u64 || (acc == 1844674407370955161u64 && dig > 5) {
            proof {
                lemma_digits_value_prefix(d, j - start + 1);
                assert(digits_value(next) == acc * 10 + dig);
            }
            return None;
        }
        acc = acc * 10 + dig;
        j = j + 1;
    }
    assert(d.subrange(0, d.len() as int) =~= d);
    Some(acc)
}

/// The decimal notation of a number consists of digits that denote it.
pub proof fn lemma_decimal_digits(n: nat)
    ensures
        decimal(n).len() > 0,
        all_digits(decimal(n)),
        digits_value(decimal(n)) == n,
    decreases n,
{
    if n >= 10 {
        lemma_decimal_digits(n / 10);
        assert(decimal(n).drop_last() =~= decimal(n / 10));
        assert((n / 10) * 10 + n % 10 == n) by (nonlinear_arith);
        assert(decimal(n).last() - 48 == n % 10);
        let x = decimal(n);
        assert(digits_value(x) == digits_value(x.drop_last()) * 10 + (x.last() - 48) as nat);
        assert(digits_value(x.drop_last()) == n / 10);
        assert(digits_value(x) == n);
    } else {
        let x = decimal(n);
        assert(x.drop_last() =~= Seq::<u8>::empty());
        assert(digits_value(x) == digits_value(x.drop_last()) * 10 + (x.last() - 48) as nat);
        assert(x.last() - 48 == n);
    }
}

/// Reading back the decimal notation of a `u64` gives the number.
pub proof fn lemma_parse_format_roundtrip(n: u64)
    ensures
        parse_u64_spec(decimal(n as nat)) == Some(n),
{
    lemma_decimal_digits(n as nat);
    assert(is_digit(decimal(n as nat)[0]));
}

} // verus!
