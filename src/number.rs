//! Fixed-point numbers and their text form.
//!
//! A number of the pipeline is a non-negative fixed-point value with six
//! decimal places: the integer `v` stands for `v / 1_000_000`.
use vstd::prelude::*;

verus! {

/// Units of a fixed-point number per whole unit.
pub const MICROS: u64 = 1_000_000;

pub open spec fn is_digit(c: char) -> bool {
    '0' <= c && c <= '9'
}

pub open spec fn all_digits(s: Seq<char>) -> bool {
    forall|i: int| 0 <= i < s.len() ==> is_digit(#[trigger] s[i])
}

pub open spec fn digit_value(c: char) -> int {
    (c as u32) as int - ('0' as u32) as int
}

/// The value of a run of decimal digits.
pub open spec fn digits_value(s: Seq<char>) -> int
    decreases s.len(),
{
    if s.len() == 0 {
        0
    } else {
        digits_value(s.drop_last()) * 10 + digit_value(s.last())
    }
}

/// The first six fraction digits, with zeros added where there are fewer.
pub open spec fn six_places(f: Seq<char>) -> Seq<char> {
    Seq::new(6, |i: int| if i < f.len() { f[i] } else { '0' })
}

/// `s` is `digits '.' digits`, with its point at `p` and a digit on at
/// least one side.
pub open spec fn point_at(s: Seq<char>, p: int) -> bool {
    &&& 0 <= p < s.len()
    &&& s[p] == '.'
    &&& all_digits(s.take(p))
    &&& all_digits(s.skip(p + 1))
    &&& s.len() > 1
}

/// The fixed-point value that the text `s` denotes, fraction digits past
/// the sixth dropped; `None` where `s` is not a plain decimal number.
pub open spec fn decimal_value(s: Seq<char>) -> Option<int> {
    if s.len() > 0 && all_digits(s) {
        Some(digits_value(s) * MICROS)
    } else if exists|p: int| point_at(s, p) {
        let p = choose|p: int| point_at(s, p);
        Some(digits_value(s.take(p)) * MICROS + digits_value(six_places(s.skip(p + 1))))
    } else {
        None
    }
}

/// The number that `s` denotes, where it is one and fits in 64 bits.
pub open spec fn fixed_value(s: Seq<char>) -> Option<u64> {
    match decimal_value(s) {
        Some(v) => if v <= u64::MAX {
            Some(v as u64)
        } else {
            None
        },
        None => None,
    }
}

/// `s` with every comma taken out.
pub open spec fn without_commas(s: Seq<char>) -> Seq<char>
    decreases s.len(),
{
    if s.len() == 0 {
        s
    } else if s.last() == ',' {
        without_commas(s.drop_last())
    } else {
        without_commas(s.drop_last()).push(s.last())
    }
}

pub proof fn lemma_digits_value_nonneg(s: Seq<char>)
    requires
        all_digits(s),
    ensures
        digits_value(s) >= 0,
    decreases s.len(),
{
    if s.len() > 0 {
        assert(all_digits(s.drop_last()));
        lemma_digits_value_nonneg(s.drop_last());
        assert(is_digit(s[s.len() - 1]));
    }
}

proof fn lemma_digits_prefix_le(s: Seq<char>, i: int, j: int)
    requires
        0 <= i <= j <= s.len(),
        all_digits(s.take(j)),
    ensures
        digits_value(s.take(i)) <= digits_value(s.take(j)),
    decreases j - i,
{
    if i < j {
        assert(s.take(j).drop_last() =~= s.take(j - 1));
        assert(all_digits(s.take(j - 1))) by {
            assert forall|k: int| 0 <= k < j - 1 implies is_digit(#[trigger] s.take(j - 1)[k]) by {
                assert(s.take(j)[k] == s[k]);
            }
        }
        lemma_digits_prefix_le(s, i, j - 1);
        lemma_digits_value_nonneg(s.take(j - 1));
        assert(is_digit(s.take(j)[j - 1]));
    }
}

/// The characters of `s`, in order.
pub fn chars_of(s: &str) -> (r: Vec<char>)
    ensures
        r@ == s@,
{
    let n = s.unicode_len();
    let mut r: Vec<char> = Vec::new();
    let mut i: usize = 0;
    while i < n
        invariant
            n == s@.len(),
            i <= n,
            r@ == s@.take(i as int),
        decreases n - i,
    {
        let c = s.get_char(i);
        r.push(c);
        i += 1;
        assert(r@ =~= s@.take(i as int));
    }
    assert(r@ =~= s@);
    r
}

/// The characters of `s` but the commas.
pub fn strip_commas(s: &Vec<char>) -> (r: Vec<char>)
    ensures
        r@ == without_commas(s@),
{
    let mut r: Vec<char> = Vec::new();
    let mut i: usize = 0;
    while i < s.len()
        invariant
            i <= s.len(),
            r@ == without_commas(s@.take(i as int)),
        decreases s.len() - i,
    {
        assert(s@.take(i + 1).drop_last() =~= s@.take(i as int));
        if s[i] != ',' {
            r.push(s[i]);
        }
        i += 1;
    }
    assert(s@.take(s.len() as int) =~= s@);
    r
}

fn char_is_digit(c: char) -> (r: bool)
    ensures
        r == is_digit(c),
{
    '0' <= c && c <= '9'
}

/// Reads a decimal number such as `12`, `12.5`, `.5` or `12.` as a
/// fixed-point value, dropping fraction digits past the sixth.
pub fn parse_fixed(s: &Vec<char>) -> (r: Option<u64>)
    ensures
        r == fixed_value(s@),
{
    let n = s.len();
    let mut i: usize = 0;
    let mut whole: u128 = 0;
    while i < n && char_is_digit(s[i])
        invariant
            i <= n,
            n == s@.len(),
            all_digits(s@.take(i as int)),
            whole == digits_value(s@.take(i as int)),
            whole <= u64::MAX,
        decreases n - i,
    {
        assert(s@.take(i + 1).drop_last() =~= s@.take(i as int));
        assert(all_digits(s@.take(i + 1))) by {
            assert forall|k: int| 0 <= k < i + 1 implies is_digit(#[trigger] s@.take(i + 1)[k]) by {
                if k < i {
                    assert(s@.take(i + 1)[k] == s@.take(i as int)[k]);
                }
            }
        }
        let d = (s[i] as u32 - '0' as u32) as u128;
        whole = whole * 10 + d;
        i += 1;
        if whole > u64::MAX as u128 {
            proof { lemma_too_large(s@, i as int); }
            return None;
        }
    }
    if i == n {
        if n == 0 {
            return None;
        }
        assert(s@.take(n as int) =~= s@);
        assert(whole * 1_000_000 <= u64::MAX * 1_000_000) by (nonlinear_arith)
            requires
                whole <= u64::MAX,
        ;
        if whole * (MICROS as u128) > u64::MAX as u128 {
            return None;
        }
        return Some((whole * (MICROS as u128)) as u64);
    }
    if s[i] != '.' {
        proof {
            assert(!all_digits(s@));
            assert forall|p: int| !point_at(s@, p) by {
                if point_at(s@, p) {
                    if p > i {
                        assert(s@.take(p)[i as int] == s@[i as int]);
                    } else if p < i {
                        assert(s@.take(i as int)[p] == s@[p]);
                    }
                }
            }
            assert(!(exists|p: int| point_at(s@, p)));
            assert(decimal_value(s@) is None);
        }
        return None;
    }
    let point = i;
    proof {
        assert(!all_digits(s@));
        assert forall|p: int| point_at(s@, p) implies p == point by {
            if p < point {
                assert(s@.take(point as int)[p] == s@[p]);
            } else if p > point {
                assert(s@.take(p)[point as int] == s@[point as int]);
            }
        }
    }
    let mut j: usize = point + 1;
    while j < n
        invariant
            point < j <= n,
            n == s@.len(),
            forall|k: int| point < k < j ==> is_digit(#[trigger] s@[k]),
            forall|p: int| point_at(s@, p) ==> p == point,
            !all_digits(s@),
        decreases n - j,
    {
        if !char_is_digit(s[j]) {
            proof {
                assert(s@.skip(point + 1)[j - point - 1] == s@[j as int]);
                assert(!point_at(s@, point as int));
            }
            return None;
        }
        j += 1;
    }
    if n == 1 {
        assert(!point_at(s@, 0));
        return None;
    }
    let ghost frac_digits = s@.skip(point + 1);
    assert(all_digits(frac_digits)) by {
        assert forall|k: int| 0 <= k < frac_digits.len() implies is_digit(#[trigger] frac_digits[k]) by {
            assert(frac_digits[k] == s@[point + 1 + k]);
        }
    }
    assert(point_at(s@, point as int));
    let ghost six = six_places(frac_digits);
    let mut frac: u128 = 0;
    let mut k: usize = 0;
    while k < 6
        invariant
            k <= 6,
            n == s@.len(),
            point < n,
            frac_digits == s@.skip(point + 1),
            six == six_places(frac_digits),
            all_digits(frac_digits),
            frac == digits_value(six.take(k as int)),
            frac < 1_000_000,
            frac < pow10(k as nat),
            forall|p: int| point_at(s@, p) ==> p == point,
            !all_digits(s@),
            point_at(s@, point as int),
            whole == digits_value(s@.take(point as int)),
            whole <= u64::MAX,
        decreases 6 - k,
    {
        let c = if k < n - 1 - point {
            s[point + 1 + k]
        } else {
            '0'
        };
        assert(c == six[k as int]);
        assert(six.take(k + 1).drop_last() =~= six.take(k as int));
        let d = (c as u32 - '0' as u32) as u128;
        frac = frac * 10 + d;
        k += 1;
        proof {
            reveal_with_fuel(pow10, 7);
            lemma_pow10_mono(k as nat, 6);
        }
    }
    assert(six.take(6) =~= six);
    assert(whole * 1_000_000 <= u64::MAX * 1_000_000) by (nonlinear_arith)
        requires
            whole <= u64::MAX,
    ;
    let total: u128 = whole * (MICROS as u128) + frac;
    if total > u64::MAX as u128 {
        return None;
    }
    Some(total as u64)
}

pub open spec fn pow10(k: nat) -> int
    decreases k,
{
    if k == 0 {
        1
    } else {
        10 * pow10((k - 1) as nat)
    }
}

proof fn lemma_pow10_mono(a: nat, b: nat)
    requires
        a <= b,
    ensures
        1 <= pow10(a) <= pow10(b),
    decreases b,
{
    if a < b {
        lemma_pow10_mono(a, (b - 1) as nat);
    } else if a > 0 {
        lemma_pow10_mono((a - 1) as nat, (a - 1) as nat);
    }
}

/// Once the whole part read so far passes 64 bits, no reading of the whole
/// text fits.
proof fn lemma_too_large(s: Seq<char>, i: int)
    requires
        0 <= i <= s.len(),
        all_digits(s.take(i)),
        digits_value(s.take(i)) > u64::MAX,
    ensures
        fixed_value(s) is None,
{
    if s.len() > 0 && all_digits(s) {
        assert(s.take(s.len() as int) =~= s);
        lemma_digits_prefix_le(s, i, s.len() as int);
        let v = digits_value(s);
        assert(v * MICROS >= v) by (nonlinear_arith)
            requires
                v >= 0,
        ;
    } else if exists|p: int| point_at(s, p) {
        let p = choose|p: int| point_at(s, p);
        if p < i {
            assert(s.take(i)[p] == s[p]);
        }
        assert(s.take(p).take(i) =~= s.take(i));
        assert(s.take(p).take(p) =~= s.take(p));
        lemma_digits_prefix_le(s.take(p), i, p);
        let v = digits_value(s.take(p));
        assert(v * MICROS >= v) by (nonlinear_arith)
            requires
                v >= 0,
        ;
        assert forall|k: int| 0 <= k < 6 implies is_digit(#[trigger] six_places(s.skip(p + 1))[k]) by {
            if k < s.skip(p + 1).len() {
                assert(is_digit(s.skip(p + 1)[k]));
            }
        }
        lemma_digits_value_nonneg(six_places(s.skip(p + 1)));
    }
}

/// The whole number that a run of digits denotes, where it fits in 64
/// bits.
pub open spec fn count_value(s: Seq<char>) -> Option<u64> {
    if s.len() > 0 && all_digits(s) && digits_value(s) <= u64::MAX {
        Some(digits_value(s) as u64)
    } else {
        None
    }
}

/// Reads a whole number written as digits.
pub fn parse_count(s: &Vec<char>) -> (r: Option<u64>)
    ensures
        r == count_value(s@),
{
    let n = s.len();
    if n == 0 {
        return None;
    }
    let mut i: usize = 0;
    let mut v: u128 = 0;
    while i < n
        invariant
            i <= n,
            n == s@.len(),
            n > 0,
            all_digits(s@.take(i as int)),
            v == digits_value(s@.take(i as int)),
            v <= u64::MAX,
        decreases n - i,
    {
        if !char_is_digit(s[i]) {
            assert(!all_digits(s@));
            return None;
        }
        assert(s@.take(i + 1).drop_last() =~= s@.take(i as int));
        assert(all_digits(s@.take(i + 1))) by {
            assert forall|k: int| 0 <= k < i + 1 implies is_digit(#[trigger] s@.take(i + 1)[k]) by {
                if k < i {
                    assert(s@.take(i + 1)[k] == s@.take(i as int)[k]);
                }
            }
        }
        v = v * 10 + (s[i] as u32 - '0' as u32) as u128;
        i += 1;
        if v > u64::MAX as u128 {
            proof {
                if all_digits(s@) {
                    assert(s@.take(n as int) =~= s@);
                    lemma_digits_prefix_le(s@, i as int, n as int);
                }
            }
            return None;
        }
    }
    assert(s@.take(n as int) =~= s@);
    Some(v as u64)
}

} // verus!
