use vstd::prelude::*;
use vstd::arithmetic::div_mod::{
    lemma_div_is_ordered, lemma_div_nonincreasing, lemma_fundamental_div_mod,
    lemma_fundamental_div_mod_converse, lemma_mod_bound,
};
use crate::complex::Complex;
use crate::fixed::{Fixed, SCALE};

verus! {

/// Whether `c` is a decimal digit.
pub open spec fn is_digit(c: char) -> bool {
    48 <= (c as int) && (c as int) <= 57
}

/// The numeric value of a digit character.
pub open spec fn digit_val(c: char) -> int {
    c as int - 48
}

/// Whether every character of `s` is a decimal digit.
pub open spec fn all_digits(s: Seq<char>) -> bool {
    forall|i: int| 0 <= i < s.len() ==> is_digit(#[trigger] s[i])
}

/// The value of a digit string read in base ten.
pub open spec fn digits_val(s: Seq<char>) -> int
    decreases s.len(),
{
    if s.len() == 0 {
        0
    } else {
        digits_val(s.drop_last()) * 10 + digit_val(s.last())
    }
}

/// Ten to the power k.
pub open spec fn pow10(k: nat) -> int
    decreases k,
{
    if k == 0 {
        1
    } else {
        10 * pow10((k - 1) as nat)
    }
}

pub proof fn lemma_pow10_pos(k: nat)
    ensures
        pow10(k) >= 1,
    decreases k,
{
    if k > 0 {
        lemma_pow10_pos((k - 1) as nat);
    }
}

/// A digit string's value is never negative.
pub proof fn lemma_digits_val_nonneg(s: Seq<char>)
    requires
        all_digits(s),
    ensures
        digits_val(s) >= 0,
    decreases s.len(),
{
    if s.len() > 0 {
        assert(all_digits(s.drop_last())) by {
            assert forall|i: int| 0 <= i < s.drop_last().len() implies is_digit(
                s.drop_last()[i],
            ) by {
                assert(s.drop_last()[i] == s[i]);
            }
        }
        lemma_digits_val_nonneg(s.drop_last());
        assert(is_digit(s.last()));
    }
}

/// A digit string of length k has a value below ten to the k.
pub proof fn lemma_digits_val_upper(s: Seq<char>)
    requires
        all_digits(s),
    ensures
        digits_val(s) < pow10(s.len()),
    decreases s.len(),
{
    if s.len() == 0 {
    } else {
        assert(all_digits(s.drop_last())) by {
            assert forall|i: int| 0 <= i < s.drop_last().len() implies is_digit(
                s.drop_last()[i],
            ) by {
                assert(s.drop_last()[i] == s[i]);
            }
        }
        lemma_digits_val_upper(s.drop_last());
        assert(is_digit(s.last()));
    }
}

/// Extending a digit string on the right never lowers its value.
pub proof fn lemma_digits_val_prefix(s: Seq<char>, k: int)
    requires
        all_digits(s),
        0 <= k <= s.len(),
    ensures
        digits_val(s.subrange(0, k)) <= digits_val(s),
    decreases s.len() - k,
{
    if k == s.len() {
        assert(s.subrange(0, k) =~= s);
    } else {
        lemma_digits_val_prefix(s, k + 1);
        let longer = s.subrange(0, k + 1);
        assert(longer.drop_last() =~= s.subrange(0, k));
        assert(longer.last() == s[k]);
        assert(all_digits(s.subrange(0, k))) by {
            assert forall|i: int| 0 <= i < k implies is_digit(s.subrange(0, k)[i]) by {
                assert(s.subrange(0, k)[i] == s[i]);
            }
        }
        lemma_digits_val_nonneg(s.subrange(0, k));
        assert(is_digit(s[k]));
    }
}

/// The index of the first occurrence of `c` in `s`, or -1 if there is
/// none.
pub open spec fn find_ch(s: Seq<char>, c: char) -> int
    decreases s.len(),
{
    if s.len() == 0 {
        -1
    } else if s[0] == c {
        0
    } else {
        let r = find_ch(s.subrange(1, s.len() as int), c);
        if r == -1 {
            -1
        } else {
            r + 1
        }
    }
}

/// The first-occurrence index is what its name says: -1 exactly when `c`
/// does not occur, and otherwise the least index holding `c`.
pub proof fn lemma_find_ch(s: Seq<char>, c: char)
    ensures
        find_ch(s, c) == -1 <==> (forall|j: int| 0 <= j < s.len() ==> s[j] != c),
        find_ch(s, c) != -1 ==> 0 <= find_ch(s, c) < s.len() && s[find_ch(s, c)] == c && (forall|
            j: int,
        | 0 <= j < find_ch(s, c) ==> s[j] != c),
    decreases s.len(),
{
    if s.len() == 0 {
    } else if s[0] == c {
    } else {
        let t = s.subrange(1, s.len() as int);
        lemma_find_ch(t, c);
        let r = find_ch(t, c);
        if r == -1 {
            assert forall|j: int| 0 <= j < s.len() implies s[j] != c by {
                if j >= 1 {
                    assert(t[j - 1] == s[j]);
                }
            }
        } else {
            assert(t[r] == s[r + 1]);
            assert forall|j: int| 0 <= j < r + 1 implies s[j] != c by {
                if j >= 1 {
                    assert(t[j - 1] == s[j]);
                }
            }
        }
    }
}

/// Finds the first occurrence of `c` in `s`.
pub fn find_char(s: &str, c: char) -> (r: Option<usize>)
    ensures
        match r {
            Some(i) => i < s@.len() && find_ch(s@, c) == i,
            None => find_ch(s@, c) == -1,
        },
{
    let n = s.unicode_len();
    let mut i: usize = 0;
    while i < n
        invariant
            i <= n,
            n == s@.len(),
            forall|j: int| 0 <= j < i ==> s@[j] != c,
        decreases n - i,
    {
        let ch = s.get_char(i);
        if ch == c {
            proof {
                lemma_find_ch(s@, c);
            }
            return Some(i);
        }
        i = i + 1;
    }
    proof {
        lemma_find_ch(s@, c);
    }
    None
}

/// Reads `s[from..to]` as an unsigned decimal numeral. The read succeeds
/// exactly when the range is nonempty, holds digits only, and its value
/// fits in a `u64`.
pub fn parse_digits(s: &str, from: usize, to: usize) -> (r: Option<u64>)
    requires
        from <= to <= s@.len(),
    ensures
        r is Some <==> (from < to && all_digits(s@.subrange(from as int, to as int)) && digits_val(
            s@.subrange(from as int, to as int),
        ) <= u64::MAX),
        r is Some ==> r->Some_0 == digits_val(s@.subrange(from as int, to as int)),
{
    if from >= to {
        return None;
    }
    let ghost range = s@.subrange(from as int, to as int);
    let mut acc: u64 = 0;
    let mut i = from;
    while i < to
        invariant
            from <= i <= to <= s@.len(),
            range == s@.subrange(from as int, to as int),
            all_digits(s@.subrange(from as int, i as int)),
            acc == digits_val(s@.subrange(from as int, i as int)),
        decreases to - i,
    {
        let ch = s.get_char(i);
        let u = ch as u32;
        let ghost pre = s@.subrange(from as int, i as int);
        let ghost ext = s@.subrange(from as int, i as int + 1);
        proof {
            assert(ext =~= pre.push(s@[i as int]));
            assert(ext.drop_last() =~= pre);
        }
        if u < 48 || u > 57 {
            proof {
                assert(range[i - from] == s@[i as int]);
                assert(!is_digit(range[i - from]));
            }
            return None;
        }
        let d = (u - 48) as u64;
        if acc > (u64::MAX - d) / 10 {
            proof {
                lemma_fundamental_div_mod(u64::MAX - d, 10);
                lemma_mod_bound(u64::MAX - d, 10);
                assert(digits_val(ext) == acc * 10 + d);
                assert(digits_val(ext) > u64::MAX);
                if all_digits(range) {
                    assert(range.subrange(0, i as int + 1 - from) =~= ext);
                    lemma_digits_val_prefix(range, i as int + 1 - from);
                }
            }
            return None;
        }
        proof {
            lemma_fundamental_div_mod(u64::MAX - d, 10);
            lemma_mod_bound(u64::MAX - d, 10);
        }
        acc = acc * 10 + d;
        i = i + 1;
    }
    proof {
        assert(s@.subrange(from as int, i as int) =~= range);
    }
    Some(acc)
}

/// The sign carried by a leading '-', as a factor.
pub open spec fn sign_of(s: Seq<char>) -> int {
    if s.len() > 0 && s[0] == '-' {
        -1
    } else {
        1
    }
}

/// The text after any single leading sign character.
pub open spec fn sign_body(s: Seq<char>) -> Seq<char> {
    if s.len() > 0 && (s[0] == '-' || s[0] == '+') {
        s.subrange(1, s.len() as int)
    } else {
        s
    }
}

/// A type whose values have a decimal text form.
pub trait FromText: Sized {
    /// What a whole piece of text reads as, if anything.
    spec fn parse_spec(s: Seq<char>) -> Option<Self>;

    /// Reads a value from the whole of `s`.
    fn parse_text(s: &str) -> (r: Option<Self>)
        ensures
            r == Self::parse_spec(s@),
    ;
}

/// What text reads as an unsigned size: an optional '+', then digits whose
/// value fits the type.
pub open spec fn usize_parse_spec(s: Seq<char>) -> Option<usize> {
    let b = if s.len() > 0 && s[0] == '+' {
        s.subrange(1, s.len() as int)
    } else {
        s
    };
    if b.len() > 0 && all_digits(b) && digits_val(b) <= usize::MAX {
        Some(digits_val(b) as usize)
    } else {
        None
    }
}

impl FromText for usize {
    open spec fn parse_spec(s: Seq<char>) -> Option<usize> {
        usize_parse_spec(s)
    }

    fn parse_text(s: &str) -> (r: Option<usize>) {
        let n = s.unicode_len();
        let start: usize = if n > 0 && s.get_char(0) == '+' {
            1
        } else {
            0
        };
        proof {
            assert(s@.subrange(0, s@.len() as int) =~= s@);
            assert(usize::MAX as int <= u64::MAX as int);
        }
        match parse_digits(s, start, n) {
            None => None,
            Some(v) => {
                if v <= usize::MAX as u64 {
                    Some(v as usize)
                } else {
                    None
                }
            },
        }
    }
}

/// What text reads as an i32: an optional sign, then digits whose signed
/// value fits the type.
pub open spec fn i32_parse_spec(s: Seq<char>) -> Option<i32> {
    let b = sign_body(s);
    let v = digits_val(b) * sign_of(s);
    if b.len() > 0 && all_digits(b) && i32::MIN <= v <= i32::MAX {
        Some(v as i32)
    } else {
        None
    }
}

impl FromText for i32 {
    open spec fn parse_spec(s: Seq<char>) -> Option<i32> {
        i32_parse_spec(s)
    }

    fn parse_text(s: &str) -> (r: Option<i32>) {
        let n = s.unicode_len();
        let mut neg = false;
        let mut start: usize = 0;
        if n > 0 {
            let c0 = s.get_char(0);
            if c0 == '-' {
                neg = true;
                start = 1;
            } else if c0 == '+' {
                start = 1;
            }
        }
        proof {
            assert(s@.subrange(0, s@.len() as int) =~= s@);
        }
        match parse_digits(s, start, n) {
            None => None,
            Some(v) => {
                if neg {
                    if v <= 0x8000_0000u64 {
                        Some((-(v as i64)) as i32)
                    } else {
                        None
                    }
                } else {
                    if v <= 0x7fff_ffffu64 {
                        Some(v as i32)
                    } else {
                        None
                    }
                }
            },
        }
    }
}

/// What splitting at the first separator and reading each side yields.
pub open spec fn parse_pair_spec<T: FromText>(s: Seq<char>, separator: char) -> Option<(T, T)> {
    let i = find_ch(s, separator);
    if i == -1 {
        None
    } else {
        match (T::parse_spec(s.subrange(0, i)), T::parse_spec(
            s.subrange(i + 1, s.len() as int),
        )) {
            (Some(l), Some(r)) => Some((l, r)),
            _ => None,
        }
    }
}

pub proof fn lemma_pow10_mono(a: nat, b: nat)
    requires
        a <= b,
    ensures
        pow10(a) <= pow10(b),
    decreases b,
{
    if a < b {
        lemma_pow10_mono(a, (b - 1) as nat);
        lemma_pow10_pos((b - 1) as nat);
    }
}

proof fn lemma_pow10_19()
    ensures
        pow10(18) == 1_000_000_000_000_000_000,
        pow10(19) == 10_000_000_000_000_000_000,
{
    reveal_with_fuel(pow10, 21);
}

/// Ten to the power k, computed exactly.
fn pow10_u128(k: usize) -> (r: u128)
    requires
        k <= 19,
    ensures
        r == pow10(k as nat),
{
    let mut r: u128 = 1;
    let mut i: usize = 0;
    while i < k
        invariant
            i <= k <= 19,
            r == pow10(i as nat),
        decreases k - i,
    {
        proof {
            lemma_pow10_mono(i as nat, 18);
            lemma_pow10_19();
        }
        r = r * 10;
        i = i + 1;
    }
    r
}

/// The raw magnitude that an unsigned fixed-point numeral stands for, if
/// it is well formed: whole digits, optionally a '.' and one to nineteen
/// fractional digits, scaled by SCALE with the tail rounded toward zero.
pub open spec fn fixed_mag_spec(b: Seq<char>) -> Option<int> {
    let d = find_ch(b, '.');
    if d == -1 {
        if b.len() > 0 && all_digits(b) {
            Some(digits_val(b) * (SCALE as int))
        } else {
            None
        }
    } else {
        let ip = b.subrange(0, d);
        let fp = b.subrange(d + 1, b.len() as int);
        if ip.len() > 0 && 1 <= fp.len() <= 19 && all_digits(ip) && all_digits(fp) {
            Some(
                digits_val(ip) * (SCALE as int) + (digits_val(fp) * (SCALE as int)) / pow10(
                    fp.len(),
                ),
            )
        } else {
            None
        }
    }
}

/// What text reads as a fixed-point number: an optional sign, then an
/// unsigned fixed-point numeral whose scaled magnitude fits the type.
pub open spec fn fixed_parse_spec(s: Seq<char>) -> Option<Fixed> {
    let b = sign_body(s);
    match fixed_mag_spec(b) {
        None => None,
        Some(m) => if m <= i64::MAX {
            Some(Fixed { raw: (m * sign_of(s)) as i64 })
        } else {
            None
        },
    }
}

/// Reads the scaled magnitude of an unsigned fixed-point numeral from the
/// whole of `b`; magnitudes beyond what an i64 can hold may come back
/// either way, and the caller screens them out.
fn parse_mag(b: &str) -> (r: Option<u128>)
    ensures
        r is Some ==> fixed_mag_spec(b@) == Some(r->Some_0 as int),
        r is None ==> match fixed_mag_spec(b@) {
            None => true,
            Some(m) => m > i64::MAX,
        },
{
    let bn = b.unicode_len();
    match find_char(b, '.') {
        None => {
            match parse_digits(b, 0, bn) {
                None => {
                    proof {
                        assert(b@.subrange(0, bn as int) =~= b@);
                        if all_digits(b@) && bn > 0 {
                            assert(digits_val(b@) > u64::MAX);
                            assert(SCALE == 65536);
                            assert(digits_val(b@) * 65536 > i64::MAX) by (nonlinear_arith)
                                requires digits_val(b@) > u64::MAX;
                        }
                    }
                    None
                },
                Some(v) => {
                    proof {
                        assert(b@.subrange(0, bn as int) =~= b@);
                        assert(SCALE == 65536);
                    }
                    Some((v as u128) * 65536)
                },
            }
        },
        Some(dt) => {
            let k = bn - dt - 1;
            if dt == 0 || k == 0 || k > 19 {
                return None;
            }
            let ghost ip = b@.subrange(0, dt as int);
            let ghost fp = b@.subrange(dt as int + 1, bn as int);
            match parse_digits(b, 0, dt) {
                None => {
                    proof {
                        if all_digits(ip) && all_digits(fp) {
                            assert(digits_val(ip) > u64::MAX);
                            assert(SCALE == 65536);
                            lemma_frac_term_nonneg(fp);
                            assert(digits_val(ip) * 65536 > i64::MAX) by (nonlinear_arith)
                                requires digits_val(ip) > u64::MAX;
                        }
                    }
                    None
                },
                Some(iv) => {
                    match parse_digits(b, dt + 1, bn) {
                        None => {
                            proof {
                                if all_digits(fp) {
                                    lemma_digits_val_nonneg(fp);
                                    lemma_digits_val_upper(fp);
                                    lemma_pow10_mono(fp.len(), 19);
                                    lemma_pow10_19();
                                }
                            }
                            None
                        },
                        Some(fv) => {
                            let p10 = pow10_u128(k);
                            proof {
                                lemma_pow10_pos(k as nat);
                                assert(SCALE == 65536);
                                lemma_div_nonincreasing((fv as int) * 65536, p10 as int);
                            }
                            let frac: u128 = ((fv as u128) * 65536) / p10;
                            Some((iv as u128) * 65536 + frac)
                        },
                    }
                },
            }
        },
    }
}

/// The fractional contribution of a digit tail is never negative.
proof fn lemma_frac_term_nonneg(fp: Seq<char>)
    requires
        all_digits(fp),
    ensures
        (digits_val(fp) * (SCALE as int)) / pow10(fp.len()) >= 0,
{
    lemma_digits_val_nonneg(fp);
    lemma_pow10_pos(fp.len());
    assert(SCALE == 65536);
    lemma_fundamental_div_mod_converse(0, pow10(fp.len()), 0, 0);
    lemma_div_is_ordered(0, digits_val(fp) * 65536, pow10(fp.len()));
}

impl FromText for Fixed {
    open spec fn parse_spec(s: Seq<char>) -> Option<Fixed> {
        fixed_parse_spec(s)
    }

    fn parse_text(s: &str) -> (r: Option<Fixed>) {
        let n = s.unicode_len();
        let mut neg = false;
        let mut start: usize = 0;
        if n > 0 {
            let c0 = s.get_char(0);
            if c0 == '-' {
                neg = true;
                start = 1;
            } else if c0 == '+' {
                start = 1;
            }
        }
        let body = s.substring_char(start, n);
        proof {
            assert(s@.subrange(0, s@.len() as int) =~= s@);
        }
        match parse_mag(body) {
            None => None,
            Some(mag) => {
                if mag > 0x7fff_ffff_ffff_ffff {
                    None
                } else {
                    if neg {
                        Some(Fixed { raw: -(mag as i64) })
                    } else {
                        Some(Fixed { raw: mag as i64 })
                    }
                }
            },
        }
    }
}

/// What a comma-separated pair of coordinates reads as.
pub open spec fn parse_complex_spec(s: Seq<char>) -> Option<Complex> {
    match parse_pair_spec::<Fixed>(s, ',') {
        Some(p) => Some(Complex { re: p.0, im: p.1 }),
        None => None,
    }
}

/// Reads a complex point written as "RE,IM".
pub fn parse_complex(s: &str) -> (r: Option<Complex>)
    ensures
        r == parse_complex_spec(s@),
{
    match parse_pair::<Fixed>(s, ',') {
        Some(p) => Some(Complex::new(p.0, p.1)),
        None => None,
    }
}

/// Splits `s` at the first occurrence of `separator` and reads a value of
/// `T` from each side; both sides must parse for the pair to come back.
pub fn parse_pair<T: FromText>(s: &str, separator: char) -> (r: Option<(T, T)>)
    ensures
        r == parse_pair_spec::<T>(s@, separator),
{
    let n = s.unicode_len();
    match find_char(s, separator) {
        None => None,
        Some(i) => {
            let left = s.substring_char(0, i);
            let right = s.substring_char(i + 1, n);
            let lv = T::parse_text(left);
            let rv = T::parse_text(right);
            match (lv, rv) {
                (Some(l), Some(r)) => Some((l, r)),
                _ => None,
            }
        },
    }
}

} // verus!
