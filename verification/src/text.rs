//! Verified text helpers: decimal fields, case folding, and splitting.
use vstd::prelude::*;
use vstd::string::StrSliceExecFns;

verus! {

pub open spec fn is_digit(c: char) -> bool {
    '0' <= c && c <= '9'
}

pub open spec fn digit_val(c: char) -> int {
    c as int - '0' as int
}

pub open spec fn all_digits(s: Seq<char>) -> bool {
    forall|i: int| 0 <= i < s.len() ==> is_digit(#[trigger] s[i])
}

/// The value of a string of decimal digits, most significant first.
pub open spec fn digits_val(s: Seq<char>) -> int
    decreases s.len(),
{
    if s.len() == 0 {
        0
    } else {
        digits_val(s.drop_last()) * 10 + digit_val(s.last())
    }
}

pub proof fn lemma_digits_val_bound(s: Seq<char>)
    requires
        all_digits(s),
    ensures
        0 <= digits_val(s),
        s.len() <= 9 ==> digits_val(s) < 1_000_000_000,
        s.len() <= 10 ==> digits_val(s) < 10_000_000_000,
{
    lemma_digits_val_pow(s);
    if s.len() <= 10 {
        lemma_pow10_mono(s.len() as nat, 10);
        assert(pow10(9) == 1_000_000_000 && pow10(10) == 10_000_000_000) by {
            reveal_with_fuel(pow10, 11);
        };
        if s.len() <= 9 {
            lemma_pow10_mono(s.len() as nat, 9);
        }
    }
}

pub proof fn lemma_pow10_mono(a: nat, b: nat)
    requires
        a <= b,
    ensures
        pow10(a) <= pow10(b),
        pow10(a) >= 1,
    decreases b,
{
    if a < b {
        lemma_pow10_mono(a, (b - 1) as nat);
        assert(pow10(b) == 10 * pow10((b - 1) as nat));
    } else if b > 0 {
        lemma_pow10_mono((a - 1) as nat, (b - 1) as nat);
    }
}

pub open spec fn pow10(n: nat) -> int
    decreases n,
{
    if n == 0 { 1 } else { 10 * pow10((n - 1) as nat) }
}

pub proof fn lemma_digits_val_pow(s: Seq<char>)
    requires
        all_digits(s),
    ensures
        0 <= digits_val(s) < pow10(s.len() as nat),
    decreases s.len(),
{
    if s.len() > 0 {
        assert(all_digits(s.drop_last())) by {
            assert(forall|i: int|
                0 <= i < s.len() - 1 ==> s.drop_last()[i] == #[trigger] s[i]);
        };
        lemma_digits_val_pow(s.drop_last());
        let v = digits_val(s.drop_last());
        let p = pow10((s.len() - 1) as nat);
        assert(v <= p - 1);
        assert(v * 10 <= (p - 1) * 10) by (nonlinear_arith)
            requires v <= p - 1;
    }
}

/// Reads the decimal field `s[from..to]`: `Some` exactly when every character
/// there is a digit, and then its value.
pub fn parse_fixed_u32(s: &str, from: usize, to: usize) -> (r: Option<u32>)
    requires
        from <= to <= s@.len(),
        to - from <= 9,
    ensures
        match r {
            Some(v) => all_digits(s@.subrange(from as int, to as int)) && v == digits_val(
                s@.subrange(from as int, to as int),
            ),
            None => !all_digits(s@.subrange(from as int, to as int)),
        },
{
    let mut i = from;
    let mut acc: u32 = 0;
    proof {
        assert(s@.subrange(from as int, from as int) =~= Seq::<char>::empty());
    }
    while i < to
        invariant
            from <= i <= to <= s@.len(),
            to - from <= 9,
            all_digits(s@.subrange(from as int, i as int)),
            acc == digits_val(s@.subrange(from as int, i as int)),
            acc < 1_000_000_000,
        decreases to - i,
    {
        let c = s.get_char(i);
        if c < '0' || c > '9' {
            proof {
                assert(s@.subrange(from as int, to as int)[i - from] == s@[i as int]);
            }
            return None;
        }
        let d: u32 = (c as u32) - 48;
        proof {
            let pre = s@.subrange(from as int, i as int);
            let post = s@.subrange(from as int, i as int + 1);
            assert(post.drop_last() =~= pre);
            assert(post.last() == s@[i as int]);
            assert(all_digits(post)) by {
                assert(forall|j: int| 0 <= j < post.len() ==> post[j] == #[trigger] s@[from + j]);
            };
            lemma_digits_val_bound(post);
        }
        acc = acc * 10 + d;
        i = i + 1;
    }
    proof {
        assert(s@.subrange(from as int, to as int) =~= s@.subrange(from as int, i as int));
    }
    Some(acc)
}

/// Reads the decimal field `s[from..to]`: `Some` exactly when every character
/// there is a digit, and then its value.
pub fn parse_fixed_u64(s: &str, from: usize, to: usize) -> (r: Option<u64>)
    requires
        from <= to <= s@.len(),
        to - from <= 10,
    ensures
        match r {
            Some(v) => all_digits(s@.subrange(from as int, to as int)) && v == digits_val(
                s@.subrange(from as int, to as int),
            ),
            None => !all_digits(s@.subrange(from as int, to as int)),
        },
{
    let mut i = from;
    let mut acc: u64 = 0;
    proof {
        assert(s@.subrange(from as int, from as int) =~= Seq::<char>::empty());
    }
    while i < to
        invariant
            from <= i <= to <= s@.len(),
            to - from <= 10,
            all_digits(s@.subrange(from as int, i as int)),
            acc == digits_val(s@.subrange(from as int, i as int)),
            acc < 10_000_000_000,
        decreases to - i,
    {
        let c = s.get_char(i);
        if c < '0' || c > '9' {
            proof {
                assert(s@.subrange(from as int, to as int)[i - from] == s@[i as int]);
            }
            return None;
        }
        let d: u64 = (c as u32) as u64 - 48;
        proof {
            let pre = s@.subrange(from as int, i as int);
            let post = s@.subrange(from as int, i as int + 1);
            assert(post.drop_last() =~= pre);
            assert(post.last() == s@[i as int]);
            assert(all_digits(post)) by {
                assert(forall|j: int| 0 <= j < post.len() ==> post[j] == #[trigger] s@[from + j]);
            };
            lemma_digits_val_bound(post);
        }
        acc = acc * 10 + d;
        i = i + 1;
    }
    proof {
        assert(s@.subrange(from as int, to as int) =~= s@.subrange(from as int, i as int));
    }
    Some(acc)
}

/// The index of the first `sep` in `s`, or `s.len()` when there is none.
pub open spec fn find_ch(s: Seq<char>, sep: char) -> int
    decreases s.len(),
{
    if s.len() == 0 {
        0
    } else if s[0] == sep {
        0
    } else {
        1 + find_ch(s.drop_first(), sep)
    }
}

pub proof fn lemma_find_ch(s: Seq<char>, sep: char)
    ensures
        0 <= find_ch(s, sep) <= s.len(),
        find_ch(s, sep) < s.len() ==> s[find_ch(s, sep)] == sep,
        forall|j: int| 0 <= j < find_ch(s, sep) ==> s[j] != sep,
    decreases s.len(),
{
    if s.len() > 0 && s[0] != sep {
        lemma_find_ch(s.drop_first(), sep);
        assert forall|j: int| 0 <= j < find_ch(s, sep) implies s[j] != sep by {
            if j >= 1 {
                assert(s.drop_first()[j - 1] == s[j]);
            }
        };
    }
}

/// The first index in `[from, s.len())` holding `sep`, or `s.len()`.
pub proof fn lemma_find_ch_at(s: Seq<char>, sep: char, k: int)
    requires
        0 <= k <= s.len(),
        forall|j: int| 0 <= j < k ==> s[j] != sep,
        k < s.len() ==> s[k] == sep,
    ensures
        find_ch(s, sep) == k,
    decreases s.len(),
{
    if s.len() > 0 && s[0] != sep {
        assert(k >= 1);
        assert(forall|j: int|
            0 <= j < k - 1 ==> s.drop_first()[j] == #[trigger] s[j + 1]);
        lemma_find_ch_at(s.drop_first(), sep, k - 1);
    }
}

/// `s` split at every `sep`, separators dropped, empty parts kept.
pub open spec fn split_ch(s: Seq<char>, sep: char) -> Seq<Seq<char>>
    decreases s.len(),
    via split_ch_dec
{
    let i = find_ch(s, sep);
    if i >= s.len() {
        seq![s]
    } else {
        seq![s.subrange(0, i)] + split_ch(s.subrange(i + 1, s.len() as int), sep)
    }
}

#[via_fn]
proof fn split_ch_dec(s: Seq<char>, sep: char) {
    lemma_find_ch(s, sep);
}

/// Splitting a string whose head up to `k` is separator-free peels one part.
pub proof fn lemma_split_ch_step(s: Seq<char>, sep: char, k: int)
    requires
        0 <= k < s.len(),
        forall|j: int| 0 <= j < k ==> s[j] != sep,
        s[k] == sep,
    ensures
        split_ch(s, sep) == seq![s.subrange(0, k)] + split_ch(
            s.subrange(k + 1, s.len() as int),
            sep,
        ),
{
    lemma_find_ch_at(s, sep, k);
}

pub proof fn lemma_split_ch_last(s: Seq<char>, sep: char)
    requires
        forall|j: int| 0 <= j < s.len() ==> s[j] != sep,
    ensures
        split_ch(s, sep) == seq![s],
{
    lemma_find_ch_at(s, sep, s.len() as int);
}

/// Splits `s` at `sep`, keeping empty parts, as `split_ch` describes.
pub fn split_str(s: &str, sep: char) -> (r: Vec<String>)
    ensures
        r.deep_view() == split_ch(s@, sep),
        r.len() >= 1,
{
    let n = s.unicode_len();
    let mut parts: Vec<String> = Vec::new();
    let mut start: usize = 0;
    let mut i: usize = 0;
    proof {
        assert(s@.subrange(0, n as int) =~= s@);
        assert(parts.deep_view() =~= Seq::<Seq<char>>::empty());
        assert(parts.deep_view() + split_ch(s@, sep) =~= split_ch(s@, sep));
    }
    while i < n
        invariant
            n == s@.len(),
            0 <= start <= i <= n,
            parts.deep_view() + split_ch(s@.subrange(start as int, n as int), sep) == split_ch(
                s@,
                sep,
            ),
            forall|j: int| start <= j < i ==> s@[j] != sep,
        decreases n - i,
    {
        let c = s.get_char(i);
        if c == sep {
            let part = s.substring_char(start, i).to_owned();
            proof {
                let tail = s@.subrange(start as int, n as int);
                assert(forall|j: int|
                    0 <= j < tail.len() ==> tail[j] == #[trigger] s@[start + j]);
                lemma_split_ch_step(tail, sep, i - start);
                assert(tail.subrange(0, i - start) =~= s@.subrange(start as int, i as int));
                assert(tail.subrange(i - start + 1, tail.len() as int) =~= s@.subrange(
                    i as int + 1,
                    n as int,
                ));
                assert(part@ == s@.subrange(start as int, i as int));
            }
            let ghost old_parts = parts.deep_view();
            parts.push(part);
            proof {
                assert(parts.deep_view() =~= old_parts.push(part@));
                assert(parts.deep_view() + split_ch(s@.subrange(i as int + 1, n as int), sep)
                    =~= split_ch(s@, sep));
            }
            start = i + 1;
        }
        i = i + 1;
    }
    let part = s.substring_char(start, n).to_owned();
    proof {
        let tail = s@.subrange(start as int, n as int);
        assert(forall|j: int| 0 <= j < tail.len() ==> tail[j] == #[trigger] s@[start + j]);
        lemma_split_ch_last(tail, sep);
        assert(part@ == tail);
    }
    let ghost old_parts = parts.deep_view();
    parts.push(part);
    proof {
        assert(parts.deep_view() =~= old_parts.push(part@));
        assert(parts.deep_view() =~= split_ch(s@, sep));
        assert(parts.deep_view().len() == parts.len());
    }
    parts
}

/// `s` with its leading zero characters removed.
pub open spec fn strip_zeros(s: Seq<char>) -> Seq<char>
    decreases s.len(),
{
    if s.len() > 0 && s[0] == '0' {
        strip_zeros(s.drop_first())
    } else {
        s
    }
}

/// Leading zeros carry no value.
pub proof fn lemma_digits_val_zeros(s: Seq<char>, k: int)
    requires
        0 <= k <= s.len(),
        forall|j: int| 0 <= j < k ==> s[j] == '0',
    ensures
        digits_val(s) == digits_val(s.skip(k)),
    decreases s.len(),
{
    if k == s.len() {
        assert(s.skip(k) =~= Seq::<char>::empty());
        lemma_digits_val_all_zeros(s);
    } else if s.len() > 0 {
        assert(forall|j: int| 0 <= j < k ==> s.drop_last()[j] == #[trigger] s[j]);
        lemma_digits_val_zeros(s.drop_last(), k);
        assert(s.skip(k).drop_last() =~= s.drop_last().skip(k));
        assert(s.skip(k).last() == s.last());
    }
}

pub proof fn lemma_digits_val_all_zeros(s: Seq<char>)
    requires
        forall|j: int| 0 <= j < s.len() ==> s[j] == '0',
    ensures
        digits_val(s) == 0,
    decreases s.len(),
{
    if s.len() > 0 {
        assert(forall|j: int| 0 <= j < s.len() - 1 ==> s.drop_last()[j] == #[trigger] s[j]);
        lemma_digits_val_all_zeros(s.drop_last());
        assert(s.last() == '0');
    }
}

/// A prefix of zeros strips away exactly.
pub proof fn lemma_strip_zeros_at(s: Seq<char>, k: int)
    requires
        0 <= k <= s.len(),
        forall|j: int| 0 <= j < k ==> s[j] == '0',
        k == s.len() || s[k] != '0',
    ensures
        strip_zeros(s) == s.skip(k),
    decreases k,
{
    if k == 0 {
        assert(s.skip(0) =~= s);
    } else {
        assert(s[0] == '0');
        assert(forall|j: int| 0 <= j < k - 1 ==> s.drop_first()[j] == #[trigger] s[j + 1]);
        lemma_strip_zeros_at(s.drop_first(), k - 1);
        assert(s.drop_first().skip(k - 1) =~= s.skip(k));
    }
}

/// The value of an optionally signed decimal string, `None` when malformed
/// or outside `[lo, hi]` (the `str::parse` overflow rule). Leading zeros
/// carry no value and do not count against the ten-digit window.
pub open spec fn signed_val_in(s: Seq<char>, lo: int, hi: int) -> Option<int> {
    let (neg, digits) = if s.len() > 0 && s[0] == '-' {
        (true, s.drop_first())
    } else if s.len() > 0 && s[0] == '+' {
        (false, s.drop_first())
    } else {
        (false, s)
    };
    if digits.len() == 0 || !all_digits(digits) || strip_zeros(digits).len() > 10 {
        None
    } else {
        let v = if neg {
            -digits_val(digits)
        } else {
            digits_val(digits)
        };
        if lo <= v <= hi {
            Some(v)
        } else {
            None
        }
    }
}

/// Reads an optionally signed decimal number within `[lo, hi]`.
pub fn parse_signed(s: &str, lo: i64, hi: i64) -> (r: Option<i64>)
    requires
        -10_000_000_000 <= lo <= hi <= 10_000_000_000,
    ensures
        match r {
            Some(v) => signed_val_in(s@, lo as int, hi as int) == Some(v as int),
            None => signed_val_in(s@, lo as int, hi as int) is None,
        },
{
    let n = s.unicode_len();
    if n == 0 {
        return None;
    }
    let c0 = s.get_char(0);
    let (neg, from) = if c0 == '-' {
        (true, 1usize)
    } else if c0 == '+' {
        (false, 1usize)
    } else {
        (false, 0usize)
    };
    proof {
        if from == 1 {
            assert(s@.drop_first() =~= s@.subrange(1, n as int));
        } else {
            assert(s@ =~= s@.subrange(0, n as int));
        }
    }
    if n - from == 0 {
        return None;
    }
    let ghost digits = s@.subrange(from as int, n as int);
    let mut z = from;
    while z < n && s.get_char(z) == '0'
        invariant
            from <= z <= n,
            n == s@.len(),
            forall|j: int| from <= j < z ==> s@[j] == '0',
        decreases n - z,
    {
        z = z + 1;
    }
    proof {
        assert(forall|j: int| 0 <= j < z - from ==> digits[j] == #[trigger] s@[from + j]);
        if z < n {
            assert(digits[z - from] == s@[z as int]);
        }
        lemma_strip_zeros_at(digits, z - from);
        assert(digits.skip(z - from) =~= s@.subrange(z as int, n as int));
    }
    if n - z > 10 {
        proof {
            if all_digits(digits) {
                assert(strip_zeros(digits).len() > 10);
            }
        }
        return None;
    }
    let mag = match parse_fixed_u64(s, z, n) {
        Some(v) => v,
        None => {
            proof {
                let tail = s@.subrange(z as int, n as int);
                assert(!all_digits(tail));
                assert(!all_digits(digits)) by {
                    if all_digits(digits) {
                        assert forall|j: int| 0 <= j < tail.len() implies is_digit(
                            #[trigger] tail[j],
                        ) by {
                            assert(tail[j] == digits[j + (z - from)]);
                        };
                    }
                };
            }
            return None;
        },
    };
    proof {
        lemma_digits_val_bound(s@.subrange(z as int, n as int));
        lemma_digits_val_zeros(digits, z - from);
        assert(digits.skip(z - from) =~= s@.subrange(z as int, n as int));
        assert(all_digits(digits)) by {
            assert forall|j: int| 0 <= j < digits.len() implies is_digit(#[trigger] digits[j]) by {
                if j >= z - from {
                    assert(digits[j] == s@.subrange(z as int, n as int)[j - (z - from)]);
                } else {
                    assert(digits[j] == '0');
                }
            };
        };
    }
    let v: i64 = if neg {
        -(mag as i64)
    } else {
        mag as i64
    };
    if v < lo || v > hi {
        return None;
    }
    Some(v)
}

/// The scalar value of a character after ASCII upper-casing.
pub open spec fn upper_code(c: char) -> int {
    if 'a' <= c && c <= 'z' {
        c as int - 32
    } else {
        c as int
    }
}

pub open spec fn upper_codes(s: Seq<char>) -> Seq<int> {
    s.map_values(|c: char| upper_code(c))
}

fn upper_code_x(c: char) -> (r: u32)
    ensures
        r == upper_code(c),
{
    let u = c as u32;
    if c >= 'a' && c <= 'z' {
        u - 32
    } else {
        u
    }
}

/// Whether `s` equals `t` up to ASCII case.
pub fn eq_ignore_case(s: &str, t: &str) -> (r: bool)
    ensures
        r == (upper_codes(s@) == upper_codes(t@)),
{
    let n = s.unicode_len();
    let m = t.unicode_len();
    if n != m {
        proof {
            assert(upper_codes(s@).len() == s@.len());
            assert(upper_codes(t@).len() == t@.len());
        }
        return false;
    }
    let mut i: usize = 0;
    while i < n
        invariant
            n == s@.len() && n == t@.len(),
            0 <= i <= n,
            forall|j: int| 0 <= j < i ==> upper_code(s@[j]) == upper_code(t@[j]),
        decreases n - i,
    {
        let a = s.get_char(i);
        let b = t.get_char(i);
        if upper_code_x(a) != upper_code_x(b) {
            proof {
                assert(upper_codes(s@)[i as int] == upper_code(s@[i as int]));
                assert(upper_codes(t@)[i as int] == upper_code(t@[i as int]));
            }
            return false;
        }
        i = i + 1;
    }
    proof {
        assert(upper_codes(s@) =~= upper_codes(t@));
    }
    true
}

} // verus!
