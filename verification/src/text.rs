//! Verified text helpers shared by the parsing modules.
//!
//! Everything is specified over `Seq<char>` views. Case folding, trimming
//! and number parsing are deliberately ASCII-only: the header and cookie
//! grammars they serve are ASCII grammars.

use vstd::prelude::*;

verus! {

/// ASCII whitespace, the characters trimmed from header fragments.
pub open spec fn is_space(c: char) -> bool {
    c == ' ' || c == '\t' || c == '\r' || c == '\n'
}

/// ASCII decimal digit.
pub open spec fn is_digit(c: char) -> bool {
    '0' <= c && c <= '9'
}

/// The numeric value of an ASCII digit.
pub open spec fn digit_val(c: char) -> int {
    c as int - '0' as int
}

/// An ASCII uppercase letter folded to lowercase; anything else is kept.
pub open spec fn lower_char(c: char) -> char {
    if 'A' <= c && c <= 'Z' {
        ((c as u8) + 32) as char
    } else {
        c
    }
}

/// Characterwise ASCII lowercasing.
pub open spec fn lower_seq(s: Seq<char>) -> Seq<char> {
    s.map_values(|c: char| lower_char(c))
}

/// Relies on `String::push`: appends exactly the one character.
#[verifier::external_body]
fn push_char(s: &mut String, c: char)
    ensures
        final(s)@ == old(s)@.push(c),
{
    s.push(c);
}

/// Folds ASCII uppercase letters to lowercase, leaving the rest alone.
pub fn to_ascii_lower(s: &str) -> (r: String)
    ensures
        r@ == lower_seq(s@),
{
    let n = s.unicode_len();
    let mut out = String::new();
    let mut i: usize = 0;
    while i < n
        invariant
            n == s@.len(),
            0 <= i <= n,
            out@ == lower_seq(s@.take(i as int)),
        decreases n - i,
    {
        let c = s.get_char(i);
        let low = if c >= 'A' && c <= 'Z' {
            ((c as u8) + 32) as char
        } else {
            c
        };
        proof {
            assert(low == lower_char(c));
        }
        push_char(&mut out, low);
        proof {
            assert(s@.take(i + 1).drop_last() =~= s@.take(i as int));
            assert(lower_seq(s@.take(i + 1)) =~= lower_seq(s@.take(i as int)).push(low));
        }
        i = i + 1;
    }
    proof {
        assert(s@.take(n as int) =~= s@);
    }
    out
}

/// Character-for-character string equality.
pub fn str_eq(a: &str, b: &str) -> (r: bool)
    ensures
        r == (a@ == b@),
{
    let sa = String::from_str(a);
    let sb = String::from_str(b);
    let r = sa == sb;
    proof {
        if a@ == b@ {
        } else {
            assert(sa@ != sb@);
        }
    }
    r
}

/// Whether `s` begins with `prefix`, character for character.
pub fn starts_with_str(s: &str, prefix: &str) -> (r: bool)
    ensures
        r == (prefix@.len() <= s@.len() && s@.take(prefix@.len() as int) == prefix@),
{
    let n = s.unicode_len();
    let p = prefix.unicode_len();
    if p > n {
        return false;
    }
    let mut i: usize = 0;
    while i < p
        invariant
            n == s@.len(),
            p == prefix@.len(),
            p <= n,
            0 <= i <= p,
            forall|j: int| 0 <= j < i ==> s@[j] == prefix@[j],
        decreases p - i,
    {
        if s.get_char(i) != prefix.get_char(i) {
            proof {
                assert(s@.take(p as int)[i as int] != prefix@[i as int]);
            }
            return false;
        }
        i = i + 1;
    }
    proof {
        assert(s@.take(p as int) =~= prefix@);
    }
    true
}

/// The first occurrence of `c` in `s` at or after `from`.
pub fn find_char_from(s: &str, from: usize, c: char) -> (r: Option<usize>)
    requires
        from <= s@.len(),
    ensures
        match r {
            Some(i) => {
                &&& from <= i < s@.len()
                &&& s@[i as int] == c
                &&& forall|j: int| from <= j < i ==> s@[j] != c
            },
            None => forall|j: int| from <= j < s@.len() ==> s@[j] != c,
        },
{
    let n = s.unicode_len();
    let mut i: usize = from;
    while i < n
        invariant
            n == s@.len(),
            from <= i <= n,
            forall|j: int| from <= j < i ==> s@[j] != c,
        decreases n - i,
    {
        if s.get_char(i) == c {
            return Some(i);
        }
        i = i + 1;
    }
    None
}

/// `s` without its leading ASCII whitespace.
pub open spec fn trim_front(s: Seq<char>) -> Seq<char>
    decreases s.len(),
{
    if s.len() > 0 && is_space(s[0]) {
        trim_front(s.drop_first())
    } else {
        s
    }
}

/// `s` without its trailing ASCII whitespace.
pub open spec fn trim_back(s: Seq<char>) -> Seq<char>
    decreases s.len(),
{
    if s.len() > 0 && is_space(s.last()) {
        trim_back(s.drop_last())
    } else {
        s
    }
}

/// `s` without leading and trailing ASCII whitespace.
pub open spec fn trim_seq(s: Seq<char>) -> Seq<char> {
    trim_back(trim_front(s))
}

proof fn lemma_trim_front_is_subrange(s: Seq<char>, lo: int)
    requires
        0 <= lo <= s.len(),
        forall|j: int| 0 <= j < lo ==> is_space(s[j]),
        lo < s.len() ==> !is_space(s[lo]),
    ensures
        trim_front(s) == s.subrange(lo, s.len() as int),
    decreases lo,
{
    if lo == 0 {
        assert(s.subrange(0, s.len() as int) =~= s);
    } else {
        let t = s.drop_first();
        assert forall|j: int| 0 <= j < lo - 1 implies is_space(t[j]) by {
            assert(t[j] == s[j + 1]);
        }
        lemma_trim_front_is_subrange(t, lo - 1);
        assert(t.subrange(lo - 1, t.len() as int) =~= s.subrange(lo, s.len() as int));
    }
}

proof fn lemma_trim_back_is_subrange(s: Seq<char>, hi: int)
    requires
        0 <= hi <= s.len(),
        forall|j: int| hi <= j < s.len() ==> is_space(s[j]),
        hi > 0 ==> !is_space(s[hi - 1]),
    ensures
        trim_back(s) == s.subrange(0, hi),
    decreases s.len() - hi,
{
    if hi == s.len() {
        assert(s.subrange(0, s.len() as int) =~= s);
    } else {
        let t = s.drop_last();
        lemma_trim_back_is_subrange(t, hi);
        assert(t.subrange(0, hi) =~= s.subrange(0, hi));
    }
}

/// Whether `c` is ASCII whitespace.
pub fn is_space_char(c: char) -> (r: bool)
    ensures
        r == is_space(c),
{
    c == ' ' || c == '\t' || c == '\r' || c == '\n'
}

/// Removes leading and trailing ASCII whitespace.
pub fn trim_str(s: &str) -> (r: String)
    ensures
        r@ == trim_seq(s@),
{
    let n = s.unicode_len();
    let mut lo: usize = 0;
    while lo < n && is_space_char(s.get_char(lo))
        invariant
            n == s@.len(),
            0 <= lo <= n,
            forall|j: int| 0 <= j < lo ==> is_space(s@[j]),
        decreases n - lo,
    {
        lo = lo + 1;
    }
    let mut hi: usize = n;
    while hi > lo && is_space_char(s.get_char(hi - 1))
        invariant
            n == s@.len(),
            lo <= hi <= n,
            forall|j: int| 0 <= j < lo ==> is_space(s@[j]),
            forall|j: int| hi <= j < n ==> is_space(s@[j]),
            lo < n ==> !is_space(s@[lo as int]),
        decreases hi,
    {
        hi = hi - 1;
    }
    let piece = s.substring_char(lo, hi);
    let r = String::from_str(piece);
    proof {
        lemma_trim_front_is_subrange(s@, lo as int);
        let t = s@.subrange(lo as int, n as int);
        if hi == lo {
            lemma_trim_back_is_subrange(t, 0);
        } else {
            assert forall|j: int| hi - lo <= j < t.len() implies is_space(t[j]) by {
                assert(t[j] == s@[j + lo]);
            }
            assert(!is_space(t[hi - lo - 1]));
            lemma_trim_back_is_subrange(t, hi - lo);
        }
        assert(t.subrange(0, hi - lo) =~= s@.subrange(lo as int, hi as int));
    }
    r
}

/// The value of a string of ASCII digits, most significant first.
pub open spec fn dec_value(s: Seq<char>) -> int
    decreases s.len(),
{
    if s.len() == 0 {
        0
    } else {
        dec_value(s.drop_last()) * 10 + digit_val(s.last())
    }
}

/// Whether every character of `s` is an ASCII digit.
pub open spec fn all_digits(s: Seq<char>) -> bool {
    forall|j: int| 0 <= j < s.len() ==> is_digit(#[trigger] s[j])
}

/// Ten to the `n`.
pub open spec fn pow10(n: nat) -> int
    decreases n,
{
    if n == 0 {
        1
    } else {
        10 * pow10((n - 1) as nat)
    }
}

/// A digit string's value is bounded by ten to its length.
pub proof fn lemma_dec_value_bounds(s: Seq<char>)
    requires
        all_digits(s),
    ensures
        0 <= dec_value(s) < pow10(s.len()),
    decreases s.len(),
{
    if s.len() > 0 {
        let d = s.drop_last();
        assert(all_digits(d)) by {
            assert forall|j: int| 0 <= j < d.len() implies is_digit(d[j]) by {
                assert(is_digit(s[j]));
            }
        }
        lemma_dec_value_bounds(d);
        assert(dec_value(s) == dec_value(d) * 10 + digit_val(s.last()));
        assert(pow10(s.len()) == 10 * pow10((s.len() - 1) as nat));
        assert(is_digit(s.last()));
        assert(dec_value(d) * 10 <= (pow10((s.len() - 1) as nat) - 1) * 10);
    }
}

/// Without a leading zero, a digit string's value reaches ten to one less
/// than its length.
pub proof fn lemma_dec_value_lower(s: Seq<char>)
    requires
        all_digits(s),
        s.len() > 0,
        s[0] != '0',
    ensures
        dec_value(s) >= pow10((s.len() - 1) as nat),
    decreases s.len(),
{
    if s.len() == 1 {
        assert(s.drop_last() =~= Seq::<char>::empty());
        assert(dec_value(Seq::<char>::empty()) == 0);
        assert(digit_val(s[0]) >= 1);
    } else {
        let d = s.drop_last();
        assert(all_digits(d)) by {
            assert forall|j: int| 0 <= j < d.len() implies is_digit(d[j]) by {
                assert(is_digit(s[j]));
            }
        }
        lemma_dec_value_lower(d);
        assert(dec_value(s) == dec_value(d) * 10 + digit_val(s.last()));
        assert(pow10((s.len() - 1) as nat) == 10 * pow10((s.len() - 2) as nat));
        assert(dec_value(d) * 10 >= pow10((s.len() - 2) as nat) * 10);
        assert(digit_val(s.last()) >= 0);
    }
}

/// What parsing `s` as a signed 64-bit decimal yields: an optional sign,
/// at least one digit, nothing else, and a value in range.
pub open spec fn spec_parse_i64(s: Seq<char>) -> Option<i64> {
    let neg = s.len() > 0 && s[0] == '-';
    let digits = if s.len() > 0 && (s[0] == '-' || s[0] == '+') {
        s.drop_first()
    } else {
        s
    };
    if digits.len() == 0 || !all_digits(digits) {
        None
    } else {
        let v = if neg {
            -dec_value(digits)
        } else {
            dec_value(digits)
        };
        if i64::MIN <= v <= i64::MAX {
            Some(v as i64)
        } else {
            None
        }
    }
}

/// Parses a signed decimal the way the standard integer parser reads it:
/// an optional sign, then digits and nothing else; out-of-range values
/// are rejected.
#[verifier::loop_isolation(false)]
pub fn parse_i64(s: &str) -> (r: Option<i64>)
    ensures
        r == spec_parse_i64(s@),
{
    let n = s.unicode_len();
    let mut start: usize = 0;
    let mut neg = false;
    if n > 0 {
        let c0 = s.get_char(0);
        if c0 == '-' {
            neg = true;
            start = 1;
        } else if c0 == '+' {
            start = 1;
        }
    }
    let ghost digits = if s@.len() > 0 && (s@[0] == '-' || s@[0] == '+') {
        s@.drop_first()
    } else {
        s@
    };
    proof {
        assert(digits =~= s@.subrange(start as int, n as int));
    }
    if start == n {
        return None;
    }
    // Every remaining character must be a digit.
    let mut i: usize = start;
    while i < n
        invariant
            n == s@.len(),
            start <= i <= n,
            forall|j: int| start <= j < i ==> is_digit(#[trigger] s@[j]),
        decreases n - i,
    {
        let c = s.get_char(i);
        if !(c >= '0' && c <= '9') {
            proof {
                assert(digits[i - start] == s@[i as int]);
                assert(!is_digit(digits[i - start]));
            }
            return None;
        }
        i = i + 1;
    }
    proof {
        assert forall|j: int| 0 <= j < digits.len() implies is_digit(#[trigger] digits[j]) by {
            assert(digits[j] == s@[j + start]);
        }
    }
    // Skip leading zeros so that length bounds the magnitude.
    let mut z: usize = start;
    while z < n && s.get_char(z) == '0'
        invariant
            n == s@.len(),
            start <= z <= n,
            forall|j: int| start <= j < z ==> s@[j] == '0',
        decreases n - z,
    {
        z = z + 1;
    }
    let ghost sig = s@.subrange(z as int, n as int);
    proof {
        lemma_dec_value_drop_zeros(digits, z - start);
        assert(digits.subrange(z - start, digits.len() as int) =~= sig);
        assert(dec_value(digits) == dec_value(sig));
        assert(all_digits(sig)) by {
            assert forall|j: int| 0 <= j < sig.len() implies is_digit(#[trigger] sig[j]) by {
                assert(sig[j] == s@[j + z]);
            }
        }
        lemma_dec_value_bounds(sig);
        assert(pow10(19) == 10_000_000_000_000_000_000) by {
            reveal_with_fuel(pow10, 20);
        }
    }
    if n - z > 19 {
        // At least twenty significant digits: past both i64 bounds.
        proof {
            lemma_dec_value_lower(sig);
            lemma_pow10_grows(19, (sig.len() - 1) as nat);
        }
        return None;
    }
    proof {
        assert(sig.take(0int) =~= Seq::<char>::empty());
        assert(dec_value(Seq::<char>::empty()) == 0);
        assert(pow10(0) == 1);
    }
    let mut acc: u64 = 0;
    let mut k: usize = z;
    while k < n
        invariant
            n == s@.len(),
            z <= k <= n,
            n - z <= 19,
            sig == s@.subrange(z as int, n as int),
            all_digits(sig),
            acc == dec_value(sig.take(k - z)),
            acc < pow10((k - z) as nat),
            pow10(19) == 10_000_000_000_000_000_000,
        decreases n - k,
    {
        let c = s.get_char(k);
        proof {
            assert(sig[k - z] == s@[k as int]);
            assert(is_digit(sig[k - z]));
            lemma_pow10_grows((k - z + 1) as nat, 19);
            assert(pow10((k - z + 1) as nat) == 10 * pow10((k - z) as nat));
        }
        let d = (c as u32 - 48) as u64;
        acc = acc * 10 + d;
        proof {
            assert(sig.take(k - z + 1).drop_last() =~= sig.take(k - z));
            assert(sig.take(k - z + 1).last() == sig[k - z]);
        }
        k = k + 1;
    }
    proof {
        assert(sig.take(n - z) =~= sig);
        assert(dec_value(digits) == acc);
    }
    if neg {
        if acc <= 9_223_372_036_854_775_807u64 {
            Some(-(acc as i64))
        } else if acc == 9_223_372_036_854_775_808u64 {
            Some(i64::MIN)
        } else {
            None
        }
    } else {
        if acc <= 9_223_372_036_854_775_807u64 {
            Some(acc as i64)
        } else {
            None
        }
    }
}

/// Ten to the power grows with the exponent.
proof fn lemma_pow10_grows(a: nat, b: nat)
    requires
        a <= b,
    ensures
        pow10(a) <= pow10(b),
        pow10(a) >= 1,
    decreases b,
{
    if a < b {
        lemma_pow10_grows(a, (b - 1) as nat);
    } else if b > 0 {
        lemma_pow10_grows((a - 1) as nat, (b - 1) as nat);
    }
}

/// Dropping a prefix of zeros does not change a digit string's value.
proof fn lemma_dec_value_drop_zeros(s: Seq<char>, z: int)
    requires
        0 <= z <= s.len(),
        forall|j: int| 0 <= j < z ==> s[j] == '0',
    ensures
        dec_value(s) == dec_value(s.subrange(z, s.len() as int)),
    decreases z,
{
    if z > 0 {
        lemma_dec_value_leading_zero(s);
        let t = s.drop_first();
        assert forall|j: int| 0 <= j < z - 1 implies t[j] == '0' by {
            assert(t[j] == s[j + 1]);
        }
        lemma_dec_value_drop_zeros(t, z - 1);
        assert(t.subrange(z - 1, t.len() as int) =~= s.subrange(z, s.len() as int));
    } else {
        assert(s.subrange(0, s.len() as int) =~= s);
    }
}

/// A leading zero does not change a digit string's value.
proof fn lemma_dec_value_leading_zero(s: Seq<char>)
    requires
        s.len() > 0,
        s[0] == '0',
    ensures
        dec_value(s) == dec_value(s.drop_first()),
    decreases s.len(),
{
    if s.len() == 1 {
        assert(s.drop_first() =~= Seq::<char>::empty());
        assert(s.drop_last() =~= Seq::<char>::empty());
        assert(dec_value(Seq::<char>::empty()) == 0);
        assert(digit_val(s[0]) == 0);
    } else {
        lemma_dec_value_leading_zero(s.drop_last());
        assert(s.drop_last().drop_first() =~= s.drop_first().drop_last());
        assert(s.drop_first().last() == s.last());
    }
}

/// The character for the ASCII digit `d`.
pub open spec fn digit_char(d: int) -> char {
    (('0' as u8) + d as u8) as char
}

/// The decimal rendering of a nonnegative number, most significant digit
/// first, without a leading zero (except for zero itself).
pub open spec fn dec_str(n: int) -> Seq<char>
    decreases n,
{
    if n < 0 {
        Seq::empty()
    } else if n < 10 {
        seq![digit_char(n)]
    } else {
        dec_str(n / 10).push(digit_char(n % 10))
    }
}

/// The decimal rendering of a signed number: a minus sign, then digits.
pub open spec fn dec_str_signed(n: int) -> Seq<char> {
    if n < 0 {
        seq!['-'] + dec_str(-n)
    } else {
        dec_str(n)
    }
}

/// Renders an unsigned number in decimal.
pub fn u64_to_string(n: u64) -> (r: String)
    ensures
        r@ == dec_str(n as int),
{
    if n == 0 {
        let mut out = String::new();
        push_char(&mut out, '0');
        proof {
            assert(digit_char(0) == '0');
            assert(out@ =~= seq!['0']);
        }
        return out;
    }
    let mut digits: Vec<char> = Vec::new();
    let mut m = n;
    proof {
        assert(digits@.reverse() =~= Seq::<char>::empty());
        assert(dec_str(n as int) + Seq::<char>::empty() =~= dec_str(n as int));
    }
    loop
        invariant_except_break
            0 < m <= n,
            dec_str(n as int) == dec_str(m as int) + digits@.reverse(),
        ensures
            dec_str(n as int) == digits@.reverse(),
        decreases m,
    {
        let ghost prev = digits@;
        let d = (m % 10) as u8;
        let c = (48 + d) as char;
        proof {
            assert(c == digit_char(m as int % 10));
        }
        digits.push(c);
        let m_old = m;
        m = m / 10;
        proof {
            assert(digits@.reverse() =~= seq![c] + prev.reverse());
            if m > 0 {
                assert(dec_str(m_old as int) == dec_str(m as int).push(c));
                assert(dec_str(m as int) + digits@.reverse() =~= (dec_str(m as int).push(c))
                    + prev.reverse());
            } else {
                assert(dec_str(m_old as int) =~= seq![c]);
                assert(digits@.reverse() =~= dec_str(m_old as int) + prev.reverse());
            }
        }
        if m == 0 {
            break;
        }
    }
    let mut out = String::new();
    let mut i: usize = 0;
    let k = digits.len();
    while i < k
        invariant
            k == digits@.len(),
            0 <= i <= k,
            out@ =~= digits@.reverse().take(i as int),
        decreases k - i,
    {
        let c = digits[k - 1 - i];
        proof {
            assert(digits@.reverse()[i as int] == digits@[k - 1 - i]);
            assert(digits@.reverse().take(i + 1) =~= digits@.reverse().take(i as int).push(c));
        }
        push_char(&mut out, c);
        i = i + 1;
    }
    proof {
        assert(digits@.reverse().take(k as int) =~= digits@.reverse());
    }
    out
}

/// Renders a signed number in decimal.
pub fn i64_to_string(n: i64) -> (r: String)
    ensures
        r@ == dec_str_signed(n as int),
{
    if n >= 0 {
        u64_to_string(n as u64)
    } else {
        let mag = if n == i64::MIN {
            9_223_372_036_854_775_808u64
        } else {
            (-n) as u64
        };
        let tail = u64_to_string(mag);
        let mut out = String::new();
        push_char(&mut out, '-');
        out.append(tail.as_str());
        proof {
            assert(out@ =~= seq!['-'] + dec_str(mag as int));
        }
        out
    }
}

/// `s` split on `sep`: the fragments between separators, in order. There
/// is always one more fragment than separators; fragments can be empty.
pub open spec fn split_seq(s: Seq<char>, sep: char) -> Seq<Seq<char>>
    decreases s.len(),
{
    if s.len() == 0 {
        seq![Seq::<char>::empty()]
    } else if s[0] == sep {
        seq![Seq::<char>::empty()] + split_seq(s.drop_first(), sep)
    } else {
        let rest = split_seq(s.drop_first(), sep);
        rest.update(0, seq![s[0]] + rest[0])
    }
}

/// Splitting always yields at least one fragment.
pub proof fn lemma_split_seq_len(s: Seq<char>, sep: char)
    ensures
        split_seq(s, sep).len() >= 1,
    decreases s.len(),
{
    if s.len() > 0 {
        lemma_split_seq_len(s.drop_first(), sep)
    }
}

/// A string containing the separator splits into at least two fragments.
pub proof fn lemma_split_seq_len2(s: Seq<char>, sep: char, i: int)
    requires
        0 <= i < s.len(),
        s[i] == sep,
    ensures
        split_seq(s, sep).len() >= 2,
    decreases s.len(),
{
    if s.len() > 0 {
        if s[0] == sep {
            lemma_split_seq_len(s.drop_first(), sep);
        } else {
            assert(s.drop_first()[i - 1] == sep);
            lemma_split_seq_len2(s.drop_first(), sep, i - 1);
        }
    }
}

/// A separator-free string is one single fragment.
pub proof fn lemma_split_seq_whole(s: Seq<char>, sep: char)
    requires
        forall|j: int| 0 <= j < s.len() ==> s[j] != sep,
    ensures
        split_seq(s, sep) == seq![s],
    decreases s.len(),
{
    if s.len() == 0 {
        assert(split_seq(s, sep) =~~= seq![s]);
    } else {
        let t = s.drop_first();
        lemma_split_seq_whole(t, sep);
        lemma_split_seq_len(t, sep);
        assert(seq![s[0]] + t =~= s);
        assert(split_seq(s, sep) =~~= seq![t].update(0, seq![s[0]] + t));
    }
}

/// The first fragment is everything before the first separator.
pub proof fn lemma_split_first(s: Seq<char>, sep: char, i: int)
    requires
        0 <= i < s.len(),
        s[i] == sep,
        forall|j: int| 0 <= j < i ==> s[j] != sep,
    ensures
        split_seq(s, sep).len() >= 2,
        split_seq(s, sep)[0] == s.take(i),
{
    lemma_split_seq_step(s, sep, i);
    lemma_split_seq_len(s.skip(i + 1), sep);
}

/// Splitting at the first separator: the head fragment is everything
/// before it, and the rest splits the remainder.
proof fn lemma_split_seq_step(s: Seq<char>, sep: char, i: int)
    requires
        0 <= i < s.len(),
        s[i] == sep,
        forall|j: int| 0 <= j < i ==> s[j] != sep,
    ensures
        split_seq(s, sep) == seq![s.take(i)] + split_seq(s.skip(i + 1), sep),
    decreases i,
{
    if i == 0 {
        assert(s.take(0int) =~= Seq::<char>::empty());
        assert(s.drop_first() =~= s.skip(1));
        assert(split_seq(s, sep) =~~= seq![s.take(0int)] + split_seq(s.skip(1), sep));
    } else {
        let t = s.drop_first();
        assert(t[i - 1] == sep);
        assert forall|j: int| 0 <= j < i - 1 implies t[j] != sep by {
            assert(t[j] == s[j + 1]);
        }
        lemma_split_seq_step(t, sep, i - 1);
        lemma_split_seq_len(t.skip(i as int), sep);
        assert(t.take(i - 1) =~= s.take(i).drop_first());
        assert(t.skip(i as int) =~= s.skip(i + 1));
        assert(seq![s[0]] + s.take(i).drop_first() =~= s.take(i));
        assert(split_seq(s, sep) =~~= seq![s.take(i)] + split_seq(s.skip(i + 1), sep));
    }
}

/// Splits `s` on `sep`; the fragments are [`split_seq`] of the view.
pub fn split_str(s: &str, sep: char) -> (r: Vec<String>)
    ensures
        r@.map_values(|t: String| t@) == split_seq(s@, sep),
        r@.len() >= 1,
{
    let n = s.unicode_len();
    let mut out: Vec<String> = Vec::new();
    let mut start: usize = 0;
    proof {
        assert(s@.skip(0) =~= s@);
        assert(out@.map_values(|t: String| t@) =~= Seq::<Seq<char>>::empty());
    }
    loop
        invariant_except_break
            n == s@.len(),
            0 <= start <= n,
            split_seq(s@, sep) == out@.map_values(|t: String| t@) + split_seq(
                s@.skip(start as int),
                sep,
            ),
        ensures
            out@.map_values(|t: String| t@) == split_seq(s@, sep),
            out@.len() >= 1,
        decreases n - start,
    {
        let ghost prev = out@;
        let found = find_char_from(s, start, sep);
        match found {
            Some(i) => {
                let piece = s.substring_char(start, i);
                out.push(String::from_str(piece));
                proof {
                    let tail = s@.skip(start as int);
                    assert(tail[i - start] == sep);
                    assert forall|j: int| 0 <= j < i - start implies tail[j] != sep by {
                        assert(tail[j] == s@[j + start]);
                    }
                    lemma_split_seq_step(tail, sep, i - start);
                    assert(tail.take(i - start) =~= s@.subrange(start as int, i as int));
                    assert(tail.skip(i - start + 1) =~= s@.skip(i + 1));
                    assert(out@.map_values(|t: String| t@) =~= prev.map_values(|t: String| t@)
                        + seq![s@.subrange(start as int, i as int)]);
                    assert(prev.map_values(|t: String| t@) + split_seq(s@.skip(start as int), sep)
                        =~= out@.map_values(|t: String| t@) + split_seq(s@.skip(i + 1), sep));
                }
                start = i + 1;
            },
            None => {
                let piece = s.substring_char(start, n);
                out.push(String::from_str(piece));
                proof {
                    let tail = s@.skip(start as int);
                    assert forall|j: int| 0 <= j < tail.len() implies tail[j] != sep by {
                        assert(tail[j] == s@[j + start]);
                    }
                    lemma_split_seq_whole(tail, sep);
                    assert(tail =~= s@.subrange(start as int, n as int));
                    assert(out@.map_values(|t: String| t@) =~= prev.map_values(|t: String| t@)
                        + seq![tail]);
                    assert(prev.map_values(|t: String| t@) + split_seq(s@.skip(start as int), sep)
                        =~= out@.map_values(|t: String| t@));
                }
                break;
            },
        }
    }
    out
}

/// Whether `pat` occurs in `s` at position `i`.
pub open spec fn sub_at(s: Seq<char>, pat: Seq<char>, i: int) -> bool {
    0 <= i && i + pat.len() <= s.len() && s.subrange(i, i + pat.len() as int) == pat
}

/// The first position at or after `from` where `pat` occurs in `s`;
/// `s.len() + 1` when it occurs nowhere there.
pub open spec fn first_sub(s: Seq<char>, pat: Seq<char>, from: int) -> int
    decreases s.len() - from + 1,
{
    if from > s.len() {
        s.len() as int + 1
    } else if sub_at(s, pat, from) {
        from
    } else if from >= s.len() {
        s.len() as int + 1
    } else {
        first_sub(s, pat, from + 1)
    }
}

/// Finds the first occurrence of `pat` in `s` at or after `from`.
pub fn find_sub(s: &str, pat: &str, from: usize) -> (r: Option<usize>)
    requires
        from <= s@.len(),
    ensures
        match r {
            Some(i) => first_sub(s@, pat@, from as int) == i && i + pat@.len() <= s@.len(),
            None => first_sub(s@, pat@, from as int) == s@.len() + 1,
        },
{
    let n = s.unicode_len();
    let p = pat.unicode_len();
    let mut i: usize = from;
    loop
        invariant
            from <= i <= n + 1,
            n == s@.len(),
            p == pat@.len(),
            forall|t: int| from <= t < i ==> !sub_at(s@, pat@, t),
            first_sub(s@, pat@, from as int) == first_sub(s@, pat@, i as int),
        decreases n + 1 - i,
    {
        if p > n || i > n - p {
            proof {
                lemma_first_sub_none(s@, pat@, i as int);
            }
            return None;
        }
        let mut j: usize = 0;
        let mut all = true;
        while j < p
            invariant
                0 <= j <= p,
                i + p <= n,
                n == s@.len(),
                p == pat@.len(),
                all == (forall|t: int| 0 <= t < j ==> s@[i + t] == pat@[t]),
            decreases p - j,
        {
            if s.get_char(i + j) != pat.get_char(j) {
                proof {
                    assert(s@[i + j] != pat@[j as int]);
                }
                all = false;
                j = p;
            } else {
                j = j + 1;
            }
        }
        if all {
            proof {
                assert(s@.subrange(i as int, i + p) =~= pat@);
                assert(sub_at(s@, pat@, i as int));
            }
            return Some(i);
        }
        proof {
            if sub_at(s@, pat@, i as int) {
                let t = choose|t: int| 0 <= t < p && s@[i + t] != pat@[t];
                assert(s@.subrange(i as int, i + p)[t] == pat@[t]);
            }
        }
        i = i + 1;
    }
}

/// Past the point where the pattern still fits, nothing matches.
proof fn lemma_first_sub_none(s: Seq<char>, pat: Seq<char>, i: int)
    requires
        0 <= i,
        i + pat.len() > s.len(),
    ensures
        first_sub(s, pat, i) == s.len() + 1,
    decreases s.len() - i + 1,
{
    if i <= s.len() && i < s.len() {
        lemma_first_sub_none(s, pat, i + 1);
    }
}

} // verus!
