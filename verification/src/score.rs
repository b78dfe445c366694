//! The scoring schema of a single criterion option, and its text parser.

use vstd::prelude::*;

verus! {

/// Scoring schema attached to a criterion option: either a signed
/// point value, or a fatal marker whose selection zeroes the whole
/// review's total.
#[derive(Debug, Clone, Copy, PartialEq, Eq, Structural)]
pub enum CriterionOptionScore {
    /// A point value added to the review's total when this option is
    /// selected (unless a fatal option is selected elsewhere).
    Points(i32),
    /// Selecting this option forces the review's total to 0.
    Fatal,
}

/// An ASCII decimal digit.
pub open spec fn is_digit(c: char) -> bool {
    c == '0' || c == '1' || c == '2' || c == '3' || c == '4' || c == '5' || c == '6' || c == '7'
        || c == '8' || c == '9'
}

/// Numeric value of an ASCII decimal digit.
pub open spec fn digit_value(c: char) -> int {
    if c == '0' {
        0
    } else if c == '1' {
        1
    } else if c == '2' {
        2
    } else if c == '3' {
        3
    } else if c == '4' {
        4
    } else if c == '5' {
        5
    } else if c == '6' {
        6
    } else if c == '7' {
        7
    } else if c == '8' {
        8
    } else {
        9
    }
}

/// Base-10 value of a digit string, most significant digit first.
pub open spec fn digits_value(s: Seq<char>) -> int
    decreases s.len(),
{
    if s.len() == 0 {
        0
    } else {
        10 * digits_value(s.drop_last()) + digit_value(s.last())
    }
}

pub open spec fn all_digits(s: Seq<char>) -> bool {
    forall|i: int| 0 <= i < s.len() ==> is_digit(#[trigger] s[i])
}

/// The shape Rust's base-10 integer parser accepts: an optional single
/// leading sign followed by one or more digits, nothing else.
pub open spec fn is_int_literal(s: Seq<char>) -> bool {
    if s.len() == 0 {
        false
    } else if s[0] == '+' || s[0] == '-' {
        s.len() > 1 && all_digits(s.skip(1))
    } else {
        all_digits(s)
    }
}

/// Signed value denoted by an integer literal.
pub open spec fn int_literal_value(s: Seq<char>) -> int
    recommends
        is_int_literal(s),
{
    if s.len() > 0 && s[0] == '-' {
        -digits_value(s.skip(1))
    } else if s.len() > 0 && s[0] == '+' {
        digits_value(s.skip(1))
    } else {
        digits_value(s)
    }
}

/// The word "FATAL", compared ASCII-case-insensitively.
pub open spec fn is_fatal_word(s: Seq<char>) -> bool {
    s.len() == 5 && (s[0] == 'F' || s[0] == 'f') && (s[1] == 'A' || s[1] == 'a') && (s[2] == 'T'
        || s[2] == 't') && (s[3] == 'A' || s[3] == 'a') && (s[4] == 'L' || s[4] == 'l')
}

/// What parsing a cell yields: the fatal marker for the word "FATAL" in
/// any letter case, a point value for an in-range integer literal, and
/// nothing for every other string.
pub open spec fn spec_parse_score(s: Seq<char>) -> Option<CriterionOptionScore> {
    if is_fatal_word(s) {
        Some(CriterionOptionScore::Fatal)
    } else if is_int_literal(s) && i32::MIN <= int_literal_value(s) <= i32::MAX {
        Some(CriterionOptionScore::Points(int_literal_value(s) as i32))
    } else {
        None
    }
}

pub open spec fn pow10(n: nat) -> int
    decreases n,
{
    if n == 0 {
        1
    } else {
        10 * pow10((n - 1) as nat)
    }
}

proof fn lemma_digits_value_lower(s: Seq<char>)
    requires
        all_digits(s),
        s.len() > 0,
        s[0] != '0',
    ensures
        digits_value(s) >= pow10((s.len() - 1) as nat),
    decreases s.len(),
{
    if s.len() == 1 {
        assert(s.drop_last().len() == 0);
        assert(digits_value(s) == 10 * digits_value(s.drop_last()) + digit_value(s.last()));
        assert(s.last() == s[0]);
        assert(digit_value(s[0]) >= 1);
        assert(pow10(0) == 1);
    } else {
        assert(digits_value(s) == 10 * digits_value(s.drop_last()) + digit_value(s.last()));
        assert(all_digits(s.drop_last())) by {
            assert(forall|i: int|
                0 <= i < s.len() - 1 ==> #[trigger] s.drop_last()[i] == s[i]);
        }
        assert(s.drop_last()[0] == s[0]);
        lemma_digits_value_lower(s.drop_last());
        assert(pow10((s.len() - 1) as nat) == 10 * pow10((s.len() - 2) as nat));
        assert(digit_value(s.last()) >= 0);
    }
}

proof fn lemma_digits_drop_leading_zero(s: Seq<char>)
    requires
        s.len() > 0,
        s[0] == '0',
    ensures
        digits_value(s) == digits_value(s.drop_first()),
    decreases s.len(),
{
    if s.len() == 1 {
        assert(s.drop_first() =~= Seq::<char>::empty());
        assert(digits_value(s) == 10 * digits_value(s.drop_last()) + digit_value(s.last()));
        assert(s.drop_last() =~= Seq::<char>::empty());
    } else {
        let t = s.drop_last();
        assert(t[0] == '0');
        lemma_digits_drop_leading_zero(t);
        assert(t.drop_first() =~= s.drop_first().drop_last());
        assert(s.drop_first().last() == s.last());
    }
}

/// Map an ASCII digit to its value.
fn digit_of_char(c: char) -> (d: u32)
    requires
        is_digit(c),
    ensures
        d == digit_value(c),
{
    match c {
        '0' => 0,
        '1' => 1,
        '2' => 2,
        '3' => 3,
        '4' => 4,
        '5' => 5,
        '6' => 6,
        '7' => 7,
        '8' => 8,
        _ => 9,
    }
}

fn is_digit_char(c: char) -> (r: bool)
    ensures
        r == is_digit(c),
{
    c == '0' || c == '1' || c == '2' || c == '3' || c == '4' || c == '5' || c == '6' || c == '7'
        || c == '8' || c == '9'
}

/// Base-10 signed integer parser over the characters of `s`, accepting
/// exactly the strings `i32`'s own parser accepts.
fn parse_i32(s: &str) -> (r: Option<i32>)
    ensures
        r is Some <==> is_int_literal(s@) && i32::MIN <= int_literal_value(s@) <= i32::MAX,
        r matches Some(v) ==> v == int_literal_value(s@),
{
    let n = s.unicode_len();
    if n == 0 {
        return None;
    }
    let c0 = s.get_char(0);
    let neg = c0 == '-';
    let start: usize = if c0 == '-' || c0 == '+' {
        1
    } else {
        0
    };
    if start == n {
        return None;
    }
    // reject any non-digit after the sign
    let mut i = start;
    while i < n
        invariant
            start <= i <= n,
            start < n,
            n == s@.len(),
            start == 1 <==> s@[0] == '+' || s@[0] == '-',
            start == 0 || start == 1,
            forall|j: int| start <= j < i ==> is_digit(#[trigger] s@[j]),
        decreases n - i,
    {
        if !is_digit_char(s.get_char(i)) {
            proof {
                assert(!all_digits(s@.skip(start as int))) by {
                    assert(s@.skip(start as int)[i - start] == s@[i as int]);
                }
                assert(s@.skip(0) =~= s@);
            }
            return None;
        }
        i += 1;
    }
    proof {
        assert(all_digits(s@.skip(start as int))) by {
            assert(forall|j: int|
                0 <= j < n - start ==> #[trigger] s@.skip(start as int)[j] == s@[j + start]);
        }
        assert(s@.skip(0) =~= s@);
        assert(is_int_literal(s@));
    }
    // skip leading zeros so that the digit count bounds the value
    let mut k = start;
    while k < n && s.get_char(k) == '0'
        invariant
            start <= k <= n,
            n == s@.len(),
            forall|j: int| start <= j < k ==> s@[j] == '0',
        decreases n - k,
    {
        k += 1;
    }
    proof {
        lemma_digits_skip_zeros(s@, start as int, k as int);
        assert(s@.skip(0) =~= s@);
        // the literal's magnitude is the value of the significant digits
        assert(int_literal_value(s@) == if neg {
            -digits_value(s@.skip(k as int))
        } else {
            digits_value(s@.skip(k as int))
        });
    }
    if n - k > 10 {
        // at least 11 significant digits: out of `i32` range
        proof {
            let sig = s@.skip(k as int);
            assert(all_digits(sig)) by {
                assert(forall|j: int|
                    0 <= j < n - k ==> #[trigger] sig[j] == s@[j + k]);
            }
            assert(sig[0] != '0');
            lemma_digits_value_lower(sig);
            lemma_pow10_mono(10, (sig.len() - 1) as nat);
            assert(pow10(10) == 10000000000) by {
                lemma_pow10_val();
            }
        }
        return None;
    }
    proof {
        lemma_pow10_val();
        lemma_pow10_mono(0, 10);
        assert(s@.subrange(k as int, k as int) =~= Seq::<char>::empty());
    }
    let mut acc: u64 = 0;
    let mut i = k;
    while i < n
        invariant
            k <= i <= n,
            n - k <= 10,
            n == s@.len(),
            forall|j: int| k <= j < n ==> is_digit(#[trigger] s@[j]),
            acc == digits_value(s@.subrange(k as int, i as int)),
            0 <= acc < pow10((i - k) as nat),
            pow10((i - k) as nat) <= pow10(10),
        decreases n - i,
    {
        let c = s.get_char(i);
        let d = digit_of_char(c);
        proof {
            lemma_pow10_val();
            lemma_pow10_mono((i + 1 - k) as nat, 10);
            assert(s@.subrange(k as int, i as int + 1).drop_last() =~= s@.subrange(
                k as int,
                i as int,
            ));
            assert(s@.subrange(k as int, i as int + 1).last() == s@[i as int]);
        }
        acc = acc * 10 + d as u64;
        i += 1;
    }
    proof {
        assert(s@.subrange(k as int, n as int) =~= s@.skip(k as int));
    }
    if neg {
        if acc > 2147483648u64 {
            return None;
        }
        let v: i64 = -(acc as i64);
        Some(v as i32)
    } else {
        if acc > 2147483647u64 {
            return None;
        }
        Some(acc as i32)
    }
}

proof fn lemma_pow10_val()
    ensures
        pow10(10) == 10000000000,
{
    assert(pow10(10) == 10000000000) by {
        assert(pow10(0) == 1);
        assert(pow10(1) == 10);
        assert(pow10(2) == 100);
        assert(pow10(3) == 1000);
        assert(pow10(4) == 10000);
        assert(pow10(5) == 100000);
        assert(pow10(6) == 1000000);
        assert(pow10(7) == 10000000);
        assert(pow10(8) == 100000000);
        assert(pow10(9) == 1000000000);
    }
}

proof fn lemma_pow10_mono(a: nat, b: nat)
    requires
        a <= b,
    ensures
        pow10(a) <= pow10(b),
    decreases b,
{
    if a < b {
        lemma_pow10_mono(a, (b - 1) as nat);
        assert(pow10(b) == 10 * pow10((b - 1) as nat));
        assert(pow10((b - 1) as nat) >= 1) by {
            lemma_pow10_pos((b - 1) as nat);
        }
    }
}

proof fn lemma_pow10_pos(n: nat)
    ensures
        pow10(n) >= 1,
    decreases n,
{
    if n > 0 {
        lemma_pow10_pos((n - 1) as nat);
    }
}

/// Dropping a run of leading zeros keeps the value: the digits from
/// `start` on and the digits from `k` on denote the same number.
proof fn lemma_digits_skip_zeros(s: Seq<char>, start: int, k: int)
    requires
        0 <= start <= k <= s.len(),
        forall|j: int| start <= j < k ==> s[j] == '0',
    ensures
        digits_value(s.skip(start)) == digits_value(s.skip(k)),
    decreases k - start,
{
    if start < k {
        assert(s.skip(start)[0] == s[start]);
        lemma_digits_drop_leading_zero(s.skip(start));
        assert(s.skip(start).drop_first() =~= s.skip(start + 1));
        lemma_digits_skip_zeros(s, start + 1, k);
    }
}

impl CriterionOptionScore {
    /// Parse a scoring schema from text: `Some(Fatal)` for the word
    /// "FATAL" in any letter case, `Some(Points(n))` for a base-10
    /// integer literal in `i32` range, and `None` for everything else.
    pub fn from_str(s: &str) -> (r: Option<CriterionOptionScore>)
        ensures
            r == spec_parse_score(s@),
    {
        let n = s.unicode_len();
        if n == 5 {
            let c0 = s.get_char(0);
            let c1 = s.get_char(1);
            let c2 = s.get_char(2);
            let c3 = s.get_char(3);
            let c4 = s.get_char(4);
            if (c0 == 'F' || c0 == 'f') && (c1 == 'A' || c1 == 'a') && (c2 == 'T' || c2 == 't')
                && (c3 == 'A' || c3 == 'a') && (c4 == 'L' || c4 == 'l') {
                return Some(CriterionOptionScore::Fatal);
            }
        }
        match parse_i32(s) {
            Some(v) => Some(CriterionOptionScore::Points(v)),
            None => None,
        }
    }
}

} // verus!
