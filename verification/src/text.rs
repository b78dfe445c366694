//! Character-sequence utilities: whitespace trimming, splitting on a
//! delimiter, joining with a delimiter, and decimal digit rendering.

use vstd::prelude::*;
use crate::score::{all_digits, digits_value, is_digit};

verus! {

/// A Unicode white-space character, the set `str::trim` removes.
pub open spec fn is_ws(c: char) -> bool {
    c == '\u{0009}' || c == '\u{000A}' || c == '\u{000B}' || c == '\u{000C}' || c == '\u{000D}'
        || c == '\u{0020}' || c == '\u{0085}' || c == '\u{00A0}' || c == '\u{1680}'
        || c == '\u{2000}' || c == '\u{2001}' || c == '\u{2002}' || c == '\u{2003}'
        || c == '\u{2004}' || c == '\u{2005}' || c == '\u{2006}' || c == '\u{2007}'
        || c == '\u{2008}' || c == '\u{2009}' || c == '\u{200A}' || c == '\u{2028}'
        || c == '\u{2029}' || c == '\u{202F}' || c == '\u{205F}' || c == '\u{3000}'
}

pub open spec fn trim_start(s: Seq<char>) -> Seq<char>
    decreases s.len(),
{
    if s.len() > 0 && is_ws(s[0]) {
        trim_start(s.drop_first())
    } else {
        s
    }
}

pub open spec fn trim_end(s: Seq<char>) -> Seq<char>
    decreases s.len(),
{
    if s.len() > 0 && is_ws(s.last()) {
        trim_end(s.drop_last())
    } else {
        s
    }
}

/// The characters that remain after removing leading and trailing
/// white space.
pub open spec fn spec_trim(s: Seq<char>) -> Seq<char> {
    trim_end(trim_start(s))
}

/// `s` does not contain the character `d`.
pub open spec fn free_of(s: Seq<char>, d: char) -> bool {
    forall|i: int| 0 <= i < s.len() ==> #[trigger] s[i] != d
}

/// Position of the first occurrence of `d` in `s`; `s.len()` if absent.
pub open spec fn first_index_of(s: Seq<char>, d: char) -> nat
    decreases s.len(),
{
    if s.len() == 0 {
        0
    } else if s[0] == d {
        0
    } else {
        1 + first_index_of(s.drop_first(), d)
    }
}

/// The fields of `s` between occurrences of the delimiter `d`, in
/// order; always at least one field, possibly empty ones.
pub open spec fn split_seq(s: Seq<char>, d: char) -> Seq<Seq<char>>
    decreases s.len(),
{
    let fi = first_index_of(s, d);
    if fi >= s.len() {
        seq![s]
    } else {
        seq![s.take(fi as int)] + split_seq(s.skip(fi as int + 1), d)
    }
}

/// The fields of `parts` joined with the delimiter `d` between them.
pub open spec fn join_seq(parts: Seq<Seq<char>>, d: char) -> Seq<char>
    decreases parts.len(),
{
    if parts.len() == 0 {
        Seq::empty()
    } else if parts.len() == 1 {
        parts[0]
    } else {
        parts[0] + seq![d] + join_seq(parts.drop_first(), d)
    }
}

proof fn lemma_first_index_of(s: Seq<char>, d: char)
    ensures
        first_index_of(s, d) <= s.len(),
        first_index_of(s, d) < s.len() ==> s[first_index_of(s, d) as int] == d,
        forall|j: int| 0 <= j < first_index_of(s, d) ==> #[trigger] s[j] != d,
    decreases s.len(),
{
    if s.len() > 0 && s[0] != d {
        lemma_first_index_of(s.drop_first(), d);
        let fi = first_index_of(s, d);
        assert forall|j: int| 0 <= j < fi implies #[trigger] s[j] != d by {
            if j > 0 {
                assert(s[j] == s.drop_first()[j - 1]);
            }
        }
        if fi < s.len() {
            assert(s.drop_first()[fi - 1] == s[fi as int]);
        }
    }
}

proof fn lemma_first_index_of_concat(a: Seq<char>, d: char, b: Seq<char>)
    requires
        free_of(a, d),
    ensures
        first_index_of(a + seq![d] + b, d) == a.len(),
    decreases a.len(),
{
    let s = a + seq![d] + b;
    if a.len() == 0 {
        assert(s[0] == d);
    } else {
        assert(s[0] == a[0]);
        assert(s.drop_first() =~= a.drop_first() + seq![d] + b);
        assert(free_of(a.drop_first(), d)) by {
            assert(forall|j: int|
                0 <= j < a.len() - 1 ==> #[trigger] a.drop_first()[j] == a[j + 1]);
        }
        lemma_first_index_of_concat(a.drop_first(), d, b);
    }
}

/// Splitting a string that begins with a delimiter-free field `a`
/// followed by the delimiter yields `a` and then the split of the rest.
proof fn lemma_split_step(a: Seq<char>, d: char, b: Seq<char>)
    requires
        free_of(a, d),
    ensures
        split_seq(a + seq![d] + b, d) == seq![a] + split_seq(b, d),
{
    let s = a + seq![d] + b;
    lemma_first_index_of_concat(a, d, b);
    assert(s.take(a.len() as int) =~= a);
    assert(s.skip(a.len() as int + 1) =~= b);
}

/// A delimiter-free string splits into the single field it is.
proof fn lemma_split_single(a: Seq<char>, d: char)
    requires
        free_of(a, d),
    ensures
        split_seq(a, d) == seq![a],
{
    lemma_first_index_of(a, d);
    let fi = first_index_of(a, d);
    if fi < a.len() {
        assert(a[fi as int] == d);
        assert(false);
    }
}

/// Splitting undoes joining when every field is delimiter-free.
pub proof fn lemma_split_join(parts: Seq<Seq<char>>, d: char)
    requires
        parts.len() >= 1,
        forall|i: int| 0 <= i < parts.len() ==> free_of(#[trigger] parts[i], d),
    ensures
        split_seq(join_seq(parts, d), d) == parts,
    decreases parts.len(),
{
    if parts.len() == 1 {
        lemma_split_single(parts[0], d);
        assert(seq![parts[0]] =~= parts);
    } else {
        let rest = parts.drop_first();
        assert(forall|i: int| 0 <= i < rest.len() ==> #[trigger] rest[i] == parts[i + 1]);
        lemma_split_join(rest, d);
        lemma_split_step(parts[0], d, join_seq(rest, d));
        assert(seq![parts[0]] + rest =~= parts);
    }
}

/// Joining after appending one more field appends a delimiter and the
/// field to the previous join.
pub proof fn lemma_join_push(parts: Seq<Seq<char>>, d: char, p: Seq<char>)
    requires
        parts.len() >= 1,
    ensures
        join_seq(parts.push(p), d) == join_seq(parts, d) + seq![d] + p,
    decreases parts.len(),
{
    if parts.len() == 1 {
        let w = parts.push(p);
        assert(w.drop_first() =~= seq![p]);
        assert(w[0] == parts[0]);
        assert(join_seq(seq![p], d) == p);
    } else {
        let w = parts.push(p);
        assert(w[0] == parts[0]);
        assert(w.drop_first() =~= parts.drop_first().push(p));
        lemma_join_push(parts.drop_first(), d, p);
        assert(parts[0] + seq![d] + (join_seq(parts.drop_first(), d) + seq![d] + p) =~= (parts[0]
            + seq![d] + join_seq(parts.drop_first(), d)) + seq![d] + p);
    }
}

/// A join contains no character `e` when no field does and the
/// delimiter is not `e` itself.
pub proof fn lemma_join_free(parts: Seq<Seq<char>>, d: char, e: char)
    requires
        d != e,
        forall|i: int| 0 <= i < parts.len() ==> free_of(#[trigger] parts[i], e),
    ensures
        free_of(join_seq(parts, d), e),
    decreases parts.len(),
{
    if parts.len() >= 2 {
        let rest = parts.drop_first();
        assert(forall|i: int| 0 <= i < rest.len() ==> #[trigger] rest[i] == parts[i + 1]);
        lemma_join_free(rest, d, e);
        let j = parts[0] + seq![d] + join_seq(rest, d);
        assert(forall|i: int| 0 <= i < j.len() ==> #[trigger] j[i] != e) by {
            assert(forall|i: int|
                0 <= i < parts[0].len() ==> j[i] == #[trigger] parts[0][i]);
            assert(j[parts[0].len() as int] == d);
            assert(forall|i: int|
                parts[0].len() + 1 <= i < j.len() ==> j[i] == #[trigger] join_seq(rest, d)[i
                    - parts[0].len() - 1]);
        }
    }
}

/// Concatenation keeps freedom from a character.
pub proof fn lemma_free_concat(a: Seq<char>, b: Seq<char>, e: char)
    requires
        free_of(a, e),
        free_of(b, e),
    ensures
        free_of(a + b, e),
{
    assert forall|i: int| 0 <= i < (a + b).len() implies #[trigger] (a + b)[i] != e by {
        if i < a.len() {
            assert((a + b)[i] == a[i]);
        } else {
            assert((a + b)[i] == b[i - a.len()]);
        }
    }
}

/// A join starts with the first field's first character.
pub proof fn lemma_join_first(parts: Seq<Seq<char>>, d: char)
    requires
        parts.len() >= 1,
        parts[0].len() > 0,
    ensures
        join_seq(parts, d).len() > 0,
        join_seq(parts, d)[0] == parts[0][0],
{
    if parts.len() >= 2 {
        assert(join_seq(parts, d)[0] == (parts[0] + seq![d] + join_seq(parts.drop_first(), d))[
        0]);
    }
}

/// A join ends with the last field's last character.
pub proof fn lemma_join_last(parts: Seq<Seq<char>>, d: char)
    requires
        parts.len() >= 1,
        parts.last().len() > 0,
    ensures
        join_seq(parts, d).len() > 0,
        join_seq(parts, d).last() == parts.last().last(),
    decreases parts.len(),
{
    if parts.len() >= 2 {
        let rest = parts.drop_first();
        assert(rest.last() == parts.last());
        lemma_join_last(rest, d);
        let w = parts[0] + seq![d] + join_seq(rest, d);
        assert(w.last() == join_seq(rest, d).last());
    }
}

fn is_ws_char(c: char) -> (r: bool)
    ensures
        r == is_ws(c),
{
    c == '\u{0009}' || c == '\u{000A}' || c == '\u{000B}' || c == '\u{000C}' || c == '\u{000D}'
        || c == '\u{0020}' || c == '\u{0085}' || c == '\u{00A0}' || c == '\u{1680}'
        || c == '\u{2000}' || c == '\u{2001}' || c == '\u{2002}' || c == '\u{2003}'
        || c == '\u{2004}' || c == '\u{2005}' || c == '\u{2006}' || c == '\u{2007}'
        || c == '\u{2008}' || c == '\u{2009}' || c == '\u{200A}' || c == '\u{2028}'
        || c == '\u{2029}' || c == '\u{202F}' || c == '\u{205F}' || c == '\u{3000}'
}

/// Trimming does nothing to a string whose first and last characters
/// are not white space.
pub proof fn lemma_trim_id(s: Seq<char>)
    requires
        s.len() > 0,
        !is_ws(s[0]),
        !is_ws(s.last()),
    ensures
        spec_trim(s) == s,
{
}

/// Remove leading and trailing white space.
pub fn trim_str(s: &str) -> (r: &str)
    ensures
        r@ == spec_trim(s@),
{
    let n = s.unicode_len();
    let mut a: usize = 0;
    proof {
        assert(s@.skip(0) =~= s@);
    }
    while a < n && is_ws_char(s.get_char(a))
        invariant
            a <= n,
            n == s@.len(),
            trim_start(s@) == trim_start(s@.skip(a as int)),
        decreases n - a,
    {
        proof {
            let t = s@.skip(a as int);
            assert(t[0] == s@[a as int]);
            assert(t.drop_first() =~= s@.skip(a as int + 1));
        }
        a += 1;
    }
    proof {
        if a < n {
            assert(s@.skip(a as int)[0] == s@[a as int]);
        } else {
            assert(s@.skip(a as int) =~= Seq::<char>::empty());
        }
        assert(trim_start(s@) == s@.skip(a as int));
    }
    let mut b: usize = n;
    while b > a && is_ws_char(s.get_char(b - 1))
        invariant
            a <= b <= n,
            n == s@.len(),
            trim_start(s@) == s@.skip(a as int),
            trim_end(s@.skip(a as int)) == trim_end(s@.subrange(a as int, b as int)),
        decreases b,
    {
        proof {
            let t = s@.subrange(a as int, b as int);
            assert(t.last() == s@[b - 1]);
            assert(t.drop_last() =~= s@.subrange(a as int, b as int - 1));
        }
        b -= 1;
    }
    proof {
        let t = s@.subrange(a as int, b as int);
        if b > a {
            assert(t.last() == s@[b - 1]);
        }
        assert(trim_end(t) == t);
    }
    s.substring_char(a, b)
}

/// Split `s` into the fields between occurrences of `d`.
pub fn split_str(s: &str, d: char) -> (r: Vec<String>)
    ensures
        r.deep_view() == split_seq(s@, d),
        r.len() >= 1,
{
    let n = s.unicode_len();
    let mut parts: Vec<String> = Vec::new();
    let mut start: usize = 0;
    let mut i: usize = 0;
    proof {
        assert(parts.deep_view() =~= Seq::<Seq<char>>::empty());
        assert(s@.skip(0) =~= s@);
        assert(parts.deep_view() + split_seq(s@, d) =~= split_seq(s@, d));
    }
    while i < n
        invariant
            start <= i <= n,
            n == s@.len(),
            free_of(s@.subrange(start as int, i as int), d),
            split_seq(s@, d) == parts.deep_view() + split_seq(s@.skip(start as int), d),
        decreases n - i,
    {
        let c = s.get_char(i);
        if c == d {
            let piece = s.substring_char(start, i).to_owned();
            proof {
                let a = s@.subrange(start as int, i as int);
                assert(s@.skip(start as int) =~= a + seq![d] + s@.skip(i as int + 1));
                lemma_split_step(a, d, s@.skip(i as int + 1));
            }
            let ghost old_dv = parts.deep_view();
            parts.push(piece);
            proof {
                assert(parts.deep_view() =~= old_dv.push(piece@));
                assert(old_dv.push(piece@) + split_seq(s@.skip(i as int + 1), d) =~= old_dv + (
                seq![piece@] + split_seq(s@.skip(i as int + 1), d)));
            }
            start = i + 1;
            proof {
                assert(s@.subrange(start as int, i as int + 1) =~= Seq::<char>::empty());
            }
        } else {
            proof {
                assert(s@.subrange(start as int, i as int + 1) =~= s@.subrange(
                    start as int,
                    i as int,
                ).push(s@[i as int]));
            }
        }
        i += 1;
    }
    let piece = s.substring_char(start, n).to_owned();
    proof {
        let a = s@.subrange(start as int, n as int);
        assert(s@.skip(start as int) =~= a);
        lemma_split_single(a, d);
    }
    let ghost old_dv = parts.deep_view();
    parts.push(piece);
    proof {
        assert(parts.deep_view() =~= old_dv.push(piece@));
        assert(old_dv.push(piece@) =~= old_dv + seq![piece@]);
    }
    parts
}

/// Map a digit value to its character.
pub open spec fn digit_char(d: int) -> char {
    if d == 0 {
        '0'
    } else if d == 1 {
        '1'
    } else if d == 2 {
        '2'
    } else if d == 3 {
        '3'
    } else if d == 4 {
        '4'
    } else if d == 5 {
        '5'
    } else if d == 6 {
        '6'
    } else if d == 7 {
        '7'
    } else if d == 8 {
        '8'
    } else {
        '9'
    }
}

/// Base-10 rendering of a non-negative number, most significant digit
/// first, no leading zeros (a single "0" for zero).
pub open spec fn dec_digits(n: nat) -> Seq<char>
    decreases n,
{
    if n < 10 {
        seq![digit_char(n as int)]
    } else {
        dec_digits(n / 10).push(digit_char((n % 10) as int))
    }
}

/// Every character of a decimal rendering is a digit.
pub proof fn lemma_dec_digits_all_digits(n: nat)
    ensures
        all_digits(dec_digits(n)),
    decreases n,
{
    if n >= 10 {
        lemma_dec_digits_all_digits(n / 10);
        let s = dec_digits(n / 10);
        let w = s.push(digit_char((n % 10) as int));
        assert(forall|i: int| 0 <= i < s.len() ==> w[i] == #[trigger] s[i]);
    }
}

fn digit_str(d: u64) -> (r: &'static str)
    requires
        d < 10,
    ensures
        r@ == seq![digit_char(d as int)],
{
    if d == 0 {
        proof {
            reveal_strlit("0");
            assert("0"@ =~= seq!['0']);
        }
        "0"
    } else if d == 1 {
        proof {
            reveal_strlit("1");
            assert("1"@ =~= seq!['1']);
        }
        "1"
    } else if d == 2 {
        proof {
            reveal_strlit("2");
            assert("2"@ =~= seq!['2']);
        }
        "2"
    } else if d == 3 {
        proof {
            reveal_strlit("3");
            assert("3"@ =~= seq!['3']);
        }
        "3"
    } else if d == 4 {
        proof {
            reveal_strlit("4");
            assert("4"@ =~= seq!['4']);
        }
        "4"
    } else if d == 5 {
        proof {
            reveal_strlit("5");
            assert("5"@ =~= seq!['5']);
        }
        "5"
    } else if d == 6 {
        proof {
            reveal_strlit("6");
            assert("6"@ =~= seq!['6']);
        }
        "6"
    } else if d == 7 {
        proof {
            reveal_strlit("7");
            assert("7"@ =~= seq!['7']);
        }
        "7"
    } else if d == 8 {
        proof {
            reveal_strlit("8");
            assert("8"@ =~= seq!['8']);
        }
        "8"
    } else {
        proof {
            reveal_strlit("9");
            assert("9"@ =~= seq!['9']);
        }
        "9"
    }
}

/// Render a number in base 10.
pub fn u64_dec_string(n: u64) -> (r: String)
    ensures
        r@ == dec_digits(n as nat),
    decreases n,
{
    if n < 10 {
        digit_str(n).to_owned()
    } else {
        let mut r = u64_dec_string(n / 10);
        r.append(digit_str(n % 10));
        proof {
            assert(dec_digits((n / 10) as nat) + seq![digit_char((n % 10) as int)] =~= dec_digits(
                (n / 10) as nat,
            ).push(digit_char((n % 10) as int)));
        }
        r
    }
}

/// Append a single digit character to a string.
pub fn push_digit(s: &mut String, d: u64)
    requires
        d < 10,
    ensures
        final(s)@ == old(s)@.push(digit_char(d as int)),
{
    s.append(digit_str(d));
    proof {
        assert(old(s)@ + seq![digit_char(d as int)] =~= old(s)@.push(digit_char(d as int)));
    }
}

} // verus!
