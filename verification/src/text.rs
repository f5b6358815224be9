//! Character-level text helpers for the request parser and response
//! builder: first-occurrence searches, whitespace tokenization, and
//! decimal numbers.

use vstd::prelude::*;
use vstd::string::StrSliceExecFns;

verus! {

/// ASCII whitespace, as the request-line tokenizer understands it.
pub open spec fn is_ws(c: char) -> bool {
    c as u32 == 32 || (9 <= c as u32 <= 13)
}

/// An ASCII decimal digit.
pub open spec fn is_digit(c: char) -> bool {
    48 <= c as u32 <= 57
}

/// Index of the first occurrence of `c` in `s`, or `s.len()` when absent.
pub open spec fn spec_index_of(s: Seq<char>, c: char) -> int
    decreases s.len(),
{
    if s.len() == 0 {
        0
    } else if s[0] == c {
        0
    } else {
        1 + spec_index_of(s.skip(1), c)
    }
}

pub proof fn lemma_index_of_is(s: Seq<char>, c: char, i: int)
    requires
        0 <= i <= s.len(),
        forall|j: int| 0 <= j < i ==> s[j] != c,
        i < s.len() ==> s[i] == c,
    ensures
        spec_index_of(s, c) == i,
    decreases s.len(),
{
    if s.len() > 0 && s[0] != c {
        assert(forall|j: int| 0 <= j < s.skip(1).len() ==> s.skip(1)[j] == s[j + 1]);
        lemma_index_of_is(s.skip(1), c, i - 1);
    }
}

/// Index of the first non-whitespace character, or `s.len()` when all
/// whitespace.
pub open spec fn spec_first_non_ws(s: Seq<char>) -> int
    decreases s.len(),
{
    if s.len() == 0 {
        0
    } else if !is_ws(s[0]) {
        0
    } else {
        1 + spec_first_non_ws(s.skip(1))
    }
}

pub proof fn lemma_first_non_ws_is(s: Seq<char>, i: int)
    requires
        0 <= i <= s.len(),
        forall|j: int| 0 <= j < i ==> is_ws(s[j]),
        i < s.len() ==> !is_ws(s[i]),
    ensures
        spec_first_non_ws(s) == i,
    decreases s.len(),
{
    if s.len() > 0 && is_ws(s[0]) {
        assert(forall|j: int| 0 <= j < s.skip(1).len() ==> s.skip(1)[j] == s[j + 1]);
        lemma_first_non_ws_is(s.skip(1), i - 1);
    }
}

/// Index of the first whitespace character, or `s.len()` when absent.
pub open spec fn spec_first_ws(s: Seq<char>) -> int
    decreases s.len(),
{
    if s.len() == 0 {
        0
    } else if is_ws(s[0]) {
        0
    } else {
        1 + spec_first_ws(s.skip(1))
    }
}

pub proof fn lemma_first_ws_is(s: Seq<char>, i: int)
    requires
        0 <= i <= s.len(),
        forall|j: int| 0 <= j < i ==> !is_ws(s[j]),
        i < s.len() ==> is_ws(s[i]),
    ensures
        spec_first_ws(s) == i,
    decreases s.len(),
{
    if s.len() > 0 && !is_ws(s[0]) {
        assert(forall|j: int| 0 <= j < s.skip(1).len() ==> s.skip(1)[j] == s[j + 1]);
        lemma_first_ws_is(s.skip(1), i - 1);
    }
}

/// The first line of a request: everything before the first line feed,
/// with one trailing carriage return stripped.
pub open spec fn spec_first_line(s: Seq<char>) -> Seq<char> {
    let line = s.take(spec_index_of(s, '\n'));
    if line.len() > 0 && line.last() == '\r' {
        line.drop_last()
    } else {
        line
    }
}

/// `s` split at every occurrence of `sep`, separators removed; an empty
/// input yields one empty part, as `str::split` does.
pub open spec fn spec_split(s: Seq<char>, sep: char) -> Seq<Seq<char>>
    decreases s.len(),
{
    let i = spec_index_of(s, sep);
    if 0 <= i < s.len() {
        seq![s.take(i)] + spec_split(s.skip(i + 1), sep)
    } else {
        seq![s]
    }
}

/// The whitespace-separated tokens of `s`, in order, empty runs skipped.
pub open spec fn spec_ws_tokens(s: Seq<char>) -> Seq<Seq<char>>
    decreases s.len(),
{
    let i = spec_first_non_ws(s);
    if !(0 <= i < s.len()) {
        Seq::empty()
    } else {
        let t = s.skip(i);
        let j = spec_first_ws(t);
        if 0 < j <= t.len() {
            seq![t.take(j)] + spec_ws_tokens(t.skip(j))
        } else {
            seq![t]
        }
    }
}

/// Value of a sequence of decimal digit characters, most significant
/// first.
pub open spec fn digits_val(s: Seq<char>) -> nat
    decreases s.len(),
{
    if s.len() == 0 {
        0
    } else {
        digits_val(s.drop_last()) * 10 + (s.last() as u32 - 48) as nat
    }
}

/// Digit values only grow as more digits are appended.
pub proof fn lemma_digits_val_prefix(s: Seq<char>, i: int)
    requires
        0 <= i <= s.len(),
    ensures
        digits_val(s) >= digits_val(s.take(i)),
    decreases s.len(),
{
    if i < s.len() {
        assert(s.drop_last() =~= s.take(s.len() - 1));
        lemma_digits_val_prefix(s.drop_last(), i);
        assert(s.drop_last().take(i) =~= s.take(i));
    } else {
        assert(s.take(i) =~= s);
    }
}

/// `str::parse::<u32>`-style reading of an unsigned decimal: all digits,
/// at least one, value within `u32` range.
pub open spec fn spec_parse_u32(s: Seq<char>) -> Option<u32> {
    if s.len() > 0 && (forall|j: int| 0 <= j < s.len() ==> is_digit(#[trigger] s[j]))
        && digits_val(s) <= u32::MAX {
        Some(digits_val(s) as u32)
    } else {
        None
    }
}

/// The decimal digit character for a value below ten.
pub open spec fn digit_char(d: nat) -> char {
    ((48 + d) as u8) as char
}

/// The decimal digits of `n`, most significant first, no leading zeros.
pub open spec fn spec_dec(n: nat) -> Seq<char>
    decreases n,
{
    if n < 10 {
        seq![digit_char(n)]
    } else {
        spec_dec(n / 10).push(digit_char(n % 10))
    }
}

/// Decimal rendering yields digits that read back as the number.
pub proof fn lemma_dec_digits(n: nat)
    ensures
        spec_dec(n).len() > 0,
        forall|j: int| 0 <= j < spec_dec(n).len() ==> is_digit(#[trigger] spec_dec(n)[j]),
        digits_val(spec_dec(n)) == n,
    decreases n,
{
    if n < 10 {
        let s = spec_dec(n);
        assert(s.drop_last() =~= Seq::<char>::empty());
        assert(digits_val(s) == digits_val(s.drop_last()) * 10 + (s.last() as u32 - 48) as nat);
        assert(digits_val(s) == n);
    } else {
        lemma_dec_digits(n / 10);
        assert(spec_dec(n).drop_last() =~= spec_dec(n / 10));
        assert(digits_val(spec_dec(n)) == (n / 10) * 10 + n % 10);
        assert((n / 10) * 10 + n % 10 == n) by (nonlinear_arith);
    }
}

/// Formatting a `u32` in decimal and parsing it back returns the same
/// number.
pub proof fn lemma_dec_parse_round_trip(n: u32)
    ensures
        spec_parse_u32(spec_dec(n as nat)) == Some(n),
{
    lemma_dec_digits(n as nat);
}

/// End of the digit run that starts at `from`.
pub open spec fn spec_digits_end(s: Seq<char>, from: int) -> int
    decreases s.len() - from,
{
    if 0 <= from < s.len() && is_digit(s[from]) {
        spec_digits_end(s, from + 1)
    } else {
        from
    }
}

pub proof fn lemma_digits_end(s: Seq<char>, from: int)
    requires
        0 <= from <= s.len(),
    ensures
        from <= spec_digits_end(s, from) <= s.len(),
        forall|j: int| from <= j < spec_digits_end(s, from) ==> is_digit(#[trigger] s[j]),
        spec_digits_end(s, from) < s.len() ==> !is_digit(s[spec_digits_end(s, from)]),
    decreases s.len() - from,
{
    if 0 <= from < s.len() && is_digit(s[from]) {
        lemma_digits_end(s, from + 1);
    }
}

/// The digit run ends exactly at the first non-digit.
pub proof fn lemma_digits_end_is(s: Seq<char>, from: int, i: int)
    requires
        0 <= from <= i <= s.len(),
        forall|j: int| from <= j < i ==> is_digit(#[trigger] s[j]),
        i < s.len() ==> !is_digit(s[i]),
    ensures
        spec_digits_end(s, from) == i,
    decreases s.len() - from,
{
    if 0 <= from < s.len() && is_digit(s[from]) {
        lemma_digits_end_is(s, from + 1, i);
    }
}

/// The characters of `s`, as an indexable vector.
pub fn str_chars(s: &str) -> (r: Vec<char>)
    ensures
        r@ == s@,
{
    let n = s.unicode_len();
    let mut out: Vec<char> = Vec::new();
    let mut i: usize = 0;
    while i < n
        invariant
            0 <= i <= n,
            n == s@.len(),
            out@ == s@.take(i as int),
        decreases n - i,
    {
        proof {
            assert(s@.take(i + 1) =~= s@.take(i as int).push(s@[i as int]));
        }
        let c = s.get_char(i);
        out.push(c);
        i = i + 1;
    }
    proof {
        assert(s@.take(s@.len() as int) =~= s@);
    }
    out
}

/// First index of `c` in `v` at or after `from`, or `v.len()` if absent.
pub fn find_char_from(v: &[char], from: usize, c: char) -> (r: usize)
    requires
        from <= v@.len(),
    ensures
        from <= r <= v@.len(),
        r - from == spec_index_of(v@.skip(from as int), c),
        forall|j: int| from <= j < r ==> v@[j] != c,
        r < v@.len() ==> v@[r as int] == c,
{
    let mut i: usize = from;
    while i < v.len()
        invariant
            from <= i <= v@.len(),
            forall|j: int| from <= j < i ==> v@[j] != c,
        decreases v@.len() - i,
    {
        if v[i] == c {
            proof {
                assert(forall|j: int|
                    0 <= j < v@.skip(from as int).len() ==> v@.skip(from as int)[j] == v@[j
                        + from]);
                lemma_index_of_is(v@.skip(from as int), c, i - from);
            }
            return i;
        }
        i = i + 1;
    }
    proof {
        assert(forall|j: int|
            0 <= j < v@.skip(from as int).len() ==> v@.skip(from as int)[j] == v@[j + from]);
        lemma_index_of_is(v@.skip(from as int), c, v@.len() - from);
    }
    v.len()
}

/// Parses `v` as an unsigned decimal, exactly as [`spec_parse_u32`] says.
pub fn parse_u32(v: &[char]) -> (r: Option<u32>)
    ensures
        r == spec_parse_u32(v@),
{
    if v.len() == 0 {
        return None;
    }
    let mut acc: u64 = 0;
    let mut i: usize = 0;
    while i < v.len()
        invariant
            0 <= i <= v@.len(),
            acc <= u32::MAX,
            forall|j: int| 0 <= j < i ==> is_digit(#[trigger] v@[j]),
            acc == digits_val(v@.take(i as int)),
        decreases v@.len() - i,
    {
        let d = v[i] as u32;
        if d < 48 || d > 57 {
            return None;
        }
        proof {
            assert(v@.take(i + 1).drop_last() =~= v@.take(i as int));
            assert(v@.take(i + 1).last() == v@[i as int]);
        }
        acc = acc * 10 + ((d - 48) as u64);
        i = i + 1;
        if acc > u32::MAX as u64 {
            proof {
                lemma_digits_val_prefix(v@, i as int);
            }
            return None;
        }
    }
    proof {
        assert(v@.take(v@.len() as int) =~= v@);
    }
    Some(acc as u32)
}

/// Appends the decimal rendering of `n` to `out`.
pub fn push_dec(out: &mut Vec<char>, n: u32)
    ensures
        final(out)@ == old(out)@ + spec_dec(n as nat),
    decreases n,
{
    if n < 10 {
        out.push((48 + n as u8) as char);
    } else {
        push_dec(out, n / 10);
        out.push((48 + (n % 10) as u8) as char);
    }
}

/// Appends the characters of `s` to `out`.
pub fn push_str_chars(out: &mut Vec<char>, s: &str)
    ensures
        final(out)@ == old(out)@ + s@,
{
    let n = s.unicode_len();
    let mut i: usize = 0;
    while i < n
        invariant
            0 <= i <= n,
            n == s@.len(),
            out@ == old(out)@ + s@.take(i as int),
        decreases n - i,
    {
        proof {
            assert(s@.take(i + 1) =~= s@.take(i as int).push(s@[i as int]));
        }
        let c = s.get_char(i);
        out.push(c);
        i = i + 1;
    }
    proof {
        assert(s@.take(s@.len() as int) =~= s@);
    }
}

/// Relies on `String`'s `FromIterator<char>` (via `Iterator::collect`):
/// collecting characters yields a string holding exactly that character
/// sequence.
#[verifier::external_body]
pub fn chars_to_string(v: &Vec<char>) -> (r: String)
    ensures
        r@ == v@,
{
    v.iter().collect()
}

/// Do `a` and the characters of `s` agree exactly?
pub fn chars_eq_str(a: &[char], s: &str) -> (r: bool)
    ensures
        r == (a@ == s@),
{
    let n = s.unicode_len();
    if a.len() != n {
        proof {
            assert(a@.len() != s@.len());
        }
        return false;
    }
    let mut i: usize = 0;
    while i < n
        invariant
            0 <= i <= n,
            n == s@.len(),
            a@.len() == n,
            forall|j: int| 0 <= j < i ==> a@[j] == s@[j],
        decreases n - i,
    {
        if a[i] != s.get_char(i) {
            proof {
                assert(a@[i as int] != s@[i as int]);
            }
            return false;
        }
        i = i + 1;
    }
    proof {
        assert(a@ =~= s@);
    }
    true
}

/// Does `a` begin with the characters of `s`?
pub fn chars_start_with_str(a: &[char], s: &str) -> (r: bool)
    ensures
        r == (a@.len() >= s@.len() && a@.take(s@.len() as int) == s@),
{
    let n = s.unicode_len();
    if a.len() < n {
        return false;
    }
    let mut i: usize = 0;
    while i < n
        invariant
            0 <= i <= n,
            n == s@.len(),
            a@.len() >= n,
            forall|j: int| 0 <= j < i ==> a@[j] == s@[j],
        decreases n - i,
    {
        if a[i] != s.get_char(i) {
            proof {
                assert(a@.take(s@.len() as int)[i as int] != s@[i as int]);
            }
            return false;
        }
        i = i + 1;
    }
    proof {
        assert(a@.take(s@.len() as int) =~= s@);
    }
    true
}

} // verus!
