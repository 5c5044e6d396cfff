//! Character-level utilities shared by the codecs: decimal digit strings,
//! conversion between `String` and `Vec<char>`, and the facts about them that
//! the round-trip proofs need.

use vstd::prelude::*;

verus! {

/// A decimal digit character.
pub open spec fn is_digit(c: char) -> bool {
    '0' <= c && c <= '9'
}

/// The numeric value of a decimal digit character.
pub open spec fn digit_val(c: char) -> int {
    c as int - '0' as int
}

/// The digit character for a value in `0 ..= 9`.
pub open spec fn digit_char(d: int) -> char {
    (('0' as int) + d) as char
}

/// Every character of `s` is a decimal digit.
pub open spec fn all_digits(s: Seq<char>) -> bool {
    forall|i: int| 0 <= i < s.len() ==> is_digit(s[i])
}

/// The numeric value of a digit string, most significant digit first.
pub open spec fn dec_val(s: Seq<char>) -> int
    decreases s.len(),
{
    if s.len() == 0 {
        0
    } else {
        dec_val(s.drop_last()) * 10 + digit_val(s.last())
    }
}

proof fn lemma_digit_char_val(d: int)
    requires
        0 <= d <= 9,
    ensures
        is_digit(digit_char(d)),
        digit_val(digit_char(d)) == d,
{
}

/// Converts one decimal digit value to its character.
pub fn digit_to_char(d: u8) -> (c: char)
    requires
        d <= 9,
    ensures
        c == digit_char(d as int),
        is_digit(c),
        digit_val(c) == d as int,
{
    proof {
        lemma_digit_char_val(d as int);
    }
    (48 + d) as char
}

/// Converts one decimal digit character to its value.
pub fn char_to_digit(c: char) -> (d: u8)
    requires
        is_digit(c),
    ensures
        d as int == digit_val(c),
        d <= 9,
{
    (c as u32 - 48) as u8
}

/// `10^k`.
pub open spec fn pow10(k: nat) -> int
    decreases k,
{
    if k == 0 {
        1
    } else {
        10 * pow10((k - 1) as nat)
    }
}

pub proof fn lemma_pow10_pos(k: nat)
    ensures
        pow10(k) >= 1,
    decreases k,
{
    if k > 0 {
        lemma_pow10_pos((k - 1) as nat);
    }
}

pub proof fn lemma_pow10_mono(a: nat, b: nat)
    requires
        a <= b,
    ensures
        pow10(a) <= pow10(b),
    decreases b,
{
    if a < b {
        lemma_pow10_mono(a, (b - 1) as nat);
        lemma_pow10_pos((b - 1) as nat);
    }
}

pub proof fn lemma_pow10_add(a: nat, b: nat)
    ensures
        pow10(a + b) == pow10(a) * pow10(b),
    decreases b,
{
    if b == 0 {
        assert(pow10(a + 0) == pow10(a) * 1);
    } else {
        lemma_pow10_add(a, (b - 1) as nat);
        assert(pow10(a + b) == 10 * pow10((a + b - 1) as nat));
        assert(pow10(a) * pow10(b) == pow10(a) * (10 * pow10((b - 1) as nat)));
        assert(pow10(a) * (10 * pow10((b - 1) as nat)) == 10 * (pow10(a) * pow10(
            (b - 1) as nat,
        ))) by (nonlinear_arith);
    }
}

pub proof fn lemma_dec_val_push(s: Seq<char>, c: char)
    ensures
        dec_val(s.push(c)) == dec_val(s) * 10 + digit_val(c),
{
    assert(s.push(c).drop_last() =~= s);
    assert(s.push(c).last() == c);
}

/// Splitting a digit string splits its value by a power of ten.
pub proof fn lemma_dec_val_append(s: Seq<char>, t: Seq<char>)
    ensures
        dec_val(s + t) == dec_val(s) * pow10(t.len()) + dec_val(t),
    decreases t.len(),
{
    if t.len() == 0 {
        assert(s + t =~= s);
    } else {
        lemma_dec_val_append(s, t.drop_last());
        assert((s + t).drop_last() =~= s + t.drop_last());
        assert((s + t).last() == t.last());
        assert(dec_val(s + t) == (dec_val(s) * pow10((t.len() - 1) as nat) + dec_val(t.drop_last()))
            * 10 + digit_val(t.last())) by {
            assert(dec_val(s + t) == dec_val((s + t).drop_last()) * 10 + digit_val((s + t).last()));
        }
        assert(dec_val(s) * pow10((t.len() - 1) as nat) * 10 == dec_val(s) * pow10(t.len()))
            by (nonlinear_arith)
            requires
                pow10(t.len()) == 10 * pow10((t.len() - 1) as nat),
        ;
    }
}

pub proof fn lemma_dec_val_nonneg(s: Seq<char>)
    requires
        all_digits(s),
    ensures
        dec_val(s) >= 0,
    decreases s.len(),
{
    if s.len() > 0 {
        lemma_dec_val_nonneg(s.drop_last());
    }
}

pub proof fn lemma_dec_val_bound(s: Seq<char>)
    requires
        all_digits(s),
    ensures
        0 <= dec_val(s) < pow10(s.len()),
    decreases s.len(),
{
    if s.len() > 0 {
        lemma_dec_val_bound(s.drop_last());
    }
}

/// The minimal decimal rendering of a non-negative number.
pub open spec fn dec_str(n: int) -> Seq<char>
    decreases n,
{
    if n <= 0 {
        seq![digit_char(0)]
    } else if n < 10 {
        seq![digit_char(n)]
    } else {
        dec_str(n / 10).push(digit_char(n % 10))
    }
}

/// Reading the minimal decimal rendering back gives the number itself.
pub proof fn lemma_dec_str_val(n: int)
    requires
        n >= 0,
    ensures
        all_digits(dec_str(n)),
        dec_str(n).len() >= 1,
        dec_val(dec_str(n)) == n,
    decreases n,
{
    if n < 10 {
        lemma_digit_char_val(n);
        lemma_dec_val_push(Seq::<char>::empty(), digit_char(n));
        assert(dec_str(n) =~= Seq::<char>::empty().push(digit_char(n)));
    } else {
        lemma_dec_str_val(n / 10);
        lemma_digit_char_val(n % 10);
        lemma_dec_val_push(dec_str(n / 10), digit_char(n % 10));
    }
}

/// The decimal rendering of a number padded with leading zeros to width `w`.
pub open spec fn pad_str(n: int, w: nat) -> Seq<char>
    decreases w,
{
    if w == 0 {
        Seq::empty()
    } else {
        pad_str(n / 10, (w - 1) as nat).push(digit_char(n % 10))
    }
}

/// Reading a zero-padded rendering back gives the number itself.
pub proof fn lemma_pad_str_val(n: int, w: nat)
    requires
        0 <= n < pow10(w),
    ensures
        all_digits(pad_str(n, w)),
        pad_str(n, w).len() == w,
        dec_val(pad_str(n, w)) == n,
    decreases w,
{
    if w == 0 {
    } else {
        assert(n / 10 < pow10((w - 1) as nat)) by (nonlinear_arith)
            requires
                0 <= n < pow10(w),
                pow10(w) == 10 * pow10((w - 1) as nat),
        ;
        lemma_pad_str_val(n / 10, (w - 1) as nat);
        lemma_digit_char_val(n % 10);
        lemma_dec_val_push(pad_str(n / 10, (w - 1) as nat), digit_char(n % 10));
    }
}

/// Renders a number as its minimal decimal digit string.
pub fn u64_to_dec_chars(n: u64) -> (v: Vec<char>)
    ensures
        v@ == dec_str(n as int),
    decreases n,
{
    if n < 10 {
        let mut v: Vec<char> = Vec::new();
        v.push(digit_to_char(n as u8));
        proof {
            assert(v@ =~= dec_str(n as int));
        }
        v
    } else {
        let mut v = u64_to_dec_chars(n / 10);
        v.push(digit_to_char((n % 10) as u8));
        proof {
            assert(v@ =~= dec_str(n as int));
        }
        v
    }
}

/// Renders a number zero-padded to the given width.
pub fn u64_to_pad_chars(n: u64, w: usize) -> (v: Vec<char>)
    ensures
        v@ == pad_str(n as int, w as nat),
    decreases w,
{
    if w == 0 {
        let v: Vec<char> = Vec::new();
        proof {
            assert(v@ =~= pad_str(n as int, 0));
        }
        v
    } else {
        let mut v = u64_to_pad_chars(n / 10, w - 1);
        v.push(digit_to_char((n % 10) as u8));
        proof {
            assert(v@ =~= pad_str(n as int, w as nat));
        }
        v
    }
}

/// Reads the value of a digit substring, reporting `None` when it does not
/// fit in a `u64`.
pub fn dec_chars_to_u64(s: &Vec<char>, from: usize, to: usize) -> (r: Option<u64>)
    requires
        from <= to <= s@.len(),
        all_digits(s@.subrange(from as int, to as int)),
    ensures
        dec_val(s@.subrange(from as int, to as int)) >= 0,
        dec_val(s@.subrange(from as int, to as int)) <= u64::MAX ==> r == Some(
            dec_val(s@.subrange(from as int, to as int)) as u64,
        ),
        dec_val(s@.subrange(from as int, to as int)) > u64::MAX ==> r is None,
{
    proof {
        lemma_dec_val_nonneg(s@.subrange(from as int, to as int));
    }
    let mut acc: u64 = 0;
    let mut i: usize = from;
    while i < to
        invariant
            from <= i <= to <= s@.len(),
            all_digits(s@.subrange(from as int, to as int)),
            acc as int == dec_val(s@.subrange(from as int, i as int)),
        decreases to - i,
    {
        proof {
            assert(s@.subrange(from as int, i + 1) =~= s@.subrange(from as int, i as int).push(
                s@[i as int],
            ));
            lemma_dec_val_push(s@.subrange(from as int, i as int), s@[i as int]);
            assert(is_digit(s@[i as int])) by {
                assert(s@.subrange(from as int, to as int)[i - from] == s@[i as int]);
            }
        }
        let d = char_to_digit(s[i]);
        if acc > (u64::MAX - d as u64) / 10 {
            proof {
                let done = s@.subrange(from as int, i + 1);
                let rest = s@.subrange(i + 1, to as int);
                let whole = s@.subrange(from as int, to as int);
                assert(whole =~= done + rest);
                assert(forall|k: int| 0 <= k < rest.len() ==> is_digit(#[trigger] rest[k])) by {
                    assert(forall|k: int|
                        0 <= k < rest.len() ==> rest[k] == whole[k + (i + 1 - from)]);
                }
                lemma_dec_val_append(done, rest);
                lemma_dec_val_nonneg(rest);
                lemma_pow10_pos(rest.len());
                assert(dec_val(done) == acc * 10 + d);
                assert(acc * 10 + d > u64::MAX) by (nonlinear_arith)
                    requires
                        acc > (u64::MAX - d as u64) / 10,
                        0 <= d <= 9,
                ;
                assert(dec_val(whole) > u64::MAX) by (nonlinear_arith)
                    requires
                        dec_val(whole) == dec_val(done) * pow10(rest.len()) + dec_val(rest),
                        dec_val(done) > u64::MAX,
                        pow10(rest.len()) >= 1,
                        dec_val(rest) >= 0,
                ;
            }
            return None;
        }
        proof {
            assert(acc * 10 + d <= u64::MAX) by (nonlinear_arith)
                requires
                    acc <= (u64::MAX - d as u64) / 10,
                    0 <= d <= 9,
            ;
        }
        acc = acc * 10 + d as u64;
        i = i + 1;
    }
    Some(acc)
}

/// Collects the characters of a string slice into a vector.
pub fn str_to_chars(s: &str) -> (v: Vec<char>)
    ensures
        v@ == s@,
{
    let n = s.unicode_len();
    let mut v: Vec<char> = Vec::new();
    let mut i: usize = 0;
    while i < n
        invariant
            n == s@.len(),
            i <= n,
            v@ == s@.subrange(0, i as int),
        decreases n - i,
    {
        v.push(s.get_char(i));
        proof {
            assert(v@ =~= s@.subrange(0, i + 1 as int));
        }
        i = i + 1;
    }
    proof {
        assert(v@ =~= s@);
    }
    v
}

/// Relies on `String::push`: appends one character to the string.
#[verifier::external_body]
pub(crate) fn push_char(s: &mut String, c: char)
    ensures
        final(s)@ == old(s)@.push(c),
{
    s.push(c)
}

/// Decides whether two string slices hold the same characters.
pub fn str_eq(a: &str, b: &str) -> (r: bool)
    ensures
        r == (a@ == b@),
{
    let n = a.unicode_len();
    let m = b.unicode_len();
    if n != m {
        return false;
    }
    let mut i: usize = 0;
    while i < n
        invariant
            n == a@.len(),
            n == b@.len(),
            i <= n,
            forall|k: int| 0 <= k < i ==> a@[k] == b@[k],
        decreases n - i,
    {
        if a.get_char(i) != b.get_char(i) {
            return false;
        }
        i = i + 1;
    }
    proof {
        assert(a@ =~= b@);
    }
    true
}

/// Relies on `char::from_u32`: `Some` of the character exactly for Unicode
/// scalar values, `None` for surrogates and values beyond the range.
#[verifier::external_body]
pub fn char_from_u32(v: u32) -> (r: Option<char>)
    ensures
        (v <= 0xD7FF || (0xE000 <= v && v <= 0x10FFFF)) ==> r == Some(v as char),
        !(v <= 0xD7FF || (0xE000 <= v && v <= 0x10FFFF)) ==> r is None,
{
    char::from_u32(v)
}

/// Builds a string from a range of a character vector.
pub fn chars_range_to_string(v: &Vec<char>, from: usize, to: usize) -> (s: String)
    requires
        from <= to <= v@.len(),
    ensures
        s@ == v@.subrange(from as int, to as int),
{
    let mut s = String::new();
    let mut i: usize = from;
    while i < to
        invariant
            from <= i <= to <= v@.len(),
            s@ == v@.subrange(from as int, i as int),
        decreases to - i,
    {
        push_char(&mut s, v[i]);
        proof {
            assert(s@ =~= v@.subrange(from as int, i + 1));
        }
        i = i + 1;
    }
    s
}

/// Builds a string from a vector of characters.
pub fn chars_to_string(v: &Vec<char>) -> (s: String)
    ensures
        s@ == v@,
{
    let s = chars_range_to_string(v, 0, v.len());
    proof {
        assert(v@.subrange(0, v@.len() as int) =~= v@);
    }
    s
}

} // verus!
