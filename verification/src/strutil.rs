//! Character-level text utilities: decimal rendering and parsing, substring
//! and whole-word containment, and whitespace trimming, all specified over
//! `Seq<char>`.

use vstd::prelude::*;
use vstd::string::StrSliceExecFns;
use crate::outside::{alnum, is_alnum_char, white, is_space_char, chars_to_string};

verus! {

/// A text made only of whitespace, the empty text included.
pub open spec fn blank(s: Seq<char>) -> bool {
    forall|i: int| 0 <= i < s.len() ==> white(#[trigger] s[i])
}

pub fn is_blank_chars(v: &Vec<char>) -> (r: bool)
    ensures
        r == blank(v@),
{
    let mut i: usize = 0;
    while i < v.len()
        invariant
            0 <= i <= v@.len(),
            forall|k: int| 0 <= k < i ==> white(#[trigger] v@[k]),
        decreases v@.len() - i,
    {
        if !is_space_char(v[i]) {
            return false;
        }
        i = i + 1;
    }
    true
}

/// The first index at or after `i` holding a non-whitespace character.
pub open spec fn trim_start_idx(s: Seq<char>, i: int) -> int
    decreases s.len() - i,
{
    if i < 0 || i >= s.len() {
        i
    } else if white(s[i]) {
        trim_start_idx(s, i + 1)
    } else {
        i
    }
}

/// The index just past the last non-whitespace character before `j`.
pub open spec fn trim_end_idx(s: Seq<char>, j: int) -> int
    decreases j,
{
    if j <= 0 || j > s.len() {
        j
    } else if white(s[j - 1]) {
        trim_end_idx(s, j - 1)
    } else {
        j
    }
}

/// The text with leading and trailing whitespace removed.
pub open spec fn trim_seq(s: Seq<char>) -> Seq<char> {
    let a = trim_start_idx(s, 0);
    if a == s.len() {
        Seq::empty()
    } else {
        s.subrange(a, trim_end_idx(s, s.len() as int))
    }
}

proof fn lemma_trim_start(s: Seq<char>, i: int)
    requires
        0 <= i <= s.len(),
    ensures
        i <= trim_start_idx(s, i) <= s.len(),
        trim_start_idx(s, i) < s.len() ==> !white(s[trim_start_idx(s, i)]),
    decreases s.len() - i,
{
    if i < s.len() && white(s[i]) {
        lemma_trim_start(s, i + 1);
    }
}

proof fn lemma_trim_end(s: Seq<char>, j: int, a: int)
    requires
        0 <= a < j <= s.len(),
        !white(s[a]),
    ensures
        a < trim_end_idx(s, j) <= j,
        !white(s[trim_end_idx(s, j) - 1]),
    decreases j,
{
    if white(s[j - 1]) {
        lemma_trim_end(s, j - 1, a);
    }
}

/// Removes leading and trailing whitespace.
pub fn trim_chars(v: &Vec<char>) -> (r: Vec<char>)
    ensures
        r@ == trim_seq(v@),
{
    let mut a: usize = 0;
    while a < v.len() && is_space_char(v[a])
        invariant
            0 <= a <= v@.len(),
            trim_start_idx(v@, 0) == trim_start_idx(v@, a as int),
        decreases v@.len() - a,
    {
        a = a + 1;
    }
    if a == v.len() {
        let r: Vec<char> = Vec::new();
        return r;
    }
    proof {
        lemma_trim_start(v@, 0);
        assert(trim_start_idx(v@, a as int) == a);
        lemma_trim_end(v@, v@.len() as int, a as int);
    }
    let mut b: usize = v.len();
    while b > a + 1 && is_space_char(v[b - 1])
        invariant
            a < b <= v@.len(),
            trim_end_idx(v@, v@.len() as int) == trim_end_idx(v@, b as int),
        decreases b,
    {
        b = b - 1;
    }
    proof {
        assert(trim_end_idx(v@, b as int) == b);
    }
    let mut r: Vec<char> = Vec::new();
    let mut i: usize = a;
    while i < b
        invariant
            a <= i <= b <= v@.len(),
            r@ =~= v@.subrange(a as int, i as int),
        decreases b - i,
    {
        r.push(v[i]);
        i = i + 1;
        assert(r@ =~= v@.subrange(a as int, i as int));
    }
    r
}

/// The characters of a string slice, in order.
pub fn str_to_chars(s: &str) -> (r: Vec<char>)
    ensures
        r@ == s@,
{
    let n = s.unicode_len();
    let mut r: Vec<char> = Vec::new();
    let mut i: usize = 0;
    while i < n
        invariant
            n == s@.len(),
            0 <= i <= n,
            r@ =~= s@.subrange(0, i as int),
        decreases n - i,
    {
        r.push(s.get_char(i));
        i = i + 1;
        assert(r@ =~= s@.subrange(0, i as int));
    }
    assert(s@.subrange(0, n as int) =~= s@);
    r
}

pub open spec fn is_digit(c: char) -> bool {
    '0' <= c && c <= '9'
}

pub open spec fn digit_char(d: nat) -> char {
    if d == 0 {
        '0'
    } else if d == 1 {
        '1'
    } else if d == 2 {
        '2'
    } else if d == 3 {
        '3'
    } else if d == 4 {
        '4'
    } else if d == 5 {
        '5'
    } else if d == 6 {
        '6'
    } else if d == 7 {
        '7'
    } else if d == 8 {
        '8'
    } else {
        '9'
    }
}

pub open spec fn digit_val(c: char) -> nat {
    if c == '0' {
        0
    } else if c == '1' {
        1
    } else if c == '2' {
        2
    } else if c == '3' {
        3
    } else if c == '4' {
        4
    } else if c == '5' {
        5
    } else if c == '6' {
        6
    } else if c == '7' {
        7
    } else if c == '8' {
        8
    } else {
        9
    }
}

/// Decides `is_digit` on a character.
pub fn is_digit_char(c: char) -> (r: bool)
    ensures
        r == is_digit(c),
{
    match c {
        '0' | '1' | '2' | '3' | '4' | '5' | '6' | '7' | '8' | '9' => true,
        _ => false,
    }
}

/// The decimal rendering of a natural number, most significant digit first.
pub open spec fn dec_digits(n: nat) -> Seq<char>
    decreases n,
{
    if n < 10 {
        seq![digit_char(n)]
    } else {
        dec_digits(n / 10) + seq![digit_char(n % 10)]
    }
}

pub open spec fn all_digits(s: Seq<char>) -> bool {
    forall|i: int| 0 <= i < s.len() ==> is_digit(#[trigger] s[i])
}

/// The numeric value of a digit string, most significant digit first.
pub open spec fn digits_val(s: Seq<char>) -> nat
    decreases s.len(),
{
    if s.len() == 0 {
        0
    } else {
        digits_val(s.drop_last()) * 10 + digit_val(s.last())
    }
}

pub proof fn lemma_dec_digits(n: nat)
    ensures
        dec_digits(n).len() >= 1,
        all_digits(dec_digits(n)),
        digits_val(dec_digits(n)) == n,
        n >= 1 ==> dec_digits(n)[0] != '0',
        n < 10 ==> dec_digits(n).len() == 1,
    decreases n,
{
    if n < 10 {
        assert(dec_digits(n) =~= seq![digit_char(n)]);
        assert(dec_digits(n).drop_last() =~= Seq::<char>::empty());
        assert(digits_val(dec_digits(n)) == digits_val(Seq::<char>::empty()) * 10 + digit_val(
            digit_char(n)));
        assert(digit_val(digit_char(n)) == n);
    } else {
        lemma_dec_digits(n / 10);
        let s = dec_digits(n);
        assert(s =~= dec_digits(n / 10) + seq![digit_char(n % 10)]);
        assert(s.drop_last() =~= dec_digits(n / 10));
        assert(s.last() == digit_char(n % 10));
        assert(digit_val(digit_char(n % 10)) == n % 10);
        assert(digits_val(s) == (n / 10) * 10 + n % 10);
        assert((n / 10) * 10 + n % 10 == n) by (nonlinear_arith);
    }
}

/// Two distinct numbers never share a decimal rendering.
pub proof fn lemma_dec_digits_injective(a: nat, b: nat)
    requires
        a != b,
    ensures
        dec_digits(a) != dec_digits(b),
{
    lemma_dec_digits(a);
    lemma_dec_digits(b);
}

fn digit_to_char(d: u64) -> (c: char)
    requires
        d < 10,
    ensures
        c == digit_char(d as nat),
{
    if d == 0 {
        '0'
    } else if d == 1 {
        '1'
    } else if d == 2 {
        '2'
    } else if d == 3 {
        '3'
    } else if d == 4 {
        '4'
    } else if d == 5 {
        '5'
    } else if d == 6 {
        '6'
    } else if d == 7 {
        '7'
    } else if d == 8 {
        '8'
    } else {
        '9'
    }
}

pub fn dec_chars_u64(n: u64) -> (r: Vec<char>)
    ensures
        r@ == dec_digits(n as nat),
    decreases n,
{
    if n < 10 {
        let mut v: Vec<char> = Vec::new();
        v.push(digit_to_char(n));
        assert(v@ =~= dec_digits(n as nat));
        v
    } else {
        let mut v = dec_chars_u64(n / 10);
        v.push(digit_to_char(n % 10));
        assert(v@ =~= dec_digits(n as nat));
        v
    }
}

/// Renders a count or index in decimal.
pub fn usize_to_string(n: usize) -> (r: String)
    ensures
        r@ == dec_digits(n as nat),
{
    let v = dec_chars_u64(n as u64);
    chars_to_string(&v)
}

/// The text of a signed integer: a minus sign for negative values, then the
/// decimal magnitude.
pub open spec fn int_text(i: int) -> Seq<char> {
    if i < 0 {
        seq!['-'] + dec_digits((-i) as nat)
    } else {
        dec_digits(i as nat)
    }
}

pub fn i64_to_string(i: i64) -> (r: String)
    ensures
        r@ == int_text(i as int),
{
    if i >= 0 {
        let v = dec_chars_u64(i as u64);
        chars_to_string(&v)
    } else {
        let wide: i128 = i as i128;
        let mag: u64 = (-wide) as u64;
        let ds = dec_chars_u64(mag);
        let mut v: Vec<char> = Vec::new();
        v.push('-');
        let mut k: usize = 0;
        while k < ds.len()
            invariant
                0 <= k <= ds.len(),
                v@ =~= seq!['-'] + ds@.subrange(0, k as int),
            decreases ds.len() - k,
        {
            v.push(ds[k]);
            k = k + 1;
            assert(v@ =~= seq!['-'] + ds@.subrange(0, k as int));
        }
        assert(ds@.subrange(0, ds@.len() as int) =~= ds@);
        assert(v@ =~= int_text(i as int));
        chars_to_string(&v)
    }
}

/// The integer accepted for a value of `s`, mirroring a strict decimal
/// integer parse: an optional `+` or `-` sign, then one or more digits,
/// with the result required to fit in `i64`.
pub open spec fn int_parse(s: Seq<char>) -> Option<int> {
    if s.len() == 0 {
        None
    } else {
        let neg = s[0] == '-';
        let ds = if s[0] == '-' || s[0] == '+' {
            s.drop_first()
        } else {
            s
        };
        if ds.len() > 0 && all_digits(ds) {
            let v = if neg {
                -(digits_val(ds) as int)
            } else {
                digits_val(ds) as int
            };
            if i64::MIN <= v <= i64::MAX {
                Some(v)
            } else {
                None
            }
        } else {
            None
        }
    }
}

pub proof fn lemma_digits_val_monotone(s: Seq<char>, i: int)
    requires
        0 <= i <= s.len(),
    ensures
        digits_val(s) >= digits_val(s.subrange(0, i)),
    decreases s.len() - i,
{
    if i == s.len() {
        assert(s.subrange(0, i) =~= s);
    } else {
        lemma_digits_val_monotone(s, i + 1);
        let t = s.subrange(0, i + 1);
        assert(t.drop_last() =~= s.subrange(0, i));
        assert(digits_val(t) == digits_val(s.subrange(0, i)) * 10 + digit_val(t.last()));
        assert(digits_val(s.subrange(0, i)) * 10 >= digits_val(s.subrange(0, i))) by (nonlinear_arith);
    }
}

/// Parses the characters of `s` as a signed 64-bit integer.
pub fn parse_i64_chars(s: &Vec<char>) -> (r: Option<i64>)
    ensures
        match r {
            Some(v) => int_parse(s@) == Some(v as int),
            None => int_parse(s@) is None,
        },
{
    if s.len() == 0 {
        return None;
    }
    let c0 = s[0];
    let neg = c0 == '-';
    let start: usize = if c0 == '-' || c0 == '+' {
        1
    } else {
        0
    };
    let ghost ds = if c0 == '-' || c0 == '+' {
        s@.drop_first()
    } else {
        s@
    };
    assert(ds =~= s@.subrange(start as int, s@.len() as int));
    if start == s.len() {
        return None;
    }
    let limit: u128 = 9223372036854775808u128;
    let mut acc: u128 = 0;
    let mut i: usize = start;
    while i < s.len()
        invariant
            start <= i <= s@.len(),
            start < s@.len(),
            s@.len() > 0,
            if s@[0] == '-' || s@[0] == '+' {
                start == 1
            } else {
                start == 0
            },
            ds == if s@[0] == '-' || s@[0] == '+' {
                s@.drop_first()
            } else {
                s@
            },
            ds =~= s@.subrange(start as int, s@.len() as int),
            all_digits(ds.subrange(0, i - start)),
            acc == digits_val(ds.subrange(0, i - start)),
            acc <= limit,
            limit == 9223372036854775808u128,
        decreases s@.len() - i,
    {
        let c = s[i];
        let d: u64 = match c {
            '0' => 0,
            '1' => 1,
            '2' => 2,
            '3' => 3,
            '4' => 4,
            '5' => 5,
            '6' => 6,
            '7' => 7,
            '8' => 8,
            '9' => 9,
            _ => 10,
        };
        if d == 10 {
            assert(!is_digit(ds[i - start]));
            return None;
        }
        assert(is_digit(c) && digit_val(c) == d);
        acc = acc * 10 + (d as u128);
        i = i + 1;
        assert(ds.subrange(0, i - start).drop_last() =~= ds.subrange(0, i - 1 - start));
        assert(ds.subrange(0, i - start).last() == c);
        if acc > limit {
            proof {
                lemma_digits_val_monotone(ds, i - start);
                assert(digits_val(ds) >= acc);
            }
            return None;
        }
    }
    assert(ds.subrange(0, s@.len() - start) =~= ds);
    assert(acc == digits_val(ds));
    if neg {
        let v: i128 = -(acc as i128);
        if v < -9223372036854775808i128 {
            return None;
        }
        Some(v as i64)
    } else {
        if acc > 9223372036854775807u128 {
            return None;
        }
        Some(acc as i64)
    }
}

/// Substring containment: some window of `t` equals `p`.
pub open spec fn contains_seq(t: Seq<char>, p: Seq<char>) -> bool {
    exists|i: int| 0 <= i && i + p.len() <= t.len() && #[trigger] t.subrange(i, i + p.len()) == p
}

/// Compares the window `t[i..j]` against `w`.
pub fn range_eq(t: &Vec<char>, i: usize, j: usize, w: &Vec<char>) -> (r: bool)
    requires
        i <= j <= t@.len(),
    ensures
        r == (t@.subrange(i as int, j as int) == w@),
{
    if j - i != w.len() {
        return false;
    }
    let mut k: usize = 0;
    while k < w.len()
        invariant
            i <= j <= t@.len(),
            j - i == w@.len(),
            0 <= k <= w@.len(),
            forall|m: int| 0 <= m < k ==> t@[i + m] == w@[m],
        decreases w@.len() - k,
    {
        if t[i + k] != w[k] {
            assert(t@.subrange(i as int, j as int)[k as int] != w@[k as int]);
            return false;
        }
        k = k + 1;
    }
    assert(t@.subrange(i as int, j as int) =~= w@);
    true
}

pub fn contains_chars(t: &Vec<char>, p: &Vec<char>) -> (r: bool)
    ensures
        r == contains_seq(t@, p@),
{
    if p.len() > t.len() {
        assert(!contains_seq(t@, p@));
        return false;
    }
    if p.len() == 0 {
        assert(t@.subrange(0, 0 + p@.len() as int) =~= p@);
        assert(contains_seq(t@, p@));
        return true;
    }
    let last_start = t.len() - p.len();
    let mut i: usize = 0;
    while i <= last_start
        invariant
            1 <= p@.len() <= t@.len(),
            t@.len() <= usize::MAX,
            last_start == t@.len() - p@.len(),
            0 <= i <= last_start + 1,
            forall|k: int| 0 <= k < i ==> #[trigger] t@.subrange(k, k + p@.len()) != p@,
        decreases last_start - i + 1,
    {
        if range_eq(t, i, i + p.len(), p) {
            assert(t@.subrange(i as int, i + p@.len() as int) == p@);
            assert(contains_seq(t@, p@));
            return true;
        }
        i = i + 1;
    }
    assert forall|k: int| !(0 <= k && k + p@.len() <= t@.len() && #[trigger] t@.subrange(k, k
        + p@.len()) == p@) by {
        if 0 <= k && k + p@.len() <= t@.len() {
            assert(k < i);
        }
    }
    false
}

/// The end of the alphanumeric run that begins at `i`.
pub open spec fn run_end(t: Seq<char>, i: int) -> int
    decreases t.len() - i,
{
    if i < 0 || i >= t.len() {
        i
    } else if !alnum(t[i]) {
        i
    } else {
        run_end(t, i + 1)
    }
}

/// A position where a token of the non-alphanumeric split of `t` begins.
pub open spec fn token_start(t: Seq<char>, i: int) -> bool {
    0 <= i <= t.len() && (i == 0 || !alnum(t[i - 1]))
}

/// Whole-word containment: splitting `t` on non-alphanumeric characters
/// yields a token equal to `w`.
pub open spec fn has_word(t: Seq<char>, w: Seq<char>) -> bool {
    exists|i: int| #[trigger] token_start(t, i) && t.subrange(i, run_end(t, i)) == w
}

pub proof fn lemma_run_end_bounds(t: Seq<char>, i: int)
    requires
        0 <= i <= t.len(),
    ensures
        i <= run_end(t, i) <= t.len(),
    decreases t.len() - i,
{
    if i < t.len() && alnum(t[i]) {
        lemma_run_end_bounds(t, i + 1);
    }
}

fn find_run_end(t: &Vec<char>, i: usize) -> (j: usize)
    requires
        i <= t@.len(),
    ensures
        j == run_end(t@, i as int),
        i <= j <= t@.len(),
{
    let mut j: usize = i;
    while j < t.len()
        invariant
            i <= j <= t@.len(),
            run_end(t@, i as int) == run_end(t@, j as int),
        decreases t@.len() - j,
    {
        if !is_alnum_char(t[j]) {
            return j;
        }
        j = j + 1;
    }
    j
}

pub fn has_word_chars(t: &Vec<char>, w: &Vec<char>) -> (r: bool)
    ensures
        r == has_word(t@, w@),
{
    let mut i: usize = 0;
    while i < t.len()
        invariant
            0 <= i <= t@.len(),
            forall|k: int| 0 <= k < i ==> !(#[trigger] token_start(t@, k) && t@.subrange(k,
                run_end(t@, k)) == w@),
        decreases t@.len() - i,
    {
        let starts = i == 0 || !is_alnum_char(t[i - 1]);
        if starts {
            proof {
                lemma_run_end_bounds(t@, i as int);
            }
            let j = find_run_end(t, i);
            if range_eq(t, i, j, w) {
                assert(token_start(t@, i as int));
                return true;
            }
        } else {
            assert(!token_start(t@, i as int));
        }
        i = i + 1;
    }
    // the split of a string whose last character is a separator ends with an
    // empty token, so the position just past the end can still start a token
    let ends = t.len() == 0 || !is_alnum_char(t[t.len() - 1]);
    if ends {
        let n = t.len();
        if range_eq(t, n, n, w) {
            assert(token_start(t@, t@.len() as int));
            assert(run_end(t@, t@.len() as int) == t@.len() as int);
            return true;
        }
    }
    assert forall|k: int| !(#[trigger] token_start(t@, k) && t@.subrange(k, run_end(t@, k))
        == w@) by {
        if token_start(t@, k) {
            if k < t@.len() {
                assert(0 <= k < i);
            } else {
                assert(k == t@.len());
            }
        }
    }
    false
}

} // verus!
