//! Scanning of the lexical pieces of a sample line: blanks, decimal and
//! hexadecimal digit runs, literal words and floating-point tokens.
use vstd::prelude::*;

use crate::text::chars_of;

verus! {

pub open spec fn is_space(c: char) -> bool {
    c == ' ' || c == '\t'
}

pub open spec fn is_digit(c: char) -> bool {
    '0' <= c && c <= '9'
}

pub open spec fn is_hex_digit(c: char) -> bool {
    ('0' <= c && c <= '9') || ('a' <= c && c <= 'f') || ('A' <= c && c <= 'F')
}

pub open spec fn digit_value(c: char) -> nat {
    (c as nat - '0' as nat) as nat
}

pub open spec fn hex_digit_value(c: char) -> nat {
    if '0' <= c && c <= '9' {
        (c as nat - '0' as nat) as nat
    } else if 'a' <= c && c <= 'f' {
        (c as nat - 'a' as nat + 10) as nat
    } else {
        (c as nat - 'A' as nat + 10) as nat
    }
}

/// The number that a run of decimal digits denotes.
pub open spec fn decimal_value(s: Seq<char>) -> nat
    decreases s.len(),
{
    if s.len() == 0 {
        0
    } else {
        decimal_value(s.drop_last()) * 10 + digit_value(s.last())
    }
}

/// The number that a run of hexadecimal digits denotes.
pub open spec fn hex_value(s: Seq<char>) -> nat
    decreases s.len(),
{
    if s.len() == 0 {
        0
    } else {
        hex_value(s.drop_last()) * 16 + hex_digit_value(s.last())
    }
}

/// End of the run of blanks that starts at `i`.
pub open spec fn spaces_end(s: Seq<char>, i: int) -> int
    decreases s.len() - i,
{
    if 0 <= i < s.len() && is_space(s[i]) {
        spaces_end(s, i + 1)
    } else {
        i
    }
}

/// End of the run of decimal digits that starts at `i`.
pub open spec fn digits_end(s: Seq<char>, i: int) -> int
    decreases s.len() - i,
{
    if 0 <= i < s.len() && is_digit(s[i]) {
        digits_end(s, i + 1)
    } else {
        i
    }
}

/// End of the run of hexadecimal digits that starts at `i`.
pub open spec fn hex_end(s: Seq<char>, i: int) -> int
    decreases s.len() - i,
{
    if 0 <= i < s.len() && is_hex_digit(s[i]) {
        hex_end(s, i + 1)
    } else {
        i
    }
}

/// `lit` stands in `s` at position `i`.
pub open spec fn lit_at(s: Seq<char>, i: int, lit: Seq<char>) -> bool {
    0 <= i && i + lit.len() <= s.len() && s.subrange(i, i + lit.len()) == lit
}

pub open spec fn is_sign(s: Seq<char>, i: int) -> bool {
    0 <= i < s.len() && (s[i] == '+' || s[i] == '-')
}

/// End of the mantissa of a floating-point token whose sign (if any) ends at
/// `j`: digits with an optional fraction, or a point followed by digits.
/// Equal to `j` when there is none.
pub open spec fn mantissa_end(s: Seq<char>, j: int) -> int {
    let d = digits_end(s, j);
    if d > j {
        if d < s.len() && s[d] == '.' {
            digits_end(s, d + 1)
        } else {
            d
        }
    } else if 0 <= j < s.len() && s[j] == '.' && digits_end(s, j + 1) > j + 1 {
        digits_end(s, j + 1)
    } else {
        j
    }
}

/// End of the floating-point token that starts at `i` (an optional sign, a
/// mantissa and an optional exponent), or `i` itself when there is none.
pub open spec fn float_end(s: Seq<char>, i: int) -> int {
    let j = if is_sign(s, i) { i + 1 } else { i };
    let m = mantissa_end(s, j);
    if m == j {
        i
    } else if 0 <= m < s.len() && (s[m] == 'e' || s[m] == 'E') {
        let k = if is_sign(s, m + 1) { m + 2 } else { m + 1 };
        let e = digits_end(s, k);
        if e > k {
            e
        } else {
            m
        }
    } else {
        m
    }
}

pub fn skip_spaces(s: &Vec<char>, i: usize) -> (j: usize)
    requires
        i <= s@.len(),
    ensures
        j == spaces_end(s@, i as int),
        i <= j <= s@.len(),
{
    let mut j = i;
    while j < s.len() && (s[j] == ' ' || s[j] == '\t')
        invariant
            i <= j <= s@.len(),
            spaces_end(s@, i as int) == spaces_end(s@, j as int),
        decreases s@.len() - j,
    {
        j = j + 1;
    }
    j
}

pub fn skip_digits(s: &Vec<char>, i: usize) -> (j: usize)
    requires
        i <= s@.len(),
    ensures
        j == digits_end(s@, i as int),
        i <= j <= s@.len(),
        forall|k: int| i <= k < j ==> is_digit(#[trigger] s@[k]),
{
    let mut j = i;
    while j < s.len() && '0' <= s[j] && s[j] <= '9'
        invariant
            i <= j <= s@.len(),
            digits_end(s@, i as int) == digits_end(s@, j as int),
            forall|k: int| i <= k < j ==> is_digit(#[trigger] s@[k]),
        decreases s@.len() - j,
    {
        j = j + 1;
    }
    j
}

pub fn skip_hex_digits(s: &Vec<char>, i: usize) -> (j: usize)
    requires
        i <= s@.len(),
    ensures
        j == hex_end(s@, i as int),
        i <= j <= s@.len(),
        forall|k: int| i <= k < j ==> is_hex_digit(#[trigger] s@[k]),
{
    let mut j = i;
    while j < s.len() && is_hex_char(s[j])
        invariant
            i <= j <= s@.len(),
            hex_end(s@, i as int) == hex_end(s@, j as int),
            forall|k: int| i <= k < j ==> is_hex_digit(#[trigger] s@[k]),
        decreases s@.len() - j,
    {
        j = j + 1;
    }
    j
}

pub fn is_hex_char(c: char) -> (r: bool)
    ensures
        r == is_hex_digit(c),
{
    ('0' <= c && c <= '9') || ('a' <= c && c <= 'f') || ('A' <= c && c <= 'F')
}

/// Position just past `lit` when it stands in `s` at `i`.
pub fn match_lit(s: &Vec<char>, i: usize, lit: &str) -> (r: Option<usize>)
    requires
        i <= s@.len(),
    ensures
        r is Some <==> lit_at(s@, i as int, lit@),
        r is Some ==> r->0 == i + lit@.len(),
{
    let l = chars_of(lit);
    let n = s.len();
    if l.len() > n - i {
        return None;
    }
    let mut k: usize = 0;
    while k < l.len()
        invariant
            i + l@.len() <= s@.len(),
            n == s@.len(),
            l@ == lit@,
            0 <= k <= l@.len(),
            forall|m: int| 0 <= m < k ==> s@[i + m] == l@[m],
        decreases l@.len() - k,
    {
        if s[i + k] != l[k] {
            assert(s@.subrange(i as int, i + l@.len())[k as int] != l@[k as int]);
            return None;
        }
        k = k + 1;
    }
    assert(s@.subrange(i as int, i + l@.len()) =~= l@);
    Some(i + l.len())
}

pub fn is_sign_at(s: &Vec<char>, i: usize) -> (r: bool)
    ensures
        r == is_sign(s@, i as int),
        r ==> i < s.len(),
{
    i < s.len() && (s[i] == '+' || s[i] == '-')
}

/// End of the floating-point token that starts at `i` (see `float_end`).
pub fn skip_float(s: &Vec<char>, i: usize) -> (j: usize)
    requires
        i <= s@.len(),
    ensures
        j == float_end(s@, i as int),
        i <= j <= s@.len(),
{
    let j0 = if is_sign_at(s, i) {
        i + 1
    } else {
        i
    };
    let d = skip_digits(s, j0);
    let m = if d > j0 {
        if d < s.len() && s[d] == '.' {
            skip_digits(s, d + 1)
        } else {
            d
        }
    } else if j0 < s.len() && s[j0] == '.' {
        let f = skip_digits(s, j0 + 1);
        if f > j0 + 1 {
            f
        } else {
            j0
        }
    } else {
        j0
    };
    if m == j0 {
        i
    } else if m < s.len() && (s[m] == 'e' || s[m] == 'E') {
        let k = if is_sign_at(s, m + 1) { m + 2 } else { m + 1 };
        let e = skip_digits(s, k);
        if e > k {
            e
        } else {
            m
        }
    } else {
        m
    }
}

/// The number that `s[from..to]`, a run of decimal digits, denotes; `None`
/// when it exceeds `usize::MAX`.
pub fn decimal_at(s: &Vec<char>, from: usize, to: usize) -> (r: Option<usize>)
    requires
        from <= to <= s@.len(),
        forall|k: int| from <= k < to ==> is_digit(#[trigger] s@[k]),
    ensures
        r is Some <==> decimal_value(s@.subrange(from as int, to as int)) <= usize::MAX,
        r is Some ==> r->0 == decimal_value(s@.subrange(from as int, to as int)),
{
    let mut v: usize = 0;
    let mut k = from;
    while k < to
        invariant
            from <= k <= to <= s@.len(),
            forall|m: int| from <= m < to ==> is_digit(#[trigger] s@[m]),
            v == decimal_value(s@.subrange(from as int, k as int)),
        decreases to - k,
    {
        let d = (s[k] as u32 - '0' as u32) as usize;
        let ghost sub = s@.subrange(from as int, k + 1);
        assert(sub.drop_last() =~= s@.subrange(from as int, k as int));
        assert(sub.last() == s@[k as int]);
        if v > (usize::MAX - d) / 10 {
            proof {
                lemma_rest_stays_large(s@, from as int, k + 1, to as int);
            }
            return None;
        }
        v = v * 10 + d;
        k = k + 1;
    }
    Some(v)
}

/// Once a prefix of a digit run exceeds `usize::MAX`, so does the whole run.
proof fn lemma_rest_stays_large(s: Seq<char>, from: int, k: int, to: int)
    requires
        0 <= from < k <= to <= s.len(),
        forall|m: int| from <= m < to ==> is_digit(#[trigger] s[m]),
        decimal_value(s.subrange(from, k)) > usize::MAX,
    ensures
        decimal_value(s.subrange(from, to)) > usize::MAX,
    decreases to - k,
{
    if k < to {
        let sub = s.subrange(from, k + 1);
        assert(sub.drop_last() =~= s.subrange(from, k));
        lemma_rest_stays_large(s, from, k + 1, to);
    }
}


pub open spec fn pow16(n: nat) -> nat
    decreases n,
{
    if n == 0 {
        1
    } else {
        16 * pow16((n - 1) as nat)
    }
}

proof fn lemma_pow16_monotonic(a: nat, b: nat)
    requires
        a <= b,
    ensures
        pow16(a) <= pow16(b),
    decreases b - a,
{
    if a < b {
        lemma_pow16_monotonic(a, (b - 1) as nat);
    }
}

/// The number that `s[from..to]`, at most sixteen hexadecimal digits, denotes.
pub fn hex_at(s: &Vec<char>, from: usize, to: usize) -> (r: u64)
    requires
        from <= to <= s@.len(),
        to - from <= 16,
        forall|k: int| from <= k < to ==> is_hex_digit(#[trigger] s@[k]),
    ensures
        r == hex_value(s@.subrange(from as int, to as int)),
{
    let mut v: u64 = 0;
    let mut k = from;
    proof {
        reveal_with_fuel(pow16, 17);
        assert(pow16(16) == 0x1_0000_0000_0000_0000);
    }
    while k < to
        invariant
            from <= k <= to <= s@.len(),
            to - from <= 16,
            pow16(16) == 0x1_0000_0000_0000_0000,
            forall|m: int| from <= m < to ==> is_hex_digit(#[trigger] s@[m]),
            v == hex_value(s@.subrange(from as int, k as int)),
            v < pow16((k - from) as nat),
        decreases to - k,
    {
        let c = s[k];
        let d: u64 = if '0' <= c && c <= '9' {
            (c as u32 - '0' as u32) as u64
        } else if 'a' <= c && c <= 'f' {
            (c as u32 - 'a' as u32 + 10) as u64
        } else {
            (c as u32 - 'A' as u32 + 10) as u64
        };
        let ghost sub = s@.subrange(from as int, k + 1);
        assert(sub.drop_last() =~= s@.subrange(from as int, k as int));
        assert(sub.last() == c);
        proof {
            lemma_pow16_monotonic((k + 1 - from) as nat, 16);
            assert(pow16((k + 1 - from) as nat) == 16 * pow16((k - from) as nat));
            assert(v * 16 + d < 16 * pow16((k - from) as nat)) by (nonlinear_arith)
                requires
                    v < pow16((k - from) as nat),
                    d < 16,
            ;
        }
        v = v * 16 + d;
        k = k + 1;
    }
    v
}

} // verus!
