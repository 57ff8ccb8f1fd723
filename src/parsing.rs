//! The grammar of one sample line of massif's output:
//! `\s*n<count>:\s+<bytes>\s+<symbol>`, where the symbol is either
//! `in <N> place[s], [all ]below massif's threshold (<float>%)` or
//! `[0x<hex>:]\s*<description>`.
use vstd::prelude::*;

use crate::lexical::{
    decimal_at, decimal_value, digits_end, float_end, hex_at, hex_end, hex_value, is_digit, is_hex_char,
    is_hex_digit, lit_at, match_lit, skip_digits, skip_float, skip_hex_digits, skip_spaces,
    spaces_end,
};
use crate::text::{chars_of, content_chars, content_of, string_of};

verus! {

/// Widest address, in hexadecimal digits, that fits the address type.
pub const MAX_ADDRESS_DIGITS: usize = 16;

pub type Address = u64;

/// A decoded symbol.
#[derive(Debug, Clone, PartialEq, Eq)]
pub enum Call {
    /// A sampled call site: its address, when the line gives one, and its
    /// description.
    Sampled(Option<Address>, String),
    /// The profiler's aggregate of places below its threshold: their count and
    /// the threshold, as the percentage token written in the line.
    Ignored(usize, String),
}

/// What a symbol denotes, over mathematical values.
pub enum CallModel {
    Sampled(Option<nat>, Seq<char>),
    Ignored(nat, Seq<char>),
}

impl Call {
    pub open spec fn model(&self) -> CallModel {
        match self {
            Call::Sampled(a, d) => CallModel::Sampled(
                match a {
                    Some(v) => Some(*v as nat),
                    None => None,
                },
                d@,
            ),
            Call::Ignored(n, t) => CallModel::Ignored(*n as nat, t@),
        }
    }
}

/// One decoded sample line.
#[derive(Debug, Clone, PartialEq, Eq)]
pub struct Sample {
    pub nb_callers: usize,
    pub bytes: usize,
    pub call: Call,
}

#[derive(Debug, Clone, Copy, PartialEq, Eq)]
pub enum HexDecodeError {
    /// `c` is no hexadecimal digit; `index` counts from the last character
    /// (the least significant digit is at index 0).
    InvalidHexCharacter { c: char, index: usize },
    /// More digits than an address holds.
    InvalidStringLength,
}

/// Why a sample line does not decode.
#[derive(Debug, Clone, Copy, PartialEq, Eq)]
pub enum LineError {
    /// The line does not follow the sample grammar.
    Malformed,
    /// A count or a byte amount exceeds `usize::MAX`.
    NumberTooLarge,
}

pub open spec fn all_hex(s: Seq<char>) -> bool {
    forall|k: int| 0 <= k < s.len() ==> is_hex_digit(#[trigger] s[k])
}

/// Decodes a run of hexadecimal digits into an address; an odd number of
/// digits is read as if a leading zero stood before it.
pub fn decode_hex_address(data: &str) -> (r: Result<Address, HexDecodeError>)
    ensures
        r == Err::<Address, HexDecodeError>(HexDecodeError::InvalidStringLength) <==> data@.len()
            > MAX_ADDRESS_DIGITS,
        r is Ok <==> data@.len() <= MAX_ADDRESS_DIGITS && all_hex(data@),
        r is Ok ==> r->Ok_0 == hex_value(data@),
        r matches Err(HexDecodeError::InvalidHexCharacter { c, index }) ==> {
            let p = data@.len() - 1 - index;
            &&& 0 <= p < data@.len()
            &&& c == data@[p]
            &&& !is_hex_digit(c)
            &&& forall|k: int| p < k < data@.len() ==> is_hex_digit(#[trigger] data@[k])
        },
{
    let s = chars_of(data);
    if s.len() > MAX_ADDRESS_DIGITS {
        return Err(HexDecodeError::InvalidStringLength);
    }
    let mut k = s.len();
    while k > 0
        invariant
            k <= s@.len() <= MAX_ADDRESS_DIGITS,
            s@ == data@,
            forall|m: int| k <= m < s@.len() ==> is_hex_digit(#[trigger] s@[m]),
        decreases k,
    {
        if !is_hex_char(s[k - 1]) {
            return Err(HexDecodeError::InvalidHexCharacter { c: s[k - 1], index: s.len() - k });
        }
        k = k - 1;
    }
    assert(s@.subrange(0, s@.len() as int) =~= s@);
    Ok(hex_at(&s, 0, s.len()))
}

/// Position of the colon that ends an `0x<hex>:` address prefix at `i`.
pub open spec fn address_colon(s: Seq<char>, i: int) -> Option<int> {
    if lit_at(s, i, "0x"@) {
        let h = hex_end(s, i + 2);
        if h > i + 2 && h - (i + 2) <= MAX_ADDRESS_DIGITS && h < s.len() && s[h] == ':' {
            Some(h)
        } else {
            None
        }
    } else {
        None
    }
}

/// The sampled reading of the symbol `s[i..]`.
pub open spec fn sampled_model(s: Seq<char>, i: int) -> CallModel {
    match address_colon(s, i) {
        Some(h) => CallModel::Sampled(
            Some(hex_value(s.subrange(i + 2, h))),
            s.subrange(spaces_end(s, h + 1), s.len() as int),
        ),
        None => CallModel::Sampled(None, s.subrange(spaces_end(s, i), s.len() as int)),
    }
}

/// Positions in the aggregate form at `i`: the end of the count, and the
/// start and end of the threshold token; `None` when the form does not match
/// up to the end of `s` (trailing blanks aside).
pub open spec fn ignored_positions(s: Seq<char>, i: int) -> Option<(int, int, int)> {
    let a = i + "in "@.len();
    let b = digits_end(s, a);
    let c = b + " place"@.len();
    let c2 = if 0 <= c < s.len() && s[c] == 's' {
        c + 1
    } else {
        c
    };
    let d = c2 + ", "@.len();
    let d2 = if lit_at(s, d, "all "@) {
        d + "all "@.len()
    } else {
        d
    };
    let e = d2 + "below massif's threshold ("@.len();
    let f = float_end(s, e);
    if lit_at(s, i, "in "@) && b > a && lit_at(s, b, " place"@) && lit_at(s, c2, ", "@) && lit_at(
        s,
        d2,
        "below massif's threshold ("@,
    ) && f > e && lit_at(s, f, "%)"@) && spaces_end(s, f + "%)"@.len()) == s.len() {
        Some((b, e, f))
    } else {
        None
    }
}

/// What the symbol `s[i..]` denotes.
pub open spec fn call_model(s: Seq<char>, i: int) -> CallModel {
    match ignored_positions(s, i) {
        Some((b, e, f)) => CallModel::Ignored(
            decimal_value(s.subrange(i + "in "@.len(), b)),
            s.subrange(e, f),
        ),
        None => sampled_model(s, i),
    }
}

/// Positions in the aggregate form at `i` (see `ignored_positions`),
/// preceded by the start of the count.
fn ignored_shape(s: &Vec<char>, i: usize) -> (r: Option<(usize, usize, usize, usize)>)
    requires
        i <= s@.len(),
    ensures
        r is Some <==> ignored_positions(s@, i as int) is Some,
        r matches Some((a, b, e, f)) ==> a == i + "in "@.len() && (b as int, e as int, f as int)
            == ignored_positions(s@, i as int)->0 && a <= b <= s@.len() && e <= f <= s@.len()
            && forall|k: int| a <= k < b ==> is_digit(#[trigger] s@[k]),
{
    let a = match match_lit(s, i, "in ") {
        Some(a) => a,
        None => return None,
    };
    let b = skip_digits(s, a);
    if b == a {
        return None;
    }
    let c = match match_lit(s, b, " place") {
        Some(c) => c,
        None => return None,
    };
    let c2 = if c < s.len() && s[c] == 's' {
        c + 1
    } else {
        c
    };
    let d = match match_lit(s, c2, ", ") {
        Some(d) => d,
        None => return None,
    };
    let d2 = match match_lit(s, d, "all ") {
        Some(d2) => d2,
        None => d,
    };
    let e = match match_lit(s, d2, "below massif's threshold (") {
        Some(e) => e,
        None => return None,
    };
    let f = skip_float(s, e);
    if f == e {
        return None;
    }
    let g = match match_lit(s, f, "%)") {
        Some(g) => g,
        None => return None,
    };
    if skip_spaces(s, g) != s.len() {
        return None;
    }
    Some((a, b, e, f))
}

/// The aggregate form that starts at `i`: the count and the threshold token.
/// `None` when the form does not match or the count exceeds `usize::MAX`.
fn ignored_at(s: &Vec<char>, i: usize) -> (r: Option<(usize, String)>)
    requires
        i <= s@.len(),
    ensures
        r is Some <==> ignored_positions(s@, i as int) is Some && decimal_value(
            s@.subrange(i + "in "@.len(), ignored_positions(s@, i as int).unwrap().0),
        ) <= usize::MAX,
        r is Some ==> call_model(s@, i as int) == CallModel::Ignored(r.unwrap().0 as nat, r.unwrap().1@),
{
    match ignored_shape(s, i) {
        Some((a, b, e, f)) => match decimal_at(s, a, b) {
            Some(n) => Some((n, string_of(s, e, f))),
            None => None,
        },
        None => None,
    }
}

/// The sampled form that starts at `i`.
fn sampled_at(s: &Vec<char>, i: usize) -> (r: Call)
    requires
        i <= s@.len(),
    ensures
        r.model() == sampled_model(s@, i as int),
{
    proof {
        reveal_strlit("0x");
    }
    if let Some(h0) = match_lit(s, i, "0x") {
        let h = skip_hex_digits(s, h0);
        if h > h0 && h - h0 <= MAX_ADDRESS_DIGITS && h < s.len() && s[h] == ':' {
            let address = hex_at(s, h0, h);
            let from = skip_spaces(s, h + 1);
            return Call::Sampled(Some(address), string_of(s, from, s.len()));
        }
    }
    let from = skip_spaces(s, i);
    Call::Sampled(None, string_of(s, from, s.len()))
}

/// Decodes the symbol `s[i..]`. `None` only where it has the aggregate form
/// and its count exceeds `usize::MAX`.
pub fn call_at(s: &Vec<char>, i: usize) -> (r: Option<Call>)
    requires
        i <= s@.len(),
    ensures
        r is Some <==> !(ignored_positions(s@, i as int) is Some && decimal_value(
            s@.subrange(i + "in "@.len(), ignored_positions(s@, i as int).unwrap().0),
        ) > usize::MAX),
        r is Some ==> r->0.model() == call_model(s@, i as int),
{
    match ignored_shape(s, i) {
        Some((a, b, e, f)) => match decimal_at(s, a, b) {
            Some(n) => Some(Call::Ignored(n, string_of(s, e, f))),
            None => None,
        },
        None => Some(sampled_at(s, i)),
    }
}

/// Decodes a symbol that has the aggregate form `in <N> place[s], [all ]below
/// massif's threshold (<float>%)`: the count and the threshold token.
pub fn massif_ignored_call(symbol: &str) -> (r: Option<(usize, String)>)
    ensures
        r is Some <==> is_ignored_symbol(content_of(symbol@)),
        r is Some ==> call_model(content_of(symbol@), 0) == CallModel::Ignored(
            r.unwrap().0 as nat,
            r.unwrap().1@,
        ),
{
    let s = content_chars(symbol);
    ignored_at(&s, 0)
}

/// `s` has the aggregate form, with a count that fits `usize`.
pub open spec fn is_ignored_symbol(s: Seq<char>) -> bool {
    ignored_positions(s, 0) is Some && decimal_value(
        s.subrange("in "@.len() as int, ignored_positions(s, 0).unwrap().0),
    ) <= usize::MAX
}


/// Positions in a sample line: the count digits `s[p.0..p.1]`, the byte
/// digits `s[p.2..p.3]`, and the start `p.4` of the symbol.
pub open spec fn sample_positions(s: Seq<char>) -> Option<(int, int, int, int, int)> {
    let a = spaces_end(s, 0);
    let b = digits_end(s, a + 1);
    let c = spaces_end(s, b + 1);
    let d = digits_end(s, c);
    let e = spaces_end(s, d);
    if a < s.len() && s[a] == 'n' && b > a + 1 && b < s.len() && s[b] == ':' && c > b + 1 && d > c
        && e > d {
        Some((a + 1, b, c, d, e))
    } else {
        None
    }
}

/// The numbers of a sample line and its symbol fit the integer types.
pub open spec fn sample_fits(s: Seq<char>) -> bool {
    match sample_positions(s) {
        Some((a, b, c, d, e)) => {
            &&& decimal_value(s.subrange(a, b)) <= usize::MAX
            &&& decimal_value(s.subrange(c, d)) <= usize::MAX
            &&& !(ignored_positions(s, e) is Some && decimal_value(
                s.subrange(e + "in "@.len(), ignored_positions(s, e).unwrap().0),
            ) > usize::MAX)
        },
        None => false,
    }
}

/// `sample` is what the sample line `s` denotes.
pub open spec fn decodes_as(s: Seq<char>, sample: Sample) -> bool {
    let (a, b, c, d, e) = sample_positions(s).unwrap();
    &&& sample.nb_callers == decimal_value(s.subrange(a, b))
    &&& sample.bytes == decimal_value(s.subrange(c, d))
    &&& sample.call.model() == call_model(s, e)
}

/// Decodes one sample line, its line ending left out.
pub fn sample_at(s: &Vec<char>) -> (r: Result<Sample, LineError>)
    ensures
        r == Err::<Sample, LineError>(LineError::Malformed) <==> sample_positions(s@) is None,
        r is Ok <==> sample_fits(s@),
        r matches Ok(sample) ==> decodes_as(s@, sample),
{
    let a = skip_spaces(s, 0);
    if !(a < s.len() && s[a] == 'n') {
        return Err(LineError::Malformed);
    }
    let b = skip_digits(s, a + 1);
    if !(b > a + 1 && b < s.len() && s[b] == ':') {
        return Err(LineError::Malformed);
    }
    let c = skip_spaces(s, b + 1);
    let d = skip_digits(s, c);
    let e = skip_spaces(s, d);
    if !(c > b + 1 && d > c && e > d) {
        return Err(LineError::Malformed);
    }
    let nb_callers = match decimal_at(s, a + 1, b) {
        Some(n) => n,
        None => return Err(LineError::NumberTooLarge),
    };
    let bytes = match decimal_at(s, c, d) {
        Some(n) => n,
        None => return Err(LineError::NumberTooLarge),
    };
    match call_at(s, e) {
        Some(call) => Ok(Sample { nb_callers, bytes, call }),
        None => Err(LineError::NumberTooLarge),
    }
}

/// Decodes a symbol written on its own, up to an optional line ending.
pub fn massif_call(symbol: &str) -> (r: Option<Call>)
    ensures
        r is Some <==> !(ignored_positions(content_of(symbol@), 0) is Some && decimal_value(
            content_of(symbol@).subrange(
                "in "@.len() as int,
                ignored_positions(content_of(symbol@), 0).unwrap().0,
            ),
        ) > usize::MAX),
        r is Some ==> r.unwrap().model() == call_model(content_of(symbol@), 0),
{
    let s = content_chars(symbol);
    call_at(&s, 0)
}

/// Decodes a sample line written on its own, up to an optional line
/// ending.
pub fn massif_sample(line: &str) -> (r: Result<Sample, LineError>)
    ensures
        r == Err::<Sample, LineError>(LineError::Malformed) <==> sample_positions(content_of(line@))
            is None,
        r is Ok <==> sample_fits(content_of(line@)),
        r matches Ok(sample) ==> decodes_as(content_of(line@), sample),
{
    let s = content_chars(line);
    sample_at(&s)
}

} // verus!
