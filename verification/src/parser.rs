//! Recursive-descent reading primitives over the fixed textual grammar
//! `ident '(' , -separated args ')'` that states and deltas are written in.
//!
//! Each reader takes the input bytes and a position, and on success returns
//! what it read together with the position of the rest. Its contract states
//! exactly which texts it accepts.
use vstd::prelude::*;

use crate::ident::{Id, is_hex_byte, spec_hex_value, all_hex, pow16, lemma_pow16_values,
    lemma_pow16_le, lemma_hex_value_bound, lemma_spec_hex_len, spec_hex, spec_hex_byte,
    spec_id_text, id_is_v4, id_g0, id_g1, id_g2, id_g3, id_g4, lemma_id_groups,
    lemma_hex_round_trip, DASH};

verus! {

/// The token kind a reader expected, carried by its error.
#[derive(Clone, Copy, Debug, PartialEq, Eq, Structural)]
pub enum TokenType {
    Float,
    Function,
    Id,
    Int,
    Other,
    Rest,
    Symbol,
    Tuple,
}

/// A reader's error: the text it could not read, and what it expected.
pub type Error = (Vec<u8>, TokenType);

pub open spec fn is_digit_byte(b: u8) -> bool {
    48 <= b <= 57
}

/// Bytes of a function name: letters, digits and underscore.
pub open spec fn is_word_byte(b: u8) -> bool {
    (48 <= b <= 57) || (65 <= b <= 90) || (97 <= b <= 122) || b == 95
}

/// Bytes of a symbol: a word byte or a hyphen.
pub open spec fn is_symbol_byte(b: u8) -> bool {
    is_word_byte(b) || b == 45
}

/// Length of the run of digit bytes starting at `pos`.
pub open spec fn digit_run(s: Seq<u8>, pos: int) -> int
    decreases s.len() - pos,
{
    if pos < 0 || pos >= s.len() || !is_digit_byte(s[pos]) {
        0
    } else {
        1 + digit_run(s, pos + 1)
    }
}

/// Length of the run of word bytes starting at `pos`.
pub open spec fn word_run(s: Seq<u8>, pos: int) -> int
    decreases s.len() - pos,
{
    if pos < 0 || pos >= s.len() || !is_word_byte(s[pos]) {
        0
    } else {
        1 + word_run(s, pos + 1)
    }
}

/// Length of the run of symbol bytes starting at `pos`.
pub open spec fn symbol_run(s: Seq<u8>, pos: int) -> int
    decreases s.len() - pos,
{
    if pos < 0 || pos >= s.len() || !is_symbol_byte(s[pos]) {
        0
    } else {
        1 + symbol_run(s, pos + 1)
    }
}

/// How many bytes the optional separator after a token takes: a comma and
/// space, a closing parenthesis, or nothing.
pub open spec fn sep_len(s: Seq<u8>, pos: int) -> int {
    if pos + 1 < s.len() && s[pos] == 44 && s[pos + 1] == 32 {
        2
    } else if pos < s.len() && s[pos] == 41 {
        1
    } else {
        0
    }
}

/// The error value every reader hands back: the unread remainder, tagged
/// with the expected token kind.
pub open spec fn spec_err(s: Seq<u8>, pos: int, t: TokenType) -> (Seq<u8>, TokenType) {
    (s.subrange(pos, s.len() as int), t)
}

fn byte_is_digit(b: u8) -> (r: bool)
    ensures
        r == is_digit_byte(b),
{
    48 <= b && b <= 57
}

fn byte_is_word(b: u8) -> (r: bool)
    ensures
        r == is_word_byte(b),
{
    (48 <= b && b <= 57) || (65 <= b && b <= 90) || (97 <= b && b <= 122) || b == 95
}

fn byte_is_symbol(b: u8) -> (r: bool)
    ensures
        r == is_symbol_byte(b),
{
    byte_is_word(b) || b == 45
}

pub(crate) fn make_err(s: &[u8], pos: usize, t: TokenType) -> (r: Error)
    requires
        pos <= s@.len(),
    ensures
        (r.0@, r.1) == spec_err(s@, pos as int, t),
{
    let mut v: Vec<u8> = Vec::new();
    let mut i: usize = pos;
    while i < s.len()
        invariant
            pos <= i <= s@.len(),
            v@ == s@.subrange(pos as int, i as int),
        decreases s@.len() - i,
    {
        v.push(s[i]);
        proof {
            assert(v@ =~= s@.subrange(pos as int, i + 1));
        }
        i = i + 1;
    }
    proof {
        assert(v@ =~= s@.subrange(pos as int, s@.len() as int));
    }
    (v, t)
}

/// Scans to the end of the digit run starting at `pos`.
fn scan_digits(s: &[u8], pos: usize) -> (r: usize)
    requires
        pos <= s@.len(),
    ensures
        r == pos + digit_run(s@, pos as int),
        pos <= r <= s@.len(),
{
    let mut i: usize = pos;
    while i < s.len() && byte_is_digit(s[i])
        invariant
            pos <= i <= s@.len(),
            digit_run(s@, pos as int) == i - pos + digit_run(s@, i as int),
        decreases s@.len() - i,
    {
        i = i + 1;
    }
    i
}

/// Scans to the end of the word-byte run starting at `pos`.
fn scan_word(s: &[u8], pos: usize) -> (r: usize)
    requires
        pos <= s@.len(),
    ensures
        r == pos + word_run(s@, pos as int),
        pos <= r <= s@.len(),
{
    let mut i: usize = pos;
    while i < s.len() && byte_is_word(s[i])
        invariant
            pos <= i <= s@.len(),
            word_run(s@, pos as int) == i - pos + word_run(s@, i as int),
        decreases s@.len() - i,
    {
        i = i + 1;
    }
    i
}

/// Scans to the end of the symbol-byte run starting at `pos`.
fn scan_symbol(s: &[u8], pos: usize) -> (r: usize)
    requires
        pos <= s@.len(),
    ensures
        r == pos + symbol_run(s@, pos as int),
        pos <= r <= s@.len(),
{
    let mut i: usize = pos;
    while i < s.len() && byte_is_symbol(s[i])
        invariant
            pos <= i <= s@.len(),
            symbol_run(s@, pos as int) == i - pos + symbol_run(s@, i as int),
        decreases s@.len() - i,
    {
        i = i + 1;
    }
    i
}

/// Consumes the optional `", "` or `")"` after a token.
fn skip_sep(s: &[u8], pos: usize) -> (r: usize)
    requires
        pos <= s@.len(),
    ensures
        r == pos + sep_len(s@, pos as int),
        pos <= r <= s@.len(),
{
    if pos < s.len() && s[pos] == 44 && pos + 1 < s.len() && s[pos + 1] == 32 {
        pos + 2
    } else if pos < s.len() && s[pos] == 41 {
        pos + 1
    } else {
        pos
    }
}

fn copy_range(s: &[u8], from: usize, to: usize) -> (r: Vec<u8>)
    requires
        from <= to <= s@.len(),
    ensures
        r@ == s@.subrange(from as int, to as int),
{
    let mut v: Vec<u8> = Vec::new();
    let mut i: usize = from;
    while i < to
        invariant
            from <= i <= to <= s@.len(),
            v@ == s@.subrange(from as int, i as int),
        decreases to - i,
    {
        v.push(s[i]);
        proof {
            assert(v@ =~= s@.subrange(from as int, i + 1));
        }
        i = i + 1;
    }
    proof {
        assert(v@ =~= s@.subrange(from as int, to as int));
    }
    v
}

/// Reads a function head: a non-empty run of word bytes followed by an
/// opening parenthesis. Succeeds exactly on such texts, returning the name
/// and the position after the parenthesis.
pub fn read_fn(s: &[u8], pos: usize) -> (r: Result<(Vec<u8>, usize), Error>)
    requires
        pos <= s@.len(),
    ensures
        ({
            let n = word_run(s@, pos as int);
            match r {
                Ok((name, np)) => {
                    &&& n >= 1
                    &&& pos + n < s@.len()
                    &&& s@[pos + n] == 40
                    &&& name@ == s@.subrange(pos as int, pos + n)
                    &&& np == pos + n + 1
                },
                Err(e) => {
                    &&& !(n >= 1 && pos + n < s@.len() && s@[pos + n] == 40)
                    &&& (e.0@, e.1) == spec_err(s@, pos as int, TokenType::Function)
                },
            }
        }),
{
    let end = scan_word(s, pos);
    if end > pos && end < s.len() && s[end] == 40 {
        let name = copy_range(s, pos, end);
        Ok((name, end + 1))
    } else {
        Err(make_err(s, pos, TokenType::Function))
    }
}

/// Reads an opening parenthesis, exactly when the text starts with one.
pub fn read_tuple(s: &[u8], pos: usize) -> (r: Result<usize, Error>)
    requires
        pos <= s@.len(),
    ensures
        match r {
            Ok(np) => pos < s@.len() && s@[pos as int] == 40 && np == pos + 1,
            Err(e) => {
                &&& !(pos < s@.len() && s@[pos as int] == 40)
                &&& (e.0@, e.1) == spec_err(s@, pos as int, TokenType::Tuple)
            },
        },
{
    if pos < s.len() && s[pos] == 40 {
        Ok(pos + 1)
    } else {
        Err(make_err(s, pos, TokenType::Tuple))
    }
}

/// Reads a symbol: a non-empty run of word bytes and hyphens, plus the
/// optional separator after it. Succeeds exactly on such texts.
pub fn read_symbol(s: &[u8], pos: usize) -> (r: Result<(Vec<u8>, usize), Error>)
    requires
        pos <= s@.len(),
    ensures
        ({
            let n = symbol_run(s@, pos as int);
            match r {
                Ok((sym, np)) => {
                    &&& n >= 1
                    &&& pos + n <= s@.len()
                    &&& sym@ == s@.subrange(pos as int, pos + n)
                    &&& np == pos + n + sep_len(s@, pos + n)
                    &&& np <= s@.len()
                },
                Err(e) => {
                    &&& n == 0
                    &&& (e.0@, e.1) == spec_err(s@, pos as int, TokenType::Symbol)
                },
            }
        }),
{
    let end = scan_symbol(s, pos);
    if end > pos {
        let sym = copy_range(s, pos, end);
        let np = skip_sep(s, end);
        Ok((sym, np))
    } else {
        Err(make_err(s, pos, TokenType::Symbol))
    }
}

/// Reads the whole remainder of the text, as the grammar's final catch-all.
pub fn read_rest(s: &[u8], pos: usize) -> (r: (Vec<u8>, usize))
    requires
        pos <= s@.len(),
    ensures
        r.0@ == s@.subrange(pos as int, s@.len() as int),
        r.1 == s@.len(),
{
    let rest = copy_range(s, pos, s.len());
    (rest, s.len())
}

/// The value of a most-significant-first sequence of decimal digit bytes.
pub open spec fn spec_dec_value(t: Seq<u8>) -> int
    decreases t.len(),
{
    if t.len() == 0 {
        0
    } else {
        spec_dec_value(t.drop_last()) * 10 + (t.last() - 48)
    }
}

/// Every byte within a digit run is a digit.
pub proof fn lemma_run_digits(s: Seq<u8>, pos: int, k: int)
    requires
        0 <= pos,
        0 <= k < digit_run(s, pos),
    ensures
        is_digit_byte(s[pos + k]),
    decreases k,
{
    if k > 0 {
        lemma_run_digits(s, pos + 1, k - 1);
    }
}

/// Parses the digit run `[pos, end)` into a value, flagging whether it
/// exceeds `cap`.
fn parse_dec(s: &[u8], pos: usize, end: usize, cap: u128) -> (r: (u128, bool))
    requires
        pos <= end <= s@.len(),
        end == pos + digit_run(s@, pos as int),
        cap <= u64::MAX,
    ensures
        r.1 == (spec_dec_value(s@.subrange(pos as int, end as int)) > cap),
        !r.1 ==> r.0 == spec_dec_value(s@.subrange(pos as int, end as int)),
{
    let mut acc: u128 = 0;
    let mut big: bool = false;
    let mut i: usize = pos;
    proof {
        assert(s@.subrange(pos as int, pos as int) =~= Seq::<u8>::empty());
    }
    while i < end
        invariant
            pos <= i <= end <= s@.len(),
            end == pos + digit_run(s@, pos as int),
            big == (spec_dec_value(s@.subrange(pos as int, i as int)) > cap),
            !big ==> acc == spec_dec_value(s@.subrange(pos as int, i as int)),
            !big ==> acc <= cap,
            cap <= u64::MAX,
            spec_dec_value(s@.subrange(pos as int, i as int)) >= 0,
        decreases end - i,
    {
        proof {
            lemma_run_digits(s@, pos as int, i - pos as int);
            assert(s@.subrange(pos as int, i + 1).drop_last() =~= s@.subrange(
                pos as int, i as int));
        }
        let d: u8 = s[i] - 48;
        if big {
            proof {
                let prev = spec_dec_value(s@.subrange(pos as int, i as int));
                assert(prev * 10 >= prev) by (nonlinear_arith)
                    requires prev >= 0;
            }
        } else {
            let next: u128 = acc * 10 + d as u128;
            if next > cap {
                big = true;
            } else {
                acc = next;
            }
        }
        i = i + 1;
    }
    (acc, big)
}

/// Reads a non-empty run of decimal digits as an integer, plus the optional
/// separator after it. Succeeds exactly when a digit run starts at `pos` and
/// its value fits the machine's word.
pub fn read_int(s: &[u8], pos: usize) -> (r: Result<(usize, usize), Error>)
    requires
        pos <= s@.len(),
    ensures
        ({
            let n = digit_run(s@, pos as int);
            let v = spec_dec_value(s@.subrange(pos as int, pos + n));
            match r {
                Ok((value, np)) => {
                    &&& n >= 1
                    &&& pos + n <= s@.len()
                    &&& v <= usize::MAX
                    &&& value == v
                    &&& np == pos + n + sep_len(s@, pos + n)
                    &&& np <= s@.len()
                },
                Err(e) => {
                    &&& !(n >= 1 && v <= usize::MAX)
                    &&& (e.0@, e.1) == spec_err(s@, pos as int, TokenType::Int)
                },
            }
        }),
{
    let end = scan_digits(s, pos);
    if end == pos {
        return Err(make_err(s, pos, TokenType::Int));
    }
    let (acc, big) = parse_dec(s, pos, end, usize::MAX as u128);
    if big {
        return Err(make_err(s, pos, TokenType::Int));
    }
    let np = skip_sep(s, end);
    Ok((acc as usize, np))
}

/// Largest whole part `read_float` accepts: any two-decimal value with this
/// whole part still fits a signed 64-bit count of hundredths.
pub const FLOAT_WHOLE_MAX: u64 = 92_233_720_368_547_757;

/// Whether a decimal number `digits '.' digits` starts at `pos`.
pub open spec fn float_shape(s: Seq<u8>, pos: int) -> bool {
    let n1 = digit_run(s, pos);
    &&& n1 >= 1
    &&& pos + n1 < s.len()
    &&& s[pos + n1] == 46
    &&& digit_run(s, pos + n1 + 1) >= 1
}

/// The whole part of the decimal number at `pos`.
pub open spec fn float_whole(s: Seq<u8>, pos: int) -> int {
    spec_dec_value(s.subrange(pos, pos + digit_run(s, pos)))
}

/// The fractional part of the decimal number at `pos`, in hundredths; the
/// codec writes two fractional digits, and digits beyond the second are
/// dropped.
pub open spec fn float_frac(s: Seq<u8>, pos: int) -> int {
    let f0 = pos + digit_run(s, pos) + 1;
    let n2 = digit_run(s, f0);
    if n2 == 1 {
        10 * (s[f0] - 48)
    } else {
        spec_dec_value(s.subrange(f0, f0 + 2))
    }
}

/// The position just past the decimal number at `pos`.
pub open spec fn float_end(s: Seq<u8>, pos: int) -> int {
    let n1 = digit_run(s, pos);
    pos + n1 + 1 + digit_run(s, pos + n1 + 1)
}

/// Whether a decimal number the reader accepts starts at `pos`.
pub open spec fn float_ok(s: Seq<u8>, pos: int) -> bool {
    float_shape(s, pos) && float_whole(s, pos) <= FLOAT_WHOLE_MAX as int
}

/// The value the reader yields for the decimal number at `pos`, in
/// hundredths.
pub open spec fn float_val(s: Seq<u8>, pos: int) -> int {
    float_whole(s, pos) * 100 + float_frac(s, pos)
}

/// The position after the decimal number at `pos` and its separator.
pub open spec fn float_next(s: Seq<u8>, pos: int) -> int {
    float_end(s, pos) + sep_len(s, float_end(s, pos))
}

/// Reads a decimal number `digits '.' digits` as a signed count of
/// hundredths, truncated beyond two fractional digits, plus the optional
/// separator. Succeeds exactly when such a number starts at `pos` and its
/// whole part is at most `FLOAT_WHOLE_MAX`.
#[verifier::spinoff_prover]
#[verifier::rlimit(60)]
pub fn read_float(s: &[u8], pos: usize) -> (r: Result<(i64, usize), Error>)
    requires
        pos <= s@.len(),
    ensures
        match r {
            Ok((value, np)) => {
                &&& float_shape(s@, pos as int)
                &&& float_whole(s@, pos as int) <= FLOAT_WHOLE_MAX
                &&& value == float_whole(s@, pos as int) * 100 + float_frac(s@, pos as int)
                &&& float_end(s@, pos as int) <= s@.len()
                &&& np == float_end(s@, pos as int) + sep_len(s@, float_end(s@, pos as int))
                &&& np <= s@.len()
            },
            Err(e) => {
                &&& !(float_shape(s@, pos as int) && float_whole(s@, pos as int)
                    <= FLOAT_WHOLE_MAX)
                &&& (e.0@, e.1) == spec_err(s@, pos as int, TokenType::Float)
            },
        },
{
    let end1 = scan_digits(s, pos);
    if end1 == pos || end1 >= s.len() || s[end1] != 46 {
        return Err(make_err(s, pos, TokenType::Float));
    }
    let f0 = end1 + 1;
    let end2 = scan_digits(s, f0);
    if end2 == f0 {
        return Err(make_err(s, pos, TokenType::Float));
    }
    let (whole, big) = parse_dec(s, pos, end1, FLOAT_WHOLE_MAX as u128);
    if big {
        return Err(make_err(s, pos, TokenType::Float));
    }
    proof {
        lemma_run_digits(s@, f0 as int, 0);
    }
    let d0: u8 = s[f0] - 48;
    let frac: i64 = if end2 == f0 + 1 {
        proof {
            assert(digit_run(s@, f0 as int) == 1);
            assert(float_frac(s@, pos as int) == 10 * (s@[f0 as int] - 48));
            assert(10 * (d0 as int) == 10 * (s@[f0 as int] - 48));
        }
        10 * d0 as i64
    } else {
        proof {
            lemma_run_digits(s@, f0 as int, 1);
            assert(s@.subrange(f0 as int, f0 + 2).drop_last() =~= s@.subrange(f0 as int, f0 + 1));
            assert(s@.subrange(f0 as int, f0 + 1).drop_last() =~= s@.subrange(f0 as int, f0 as int));
            assert(s@.subrange(f0 as int, f0 as int) =~= Seq::<u8>::empty());
        }
        let d1: u8 = s[f0 + 1] - 48;
        proof {
            assert(digit_run(s@, f0 as int) >= 2);
            assert(spec_dec_value(s@.subrange(f0 as int, f0 as int)) == 0);
            assert(spec_dec_value(s@.subrange(f0 as int, f0 + 1)) == s@[f0 as int] - 48);
            assert(spec_dec_value(s@.subrange(f0 as int, f0 + 2))
                == 10 * (s@[f0 as int] - 48) + (s@[f0 + 1] - 48));
            assert(float_frac(s@, pos as int) == spec_dec_value(s@.subrange(f0 as int, f0 + 2)));
        }
        10 * d0 as i64 + d1 as i64
    };
    let value: i64 = (whole as i64) * 100 + frac;
    let np = skip_sep(s, end2);
    proof {
        assert(float_shape(s@, pos as int));
        assert(whole == float_whole(s@, pos as int));
        assert(frac == float_frac(s@, pos as int));
        assert(value == float_whole(s@, pos as int) * 100 + float_frac(s@, pos as int));
        assert(np == float_end(s@, pos as int) + sep_len(s@, float_end(s@, pos as int)));
    }
    Ok((value, np))
}

/// Whether a hyphenated identifier in its 36-byte text form starts at `pos`:
/// five lowercase hexadecimal groups of 8, 4, 4, 4 and 12 digits separated
/// by dashes, with the version digit `4` and a variant digit in `89ab`.
pub open spec fn id_shape(s: Seq<u8>, pos: int) -> bool {
    &&& pos + 36 <= s.len()
    &&& s[pos + 8] == 45
    &&& s[pos + 13] == 45
    &&& s[pos + 18] == 45
    &&& s[pos + 23] == 45
    &&& all_hex(s.subrange(pos, pos + 8))
    &&& all_hex(s.subrange(pos + 9, pos + 13))
    &&& all_hex(s.subrange(pos + 14, pos + 18))
    &&& all_hex(s.subrange(pos + 19, pos + 23))
    &&& all_hex(s.subrange(pos + 24, pos + 36))
    &&& s[pos + 14] == 52
    &&& (s[pos + 19] == 56 || s[pos + 19] == 57 || s[pos + 19] == 97 || s[pos + 19] == 98)
}

/// The value of the identifier text at `pos`.
pub open spec fn spec_id_at(s: Seq<u8>, pos: int) -> int {
    spec_hex_value(s.subrange(pos, pos + 8)) * 0x1000000000000000000000000
        + spec_hex_value(s.subrange(pos + 9, pos + 13)) * 0x100000000000000000000
        + spec_hex_value(s.subrange(pos + 14, pos + 18)) * 0x10000000000000000
        + spec_hex_value(s.subrange(pos + 19, pos + 23)) * 0x1000000000000
        + spec_hex_value(s.subrange(pos + 24, pos + 36))
}

/// Reads `n` hexadecimal digits as a value; succeeds exactly when all `n`
/// bytes are lowercase hexadecimal digits.
fn read_hex_group(s: &[u8], from: usize, n: usize) -> (r: Option<u64>)
    requires
        n <= 12,
        from + n <= s@.len(),
    ensures
        match r {
            Some(v) => {
                &&& all_hex(s@.subrange(from as int, from + n))
                &&& v == spec_hex_value(s@.subrange(from as int, from + n))
                &&& v < pow16(n as nat)
            },
            None => !all_hex(s@.subrange(from as int, from + n)),
        },
{
    let mut acc: u64 = 0;
    let mut i: usize = from;
    proof {
        assert(s@.subrange(from as int, from as int) =~= Seq::<u8>::empty());
        lemma_pow16_values();
    }
    let sl: usize = s.len();
    assert(from + n <= sl);
    let end: usize = from + n;
    while i < end
        invariant
            end == from + n,
            from <= i <= from + n,
            from + n <= s@.len(),
            n <= 12,
            all_hex(s@.subrange(from as int, i as int)),
            acc == spec_hex_value(s@.subrange(from as int, i as int)),
            acc < pow16((i - from) as nat),
            pow16(11) == 0x100000000000,
        decreases from + n - i,
    {
        let b = s[i];
        let v: u8 = if 48 <= b && b <= 57 {
            b - 48
        } else if 97 <= b && b <= 102 {
            b - 87
        } else {
            proof {
                assert(!is_hex_byte(s@[i as int]));
                assert(s@.subrange(from as int, from + n)[i - from as int] == s@[i as int]);
            }
            return None;
        };
        proof {
            lemma_pow16_le(((i - from) as nat), 11);
            assert(pow16(((i + 1 - from) as nat)) == 16 * pow16((i - from) as nat));
            assert(s@.subrange(from as int, i + 1).drop_last() =~= s@.subrange(
                from as int, i as int));
            assert(is_hex_byte(s@[i as int]));
        }
        acc = acc * 16 + v as u64;
        i = i + 1;
    }
    proof {
        lemma_hex_value_bound(s@.subrange(from as int, from + n));
    }
    Some(acc)
}

/// Reads a hyphenated identifier, plus the optional separator after it.
/// Succeeds exactly when the 36 bytes at `pos` spell an identifier of the
/// accepted shape, returning its 128-bit value.
#[verifier::spinoff_prover]
#[verifier::rlimit(60)]
pub fn read_id(s: &[u8], pos: usize) -> (r: Result<(Id, usize), Error>)
    requires
        pos <= s@.len(),
    ensures
        match r {
            Ok((id, np)) => {
                &&& id_shape(s@, pos as int)
                &&& id as int == spec_id_at(s@, pos as int)
                &&& np == pos + 36 + sep_len(s@, pos + 36)
                &&& np <= s@.len()
            },
            Err(e) => {
                &&& !id_shape(s@, pos as int)
                &&& (e.0@, e.1) == spec_err(s@, pos as int, TokenType::Id)
            },
        },
{
    if s.len() - pos < 36 {
        return Err(make_err(s, pos, TokenType::Id));
    }
    if s[pos + 8] != 45 || s[pos + 13] != 45 || s[pos + 18] != 45 || s[pos + 23] != 45 {
        return Err(make_err(s, pos, TokenType::Id));
    }
    if s[pos + 14] != 52 {
        return Err(make_err(s, pos, TokenType::Id));
    }
    let variant = s[pos + 19];
    if !(variant == 56 || variant == 57 || variant == 97 || variant == 98) {
        return Err(make_err(s, pos, TokenType::Id));
    }
    let g0 = match read_hex_group(s, pos, 8) {
        Some(v) => v,
        None => { return Err(make_err(s, pos, TokenType::Id)); },
    };
    let g1 = match read_hex_group(s, pos + 9, 4) {
        Some(v) => v,
        None => { return Err(make_err(s, pos, TokenType::Id)); },
    };
    let g2 = match read_hex_group(s, pos + 14, 4) {
        Some(v) => v,
        None => { return Err(make_err(s, pos, TokenType::Id)); },
    };
    let g3 = match read_hex_group(s, pos + 19, 4) {
        Some(v) => v,
        None => { return Err(make_err(s, pos, TokenType::Id)); },
    };
    let g4 = match read_hex_group(s, pos + 24, 12) {
        Some(v) => v,
        None => { return Err(make_err(s, pos, TokenType::Id)); },
    };
    proof {
        lemma_pow16_values();
    }
    let id: u128 = (g0 as u128) * 0x1000000000000000000000000
        + (g1 as u128) * 0x100000000000000000000
        + (g2 as u128) * 0x10000000000000000
        + (g3 as u128) * 0x1000000000000
        + (g4 as u128);
    let np = skip_sep(s, pos + 36);
    Ok((id, np))
}

/// The shortest decimal digit text of a non-negative value.
pub open spec fn spec_dec_min(v: int) -> Seq<u8>
    decreases v,
{
    if v < 10 {
        seq![(48 + v) as u8]
    } else {
        spec_dec_min(v / 10).push((48 + v % 10) as u8)
    }
}

/// The two-decimal text of a non-negative count of hundredths: the whole
/// part, a dot, and exactly two fractional digits.
pub open spec fn spec_fixed_pos(v: int) -> Seq<u8> {
    spec_dec_min(v / 100) + seq![46u8, (48 + (v / 10) % 10) as u8, (48 + v % 100 % 10) as u8]
}

/// The two-decimal text of any count of hundredths, signed.
pub open spec fn spec_fixed_text(v: int) -> Seq<u8> {
    if v < 0 { seq![45u8] + spec_fixed_pos(-v) } else { spec_fixed_pos(v) }
}

/// The shortest decimal text of a value is all digits and reads back to it.
pub proof fn lemma_dec_min_props(v: int)
    requires
        0 <= v,
    ensures
        spec_dec_min(v).len() >= 1,
        forall|k: int| 0 <= k < spec_dec_min(v).len() ==> is_digit_byte(#[trigger] spec_dec_min(v)[k]),
        spec_dec_value(spec_dec_min(v)) == v,
    decreases v,
{
    vstd::arithmetic::div_mod::lemma_fundamental_div_mod(v, 10);
    vstd::arithmetic::div_mod::lemma_mod_bound(v, 10);
    if v >= 10 {
        vstd::arithmetic::div_mod::lemma_div_pos_is_pos(v, 10);
        lemma_dec_min_props(v / 10);
        let t = spec_dec_min(v);
        assert(t.drop_last() =~= spec_dec_min(v / 10));
    } else {
        let t = spec_dec_min(v);
        assert(t.len() == 1);
        assert(t.drop_last() =~= Seq::<u8>::empty());
        assert(spec_dec_value(t.drop_last()) == 0);
        assert(t.last() == (48 + v) as u8);
    }
}

/// A stretch of digit bytes bounded by a non-digit (or the end) is exactly
/// the digit run.
pub proof fn lemma_digit_run_exact(s: Seq<u8>, pos: int, n: int)
    requires
        0 <= pos,
        0 <= n,
        pos + n <= s.len(),
        forall|k: int| 0 <= k < n ==> is_digit_byte(#[trigger] s[pos + k]),
        pos + n == s.len() || !is_digit_byte(s[pos + n]),
    ensures
        digit_run(s, pos) == n,
    decreases n,
{
    if n > 0 {
        assert(is_digit_byte(s[pos + 0]));
        assert forall|k: int| 0 <= k < n - 1 implies is_digit_byte(#[trigger] s[pos + 1 + k]) by {
            assert(s[pos + 1 + k] == s[pos + (k + 1)]);
        }
        lemma_digit_run_exact(s, pos + 1, n - 1);
    }
}

/// A stretch of word bytes bounded by a non-word byte (or the end) is
/// exactly the word run.
pub proof fn lemma_word_run_exact(s: Seq<u8>, pos: int, n: int)
    requires
        0 <= pos,
        0 <= n,
        pos + n <= s.len(),
        forall|k: int| 0 <= k < n ==> is_word_byte(#[trigger] s[pos + k]),
        pos + n == s.len() || !is_word_byte(s[pos + n]),
    ensures
        word_run(s, pos) == n,
    decreases n,
{
    if n > 0 {
        assert(is_word_byte(s[pos + 0]));
        assert forall|k: int| 0 <= k < n - 1 implies is_word_byte(#[trigger] s[pos + 1 + k]) by {
            assert(s[pos + 1 + k] == s[pos + (k + 1)]);
        }
        lemma_word_run_exact(s, pos + 1, n - 1);
    }
}

/// A stretch of symbol bytes bounded by a non-symbol byte (or the end) is
/// exactly the symbol run.
pub proof fn lemma_symbol_run_exact(s: Seq<u8>, pos: int, n: int)
    requires
        0 <= pos,
        0 <= n,
        pos + n <= s.len(),
        forall|k: int| 0 <= k < n ==> is_symbol_byte(#[trigger] s[pos + k]),
        pos + n == s.len() || !is_symbol_byte(s[pos + n]),
    ensures
        symbol_run(s, pos) == n,
    decreases n,
{
    if n > 0 {
        assert(is_symbol_byte(s[pos + 0]));
        assert forall|k: int| 0 <= k < n - 1 implies is_symbol_byte(#[trigger] s[pos + 1 + k]) by {
            assert(s[pos + 1 + k] == s[pos + (k + 1)]);
        }
        lemma_symbol_run_exact(s, pos + 1, n - 1);
    }
}

/// Appends the shortest decimal digit text of `v`.
fn push_dec_min(out: &mut Vec<u8>, v: i64)
    requires
        v >= 0,
    ensures
        final(out)@ == old(out)@ + spec_dec_min(v as int),
    decreases v,
{
    if v < 10 {
        out.push(48 + v as u8);
        proof {
            assert(out@ =~= old(out)@ + spec_dec_min(v as int));
        }
    } else {
        push_dec_min(out, v / 10);
        out.push(48 + (v % 10) as u8);
        proof {
            assert(out@ =~= old(out)@ + spec_dec_min(v as int));
        }
    }
}

/// Appends the two-decimal text of a signed count of hundredths.
pub fn push_fixed(out: &mut Vec<u8>, v: i64)
    requires
        v > i64::MIN,
    ensures
        final(out)@ == old(out)@ + spec_fixed_text(v as int),
{
    let a: i64 = if v < 0 {
        out.push(45);
        -v
    } else {
        v
    };
    push_dec_min(out, a / 100);
    out.push(46);
    out.push(48 + ((a / 10) % 10) as u8);
    out.push(48 + ((a % 100) % 10) as u8);
    proof {
        assert(out@ =~= old(out)@ + spec_fixed_text(v as int));
    }
}

/// A two-decimal text embedded in a larger text, not followed by a further
/// digit, parses back to its value: the reader sees its exact digit runs,
/// whole part and hundredth fraction.
#[verifier::spinoff_prover]
#[verifier::rlimit(60)]
pub proof fn lemma_fixed_parses(s: Seq<u8>, pos: int, v: int)
    requires
        0 <= v,
        0 <= pos,
        pos + spec_fixed_pos(v).len() <= s.len(),
        s.subrange(pos, pos + spec_fixed_pos(v).len()) == spec_fixed_pos(v),
        pos + spec_fixed_pos(v).len() == s.len() || !is_digit_byte(
            s[pos + spec_fixed_pos(v).len()]),
    ensures
        float_shape(s, pos),
        float_whole(s, pos) == v / 100,
        float_frac(s, pos) == v % 100,
        float_whole(s, pos) * 100 + float_frac(s, pos) == v,
        float_end(s, pos) == pos + spec_fixed_pos(v).len(),
{
    let t = spec_fixed_pos(v);
    let w = spec_dec_min(v / 100);
    let n1 = w.len() as int;
    vstd::arithmetic::div_mod::lemma_div_pos_is_pos(v, 100);
    lemma_dec_min_props(v / 100);
    assert(t.len() == n1 + 3);
    assert forall|k: int| 0 <= k < t.len() implies s[pos + k] == t[k] by {
        assert(s.subrange(pos, pos + t.len())[k] == s[pos + k]);
    }
    // The whole part's digit run.
    assert forall|k: int| 0 <= k < n1 implies is_digit_byte(#[trigger] s[pos + k]) by {
        assert(t[k] == w[k]);
    }
    assert(s[pos + n1] == t[n1]);
    assert(t[n1] == 46);
    lemma_digit_run_exact(s, pos, n1);
    assert(s.subrange(pos, pos + n1) =~= w);
    // The fraction's digit run.
    vstd::arithmetic::div_mod::lemma_mod_bound(v, 100);
    vstd::arithmetic::div_mod::lemma_mod_bound(v % 100, 10);
    vstd::arithmetic::div_mod::lemma_mod_bound(v / 10, 10);
    let f0 = pos + n1 + 1;
    assert(s[f0] == t[n1 + 1]);
    assert(s[f0 + 1] == t[n1 + 2]);
    assert(t[n1 + 1] == (48 + (v / 10) % 10) as u8);
    assert(t[n1 + 2] == (48 + v % 100 % 10) as u8);
    assert forall|k: int| 0 <= k < 2 implies is_digit_byte(#[trigger] s[f0 + k]) by {
        if k == 0 {
            assert(s[f0 + k] == t[n1 + 1]);
        } else {
            assert(s[f0 + k] == t[n1 + 2]);
        }
    }
    lemma_digit_run_exact(s, f0, 2);
    assert(float_shape(s, pos));
    // The fraction reads back as `v % 100`.
    assert(s.subrange(f0, f0 + 2).drop_last() =~= s.subrange(f0, f0 + 1));
    assert(s.subrange(f0, f0 + 1).drop_last() =~= s.subrange(f0, f0));
    assert(s.subrange(f0, f0) =~= Seq::<u8>::empty());
    assert(s.subrange(f0, f0 + 2).last() == s[f0 + 1]);
    assert(s.subrange(f0, f0 + 1).last() == s[f0]);
    assert(spec_dec_value(s.subrange(f0, f0)) == 0);
    assert(spec_dec_value(s.subrange(f0, f0 + 1)) == (v / 10) % 10);
    assert(spec_dec_value(s.subrange(f0, f0 + 2)) == 10 * ((v / 10) % 10) + v % 100 % 10);
    vstd::arithmetic::div_mod::lemma_mod_breakdown(v, 10, 10);
    assert(v % 100 == 10 * ((v / 10) % 10) + v % 10) by {
        assert(v % (10int * 10int) == 10 * ((v / 10) % 10) + v % 10);
    }
    vstd::arithmetic::div_mod::lemma_mod_mod(v, 10, 10);
    vstd::arithmetic::div_mod::lemma_fundamental_div_mod(v, 100);
}

/// The first digit of a four-digit hexadecimal text is the value's top
/// nibble.
proof fn lemma_hex4_head(v: int)
    requires
        0 <= v < 0x10000,
    ensures
        spec_hex(v, 4).len() == 4,
        spec_hex(v, 4)[0] == spec_hex_byte(v / 4096),
{
    lemma_spec_hex_len(v, 4);
    lemma_spec_hex_len(v / 16, 3);
    lemma_spec_hex_len(v / 256, 2);
    lemma_spec_hex_len(v / 4096, 1);
    vstd::arithmetic::div_mod::lemma_div_denominator(v, 16, 16);
    vstd::arithmetic::div_mod::lemma_div_denominator(v, 256, 16);
    assert(v / 16 / 16 == v / 256);
    assert(v / 256 / 16 == v / 4096);
    assert(spec_hex(v, 4)[0] == spec_hex(v / 16, 3)[0]);
    assert(spec_hex(v / 16, 3)[0] == spec_hex(v / 256, 2)[0]);
    assert(spec_hex(v / 256, 2)[0] == spec_hex(v / 4096, 1)[0]);
    let y = v / 4096;
    assert(0 <= y < 16);
    vstd::arithmetic::div_mod::lemma_fundamental_div_mod_converse(y, 16, 0, y);
    assert(spec_hex(y, 1)[0] == spec_hex_byte(y % 16));
}

/// The text of a version-4 identifier, embedded in a larger text, reads
/// back as that identifier: it has the accepted shape and its value is the
/// identifier itself.
#[verifier::spinoff_prover]
#[verifier::rlimit(60)]
pub proof fn lemma_id_text_parses(s: Seq<u8>, pos: int, id: Id)
    requires
        0 <= pos,
        pos + 36 <= s.len(),
        s.subrange(pos, pos + 36) == spec_id_text(id),
        id_is_v4(id),
    ensures
        id_shape(s, pos),
        spec_id_at(s, pos) == id as int,
{
    let t = spec_id_text(id);
    lemma_id_groups(id);
    lemma_pow16_values();
    lemma_hex_round_trip(id_g0(id as int), 8);
    lemma_hex_round_trip(id_g1(id as int), 4);
    lemma_hex_round_trip(id_g2(id as int), 4);
    lemma_hex_round_trip(id_g3(id as int), 4);
    lemma_hex_round_trip(id_g4(id as int), 12);
    assert(t.len() == 36);
    assert forall|k: int| 0 <= k < 36 implies s[pos + k] == t[k] by {
        assert(s.subrange(pos, pos + 36)[k] == s[pos + k]);
    }
    assert(s[pos + 8] == t[8]);
    assert(t[8] == DASH);
    assert(s[pos + 13] == t[13]);
    assert(t[13] == DASH);
    assert(s[pos + 18] == t[18]);
    assert(t[18] == DASH);
    assert(s[pos + 23] == t[23]);
    assert(t[23] == DASH);
    assert forall|k: int| 0 <= k < 8 implies
        s.subrange(pos, pos + 8)[k] == spec_hex(id_g0(id as int), 8)[k] by {
        assert(s[pos + k] == t[k]);
        assert(t[k] == spec_hex(id_g0(id as int), 8)[k]);
    }
    assert(s.subrange(pos, pos + 8) =~= spec_hex(id_g0(id as int), 8));
    assert forall|k: int| 0 <= k < 4 implies
        s.subrange(pos + 9, pos + 13)[k] == spec_hex(id_g1(id as int), 4)[k] by {
        assert(s[pos + (9 + k)] == t[9 + k]);
        assert(t[9 + k] == spec_hex(id_g1(id as int), 4)[k]);
    }
    assert(s.subrange(pos + 9, pos + 13) =~= spec_hex(id_g1(id as int), 4));
    assert forall|k: int| 0 <= k < 4 implies
        s.subrange(pos + 14, pos + 18)[k] == spec_hex(id_g2(id as int), 4)[k] by {
        assert(s[pos + (14 + k)] == t[14 + k]);
        assert(t[14 + k] == spec_hex(id_g2(id as int), 4)[k]);
    }
    assert(s.subrange(pos + 14, pos + 18) =~= spec_hex(id_g2(id as int), 4));
    assert forall|k: int| 0 <= k < 4 implies
        s.subrange(pos + 19, pos + 23)[k] == spec_hex(id_g3(id as int), 4)[k] by {
        assert(s[pos + (19 + k)] == t[19 + k]);
        assert(t[19 + k] == spec_hex(id_g3(id as int), 4)[k]);
    }
    assert(s.subrange(pos + 19, pos + 23) =~= spec_hex(id_g3(id as int), 4));
    assert forall|k: int| 0 <= k < 12 implies
        s.subrange(pos + 24, pos + 36)[k] == spec_hex(id_g4(id as int), 12)[k] by {
        assert(s[pos + (24 + k)] == t[24 + k]);
        assert(t[24 + k] == spec_hex(id_g4(id as int), 12)[k]);
    }
    assert(s.subrange(pos + 24, pos + 36) =~= spec_hex(id_g4(id as int), 12));
    lemma_hex4_head(id_g2(id as int));
    lemma_hex4_head(id_g3(id as int));
    assert(s[pos + 14] == t[14]);
    assert(t[14] == spec_hex(id_g2(id as int), 4)[0]);
    assert(s[pos + 14] == 52);
    assert(s[pos + 19] == t[19]);
    assert(t[19] == spec_hex(id_g3(id as int), 4)[0]);
    assert(s[pos + 19] == 56 || s[pos + 19] == 57 || s[pos + 19] == 97 || s[pos + 19] == 98);
}

} // verus!
