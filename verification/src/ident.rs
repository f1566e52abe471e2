//! Unit identifiers: 128-bit values written and read in the hyphenated
//! lowercase hexadecimal form `xxxxxxxx-xxxx-4xxx-yxxx-xxxxxxxxxxxx`,
//! with the version and variant nibbles of a randomly generated identifier.
use vstd::prelude::*;

verus! {

/// A unit's unique 128-bit identifier.
pub type Id = u128;

/// The byte written between identifier groups.
pub const DASH: u8 = 45;

/// Whether a byte is a lowercase hexadecimal digit.
pub open spec fn is_hex_byte(b: u8) -> bool {
    (48 <= b <= 57) || (97 <= b <= 102)
}

/// The byte for a hexadecimal digit value in `[0, 16)`.
pub open spec fn spec_hex_byte(d: int) -> u8 {
    if d < 10 { (48 + d) as u8 } else { (87 + d) as u8 }
}

/// The digit value of a lowercase hexadecimal byte.
pub open spec fn spec_hex_val(b: u8) -> int {
    if b <= 57 { b - 48 } else { b - 87 }
}

pub open spec fn pow16(n: nat) -> int
    decreases n,
{
    if n == 0 { 1 } else { 16 * pow16((n - 1) as nat) }
}

/// The lowest `n` hexadecimal digits of `v`, most significant first.
pub open spec fn spec_hex(v: int, n: nat) -> Seq<u8>
    decreases n,
{
    if n == 0 {
        Seq::empty()
    } else {
        spec_hex(v / 16, (n - 1) as nat).push(spec_hex_byte(v % 16))
    }
}

/// The value of a most-significant-first sequence of hexadecimal digit bytes.
pub open spec fn spec_hex_value(t: Seq<u8>) -> int
    decreases t.len(),
{
    if t.len() == 0 {
        0
    } else {
        spec_hex_value(t.drop_last()) * 16 + spec_hex_val(t.last())
    }
}

pub open spec fn all_hex(t: Seq<u8>) -> bool {
    forall|i: int| 0 <= i < t.len() ==> is_hex_byte(#[trigger] t[i])
}

/// The powers of sixteen that the identifier groups use.
pub proof fn lemma_pow16_values()
    ensures
        pow16(4) == 0x10000,
        pow16(8) == 0x100000000,
        pow16(11) == 0x100000000000,
        pow16(12) == 0x1000000000000,
{
    reveal_with_fuel(pow16, 13);
}

/// Powers of sixteen grow with the exponent.
pub proof fn lemma_pow16_le(a: nat, b: nat)
    requires
        a <= b,
    ensures
        pow16(a) <= pow16(b),
        pow16(a) >= 1,
    decreases b,
{
    if b > 0 {
        if a < b {
            lemma_pow16_le(a, (b - 1) as nat);
        } else {
            lemma_pow16_le((a - 1) as nat, (b - 1) as nat);
        }
    }
}

/// A sequence of hexadecimal digits reads back to a value below the
/// corresponding power of sixteen.
pub proof fn lemma_hex_value_bound(t: Seq<u8>)
    requires
        all_hex(t),
    ensures
        0 <= spec_hex_value(t) < pow16(t.len()),
    decreases t.len(),
{
    if t.len() > 0 {
        assert(all_hex(t.drop_last()));
        lemma_hex_value_bound(t.drop_last());
        assert(is_hex_byte(t.last()));
        assert(0 <= spec_hex_val(t.last()) < 16);
        assert(pow16(t.len()) == 16 * pow16((t.len() - 1) as nat));
    }
}

/// `spec_hex` always yields exactly `n` digits.
pub proof fn lemma_spec_hex_len(v: int, n: nat)
    ensures
        spec_hex(v, n).len() == n,
    decreases n,
{
    if n > 0 {
        lemma_spec_hex_len(v / 16, (n - 1) as nat);
    }
}

/// Writing `n` digits of a value below `16^n` and reading them back gives
/// the value again, and every byte written is a hexadecimal digit.
pub proof fn lemma_hex_round_trip(v: int, n: nat)
    requires
        0 <= v < pow16(n),
    ensures
        spec_hex(v, n).len() == n,
        all_hex(spec_hex(v, n)),
        spec_hex_value(spec_hex(v, n)) == v,
    decreases n,
{
    if n == 0 {
    } else {
        vstd::arithmetic::div_mod::lemma_fundamental_div_mod(v, 16);
        vstd::arithmetic::div_mod::lemma_mod_bound(v, 16);
        vstd::arithmetic::div_mod::lemma_div_pos_is_pos(v, 16);
        assert(v / 16 < pow16((n - 1) as nat)) by {
            if v / 16 >= pow16((n - 1) as nat) {
                assert(16 * (v / 16) >= 16 * pow16((n - 1) as nat)) by (nonlinear_arith)
                    requires v / 16 >= pow16((n - 1) as nat);
            }
        }
        lemma_hex_round_trip(v / 16, (n - 1) as nat);
        let t = spec_hex(v, n);
        assert(t.drop_last() =~= spec_hex(v / 16, (n - 1) as nat));
    }
}

/// The five dash-separated groups of an identifier.
pub open spec fn id_g0(id: int) -> int {
    id / 0x1000000000000000000000000
}

pub open spec fn id_g1(id: int) -> int {
    (id / 0x100000000000000000000) % 0x10000
}

pub open spec fn id_g2(id: int) -> int {
    (id / 0x10000000000000000) % 0x10000
}

pub open spec fn id_g3(id: int) -> int {
    (id / 0x1000000000000) % 0x10000
}

pub open spec fn id_g4(id: int) -> int {
    id % 0x1000000000000
}

/// Whether an identifier carries the version and variant nibbles that the
/// random generator sets and the reader requires.
pub open spec fn id_is_v4(id: Id) -> bool {
    id_g2(id as int) / 4096 == 4 && 8 <= id_g3(id as int) / 4096 <= 11
}

/// The 36-byte hyphenated text of an identifier.
pub open spec fn spec_id_text(id: Id) -> Seq<u8> {
    spec_hex(id_g0(id as int), 8) + seq![DASH]
        + spec_hex(id_g1(id as int), 4) + seq![DASH]
        + spec_hex(id_g2(id as int), 4) + seq![DASH]
        + spec_hex(id_g3(id as int), 4) + seq![DASH]
        + spec_hex(id_g4(id as int), 12)
}

/// The groups decompose the identifier exactly.
pub proof fn lemma_id_groups(id: Id)
    ensures
        0 <= id_g0(id as int) < 0x100000000,
        0 <= id_g1(id as int) < 0x10000,
        0 <= id_g2(id as int) < 0x10000,
        0 <= id_g3(id as int) < 0x10000,
        0 <= id_g4(id as int) < 0x1000000000000,
        id_g0(id as int) * 0x1000000000000000000000000
            + id_g1(id as int) * 0x100000000000000000000
            + id_g2(id as int) * 0x10000000000000000
            + id_g3(id as int) * 0x1000000000000
            + id_g4(id as int) == id as int,
{
    let n = id as int;
    let p48 = 0x1000000000000int;
    let p16 = 0x10000int;
    vstd::arithmetic::div_mod::lemma_fundamental_div_mod(n, p48);
    vstd::arithmetic::div_mod::lemma_mod_bound(n, p48);
    vstd::arithmetic::div_mod::lemma_div_pos_is_pos(n, p48);
    let q1 = n / p48;
    vstd::arithmetic::div_mod::lemma_fundamental_div_mod(q1, p16);
    vstd::arithmetic::div_mod::lemma_mod_bound(q1, p16);
    vstd::arithmetic::div_mod::lemma_div_pos_is_pos(q1, p16);
    vstd::arithmetic::div_mod::lemma_div_denominator(n, p48, p16);
    let q2 = q1 / p16;
    assert(q2 == n / 0x10000000000000000);
    vstd::arithmetic::div_mod::lemma_fundamental_div_mod(q2, p16);
    vstd::arithmetic::div_mod::lemma_mod_bound(q2, p16);
    vstd::arithmetic::div_mod::lemma_div_pos_is_pos(q2, p16);
    vstd::arithmetic::div_mod::lemma_div_denominator(n, 0x10000000000000000, p16);
    let q3 = q2 / p16;
    assert(q3 == n / 0x100000000000000000000);
    vstd::arithmetic::div_mod::lemma_fundamental_div_mod(q3, p16);
    vstd::arithmetic::div_mod::lemma_mod_bound(q3, p16);
    vstd::arithmetic::div_mod::lemma_div_pos_is_pos(q3, p16);
    vstd::arithmetic::div_mod::lemma_div_denominator(n, 0x100000000000000000000, p16);
    let q4 = q3 / p16;
    assert(q4 == n / 0x1000000000000000000000000);
    vstd::arithmetic::div_mod::lemma_div_pos_is_pos(q4, p16);
    assert(q4 < 0x100000000) by {
        if q4 >= 0x100000000 {
            vstd::arithmetic::div_mod::lemma_fundamental_div_mod(n, 0x1000000000000000000000000);
            assert(0x1000000000000000000000000 * q4 >= 0x1000000000000000000000000 * 0x100000000)
                by (nonlinear_arith)
                requires q4 >= 0x100000000int;
        }
    }
}

/// Appends the lowest `n` hexadecimal digits of `v`, most significant first.
fn push_hex(out: &mut Vec<u8>, v: u128, n: usize)
    requires
        n <= 32,
    ensures
        final(out)@ == old(out)@ + spec_hex(v as int, n as nat),
    decreases n,
{
    if n == 0 {
        proof {
            assert(out@ =~= old(out)@ + spec_hex(v as int, 0));
        }
        return ;
    }
    push_hex(out, v / 16, n - 1);
    let d: u8 = (v % 16) as u8;
    let b: u8 = if d < 10 { 48 + d } else { 87 + d };
    out.push(b);
    proof {
        assert(out@ =~= old(out)@ + spec_hex(v as int, n as nat));
    }
}

/// The hyphenated lowercase text of an identifier.
pub fn id_to_text(id: Id) -> (r: Vec<u8>)
    ensures
        r@ == spec_id_text(id),
        r@.len() == 36,
{
    proof {
        lemma_id_groups(id);
        lemma_pow16_values();
    }
    let mut out: Vec<u8> = Vec::new();
    push_hex(&mut out, id / 0x1000000000000000000000000, 8);
    out.push(DASH);
    push_hex(&mut out, (id / 0x100000000000000000000) % 0x10000, 4);
    out.push(DASH);
    push_hex(&mut out, (id / 0x10000000000000000) % 0x10000, 4);
    out.push(DASH);
    push_hex(&mut out, (id / 0x1000000000000) % 0x10000, 4);
    out.push(DASH);
    push_hex(&mut out, id % 0x1000000000000, 12);
    proof {
        assert(out@ =~= spec_id_text(id));
        lemma_hex_round_trip(id_g0(id as int), 8);
        lemma_hex_round_trip(id_g1(id as int), 4);
        lemma_hex_round_trip(id_g2(id as int), 4);
        lemma_hex_round_trip(id_g3(id as int), 4);
        lemma_hex_round_trip(id_g4(id as int), 12);
    }
    out
}

/// Relies on `uuid::Uuid::new_v4` (via `Uuid::as_u128`): a randomly drawn
/// 128-bit value whose version nibble is set to 4 and whose variant nibble
/// is masked into `[8, 11]`; nothing else is promised of it.
#[verifier::external_body]
pub(crate) fn fresh_id_bits() -> (r: Id)
    ensures
        id_is_v4(r),
{
    uuid::Uuid::new_v4().as_u128()
}

/// Relies on `String::from_utf8`: ASCII bytes decode to the string of
/// exactly those characters.
#[verifier::external_body]
fn ascii_to_string(v: Vec<u8>) -> (r: String)
    requires
        forall|i: int| 0 <= i < v@.len() ==> #[trigger] v@[i] < 128,
    ensures
        r@ == v@.map(|i: int, b: u8| b as char),
{
    String::from_utf8(v).unwrap_or_default()
}

/// Draws a fresh identifier, in hyphenated text form.
pub fn gen_uuid() -> (r: String)
    ensures
        exists|id: Id| #[trigger] id_is_v4(id) && r@ == spec_id_text(id).map(
            |i: int, b: u8| b as char),
{
    let id = fresh_id_bits();
    let text = id_to_text(id);
    proof {
        lemma_id_groups(id);
        lemma_pow16_values();
        lemma_hex_round_trip(id_g0(id as int), 8);
        lemma_hex_round_trip(id_g1(id as int), 4);
        lemma_hex_round_trip(id_g2(id as int), 4);
        lemma_hex_round_trip(id_g3(id as int), 4);
        lemma_hex_round_trip(id_g4(id as int), 12);
        assert forall|i: int| 0 <= i < text@.len() implies #[trigger] text@[i] < 128 by {
            lemma_id_text_bytes(id, i);
        }
    }
    let s = ascii_to_string(text);
    proof {
        let witness = id;
        assert(id_is_v4(witness) && s@ == spec_id_text(witness).map(|i: int, b: u8| b as char));
    }
    s
}

/// Every byte of an identifier's text is ASCII: a hexadecimal digit or a dash.
proof fn lemma_id_text_bytes(id: Id, i: int)
    requires
        0 <= i < spec_id_text(id).len(),
    ensures
        spec_id_text(id)[i] < 128,
        spec_id_text(id)[i] == DASH || is_hex_byte(spec_id_text(id)[i]),
{
    lemma_id_groups(id);
    lemma_pow16_values();
    lemma_hex_round_trip(id_g0(id as int), 8);
    lemma_hex_round_trip(id_g1(id as int), 4);
    lemma_hex_round_trip(id_g2(id as int), 4);
    lemma_hex_round_trip(id_g3(id as int), 4);
    lemma_hex_round_trip(id_g4(id as int), 12);
    let t = spec_id_text(id);
    assert(t.len() == 36);
    if i < 8 {
        assert(t[i] == spec_hex(id_g0(id as int), 8)[i]);
    } else if i == 8 {
        assert(t[i] == DASH);
    } else if i < 13 {
        assert(t[i] == spec_hex(id_g1(id as int), 4)[i - 9]);
    } else if i == 13 {
        assert(t[i] == DASH);
    } else if i < 18 {
        assert(t[i] == spec_hex(id_g2(id as int), 4)[i - 14]);
    } else if i == 18 {
        assert(t[i] == DASH);
    } else if i < 23 {
        assert(t[i] == spec_hex(id_g3(id as int), 4)[i - 19]);
    } else if i == 23 {
        assert(t[i] == DASH);
    } else {
        assert(t[i] == spec_hex(id_g4(id as int), 12)[i - 24]);
    }
}

} // verus!
