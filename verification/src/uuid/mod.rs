//! Uuids: parsing the textual form `F81D4FAE-7DEC-11D0-A765-00A0C91E6BF6`
//! into its two 64-bit halves.

use vstd::prelude::*;
use vstd::string::*;
use crate::nibble::{pow16, lemma_pow16_monotone, lemma_shift_digits_u64};

verus! {

/// The marker type of uuid values.
pub struct Uuid_ {}

/// Bit `idx % 64` of `x` when bit 6 of `idx` is clear, of `y` when it is set.
/// Bit 7 of `idx` plays no part.
pub open spec fn selected_bit(x: u64, y: u64, idx: u8) -> u32 {
    if idx & 0x40 == 0 {
        ((x >> ((idx & 0x3F) as u64)) & 1) as u32
    } else {
        ((y >> ((idx & 0x3F) as u64)) & 1) as u32
    }
}

/// Looks up bit `idx` of the 128-bit pattern whose low word is `x` and whose
/// high word is `y`.
pub fn get_bit(x: u64, y: u64, idx: u8) -> (r: u32)
    ensures
        r == selected_bit(x, y, idx),
        r <= 1,
{
    let z = x ^ y;
    let word_idx = (idx & 0x3F) as u64;
    assert(word_idx < 64) by (bit_vector)
        requires
            word_idx == (idx & 0x3F) as u64,
    ;
    let x_ = #[verifier::truncate] ((x >> word_idx) as u32);
    let z_ = #[verifier::truncate] ((z >> word_idx) as u32);
    let masked = z_ & ((idx as u32) >> 6u32);
    let r = (masked ^ x_) & 0x01;
    assert(r == selected_bit(x, y, idx) && r <= 1) by (bit_vector)
        requires
            z == x ^ y,
            word_idx == (idx & 0x3F) as u64,
            x_ == (x >> word_idx) as u32,
            z_ == (z >> word_idx) as u32,
            masked == z_ & ((idx as u32) >> 6u32),
            r == (masked ^ x_) & 0x01,
    ;
    r
}

/// The 128-bit membership pattern of the hex digit bytes `0-9`, `A-F` and `a-f`.
pub const HEX: (u64, u64) = (0x03FF_0000_0000_0000u64, 0x0000_007E_0000_007Eu64);

/// An ASCII hex digit: `0-9`, `A-F` or `a-f`.
pub open spec fn is_hex_char(b: u8) -> bool {
    (0x30 <= b <= 0x39) || (0x41 <= b <= 0x46) || (0x61 <= b <= 0x66)
}

/// Whether the bit that `b` selects in the 128-bit `pattern` is set: bit `b`
/// for an ASCII byte; bit 7 of `b` plays no part (see `selected_bit`), so a
/// byte from 128 up selects the same bit as its low seven bits.
pub fn hit(b: u8, pattern: (u64, u64)) -> (r: bool)
    ensures
        r == (selected_bit(pattern.0, pattern.1, b) == 1),
{
    get_bit(pattern.0, pattern.1, b) == 1
}

/// Whether `b` is one of the hex digits `0-9`, `A-F`, `a-f`; no byte from 128
/// up is one.
pub fn is_hex(b: u8) -> (r: bool)
    ensures
        r == (b < 0x80 && is_hex_char(b)),
{
    if !ascii(b) {
        return false;
    }
    let r = hit(b, HEX);
    assert(r == is_hex_char(b)) by (bit_vector)
        requires
            b < 0x80,
            r == (selected_bit(0x03FF_0000_0000_0000u64, 0x0000_007E_0000_007Eu64, b) == 1),
    ;
    r
}

/// Whether `b` is an ASCII byte.
pub fn ascii(b: u8) -> (r: bool)
    ensures
        r == (b < 0x80),
{
    let r = (b & 0x80) == 0x00;
    assert(r == (b < 0x80)) by (bit_vector)
        requires
            r == ((b & 0x80) == 0x00),
    ;
    r
}

/// The bytes on which `as_hex` computes without underflow: from `0` up, but
/// not `:` to `@` nor `G` to `` ` ``.
pub open spec fn as_hex_defined(b: u8) -> bool {
    &&& 0x30 <= b
    &&& !(0x39 < b < 0x41)
    &&& !(0x46 < b < 0x61)
}

/// The digit value of a byte: `b - '0'` up to `9`, `b - 'A' + 10` up to `F`,
/// `b - 'a' + 10` above.
pub open spec fn hex_digit_value(b: u8) -> nat {
    if b <= 0x39 {
        (b - 0x30) as nat
    } else if b <= 0x46 {
        (b - 0x41 + 10) as nat
    } else {
        (b - 0x61 + 10) as nat
    }
}

/// The value of a hex digit byte.
pub fn as_hex(b: u8) -> (d: u8)
    requires
        as_hex_defined(b),
    ensures
        d == hex_digit_value(b),
        is_hex_char(b) ==> d < 16,
{
    let d: u8 = if b <= 0x39u8 {
        b - 0x30u8
    } else if b <= 0x46u8 {
        b - 0x41u8 + 10
    } else {
        b - 0x61u8 + 10
    };
    d
}

/// A mask of the low `width` bits.
pub fn field(width: u32) -> (r: u64)
    requires
        width < 64,
    ensures
        r as nat + 1 == vstd::arithmetic::power2::pow2(width as nat),
{
    proof {
        vstd::bits::lemma_u64_pow2_no_overflow(width as nat);
        vstd::bits::lemma_u64_shl_is_mul(1, width as u64);
    }
    (1u64 << (width as u64)) - 1
}

/// Every byte that `gather` reaches is ASCII: a byte at or above `0x80`
/// comes only after a byte that is not a hex digit.
pub open spec fn gather_defined(s: Seq<u8>) -> bool {
    forall|i: int|
        0 <= i < s.len() && (forall|j: int| 0 <= j < i ==> #[trigger] is_hex_char(s[j]))
            ==> #[trigger] s[i] < 0x80
}

/// All bytes are hex digits.
pub open spec fn all_hex(s: Seq<u8>) -> bool {
    forall|i: int| 0 <= i < s.len() ==> #[trigger] is_hex_char(s[i])
}

/// The number that hex digits `s` write, most significant first.
pub open spec fn hex_number(s: Seq<u8>) -> nat
    decreases s.len(),
{
    if s.len() == 0 {
        0
    } else {
        hex_number(s.drop_last()) * 16 + hex_digit_value(s.last())
    }
}

/// 2 to the 64th.
pub open spec fn word_modulus() -> nat {
    0x1_0000_0000_0000_0000
}

proof fn lemma_shift_nibble(x: u64)
    ensures
        (x << 4u64) as nat == (x as nat * 16) % word_modulus(),
{
    assert((x << 4u64) as int == (x as int * 16) % 0x1_0000_0000_0000_0000int) by (bit_vector);
}

/// Reads hex digits into a number, most significant first; digits beyond the
/// sixteenth push the first ones out of the 64 bits.
pub fn gather(hex_digits: &[u8]) -> (r: Option<u64>)
    requires
        gather_defined(hex_digits@),
    ensures
        r is Some <==> all_hex(hex_digits@),
        r matches Some(v) ==> v as nat == hex_number(hex_digits@) % word_modulus(),
{
    let mut x = 0u64;
    let mut i: usize = 0;
    while i < hex_digits.len()
        invariant
            i <= hex_digits.len(),
            gather_defined(hex_digits@),
            forall|j: int| 0 <= j < i ==> #[trigger] is_hex_char(hex_digits@[j]),
            x as nat == hex_number(hex_digits@.take(i as int)) % word_modulus(),
        decreases hex_digits.len() - i,
    {
        let c = hex_digits[i];
        assert(c < 0x80);
        if !is_hex(c) {
            return None;
        }
        let d = as_hex(c);
        proof {
            let a = hex_number(hex_digits@.take(i as int));
            let m = word_modulus() as int;
            assert(hex_digits@.take(i + 1).drop_last() =~= hex_digits@.take(i as int));
            lemma_shift_nibble(x);
            vstd::arithmetic::div_mod::lemma_mul_mod_noop_left(a as int, 16, m);
            vstd::arithmetic::div_mod::lemma_add_mod_noop((a * 16) as int, d as int, m);
            vstd::arithmetic::div_mod::lemma_small_mod(d as nat, m as nat);
            assert((x << 4u64) as int + d as int <= u64::MAX) by (bit_vector)
                requires
                    d < 16,
            ;
            vstd::arithmetic::div_mod::lemma_small_mod(((x << 4u64) + d) as nat, m as nat);
        }
        x = (x << 4u64) + d as u64;
        i = i + 1;
    }
    assert(hex_digits@.take(hex_digits@.len() as int) =~= hex_digits@);
    Some(x)
}

/// The advice that ends every message of a refused uuid.
pub open spec fn should_be() -> Seq<char> {
    "A uuid should be 32 hex digits with 4 dashes dividing them into groups of (8 4 4 4 12), like: #uuid \"F81D4FAE-7DEC-11D0-A765-00A0C91E6BF6\"."@
}

/// The message `detail` followed by the advice.
fn complain(detail: &str) -> (r: String)
    ensures
        r@ == detail@ + should_be(),
{
    let should_be = "A uuid should be 32 hex digits with 4 dashes dividing them into groups of (8 4 4 4 12), like: #uuid \"F81D4FAE-7DEC-11D0-A765-00A0C91E6BF6\".";
    detail.to_owned().concat(should_be)
}

/// The five groups of hex digits of a 36-byte uuid text.
pub open spec fn group1(s: Seq<u8>) -> Seq<u8> { s.subrange(0, 8) }
pub open spec fn group2(s: Seq<u8>) -> Seq<u8> { s.subrange(9, 13) }
pub open spec fn group3(s: Seq<u8>) -> Seq<u8> { s.subrange(14, 18) }
pub open spec fn group4(s: Seq<u8>) -> Seq<u8> { s.subrange(19, 23) }
pub open spec fn group5(s: Seq<u8>) -> Seq<u8> { s.subrange(24, 36) }

/// Dashes stand at 8, 13, 18 and 23.
pub open spec fn dashes_in_place(s: Seq<u8>) -> bool {
    s[8] == 0x2D && s[13] == 0x2D && s[18] == 0x2D && s[23] == 0x2D
}

/// The inputs on which `parse` reads no byte at or above `0x80` as a digit:
/// each group it gathers is read as `gather` requires.
pub open spec fn parse_defined(s: Seq<u8>) -> bool {
    s.len() == 36 && dashes_in_place(s) ==> {
        &&& gather_defined(group1(s))
        &&& all_hex(group1(s)) ==> gather_defined(group2(s))
        &&& all_hex(group1(s)) && all_hex(group2(s)) ==> gather_defined(group3(s))
        &&& all_hex(group1(s)) && all_hex(group2(s)) && all_hex(group3(s))
            ==> gather_defined(group4(s))
        &&& all_hex(group1(s)) && all_hex(group2(s)) && all_hex(group3(s)) && all_hex(group4(s))
            ==> gather_defined(group5(s))
    }
}

/// What `parse` answers: the high half holds the first three groups, the low
/// half the last two, or the message of the first fault found.
pub open spec fn parse_result(s: Seq<u8>) -> Result<(u64, u64), Seq<char>> {
    if s.len() < 36 {
        Err("Bad uuid, too short. "@ + should_be())
    } else if s.len() > 36 {
        Err("Bad uuid, too long. "@ + should_be())
    } else if !dashes_in_place(s) {
        Err("Bad uuid, groups aren't right. "@ + should_be())
    } else if !all_hex(group1(s)) {
        Err("Bad uuid, first group contains non-hex characters. "@ + should_be())
    } else if !all_hex(group2(s)) {
        Err("Bad uuid, second group contains non-hex characters. "@ + should_be())
    } else if !all_hex(group3(s)) {
        Err("Bad uuid, third group contains non-hex characters. "@ + should_be())
    } else if !all_hex(group4(s)) {
        Err("Bad uuid, fourth group contains non-hex characters. "@ + should_be())
    } else if !all_hex(group5(s)) {
        Err("Bad uuid, fifth group contains non-hex characters. "@ + should_be())
    } else {
        Ok(
            (
                (hex_number(group1(s)) * 0x1_0000_0000 + hex_number(group2(s)) * 0x1_0000
                    + hex_number(group3(s))) as u64,
                (hex_number(group4(s)) * 0x1_0000_0000_0000 + hex_number(group5(s))) as u64,
            ),
        )
    }
}

/// A number written with `s.len()` hex digits is below 16 to that power.
pub proof fn lemma_hex_number_bound(s: Seq<u8>)
    requires
        all_hex(s),
    ensures
        hex_number(s) < pow16(s.len()),
    decreases s.len(),
{
    if s.len() > 0 {
        let p = s.drop_last();
        assert(all_hex(p)) by {
            assert forall|i: int| 0 <= i < p.len() implies #[trigger] is_hex_char(p[i]) by {
                assert(p[i] == s[i]);
            }
        }
        assert(is_hex_char(s[s.len() - 1]));
        lemma_hex_number_bound(p);
    }
}

proof fn lemma_pow16_values()
    ensures
        pow16(4) == 0x1_0000,
        pow16(8) == 0x1_0000_0000,
        pow16(12) == 0x1_0000_0000_0000,
        pow16(16) == 0x1_0000_0000_0000_0000,
{
    reveal_with_fuel(pow16, 17);
}

/// Reads the bytes `lo..hi` of `source` as hex digits.
fn gather_group(source: &[u8], lo: usize, hi: usize) -> (r: Option<u64>)
    requires
        lo <= hi <= source@.len(),
        hi - lo <= 12,
        gather_defined(source@.subrange(lo as int, hi as int)),
    ensures
        r is Some <==> all_hex(source@.subrange(lo as int, hi as int)),
        r matches Some(v) ==> v as nat == hex_number(source@.subrange(lo as int, hi as int)),
{
    let r = gather(&source[lo..hi]);
    proof {
        if r.is_some() {
            let g = source@.subrange(lo as int, hi as int);
            lemma_hex_number_bound(g);
            lemma_pow16_values();
            lemma_pow16_monotone(g.len(), 16);
            vstd::arithmetic::div_mod::lemma_small_mod(hex_number(g), word_modulus());
        }
    }
    r
}

/// Parses the 36-byte text of a uuid, `8-4-4-4-12` hex digits, into its high
/// and low 64 bits, or says what is wrong with it.
pub fn parse(source: &[u8]) -> (r: Result<(u64, u64), String>)
    requires
        parse_defined(source@),
    ensures
        match (r, parse_result(source@)) {
            (Ok(v), Ok(w)) => v == w,
            (Err(e), Err(m)) => e@ == m,
            _ => false,
        },
{
    if source.len() != 36 {
        if source.len() < 36 {
            return Err(complain("Bad uuid, too short. "));
        } else {
            return Err(complain("Bad uuid, too long. "));
        }
    }
    if source[8] != 0x2Du8 || source[13] != 0x2Du8 || source[18] != 0x2Du8 || source[23] != 0x2Du8 {
        return Err(complain("Bad uuid, groups aren't right. "));
    }
    let top = {
        let time_low = match gather_group(source, 0, 8) {
            Some(x) => x,
            None => {
                return Err(complain("Bad uuid, first group contains non-hex characters. "));
            },
        };
        let time_mid = match gather_group(source, 9, 13) {
            Some(x) => x,
            None => {
                return Err(complain("Bad uuid, second group contains non-hex characters. "));
            },
        };
        let time_high = match gather_group(source, 14, 18) {
            Some(x) => x,
            None => {
                return Err(complain("Bad uuid, third group contains non-hex characters. "));
            },
        };
        proof {
            lemma_hex_number_bound(group1(source@));
            lemma_hex_number_bound(group2(source@));
            lemma_hex_number_bound(group3(source@));
            lemma_pow16_values();
            assert((time_low << 32u64) | (time_mid << 16u64) | time_high
                == time_low * 0x1_0000_0000 + time_mid * 0x1_0000 + time_high) by (bit_vector)
                requires
                    time_low < 0x1_0000_0000,
                    time_mid < 0x1_0000,
                    time_high < 0x1_0000,
            ;
        }
        (time_low << 32u64) | (time_mid << 16u64) | time_high
    };
    let bot = {
        let clock_seq = match gather_group(source, 19, 23) {
            Some(x) => x,
            None => {
                return Err(complain("Bad uuid, fourth group contains non-hex characters. "));
            },
        };
        let node = match gather_group(source, 24, 36) {
            Some(x) => x,
            None => {
                return Err(complain("Bad uuid, fifth group contains non-hex characters. "));
            },
        };
        proof {
            lemma_hex_number_bound(group4(source@));
            lemma_hex_number_bound(group5(source@));
            lemma_pow16_values();
            assert((clock_seq << 48u64) | node == clock_seq * 0x1_0000_0000_0000 + node)
                by (bit_vector)
                requires
                    clock_seq < 0x1_0000,
                    node < 0x1_0000_0000_0000,
            ;
        }
        (clock_seq << 48u64) | node
    };
    Ok((top, bot))
}

/// The upper-case hex digit of `d`, below 16.
pub open spec fn upper_hex(d: nat) -> u8 {
    if d < 10 {
        (0x30 + d) as u8
    } else {
        (0x41 + d - 10) as u8
    }
}

/// The last `n` hex digits of `v`, upper case, most significant first.
pub open spec fn hex_text(v: nat, n: nat) -> Seq<u8>
    decreases n,
{
    if n == 0 {
        Seq::empty()
    } else {
        hex_text(v / 16, (n - 1) as nat).push(upper_hex(v % 16))
    }
}

/// The bytes as characters.
pub open spec fn chars_of(s: Seq<u8>) -> Seq<char> {
    s.map_values(|b: u8| b as char)
}

/// The canonical text of the uuid with halves `top` and `bot`:
/// `XXXXXXXX-XXXX-XXXX-XXXX-XXXXXXXXXXXX` in upper-case hex.
pub open spec fn uuid_text(top: u64, bot: u64) -> Seq<u8> {
    hex_text(top as nat / 0x1_0000_0000, 8) + seq![0x2Du8] + hex_text(
        (top as nat / 0x1_0000) % 0x1_0000,
        4,
    ) + seq![0x2Du8] + hex_text(top as nat % 0x1_0000, 4) + seq![0x2Du8] + hex_text(
        bot as nat / 0x1_0000_0000_0000,
        4,
    ) + seq![0x2Du8] + hex_text(bot as nat % 0x1_0000_0000_0000, 12)
}

/// No digits make no text.
proof fn lemma_hex_text_empty(v: nat)
    ensures
        hex_text(v, 0) == Seq::<u8>::empty(),
{
}

/// The one-character text of the upper-case hex digit `d`.
fn hex_digit_str(d: u64) -> (r: &'static str)
    requires
        d < 16,
    ensures
        r@ == seq![upper_hex(d as nat) as char],
{
    proof {
        reveal_strlit("0");
        reveal_strlit("1");
        reveal_strlit("2");
        reveal_strlit("3");
        reveal_strlit("4");
        reveal_strlit("5");
        reveal_strlit("6");
        reveal_strlit("7");
        reveal_strlit("8");
        reveal_strlit("9");
        reveal_strlit("A");
        reveal_strlit("B");
        reveal_strlit("C");
        reveal_strlit("D");
        reveal_strlit("E");
        reveal_strlit("F");
    }
    match d {
        0 => "0",
        1 => "1",
        2 => "2",
        3 => "3",
        4 => "4",
        5 => "5",
        6 => "6",
        7 => "7",
        8 => "8",
        9 => "9",
        10 => "A",
        11 => "B",
        12 => "C",
        13 => "D",
        14 => "E",
        _ => "F",
    }
}

/// Appends the last `n` hex digits of `v`, upper case, most significant
/// first.
fn push_hex(text: &mut String, v: u64, n: u32)
    requires
        n <= 16,
    ensures
        final(text)@ == old(text)@ + chars_of(hex_text(v as nat, n as nat)),
{
    let mut k = n;
    proof {
        let z = (v as nat) / pow16(n as nat);
        lemma_hex_text_empty(z);
        assert(chars_of(Seq::<u8>::empty()) =~= Seq::<char>::empty());
        assert(old(text)@ + Seq::<char>::empty() =~= old(text)@);
    }
    while k > 0
        invariant
            k <= n <= 16,
            text@ == old(text)@ + chars_of(hex_text((v as nat) / pow16(k as nat), (n - k) as nat)),
        decreases k,
    {
        k = k - 1;
        let shift = (k * 4) as u64;
        let d = (v >> shift) & 15;
        let ghost w = (v as nat) / pow16(k as nat);
        proof {
            lemma_shift_digits_u64(v, k as nat);
            let y = v >> shift;
            assert(y & 15 == y % 16) by (bit_vector);
            lemma_pow16_monotone(0, k as nat);
            vstd::arithmetic::div_mod::lemma_div_denominator(v as int, pow16(k as nat) as int, 16);
            assert(pow16((k + 1) as nat) == pow16(k as nat) * 16);
            assert(w / 16 == (v as nat) / pow16((k + 1) as nat));
            let prev = hex_text(w / 16, (n - k - 1) as nat);
            assert(hex_text(w, (n - k) as nat) == prev.push(upper_hex(w % 16)));
            assert(chars_of(prev.push(upper_hex(w % 16))) =~= chars_of(prev).push(upper_hex(w % 16) as char));
        }
        text.append(hex_digit_str(d));
        proof {
            let prev = hex_text(w / 16, (n - k - 1) as nat);
            assert(text@ =~= old(text)@ + chars_of(hex_text(w, (n - k) as nat)));
        }
    }
    proof {
        assert(pow16(0) == 1);
        assert((v as nat) / 1 == v as nat);
    }
}

/// The fields of a uuid, as the canonical text shows them.
pub struct Guide {
    pub hash: u32,
    pub top: u64,
    pub bot: u64,
}

impl Uuid_ {
    /// The notation of a uuid: `#uuid "XXXXXXXX-XXXX-XXXX-XXXX-XXXXXXXXXXXX"`,
    /// upper-case hex.
    pub fn edn(&self, guide: &Guide) -> (r: String)
        ensures
            r@ == "#uuid \""@ + chars_of(uuid_text(guide.top, guide.bot)) + "\""@,
    {
        let top = guide.top;
        let bot = guide.bot;
        let mask32 = field(32);
        let mask16 = field(16);
        let mask48 = field(48);
        proof {
            vstd::arithmetic::power2::lemma2_to64();
            vstd::arithmetic::power2::lemma2_to64_rest();
        }
        let time_low = (top >> 32u64) & mask32;
        let time_mid = (top >> 16u64) & mask16;
        let time_high = top & mask16;
        let clock_seq = (bot >> 48u64) & mask16;
        let node = bot & mask48;
        assert(time_low == top / 0x1_0000_0000 && time_mid == (top / 0x1_0000) % 0x1_0000
            && time_high == top % 0x1_0000 && clock_seq == bot / 0x1_0000_0000_0000
            && node == bot % 0x1_0000_0000_0000) by (bit_vector)
            requires
                mask32 == 0xFFFF_FFFFu64,
                mask16 == 0xFFFFu64,
                mask48 == 0xFFFF_FFFF_FFFFu64,
                time_low == (top >> 32u64) & mask32,
                time_mid == (top >> 16u64) & mask16,
                time_high == top & mask16,
                clock_seq == (bot >> 48u64) & mask16,
                node == bot & mask48,
        ;
        let mut text = "#uuid \"".to_owned();
        push_hex(&mut text, time_low, 8);
        text.append("-");
        push_hex(&mut text, time_mid, 4);
        text.append("-");
        push_hex(&mut text, time_high, 4);
        text.append("-");
        push_hex(&mut text, clock_seq, 4);
        text.append("-");
        push_hex(&mut text, node, 12);
        text.append("\"");
        proof {
            reveal_strlit("-");
            let dash = seq![0x2Du8];
            assert(chars_of(dash) =~= "-"@);
            let t = uuid_text(top, bot);
            let a = hex_text(top as nat / 0x1_0000_0000, 8);
            let b = hex_text((top as nat / 0x1_0000) % 0x1_0000, 4);
            let c = hex_text(top as nat % 0x1_0000, 4);
            let d = hex_text(bot as nat / 0x1_0000_0000_0000, 4);
            let e = hex_text(bot as nat % 0x1_0000_0000_0000, 12);
            assert(chars_of(t) =~= chars_of(a) + chars_of(dash) + chars_of(b) + chars_of(dash)
                + chars_of(c) + chars_of(dash) + chars_of(d) + chars_of(dash) + chars_of(e));
            assert(text@ =~= "#uuid \""@ + chars_of(t) + "\""@);
        }
        text
    }

    /// Whether two uuids are equal: `other` is `None` when the other value is
    /// no uuid.
    pub fn eq(&self, guide: &Guide, other: Option<&Guide>) -> (r: bool)
        ensures
            r == match other {
                Some(h) => guide.top == h.top && guide.bot == h.bot,
                None => false,
            },
    {
        match other {
            Some(h) => guide.top == h.top && guide.bot == h.bot,
            None => false,
        }
    }
}

/// The hex text of `v` is `n` hex digits, and reads back as `v` modulo 16
/// to the `n`.
pub proof fn lemma_hex_text(v: nat, n: nat)
    ensures
        hex_text(v, n).len() == n,
        all_hex(hex_text(v, n)),
        hex_number(hex_text(v, n)) == v % pow16(n),
    decreases n,
{
    if n == 0 {
        lemma_hex_text_empty(v);
        assert(pow16(0) == 1);
        assert(v % 1 == 0);
        assert(hex_number(Seq::<u8>::empty()) == 0);
    } else {
        let p = pow16((n - 1) as nat);
        lemma_hex_text(v / 16, (n - 1) as nat);
        let prev = hex_text(v / 16, (n - 1) as nat);
        let u = upper_hex(v % 16);
        let t = hex_text(v, n);
        assert(t == prev.push(u));
        assert(t.drop_last() =~= prev);
        assert(t.last() == u);
        assert(is_hex_char(u) && hex_digit_value(u) == v % 16);
        assert forall|i: int| 0 <= i < t.len() implies #[trigger] is_hex_char(t[i]) by {
            if i < t.len() - 1 {
                assert(t[i] == prev[i]);
            }
        }
        lemma_pow16_monotone(0, (n - 1) as nat);
        assert(pow16(n) == 16 * p);
        vstd::arithmetic::div_mod::lemma_breakdown(v as int, 16, p as int);
    }
}

/// The canonical text of any uuid parses back to its two halves.
pub proof fn lemma_uuid_text_parses(top: u64, bot: u64)
    ensures
        parse_defined(uuid_text(top, bot)),
        parse_result(uuid_text(top, bot)) == Ok::<(u64, u64), Seq<char>>((top, bot)),
{
    let tl = top as nat / 0x1_0000_0000;
    let tm = (top as nat / 0x1_0000) % 0x1_0000;
    let th = top as nat % 0x1_0000;
    let cs = bot as nat / 0x1_0000_0000_0000;
    let nd = bot as nat % 0x1_0000_0000_0000;
    let a = hex_text(tl, 8);
    let b = hex_text(tm, 4);
    let c = hex_text(th, 4);
    let d = hex_text(cs, 4);
    let e = hex_text(nd, 12);
    lemma_hex_text(tl, 8);
    lemma_hex_text(tm, 4);
    lemma_hex_text(th, 4);
    lemma_hex_text(cs, 4);
    lemma_hex_text(nd, 12);
    let dash = seq![0x2Du8];
    let t = uuid_text(top, bot);
    assert(t == a + dash + b + dash + c + dash + d + dash + e);
    assert(t.len() == 36);
    assert(group1(t) =~= a);
    assert(group2(t) =~= b);
    assert(group3(t) =~= c);
    assert(group4(t) =~= d);
    assert(group5(t) =~= e);
    assert(t[8] == 0x2D && t[13] == 0x2D && t[18] == 0x2D && t[23] == 0x2D);
    assert forall|g: Seq<u8>| all_hex(g) implies gather_defined(g) by {
        assert forall|i: int|
            0 <= i < g.len() && (forall|j: int| 0 <= j < i ==> #[trigger] is_hex_char(g[j]))
                implies #[trigger] g[i] < 0x80 by {
            assert(is_hex_char(g[i]));
        }
    }
    lemma_pow16_values();
    assert(top as nat / 0x1_0000_0000 < 0x1_0000_0000 && bot as nat / 0x1_0000_0000_0000 < 0x1_0000)
        by (bit_vector);
    vstd::arithmetic::div_mod::lemma_small_mod(tl, 0x1_0000_0000);
    vstd::arithmetic::div_mod::lemma_small_mod(cs, 0x1_0000);
    vstd::arithmetic::div_mod::lemma_mod_mod(tm as int, 0x1_0000, 1);
    vstd::arithmetic::div_mod::lemma_mod_pos_bound((top as nat / 0x1_0000) as int, 0x1_0000);
    vstd::arithmetic::div_mod::lemma_mod_pos_bound(top as int, 0x1_0000);
    vstd::arithmetic::div_mod::lemma_mod_pos_bound(bot as int, 0x1_0000_0000_0000);
    vstd::arithmetic::div_mod::lemma_small_mod(tm, 0x1_0000);
    vstd::arithmetic::div_mod::lemma_small_mod(th, 0x1_0000);
    vstd::arithmetic::div_mod::lemma_small_mod(nd, 0x1_0000_0000_0000);
    vstd::arithmetic::div_mod::lemma_fundamental_div_mod(top as int, 0x1_0000);
    vstd::arithmetic::div_mod::lemma_fundamental_div_mod((top as nat / 0x1_0000) as int, 0x1_0000);
    vstd::arithmetic::div_mod::lemma_div_denominator(top as int, 0x1_0000, 0x1_0000);
    vstd::arithmetic::div_mod::lemma_fundamental_div_mod(bot as int, 0x1_0000_0000_0000);
    assert(tl * 0x1_0000_0000 + tm * 0x1_0000 + th == top);
    assert(cs * 0x1_0000_0000_0000 + nd == bot);
}

/// A byte with `a-f` made upper case.
pub open spec fn upper(b: u8) -> u8 {
    if 0x61 <= b <= 0x66 {
        (b - 0x20) as u8
    } else {
        b
    }
}

/// The bytes with `a-f` made upper case.
pub open spec fn upper_text(s: Seq<u8>) -> Seq<u8> {
    s.map_values(|b: u8| upper(b))
}

/// Hex digits read as a number and written back give the digits, upper case.
pub proof fn lemma_hex_number_text(g: Seq<u8>)
    requires
        all_hex(g),
    ensures
        hex_text(hex_number(g), g.len()) == upper_text(g),
    decreases g.len(),
{
    if g.len() == 0 {
        lemma_hex_text_empty(hex_number(g));
        assert(upper_text(g) =~= Seq::<u8>::empty());
    } else {
        let prev = g.drop_last();
        assert(all_hex(prev)) by {
            assert forall|i: int| 0 <= i < prev.len() implies #[trigger] is_hex_char(prev[i]) by {
                assert(prev[i] == g[i]);
            }
        }
        lemma_hex_number_text(prev);
        let last = g.last();
        assert(is_hex_char(last));
        let hn = hex_number(g);
        assert(hn == hex_number(prev) * 16 + hex_digit_value(last));
        vstd::arithmetic::div_mod::lemma_fundamental_div_mod_converse(
            hn as int,
            16,
            hex_number(prev) as int,
            hex_digit_value(last) as int,
        );
        assert(upper_hex(hex_digit_value(last)) == upper(last));
        assert(upper_text(g) =~= upper_text(prev).push(upper(last)));
    }
}

/// A text that parses, written back from the halves it parses to, is the
/// text with its hex letters made upper case.
pub proof fn lemma_parse_text(s: Seq<u8>, top: u64, bot: u64)
    requires
        parse_result(s) == Ok::<(u64, u64), Seq<char>>((top, bot)),
    ensures
        uuid_text(top, bot) == upper_text(s),
{
    let g1 = group1(s);
    let g2 = group2(s);
    let g3 = group3(s);
    let g4 = group4(s);
    let g5 = group5(s);
    let tl = hex_number(g1);
    let tm = hex_number(g2);
    let th = hex_number(g3);
    let cs = hex_number(g4);
    let nd = hex_number(g5);
    lemma_hex_number_bound(g1);
    lemma_hex_number_bound(g2);
    lemma_hex_number_bound(g3);
    lemma_hex_number_bound(g4);
    lemma_hex_number_bound(g5);
    lemma_pow16_values();
    lemma_hex_number_text(g1);
    lemma_hex_number_text(g2);
    lemma_hex_number_text(g3);
    lemma_hex_number_text(g4);
    lemma_hex_number_text(g5);
    assert(top as nat == tl * 0x1_0000_0000 + tm * 0x1_0000 + th);
    assert(bot as nat == cs * 0x1_0000_0000_0000 + nd);
    // the fields come back out of the halves
    vstd::arithmetic::div_mod::lemma_fundamental_div_mod_converse(
        top as int,
        0x1_0000,
        (tl * 0x1_0000 + tm) as int,
        th as int,
    );
    vstd::arithmetic::div_mod::lemma_fundamental_div_mod_converse(
        (tl * 0x1_0000 + tm) as int,
        0x1_0000,
        tl as int,
        tm as int,
    );
    vstd::arithmetic::div_mod::lemma_fundamental_div_mod_converse(
        top as int,
        0x1_0000_0000,
        tl as int,
        (tm * 0x1_0000 + th) as int,
    );
    vstd::arithmetic::div_mod::lemma_fundamental_div_mod_converse(
        bot as int,
        0x1_0000_0000_0000,
        cs as int,
        nd as int,
    );
    let dash = seq![0x2Du8];
    assert(uuid_text(top, bot) == hex_text(tl, 8) + dash + hex_text(tm, 4) + dash + hex_text(th, 4)
        + dash + hex_text(cs, 4) + dash + hex_text(nd, 12));
    assert(s =~= g1 + dash + g2 + dash + g3 + dash + g4 + dash + g5);
    assert(upper_text(s) =~= upper_text(g1) + dash + upper_text(g2) + dash + upper_text(g3) + dash
        + upper_text(g4) + dash + upper_text(g5));
}

/// A uuid text in the shape `parse` accepts: 36 bytes, dashes at 8, 13, 18
/// and 23, and an ASCII hex digit of either case, `0-9`, `A-F` or `a-f`, at
/// every other place.
pub open spec fn uuid_shaped(s: Seq<u8>) -> bool {
    &&& s.len() == 36
    &&& forall|i: int|
        0 <= i < 36 ==> if i == 8 || i == 13 || i == 18 || i == 23 {
            #[trigger] s[i] == 0x2D
        } else {
            (0x30 <= s[i] <= 0x39) || (0x41 <= s[i] <= 0x46) || (0x61 <= s[i] <= 0x66)
        }
}

/// Making `a-f` upper case keeps a byte a hex digit or not, and keeps the
/// value of a hex digit.
proof fn lemma_upper_digits(g: Seq<u8>)
    ensures
        all_hex(upper_text(g)) == all_hex(g),
        all_hex(g) ==> hex_number(upper_text(g)) == hex_number(g),
    decreases g.len(),
{
    let u = upper_text(g);
    assert forall|i: int| 0 <= i < g.len() implies #[trigger] is_hex_char(u[i]) == is_hex_char(g[i]) by {}
    if all_hex(u) {
        assert forall|i: int| 0 <= i < g.len() implies #[trigger] is_hex_char(g[i]) by {
            assert(is_hex_char(u[i]));
        }
    }
    if all_hex(g) {
        assert forall|i: int| 0 <= i < u.len() implies #[trigger] is_hex_char(u[i]) by {
            assert(is_hex_char(g[i]));
        }
        if g.len() > 0 {
            let p = g.drop_last();
            assert(all_hex(p)) by {
                assert forall|i: int| 0 <= i < p.len() implies #[trigger] is_hex_char(p[i]) by {
                    assert(p[i] == g[i]);
                }
            }
            lemma_upper_digits(p);
            assert(u.drop_last() =~= upper_text(p));
            assert(is_hex_char(g.last()));
            assert(hex_digit_value(u.last()) == hex_digit_value(g.last()));
        }
    }
}

/// Letter case never changes what `parse` answers: a text and the text with
/// its letters `a-f` made upper case give the same halves, or the same
/// message.
pub proof fn lemma_parse_ignores_case(s: Seq<u8>)
    ensures
        parse_result(upper_text(s)) == parse_result(s),
        parse_defined(s) ==> parse_defined(upper_text(s)),
{
    let u = upper_text(s);
    assert(u.len() == s.len());
    if s.len() == 36 {
        assert(dashes_in_place(u) == dashes_in_place(s));
        assert(group1(u) =~= upper_text(group1(s)));
        assert(group2(u) =~= upper_text(group2(s)));
        assert(group3(u) =~= upper_text(group3(s)));
        assert(group4(u) =~= upper_text(group4(s)));
        assert(group5(u) =~= upper_text(group5(s)));
        lemma_upper_digits(group1(s));
        lemma_upper_digits(group2(s));
        lemma_upper_digits(group3(s));
        lemma_upper_digits(group4(s));
        lemma_upper_digits(group5(s));
        assert forall|g: Seq<u8>| #[trigger] gather_defined(g) implies gather_defined(upper_text(g)) by {
            let ug = upper_text(g);
            assert forall|i: int|
                0 <= i < ug.len() && (forall|j: int| 0 <= j < i ==> #[trigger] is_hex_char(ug[j]))
                    implies #[trigger] ug[i] < 0x80 by {
                assert forall|j: int| 0 <= j < i implies #[trigger] is_hex_char(g[j]) by {
                    assert(is_hex_char(ug[j]));
                }
                assert(g[i] < 0x80);
            }
        }
    }
}

/// A group is all hex digits just when each of its bytes in the text is.
proof fn lemma_group_hex(s: Seq<u8>, lo: int, hi: int)
    requires
        0 <= lo <= hi <= s.len(),
    ensures
        all_hex(s.subrange(lo, hi)) <==> forall|i: int| lo <= i < hi ==> #[trigger] is_hex_char(s[i]),
{
    let g = s.subrange(lo, hi);
    if all_hex(g) {
        assert forall|i: int| lo <= i < hi implies #[trigger] is_hex_char(s[i]) by {
            assert(g[i - lo] == s[i]);
        }
    }
    if forall|i: int| lo <= i < hi ==> #[trigger] is_hex_char(s[i]) {
        assert forall|i: int| 0 <= i < g.len() implies #[trigger] is_hex_char(g[i]) by {
            assert(g[i] == s[lo + i]);
        }
    }
}

/// A text of uuid shape is, group by group, what `parse` reads.
proof fn lemma_shaped_groups(s: Seq<u8>)
    requires
        s.len() == 36,
    ensures
        uuid_shaped(s) <==> {
            &&& dashes_in_place(s)
            &&& all_hex(group1(s))
            &&& all_hex(group2(s))
            &&& all_hex(group3(s))
            &&& all_hex(group4(s))
            &&& all_hex(group5(s))
        },
{
    lemma_group_hex(s, 0, 8);
    lemma_group_hex(s, 9, 13);
    lemma_group_hex(s, 14, 18);
    lemma_group_hex(s, 19, 23);
    lemma_group_hex(s, 24, 36);
    if uuid_shaped(s) {
        assert(s[8] == 0x2D);
        assert(s[13] == 0x2D);
        assert(s[18] == 0x2D);
        assert(s[23] == 0x2D);
        assert forall|i: int| 0 <= i < 36 && i != 8 && i != 13 && i != 18 && i != 23 implies is_hex_char(
            #[trigger] s[i],
        ) by {}
    }
    if dashes_in_place(s) && all_hex(group1(s)) && all_hex(group2(s)) && all_hex(group3(s)) && all_hex(
        group4(s),
    ) && all_hex(group5(s)) {
        assert forall|i: int| 0 <= i < 36 implies if i == 8 || i == 13 || i == 18 || i == 23 {
            #[trigger] s[i] == 0x2D
        } else {
            (0x30 <= s[i] <= 0x39) || (0x41 <= s[i] <= 0x46) || (0x61 <= s[i] <= 0x66)
        } by {
            if i != 8 && i != 13 && i != 18 && i != 23 {
                assert(is_hex_char(s[i]));
            }
        }
    }
}

/// `parse` accepts exactly the texts of uuid shape, whatever the case of
/// their letters: it can run on each of them, answers with the halves, and
/// those halves are the ones whose canonical text is the text in upper case.
pub proof fn lemma_parse_accepts(s: Seq<u8>)
    ensures
        parse_result(s) is Ok <==> uuid_shaped(s),
        uuid_shaped(s) ==> parse_defined(s),
        parse_result(s) matches Ok((top, bot)) ==> uuid_text(top, bot) == upper_text(s),
{
    if s.len() == 36 {
        lemma_shaped_groups(s);
        if uuid_shaped(s) {
            assert forall|g: Seq<u8>| all_hex(g) implies #[trigger] gather_defined(g) by {
                assert forall|i: int|
                    0 <= i < g.len() && (forall|j: int| 0 <= j < i ==> #[trigger] is_hex_char(g[j]))
                        implies #[trigger] g[i] < 0x80 by {
                    assert(is_hex_char(g[i]));
                }
            }
        }
    }
    if let Ok((top, bot)) = parse_result(s) {
        lemma_parse_text(s, top, bot);
    }
}

/// The group, counted from 1, that byte `p` of a uuid text belongs to.
pub open spec fn group_at(p: int) -> nat {
    if p < 8 {
        1
    } else if p < 13 {
        2
    } else if p < 18 {
        3
    } else if p < 23 {
        4
    } else {
        5
    }
}

/// The message of a fault in group `k` of a uuid text.
pub open spec fn group_fault(k: nat) -> Seq<char> {
    let which = if k == 1 {
        "first"@
    } else if k == 2 {
        "second"@
    } else if k == 3 {
        "third"@
    } else if k == 4 {
        "fourth"@
    } else {
        "fifth"@
    };
    "Bad uuid, "@ + which + " group contains non-hex characters. "@ + should_be()
}

/// The fault `parse` reports is the first one in the text: a wrong length,
/// else a missing dash, else the group of the first byte, outside the dashes,
/// that is not a hex digit.
pub proof fn lemma_parse_first_fault(s: Seq<u8>, p: int)
    requires
        s.len() == 36 && dashes_in_place(s) ==> {
            &&& 0 <= p < 36
            &&& p != 8 && p != 13 && p != 18 && p != 23
            &&& !is_hex_char(s[p])
            &&& forall|i: int|
                0 <= i < p && i != 8 && i != 13 && i != 18 && i != 23 ==> #[trigger] is_hex_char(s[i])
        },
    ensures
        s.len() < 36 ==> parse_result(s) == Err::<(u64, u64), Seq<char>>("Bad uuid, too short. "@ + should_be()),
        s.len() > 36 ==> parse_result(s) == Err::<(u64, u64), Seq<char>>("Bad uuid, too long. "@ + should_be()),
        s.len() == 36 && !dashes_in_place(s) ==> parse_result(s) == Err::<(u64, u64), Seq<char>>(
            "Bad uuid, groups aren't right. "@ + should_be(),
        ),
        s.len() == 36 && dashes_in_place(s) ==> parse_result(s) == Err::<(u64, u64), Seq<char>>(
            group_fault(group_at(p)),
        ),
{
    reveal_strlit("first");
    reveal_strlit("second");
    reveal_strlit("third");
    reveal_strlit("fourth");
    reveal_strlit("fifth");
    reveal_strlit("Bad uuid, ");
    reveal_strlit(" group contains non-hex characters. ");
    reveal_strlit("Bad uuid, first group contains non-hex characters. ");
    reveal_strlit("Bad uuid, second group contains non-hex characters. ");
    reveal_strlit("Bad uuid, third group contains non-hex characters. ");
    reveal_strlit("Bad uuid, fourth group contains non-hex characters. ");
    reveal_strlit("Bad uuid, fifth group contains non-hex characters. ");
    if s.len() == 36 && dashes_in_place(s) {
        lemma_group_hex(s, 0, 8);
        lemma_group_hex(s, 9, 13);
        lemma_group_hex(s, 14, 18);
        lemma_group_hex(s, 19, 23);
        lemma_group_hex(s, 24, 36);
        let k = group_at(p);
        let which = if k == 1 {
            "first"@
        } else if k == 2 {
            "second"@
        } else if k == 3 {
            "third"@
        } else if k == 4 {
            "fourth"@
        } else {
            "fifth"@
        };
        if k == 1 {
            assert("Bad uuid, "@ + which + " group contains non-hex characters. "@
                =~= "Bad uuid, first group contains non-hex characters. "@);
        } else if k == 2 {
            assert("Bad uuid, "@ + which + " group contains non-hex characters. "@
                =~= "Bad uuid, second group contains non-hex characters. "@);
        } else if k == 3 {
            assert("Bad uuid, "@ + which + " group contains non-hex characters. "@
                =~= "Bad uuid, third group contains non-hex characters. "@);
        } else if k == 4 {
            assert("Bad uuid, "@ + which + " group contains non-hex characters. "@
                =~= "Bad uuid, fourth group contains non-hex characters. "@);
        } else {
            assert("Bad uuid, "@ + which + " group contains non-hex characters. "@
                =~= "Bad uuid, fifth group contains non-hex characters. "@);
        }
    }
}

/// A uuid from its text, with no hash computed yet, or the message of
/// `parse`.
pub fn new_parsed(source: &[u8]) -> (r: Result<Guide, String>)
    requires
        parse_defined(source@),
    ensures
        match (r, parse_result(source@)) {
            (Ok(g), Ok(w)) => g.hash == 0 && g.top == w.0 && g.bot == w.1,
            (Err(e), Err(m)) => e@ == m,
            _ => false,
        },
{
    let (top, bot) = match parse(source) {
        Err(msg) => {
            return Err(msg);
        },
        Ok(x) => x,
    };
    Ok(Guide { hash: 0, top, bot })
}

}
