use vstd::prelude::*;

verus! {

/// The port number held in two status bytes: the top two bits of the first
/// byte are its low bits, the low two bits of the second byte its high bits.
pub open spec fn port_spec(data: [u8; 2]) -> u8 {
    ((data[1] % 4) * 4 + data[0] / 64) as u8
}

/// Decodes a 4-bit port number from two status bytes.
pub fn port(data: [u8; 2]) -> (r: u8)
    ensures
        r == port_spec(data),
        r < 16,
{
    let d0 = data[0];
    let d1 = data[1];
    let mut p: u8 = d0 & 0xc0;
    p |= d1 & 0x03;
    p = (p << 2) | (p >> 6);
    assert(((((d0 & 0xc0) | (d1 & 0x03)) << 2) | (((d0 & 0xc0) | (d1 & 0x03)) >> 6)) as u8
        == ((d1 % 4) * 4 + d0 / 64) as u8) by (bit_vector);
    p
}

/// Whether `l` is an ASCII letter, upper or lower case.
pub open spec fn is_ascii_letter(l: u8) -> bool {
    (0x61 <= l && l <= 0x7a) || (0x41 <= l && l <= 0x5a)
}

/// Tests for an ASCII letter by folding the case bit.
pub fn isletter(l: u8) -> (r: bool)
    ensures
        r == is_ascii_letter(l),
{
    let mut x = l | 0x20;
    x = x.wrapping_sub(0x61);
    assert((((l | 0x20) as int - 0x61) % 256 <= 25) == is_ascii_letter(l)) by (bit_vector);
    x <= 25
}

/// The two's-complement reading of a 16-bit word.
pub open spec fn parse_i16_spec(v: u16) -> int {
    if v < 0x8000 {
        v as int
    } else {
        v - 0x10000
    }
}

/// Reinterprets the bits of `val_inp` as a signed 16-bit integer.
pub fn parse_i16(val_inp: u16) -> (r: i16)
    ensures
        r == parse_i16_spec(val_inp),
{
    let r = val_inp as i16;
    assert((val_inp as i16) as int == if val_inp < 0x8000 {
        val_inp as int
    } else {
        val_inp - 0x10000
    }) by (bit_vector);
    r
}

/// The index of the little-endian byte of the register word that holds `pin`:
/// pins above 31 live in the upper four bytes, and within each half the byte
/// is chosen by bits 3 and 4 of the pin number.
pub open spec fn gpio_byte_index(pin: u8) -> int {
    (if pin > 31 { 4int } else { 0int }) + (pin / 8) % 4
}

/// Whether the bit of `pin` is set: bit `pin % 8` of the selected byte of
/// `regdata`.
pub open spec fn gpio_bit_set(pin: u8, regdata: u64) -> bool {
    let byte = ((regdata >> ((8 * gpio_byte_index(pin)) as u64)) & 0xff) as u8;
    byte & ((1u8 << (pin % 8)) as u8) != 0
}

/// The value read for `pin`: 0x80 when its bit is set, else 0.
pub open spec fn gpio_spec(pin: u8, regdata: u64) -> u8 {
    if gpio_bit_set(pin, regdata) {
        0x80
    } else {
        0
    }
}

/// Reads the state of a GPIO pin from a 64-bit register image: 0x80 when
/// the pin is set, 0 when it is clear.
pub fn gpio_pin_test(pin: u8, regdata: u64) -> (r: u8)
    ensures
        r == gpio_spec(pin, regdata),
        r == 0 || r == 0x80,
{
    let reg: usize = if pin > 31 { 4 } else { 0 };
    let idx: usize = ((pin >> 3) & 3) as usize;
    assert((pin >> 3) & 3 == (pin / 8) % 4) by (bit_vector);
    assert(pin & 7 == pin % 8 && pin & 7 < 8) by (bit_vector);
    let bit: u8 = 1u8 << (pin & 7);
    let k = reg + idx;
    let byte: u8 = #[verifier::truncate] (((regdata >> (8 * k as u64)) & 0xff) as u8);
    if byte & bit != 0 {
        0x80
    } else {
        0
    }
}

} // verus!
