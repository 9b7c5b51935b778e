use vstd::prelude::*;

verus! {

/// An ASCII decimal digit.
pub open spec fn is_dec_digit(c: u8) -> bool {
    0x30 <= c && c <= 0x39
}

/// The number of decimal digits in `s` from position `i` on, up to the first
/// byte that is not one.
pub open spec fn digits_from(s: Seq<u8>, i: int) -> nat
    decreases s.len() - i,
{
    if i < 0 || i >= s.len() || !is_dec_digit(s[i]) {
        0
    } else {
        1 + digits_from(s, i + 1)
    }
}

/// The value of a string of decimal digits.
pub open spec fn dec_value(s: Seq<u8>) -> nat
    decreases s.len(),
{
    if s.len() == 0 {
        0
    } else {
        dec_value(s.drop_last()) * 10 + (s.last() - 0x30) as nat
    }
}

/// The value of the decimal number at the start of `s`.
pub open spec fn leading_dec_value(s: Seq<u8>) -> nat {
    dec_value(s.take(digits_from(s, 0) as int))
}

/// A longer run of digits never has a smaller value.
pub proof fn lemma_dec_value_mono(s: Seq<u8>, i: int, j: int)
    requires
        0 <= i <= j <= s.len(),
        forall|k: int| 0 <= k < j ==> is_dec_digit(#[trigger] s[k]),
    ensures
        dec_value(s.take(i)) <= dec_value(s.take(j)),
    decreases j - i,
{
    if i < j {
        lemma_dec_value_mono(s, i, j - 1);
        assert(s.take(j).drop_last() =~= s.take(j - 1));
        assert(is_dec_digit(s[j - 1]));
    }
}

/// The run that `digits_from` counts: all digits, inside `s`, and followed by
/// the end of `s` or a byte that is no digit.
pub proof fn lemma_digits_from(s: Seq<u8>, i: int)
    requires
        0 <= i <= s.len(),
    ensures
        i + digits_from(s, i) <= s.len(),
        forall|k: int| i <= k < i + digits_from(s, i) ==> is_dec_digit(#[trigger] s[k]),
        i + digits_from(s, i) < s.len() ==> !is_dec_digit(s[i + digits_from(s, i)]),
    decreases s.len() - i,
{
    if i < s.len() && is_dec_digit(s[i]) {
        lemma_digits_from(s, i + 1);
    }
}

/// Reads the decimal number at the start of `cmd_buffer` into `data` and
/// returns `true` (an error) when the buffer does not start with a digit.
pub fn parse_short(cmd_buffer: &[u8], data: &mut u16) -> (err: bool)
    requires
        leading_dec_value(cmd_buffer@) <= u16::MAX,
    ensures
        err == (digits_from(cmd_buffer@, 0) == 0),
        *final(data) == leading_dec_value(cmd_buffer@),
{
    let ghost s = cmd_buffer@;
    let ghost n = digits_from(s, 0) as int;
    proof {
        lemma_digits_from(s, 0);
    }
    *data = 0;
    let mut err = true;
    let mut i: usize = 0;
    while i < cmd_buffer.len()
        invariant_except_break
            s == cmd_buffer@,
            n == digits_from(s, 0),
            0 <= i <= n,
            n <= s.len(),
            n < s.len() ==> !is_dec_digit(s[n]),
            forall|k: int| 0 <= k < n ==> is_dec_digit(#[trigger] s[k]),
            dec_value(s.take(n)) <= u16::MAX,
            *data == dec_value(s.take(i as int)),
            err == (i == 0),
        ensures
            i == n,
            *data == dec_value(s.take(i as int)),
            err == (i == 0),
        decreases cmd_buffer.len() - i,
    {
        let b = cmd_buffer[i];
        let c = b.wrapping_sub(0x30);
        assert((((b as int - 0x30) % 256) as u8 <= 9) == is_dec_digit(b)) by (bit_vector);
        if c > 9 {
            break ;
        }
        proof {
            lemma_dec_value_mono(s, i + 1, n);
            assert(s.take(i + 1).drop_last() =~= s.take(i as int));
        }
        err = false;
        *data = *data * 10 + c as u16;
        i = i + 1;
    }
    err
}

/// An ASCII hex digit of either case.
pub open spec fn is_hex_digit(c: u8) -> bool {
    is_dec_digit(c) || (0x61 <= c && c <= 0x66) || (0x41 <= c && c <= 0x46)
}

/// The value of a hex digit.
pub open spec fn hex_nibble(c: u8) -> u8 {
    if is_dec_digit(c) {
        (c - 0x30) as u8
    } else if 0x61 <= c && c <= 0x66 {
        (c - 0x61 + 10) as u8
    } else {
        (c - 0x41 + 10) as u8
    }
}

/// Decodes one hex digit the way the firmware does: the digits by their
/// offset from '0', the letters by folding the case bit.
pub(crate) fn hex_digit(c: u8) -> (r: Option<u8>)
    ensures
        r == if is_hex_digit(c) {
            Some(hex_nibble(c))
        } else {
            None::<u8>
        },
{
    assert((((c as int - 0x30) % 256) < 10) == is_dec_digit(c)) by (bit_vector);
    assert(!is_dec_digit(c) ==> ((((c | 0x20) as int - 0x61) % 256 < 6) == (is_hex_digit(c)))
        && (is_hex_digit(c) ==> (((c | 0x20) as int - 0x61) % 256 + 10) == hex_nibble(c)))
        by (bit_vector);
    if c.wrapping_sub(0x30) < 10 {
        Some(c - 0x30)
    } else if (c | 0x20).wrapping_sub(0x61) < 6 {
        Some((c | 0x20) - 0x61 + 10)
    } else {
        None
    }
}

/// The number of hex digits in `s` from position `i` on.
pub open spec fn hex_run(s: Seq<u8>, i: int) -> nat
    decreases s.len() - i,
{
    if i < 0 || i >= s.len() || !is_hex_digit(s[i]) {
        0
    } else {
        1 + hex_run(s, i + 1)
    }
}

/// The run that `hex_run` counts: all hex digits, inside `s`, and followed by
/// the end of `s` or a byte that is no hex digit.
pub proof fn lemma_hex_run(s: Seq<u8>, i: int)
    requires
        0 <= i <= s.len(),
    ensures
        i + hex_run(s, i) <= s.len(),
        forall|k: int| i <= k < i + hex_run(s, i) ==> is_hex_digit(#[trigger] s[k]),
        i + hex_run(s, i) < s.len() ==> !is_hex_digit(s[i + hex_run(s, i)]),
    decreases s.len() - i,
{
    if i < s.len() && is_hex_digit(s[i]) {
        lemma_hex_run(s, i + 1);
    }
}

/// The byte made of the two hex digits `s[i]` and `s[i + 1]`.
pub open spec fn hex_pair(s: Seq<u8>, i: int) -> u8 {
    (hex_nibble(s[i]) * 16 + hex_nibble(s[i + 1])) as u8
}

/// The four output bytes after the first `h` digits starting at `idx` were
/// stored: whole pairs as bytes, a pending single digit as its value, and the
/// other bytes as they were.
pub open spec fn hex_stored(s: Seq<u8>, idx: int, h: int, old_bytes: Seq<u8>) -> Seq<u8> {
    Seq::new(
        4,
        |m: int|
            if m < h / 2 {
                hex_pair(s, idx + 2 * m)
            } else if m == h / 2 && h % 2 == 1 {
                hex_nibble(s[idx + 2 * m])
            } else {
                old_bytes[m]
            },
    )
}

/// The four bytes read as a big-endian word, shifted right by one nibble.
pub open spec fn shift_nibble_right(t: Seq<u8>) -> Seq<u8> {
    Seq::new(
        4,
        |m: int|
            if m == 0 {
                t[0] / 16
            } else {
                ((t[m - 1] % 16) * 16 + t[m] / 16) as u8
            },
    )
}

/// A byte that ends a hex number: a space or the end of the string.
pub open spec fn ends_hex_number(c: u8) -> bool {
    c == 0x20 || c == 0
}

/// The inputs on which `atoi_hex` reads and writes in bounds: the run of hex
/// digits fits the four output bytes, the byte after it is in the buffer,
/// and it is a space, a nul or a byte from '0' up.
pub open spec fn atoi_hex_ok(s: Seq<u8>, idx: int) -> bool {
    let n = hex_run(s, idx);
    &&& 0 <= idx
    &&& n <= 8
    &&& idx + n < s.len()
    &&& (ends_hex_number(s[idx + n]) || s[idx + n] >= 0x30)
}

/// The count of bytes that `atoi_hex` reports.
pub open spec fn atoi_hex_count(s: Seq<u8>, idx: int) -> int {
    let n = hex_run(s, idx) as int;
    if ends_hex_number(s[idx + n]) {
        (n + 1) / 2
    } else {
        0
    }
}

/// The four bytes that `atoi_hex` leaves behind: the digits packed two to a
/// byte from the first byte on; a number with an odd count of digits is then
/// shifted right by one nibble, so that its last digit ends a byte. When the
/// number ends in a byte that is no hex digit, the digits stored so far stay.
pub open spec fn atoi_hex_bytes(s: Seq<u8>, idx: int, old_bytes: Seq<u8>) -> Seq<u8> {
    let n = hex_run(s, idx) as int;
    let t = hex_stored(s, idx, n, old_bytes);
    if ends_hex_number(s[idx + n]) && n % 2 == 1 {
        shift_nibble_right(t.update(n / 2, (t[n / 2] * 16) as u8))
    } else {
        t
    }
}

/// Parses the hex number at `cmd_buffer[idx..]` into `hex_value`, two digits
/// to a byte, and returns the count of bytes it takes; 0 when the number is
/// followed by a byte that is neither a space nor the end of the string.
pub fn atoi_hex(idx: usize, cmd_buffer: &[u8], hex_value: &mut [u8; 4]) -> (r: usize)
    requires
        atoi_hex_ok(cmd_buffer@, idx as int),
    ensures
        r == atoi_hex_count(cmd_buffer@, idx as int),
        final(hex_value)@ == atoi_hex_bytes(cmd_buffer@, idx as int, old(hex_value)@),
{
    let ghost s = cmd_buffer@;
    let ghost idx0 = idx as int;
    let ghost n = hex_run(s, idx0) as int;
    let ghost old_bytes = hex_value@;
    let mut idx = idx;
    let mut h_idx: usize = 0;
    let mut val: u8 = 0;
    proof {
        lemma_hex_run(s, idx0);
    }
    assert(hex_value@ =~= hex_stored(s, idx0, 0, old_bytes));
    loop
        invariant_except_break
            s == cmd_buffer@,
            atoi_hex_ok(s, idx0),
            n == hex_run(s, idx0),
            forall|k: int| idx0 <= k < idx0 + n ==> is_hex_digit(#[trigger] s[k]),
            !is_hex_digit(s[idx0 + n]),
            0 <= h_idx <= n,
            idx == idx0 + h_idx,
            val == if h_idx % 2 == 1 {
                hex_nibble(s[idx0 + h_idx - 1])
            } else {
                0
            },
            hex_value@ == hex_stored(s, idx0, h_idx as int, old_bytes),
        ensures
            (h_idx == 0 && !ends_hex_number(s[idx0 + n]) && hex_value@ == hex_stored(
                s,
                idx0,
                n,
                old_bytes,
            )) || (h_idx == n && ends_hex_number(s[idx0 + n]) && hex_value@ == hex_stored(
                s,
                idx0,
                n,
                old_bytes,
            )),
        decreases n - h_idx,
    {
        let c = cmd_buffer[idx];
        if c == 0x20 || c == 0 {
            assert(!is_hex_digit(c));
            break ;
        }
        // swap the nibbles: a pending digit becomes the high one
        let ghost v0 = val;
        val = (val >> 4) | (val << 4);
        assert(v0 < 16 ==> ((v0 >> 4) | (v0 << 4)) as u8 == v0 * 16) by (bit_vector);
        assert(is_hex_digit(c) || c >= 0x30);
        match hex_digit(c) {
            Some(d) => {
                assert((v0 * 16) as u8 | d == v0 * 16 + d) by (bit_vector)
                    requires
                        v0 < 16,
                        d < 16,
                ;
                val |= d;
            },
            None => {
                assert(h_idx == n);
                h_idx = 0;
                break ;
            },
        }
        idx += 1;
        assert(h_idx >> 1 == h_idx / 2 && (h_idx & 1 == 1) == (h_idx % 2 == 1)) by (bit_vector);
        hex_value[h_idx >> 1] = val;
        if h_idx & 1 == 1 {
            val = 0;
        }
        h_idx += 1;
        assert(hex_value@ =~= hex_stored(s, idx0, h_idx as int, old_bytes));
    }
    assert(h_idx & 1 == 1 <==> h_idx % 2 == 1) by (bit_vector);
    assert(h_idx >> 1 == h_idx / 2) by (bit_vector);
    if h_idx & 1 == 1 {
        let ghost t = hex_value@;
        hex_value[h_idx >> 1] <<= 4;
        let ghost u = hex_value@;
        assert(u =~= t.update(n / 2, (t[n / 2] * 16) as u8)) by {
            let x = t[n / 2];
            assert(x < 16 ==> (x << 4) as u8 == (x * 16) as u8) by (bit_vector);
        }
        hex_value[3] = hex_value[3] >> 4 | (hex_value[2] << 4);
        hex_value[2] = hex_value[2] >> 4 | (hex_value[1] << 4);
        hex_value[1] = hex_value[1] >> 4 | (hex_value[0] << 4);
        hex_value[0] >>= 4;
        assert forall|a: u8, b: u8| (b >> 4 | (a << 4)) as u8 == ((a % 16) * 16 + b / 16) as u8
            by {
            assert((b >> 4 | (a << 4)) as u8 == ((a % 16) * 16 + b / 16) as u8) by (bit_vector);
        }
        assert forall|a: u8| (a >> 4) == a / 16 by {
            assert((a >> 4) == a / 16) by (bit_vector);
        }
        assert(hex_value@ =~= shift_nibble_right(u));
    }
    let h1 = h_idx + 1;
    assert(h1 >> 1 == h1 / 2) by (bit_vector);
    h1 >> 1
}

} // verus!
