use vstd::prelude::*;
use crate::bits::{gpio_bit_set, gpio_byte_index, gpio_spec, parse_i16_spec, port_spec};
use crate::html::{byte_html, dec_html, hex_char, nibbles, sfr_html, strip_zeros};
use crate::url::{has_nul, is_url_word_end, url_word};
use crate::cmd::{
    cmd_end, cstr, cstr_len, is_word_start, lemma_cstr_len, lemma_cmd_end_bounds, lemma_word_starts_below, word_is,
    word_starts,
};
use crate::parse::{
    atoi_hex_bytes, atoi_hex_count, atoi_hex_ok, dec_value, digits_from, hex_nibble, hex_pair,
    hex_run, hex_stored, is_hex_digit, leading_dec_value, shift_nibble_right, ends_hex_number,
    lemma_hex_run,
};

verus! {

/// The status bytes that carry port number `n`: its low two bits in the top
/// bits of the first byte, its high two bits in the low bits of the second,
/// every other bit set.
pub open spec fn port_status_bytes(n: u8) -> [u8; 2] {
    [(((n & 3) << 6) | 0x3f) as u8, (((n >> 2) & 3) | 0xfc) as u8]
}

/// `port` gives back every 4-bit port number from its status bytes.
pub proof fn law_port_decodes(n: u8)
    requires
        n < 16,
    ensures
        port_spec(port_status_bytes(n)) == n,
{
    let d = port_status_bytes(n);
    let d0 = (((n & 3) << 6) | 0x3f) as u8;
    let d1 = (((n >> 2) & 3) | 0xfc) as u8;
    assert(d[0] == d0 && d[1] == d1);
    assert(n < 16 ==> ((d1 % 4) * 4 + d0 / 64) as u8 == n) by (bit_vector)
        requires
            d0 == (((n & 3) << 6) | 0x3f) as u8,
            d1 == (((n >> 2) & 3) | 0xfc) as u8,
    ;
}

/// Every digit that `itohex` writes is a hex digit that the parsers read
/// back as the same nibble.
pub proof fn law_hex_digit_roundtrip(n: u8)
    requires
        n < 16,
    ensures
        is_hex_digit(hex_char(n)),
        hex_nibble(hex_char(n)) == n,
{
}

/// The text of `byte_to_html`, ended by a nul, is parsed by `atoi_hex` as one
/// byte holding the value written; the other bytes stay as they were.
pub proof fn law_byte_html_atoi_hex(b: u8, old_bytes: Seq<u8>)
    requires
        old_bytes.len() == 4,
    ensures
        atoi_hex_ok(byte_html(b).push(0), 0),
        atoi_hex_count(byte_html(b).push(0), 0) == 1,
        atoi_hex_bytes(byte_html(b).push(0), 0, old_bytes) == old_bytes.update(0, b),
{
    let s = byte_html(b).push(0);
    law_hex_digit_roundtrip(b / 16);
    law_hex_digit_roundtrip(b % 16);
    assert(s[0] == hex_char(b / 16) && s[1] == hex_char(b % 16) && s[2] == 0);
    assert(hex_run(s, 2) == 0);
    assert(hex_run(s, 1) == 1);
    assert(hex_run(s, 0) == 2);
    assert(atoi_hex_bytes(s, 0, old_bytes) =~= old_bytes.update(0, b));
}

/// The text of `itoa_html` is read back by `parse_short` as the same value,
/// without an error.
pub proof fn law_dec_html_parse_short(v: u8)
    ensures
        digits_from(dec_html(v), 0) == dec_html(v).len() > 0,
        leading_dec_value(dec_html(v)) == v,
{
    let s = dec_html(v);
    let e = Seq::<u8>::empty();
    assert(dec_value(e) == 0);
    assert(digits_from(s, s.len() as int) == 0);
    if s.len() == 3 {
        assert(digits_from(s, 2) == 1);
        assert(digits_from(s, 1) == 2);
        let s2 = s.drop_last();
        let s1 = s2.drop_last();
        assert(s1.drop_last() =~= e);
        assert(dec_value(s1) == v / 100);
        assert(dec_value(s2) == (v / 100) * 10 + (v / 10) % 10);
    } else if s.len() == 2 {
        assert(digits_from(s, 1) == 1);
        let s1 = s.drop_last();
        assert(s1.drop_last() =~= e);
        assert(dec_value(s1) == v / 10);
    } else {
        assert(s.drop_last() =~= e);
    }
    assert(s.take(s.len() as int) =~= s);
}

/// Reading a 16-bit word as signed undoes the cast of an `i16` to `u16`.
pub proof fn law_parse_i16_undoes_cast(x: i16)
    ensures
        parse_i16_spec(x as u16) == x,
{
    assert((if (x as u16) < 0x8000 {
        (x as u16) as int
    } else {
        (x as u16) - 0x10000
    }) == x as int) by (bit_vector);
}

/// Each byte of `w` written as '%' and its two lower-case hex digits, the
/// digits that `byte_to_html` writes.
pub open spec fn percent_encode(w: Seq<u8>) -> Seq<u8>
    decreases w.len(),
{
    if w.len() == 0 {
        Seq::empty()
    } else {
        seq![0x25u8] + byte_html(w[0]) + percent_encode(w.drop_first())
    }
}

/// A word spelled as itself, with no '%' in it, matches; the answer is then
/// whether the next byte ends a word.
pub proof fn law_url_word_literal(w: Seq<u8>, t: u8)
    requires
        forall|i: int| 0 <= i < w.len() ==> w[i] != 0 && w[i] != 0x25,
    ensures
        url_word(w.push(0), w.push(t)) == Some(is_url_word_end(t)),
        url_word(w.push(0), w.push(t)) == Some((t == 0x20 || t == 0x09 || t == 0x3f || t == 0x3a || t == 0x3d || t == 0x0a || t == 0x0d
            || t == 0)),
    decreases w.len(),
{
    if w.len() > 0 {
        assert(w.push(0).drop_first() =~= w.drop_first().push(0));
        assert(w.push(t).drop_first() =~= w.drop_first().push(t));
        law_url_word_literal(w.drop_first(), t);
    }
}

/// A word spelled entirely in '%' escapes matches; the answer is then
/// whether the next byte ends a word.
pub proof fn law_url_word_percent(w: Seq<u8>, t: u8)
    requires
        forall|i: int| 0 <= i < w.len() ==> w[i] != 0,
    ensures
        url_word(w.push(0), percent_encode(w).push(t)) == Some(is_url_word_end(t)),
        url_word(w.push(0), percent_encode(w).push(t)) == Some((t == 0x20 || t == 0x09 || t == 0x3f || t == 0x3a || t == 0x3d || t == 0x0a || t == 0x0d
            || t == 0)),
    decreases w.len(),
{
    if w.len() > 0 {
        let s = percent_encode(w).push(t);
        let b = w[0];
        law_hex_digit_roundtrip(b / 16);
        law_hex_digit_roundtrip(b % 16);
        assert(s[0] == 0x25 && s[1] == hex_char(b / 16) && s[2] == hex_char(b % 16));
        assert(w.push(0).drop_first() =~= w.drop_first().push(0));
        assert(s.skip(3) =~= percent_encode(w.drop_first()).push(t));
        law_url_word_percent(w.drop_first(), t);
    }
}

/// The length of the word at `p`: the bytes up to the next space or nul, or
/// up to the end of the line buffer.
pub open spec fn word_len(buf: Seq<u8>, p: int) -> int
    decreases 128 - p,
{
    if p < 0 || p >= 128 || buf[p] == 0 || buf[p] == 0x20 {
        0
    } else {
        1 + word_len(buf, p + 1)
    }
}

/// The bytes of the word at `p`.
pub open spec fn word_text(buf: Seq<u8>, p: int) -> Seq<u8> {
    buf.subrange(p, p + word_len(buf, p))
}

/// Within a line that ends at a nul at `l`, a word ends at a space or that
/// nul, and holds neither.
proof fn lemma_word_len(buf: Seq<u8>, p: int, l: int)
    requires
        0 <= p <= l < 128,
        buf.len() == 128,
        buf[l] == 0,
    ensures
        0 <= word_len(buf, p),
        p + word_len(buf, p) <= l,
        buf[p + word_len(buf, p)] == 0 || buf[p + word_len(buf, p)] == 0x20,
        forall|k: int| p <= k < p + word_len(buf, p) ==> buf[k] != 0 && buf[k] != 0x20,
    decreases l - p,
{
    if !(buf[p] == 0 || buf[p] == 0x20) {
        lemma_word_len(buf, p + 1, l);
    }
}

/// A string without a nul, ended by one, reads back as itself.
proof fn lemma_cstr_push_nul(x: Seq<u8>)
    requires
        forall|k: int| 0 <= k < x.len() ==> x[k] != 0,
    ensures
        cstr_len(x.push(0)) == x.len(),
        cstr(x.push(0)) == x,
    decreases x.len(),
{
    if x.len() > 0 {
        assert(x.push(0).drop_first() =~= x.drop_first().push(0));
        lemma_cstr_push_nul(x.drop_first());
    } else {
        assert(cstr_len(x.push(0)) == 0);
    }
    assert(x.push(0).take(x.len() as int) =~= x);
}

/// The word offsets are word starts, in increasing order.
proof fn lemma_word_starts_sorted(buf: Seq<u8>, l: int)
    requires
        0 <= l <= 128,
    ensures
        forall|i: int|
            0 <= i < word_starts(buf, l).len() ==> is_word_start(
                buf,
                #[trigger] word_starts(buf, l)[i] as int,
            ),
        forall|i: int, j: int|
            0 <= i < j < word_starts(buf, l).len() ==> word_starts(buf, l)[i] < word_starts(
                buf,
                l,
            )[j],
    decreases l,
{
    if l > 0 {
        lemma_word_starts_sorted(buf, l - 1);
        lemma_word_starts_below(buf, l - 1);
    }
}

/// After `cmd_tokenize` accepts a line, each offset it recorded is the start
/// of a word, the offsets increase, and `cmd_compare` on that offset finds
/// the word's own text (the text ended by a nul, as `cmd_compare` takes it).
pub proof fn law_tokenize_then_compare(buf: Seq<u8>, i: int)
    requires
        buf.len() == 128,
        word_starts(buf, cmd_end(buf, 0)).len() < 16,
        buf[cmd_end(buf, 0)] == 0,
        0 <= i < word_starts(buf, cmd_end(buf, 0)).len(),
    ensures
        ({
            let ws = word_starts(buf, cmd_end(buf, 0));
            &&& ws[i] < 128
            &&& is_word_start(buf, ws[i] as int)
            &&& i + 1 < ws.len() ==> ws[i] < ws[i + 1]
            &&& word_is(buf, ws[i] as int, cstr(word_text(buf, ws[i] as int).push(0)))
        }),
{
    let l = cmd_end(buf, 0);
    let ws = word_starts(buf, l);
    lemma_cmd_end_bounds(buf, 0);
    lemma_word_starts_below(buf, l);
    lemma_word_starts_sorted(buf, l);
    let p = ws[i] as int;
    assert(0 <= p < l);
    lemma_word_len(buf, p, l);
    let x = word_text(buf, p);
    assert forall|k: int| 0 <= k < x.len() implies x[k] != 0 by {
        assert(x[k] == buf[p + k]);
    }
    lemma_cstr_push_nul(x);
    assert(buf.subrange(p, p + x.len()) =~= x);
}

/// What stripping leaves: a tail of the sequence, after nothing but zeros,
/// that starts with a non-zero item.
proof fn lemma_strip_zeros_shape(s: Seq<u8>)
    ensures
        strip_zeros(s).len() <= s.len(),
        strip_zeros(s) == s.skip(s.len() - strip_zeros(s).len()),
        forall|i: int| 0 <= i < s.len() - strip_zeros(s).len() ==> s[i] == 0,
        strip_zeros(s).len() > 0 ==> strip_zeros(s)[0] != 0,
    decreases s.len(),
{
    if s.len() == 0 {
        assert(s.skip(0) =~= s);
    } else if s[0] == 0 {
        lemma_strip_zeros_shape(s.drop_first());
        let t = strip_zeros(s.drop_first());
        assert(s.drop_first().skip(s.drop_first().len() - t.len()) =~= s.skip(s.len() - t.len()));
        assert forall|i: int| 0 <= i < s.len() - t.len() implies s[i] == 0 by {
            if i > 0 {
                assert(s[i] == s.drop_first()[i - 1]);
            }
        }
    } else {
        assert(s.skip(0) =~= s);
    }
}

/// A run of hex digits that ends before a byte that is none.
proof fn lemma_hex_run_to(s: Seq<u8>, i: int, l: int)
    requires
        0 <= i <= l < s.len(),
        forall|k: int| i <= k < l ==> is_hex_digit(#[trigger] s[k]),
        !is_hex_digit(s[l]),
    ensures
        hex_run(s, i) == l - i,
    decreases l - i,
{
    if i < l {
        lemma_hex_run_to(s, i + 1, l);
    }
}

/// The digits of the hex text of a word: the nibbles after the leading
/// zeros, each a hex digit, followed by the nul.
proof fn lemma_sfr_text(d: [u8; 4])
    ensures
        ({
            let ns = nibbles(d);
            let l = strip_zeros(ns).len() as int;
            let s = sfr_html(d).push(0);
            &&& 0 <= l <= 8
            &&& forall|i: int| 0 <= i < 4 ==> d[i] == #[trigger] ns[2 * i] * 16 + ns[2 * i + 1]
            &&& forall|q: int| 0 <= q < 8 ==> #[trigger] ns[q] < 16
            &&& forall|i: int| 0 <= i < 8 - l ==> #[trigger] ns[i] == 0
            &&& l == 0 ==> s =~= seq![0x30u8, 0u8]
            &&& l > 0 ==> {
                &&& hex_run(s, 0) == l
                &&& s[l] == 0
                &&& forall|q: int|
                    0 <= q < l ==> #[trigger] hex_nibble(s[q]) == ns[8 - l + q]
            }
        }),
{
    let ns = nibbles(d);
    let t = strip_zeros(ns);
    let s = sfr_html(d).push(0);
    lemma_strip_zeros_shape(ns);
    let l = t.len() as int;
    let k = 8 - l;
    assert forall|i: int| 0 <= i < 4 implies d[i] == #[trigger] ns[2 * i] * 16 + ns[2 * i + 1] by {
        assert(ns[2 * i] == d[i] / 16);
        assert(ns[2 * i + 1] == d[i] % 16);
    }
    if l > 0 {
        assert(forall|q: int| 0 <= q < l ==> t[q] == ns[k + q]);
        assert forall|q: int| 0 <= q < l implies is_hex_digit(#[trigger] s[q]) && hex_nibble(s[q])
            == ns[k + q] by {
            assert(s[q] == hex_char(t[q]));
            law_hex_digit_roundtrip(t[q]);
        }
        assert(s[l] == 0);
        lemma_hex_run_to(s, 0, l);
    }
}

/// `law_sfr_html_atoi_hex` for a text with an even count of digits.
proof fn lemma_sfr_even(d: [u8; 4], old_bytes: Seq<u8>)
    requires
        old_bytes.len() == 4,
        strip_zeros(nibbles(d)).len() > 0,
        strip_zeros(nibbles(d)).len() % 2 == 0,
    ensures
        ({
            let s = sfr_html(d).push(0);
            let r = atoi_hex_count(s, 0);
            forall|m: int| 0 <= m < r ==> #[trigger] atoi_hex_bytes(s, 0, old_bytes)[m] == d[4
                - r + m]
        }),
{
    lemma_sfr_text(d);
    let ns = nibbles(d);
    let s = sfr_html(d).push(0);
    let l = strip_zeros(ns).len() as int;
    let k = 8 - l;
    let r = atoi_hex_count(s, 0);
    assert(r == l / 2);
    assert forall|m: int| 0 <= m < r implies #[trigger] atoi_hex_bytes(s, 0, old_bytes)[m] == d[4
        - r + m] by {
        assert(atoi_hex_bytes(s, 0, old_bytes)[m] == hex_pair(s, 2 * m));
        assert(hex_nibble(s[2 * m]) == ns[k + 2 * m]);
        assert(hex_nibble(s[2 * m + 1]) == ns[k + 2 * m + 1]);
        assert(k + 2 * m == 2 * (4 - r + m));
        assert(d[4 - r + m] == ns[2 * (4 - r + m)] * 16 + ns[2 * (4 - r + m) + 1]);
    }
}

/// `law_sfr_html_atoi_hex` for a text with an odd count of digits.
#[verifier::rlimit(30)]
proof fn lemma_sfr_odd(d: [u8; 4], old_bytes: Seq<u8>)
    requires
        old_bytes.len() == 4,
        strip_zeros(nibbles(d)).len() % 2 == 1,
    ensures
        ({
            let s = sfr_html(d).push(0);
            let r = atoi_hex_count(s, 0);
            forall|m: int| 0 <= m < r ==> #[trigger] atoi_hex_bytes(s, 0, old_bytes)[m] == d[4
                - r + m]
        }),
{
    lemma_sfr_text(d);
    let ns = nibbles(d);
    let s = sfr_html(d).push(0);
    let l = strip_zeros(ns).len() as int;
    let k = 8 - l;
    let r = atoi_hex_count(s, 0);
    let h = (k - 1) / 2;
    assert(r == (l + 1) / 2);
    assert(h == 4 - r);
    let st = hex_stored(s, 0, l, old_bytes);
    let u = st.update(l / 2, (st[l / 2] * 16) as u8);
    assert(atoi_hex_bytes(s, 0, old_bytes) == shift_nibble_right(u));
    assert(hex_nibble(s[l - 1]) == ns[7]);
    assert(u[l / 2] == ns[7] * 16);
    assert forall|j: int| 0 <= j <= l / 2 implies #[trigger] u[j] / 16 == ns[k + 2 * j] && u[j]
        % 16 == (if j < l / 2 {
        ns[k + 2 * j + 1]
    } else {
        0
    }) by {
        if j < l / 2 {
            assert(hex_nibble(s[2 * j]) == ns[k + 2 * j]);
            assert(hex_nibble(s[2 * j + 1]) == ns[k + 2 * j + 1]);
            assert(u[j] == ns[k + 2 * j] * 16 + ns[k + 2 * j + 1]);
        }
    }
    assert(ns[k - 1] == 0);
    assert forall|m: int| 0 <= m < r implies #[trigger] atoi_hex_bytes(s, 0, old_bytes)[m] == d[4
        - r + m] by {
        let out = shift_nibble_right(u);
        if m == 0 {
            assert(out[0] == u[0] / 16);
            assert(d[h] == ns[2 * h] * 16 + ns[2 * h + 1]);
            assert(2 * h + 1 == k);
        } else {
            assert(out[m] == ((u[m - 1] % 16) * 16 + u[m] / 16) as u8);
            assert(u[m - 1] / 16 == ns[k + 2 * (m - 1)]);
            assert(u[m] / 16 == ns[k + 2 * m]);
            assert(k + 2 * (m - 1) + 1 == 2 * (h + m));
            assert(d[h + m] == ns[2 * (h + m)] * 16 + ns[2 * (h + m) + 1]);
        }
    }
}

/// The text of `sfr_data_to_html`, ended by a nul, is parsed back by
/// `atoi_hex` into the word's last bytes: it reports as many bytes as the
/// text needs, the bytes of the word before those are zero, and the bytes it
/// stores are the word's last ones in order.
pub proof fn law_sfr_html_atoi_hex(d: [u8; 4], old_bytes: Seq<u8>)
    requires
        old_bytes.len() == 4,
    ensures
        ({
            let s = sfr_html(d).push(0);
            let r = atoi_hex_count(s, 0);
            &&& atoi_hex_ok(s, 0)
            &&& 1 <= r <= 4
            &&& forall|i: int| 0 <= i < 4 - r ==> d[i] == 0
            &&& forall|m: int| 0 <= m < r ==> #[trigger] atoi_hex_bytes(s, 0, old_bytes)[m] == d[4
                - r + m]
        }),
{
    lemma_sfr_text(d);
    let ns = nibbles(d);
    let s = sfr_html(d).push(0);
    let l = strip_zeros(ns).len() as int;
    let r = atoi_hex_count(s, 0);
    if l == 0 {
        assert(s[0] == 0x30 && s[1] == 0);
        lemma_hex_run_to(s, 0, 1);
        assert(r == 1);
        let st = hex_stored(s, 0, 1, old_bytes);
        assert(st[0] == 0);
        let u = st.update(0, 0u8);
        assert(atoi_hex_bytes(s, 0, old_bytes) == shift_nibble_right(u));
        assert(shift_nibble_right(u)[0] == 0);
        assert(d[3] == ns[6] * 16 + ns[7]);
        assert forall|i: int| 0 <= i < 4 - r implies d[i] == 0 by {
            assert(d[i] == ns[2 * i] * 16 + ns[2 * i + 1]);
        }
    } else {
        assert(r == (l + 1) / 2);
        assert forall|i: int| 0 <= i < 4 - r implies d[i] == 0 by {
            assert(d[i] == ns[2 * i] * 16 + ns[2 * i + 1]);
            assert(2 * i + 1 < 8 - l);
        }
        if l % 2 == 0 {
            lemma_sfr_even(d, old_bytes);
        } else {
            lemma_sfr_odd(d, old_bytes);
        }
    }
}

/// The value of a sequence of nibbles, most significant first.
pub open spec fn nibble_value(ns: Seq<u8>) -> nat
    decreases ns.len(),
{
    if ns.len() == 0 {
        0
    } else {
        nibble_value(ns.drop_last()) * 16 + ns.last() as nat
    }
}

/// The lower-case hex text of a number, without leading zeros; "0" for zero.
pub open spec fn hex_text(v: nat) -> Seq<u8>
    decreases v,
{
    if v < 16 {
        seq![hex_char(v as u8)]
    } else {
        hex_text(v / 16).push(hex_char((v % 16) as u8))
    }
}

/// The value of a four-byte word read big-endian.
pub open spec fn be_value(d: [u8; 4]) -> nat {
    (d[0] * 0x1000000 + d[1] * 0x10000 + d[2] * 0x100 + d[3]) as nat
}

/// One more nibble at the end multiplies the value by sixteen and adds it.
proof fn lemma_nibble_value_take(s: Seq<u8>, k: int)
    requires
        0 <= k < s.len(),
    ensures
        nibble_value(s.take(k + 1)) == nibble_value(s.take(k)) * 16 + s[k],
{
    assert(s.take(k + 1).drop_last() =~= s.take(k));
}

/// A leading zero nibble adds nothing to the value.
proof fn lemma_nibble_value_drop_zero(s: Seq<u8>)
    requires
        s.len() > 0,
        s[0] == 0,
    ensures
        nibble_value(s) == nibble_value(s.drop_first()),
    decreases s.len(),
{
    if s.len() == 1 {
        assert(s.drop_last() =~= Seq::<u8>::empty());
        assert(s.drop_first() =~= Seq::<u8>::empty());
    } else {
        lemma_nibble_value_drop_zero(s.drop_last());
        assert(s.drop_last().drop_first() =~= s.drop_first().drop_last());
    }
}

/// Stripping leading zeros keeps the value.
proof fn lemma_nibble_value_strip(s: Seq<u8>)
    ensures
        nibble_value(strip_zeros(s)) == nibble_value(s),
    decreases s.len(),
{
    if s.len() > 0 && s[0] == 0 {
        lemma_nibble_value_drop_zero(s);
        lemma_nibble_value_strip(s.drop_first());
    }
}

/// Nibbles that start with a non-zero one are the hex text of their value.
proof fn lemma_hex_text_of_nibbles(s: Seq<u8>)
    requires
        s.len() > 0,
        s[0] != 0,
        forall|i: int| 0 <= i < s.len() ==> s[i] < 16,
    ensures
        nibble_value(s) >= 1,
        hex_text(nibble_value(s)) == s.map_values(|n: u8| hex_char(n)),
    decreases s.len(),
{
    if s.len() == 1 {
        assert(s.drop_last() =~= Seq::<u8>::empty());
        assert(nibble_value(s.drop_last()) == 0);
        assert(nibble_value(s) == s[0]);
        assert(hex_text(nibble_value(s)) == seq![hex_char(s[0])]);
        assert(s.map_values(|n: u8| hex_char(n)) =~= seq![hex_char(s[0])]);
    } else {
        let p = s.drop_last();
        lemma_hex_text_of_nibbles(p);
        let v = nibble_value(s);
        assert(v == nibble_value(p) * 16 + s.last());
        assert(v / 16 == nibble_value(p) && v % 16 == s.last()) by (nonlinear_arith)
            requires
                v == nibble_value(p) * 16 + s.last(),
                s.last() < 16,
        ;
        assert(v >= 16);
        assert(((v % 16) as u8) == s.last());
        assert(hex_text(v) == hex_text(v / 16).push(hex_char((v % 16) as u8)));
        assert(s.map_values(|n: u8| hex_char(n)) =~= p.map_values(|n: u8| hex_char(n)).push(
            hex_char(s.last()),
        ));
    }
}

/// `sfr_data_to_html` writes the lower-case hex text of the word's value,
/// read big-endian, without leading zeros; "0" for zero.
pub proof fn law_sfr_html_is_hex_text(d: [u8; 4])
    ensures
        sfr_html(d) == hex_text(be_value(d)),
{
    let ns = nibbles(d);
    assert forall|i: int| 0 <= i < 4 implies d[i] == #[trigger] ns[2 * i] * 16 + ns[2 * i + 1] by {
        assert(ns[2 * i] == d[i] / 16);
        assert(ns[2 * i + 1] == d[i] % 16);
    }
    assert(ns.take(0) =~= Seq::<u8>::empty());
    lemma_nibble_value_take(ns, 0);
    lemma_nibble_value_take(ns, 1);
    lemma_nibble_value_take(ns, 2);
    lemma_nibble_value_take(ns, 3);
    lemma_nibble_value_take(ns, 4);
    lemma_nibble_value_take(ns, 5);
    lemma_nibble_value_take(ns, 6);
    lemma_nibble_value_take(ns, 7);
    assert(ns.take(8) =~= ns);
    assert(d[0] == ns[0] * 16 + ns[1]);
    assert(d[1] == ns[2] * 16 + ns[3]);
    assert(d[2] == ns[4] * 16 + ns[5]);
    assert(d[3] == ns[6] * 16 + ns[7]);
    assert(nibble_value(ns) == be_value(d));
    lemma_nibble_value_strip(ns);
    lemma_strip_zeros_shape(ns);
    let t = strip_zeros(ns);
    if t.len() == 0 {
        assert(nibble_value(t) == 0);
    } else {
        assert forall|i: int| 0 <= i < t.len() implies t[i] < 16 by {
            assert(t[i] == ns[8 - t.len() + i]);
        }
        lemma_hex_text_of_nibbles(t);
    }
}

/// The value of the `n` hex digits at `s[i..]`.
pub open spec fn hex_digits_value(s: Seq<u8>, i: int, n: int) -> nat
    decreases n,
{
    if n <= 0 {
        0
    } else {
        hex_digits_value(s, i, n - 1) * 16 + hex_nibble(s[i + n - 1]) as nat
    }
}

/// The last `r` bytes of the number `v`, most significant first.
pub open spec fn be_bytes(v: nat, r: nat) -> Seq<u8>
    decreases r,
{
    if r == 0 {
        Seq::empty()
    } else {
        be_bytes(v / 256, (r - 1) as nat).push((v % 256) as u8)
    }
}

/// The bytes of `n` hex digits at `s[idx..]`, right-aligned: for an odd
/// count the first byte holds the first digit alone.
pub open spec fn hex_digit_bytes(s: Seq<u8>, idx: int, n: int) -> Seq<u8> {
    Seq::new(
        ((n + 1) / 2) as nat,
        |m: int|
            if n % 2 == 1 && m == 0 {
                hex_nibble(s[idx])
            } else {
                hex_pair(s, idx + 2 * m - n % 2)
            },
    )
}

/// The right-aligned bytes of a run of hex digits are the big-endian bytes of
/// its value.
proof fn lemma_hex_digit_bytes_value(s: Seq<u8>, idx: int, n: int)
    requires
        0 <= idx,
        0 <= n,
        idx + n <= s.len(),
        forall|k: int| idx <= k < idx + n ==> is_hex_digit(#[trigger] s[k]),
    ensures
        hex_digit_bytes(s, idx, n) == be_bytes(hex_digits_value(s, idx, n), ((n + 1) / 2) as nat),
    decreases n,
{
    if n == 0 {
        assert(hex_digit_bytes(s, idx, 0) =~= Seq::<u8>::empty());
    } else if n == 1 {
        let v = hex_digits_value(s, idx, 1);
        assert(hex_digits_value(s, idx, 0) == 0);
        assert(v == hex_nibble(s[idx]));
        assert(v < 16);
        assert(v / 256 == 0 && v % 256 == v);
        assert(be_bytes(0, 0) =~= Seq::<u8>::empty());
        assert(hex_digit_bytes(s, idx, 1) =~= be_bytes(v, 1));
    } else {
        lemma_hex_digit_bytes_value(s, idx, n - 2);
        let a = hex_digits_value(s, idx, n - 2);
        let hi = hex_nibble(s[idx + n - 2]);
        let lo = hex_nibble(s[idx + n - 1]);
        assert(hi < 16 && lo < 16);
        let p = hi * 16 + lo;
        let v = hex_digits_value(s, idx, n);
        assert(hex_digits_value(s, idx, n - 1) == a * 16 + hi);
        assert(v == hex_digits_value(s, idx, n - 1) * 16 + lo);
        assert(v == (a * 16 + hi) * 16 + lo);
        assert(v == a * 256 + p);
        assert(v / 256 == a && v % 256 == p) by (nonlinear_arith)
            requires
                v == a * 256 + p,
                0 <= p < 256,
                a >= 0,
        ;
        let r = ((n + 1) / 2) as nat;
        assert(be_bytes(v, r) == be_bytes(a, (r - 1) as nat).push(p as u8));
        assert(hex_pair(s, idx + n - 2) == p as u8);
        assert(hex_digit_bytes(s, idx, n) =~= hex_digit_bytes(s, idx, n - 2).push(p as u8));
    }
}

/// The stored bytes of `atoi_hex` for a number ended by a space or a nul
/// are the right-aligned bytes of its digits.
proof fn lemma_atoi_hex_digit_bytes(s: Seq<u8>, idx: int, old_bytes: Seq<u8>)
    requires
        atoi_hex_ok(s, idx),
        ends_hex_number(s[idx + hex_run(s, idx)]),
        old_bytes.len() == 4,
    ensures
        ({
            let n = hex_run(s, idx) as int;
            let r = atoi_hex_count(s, idx);
            &&& r == (n + 1) / 2
            &&& atoi_hex_bytes(s, idx, old_bytes).take(r) == hex_digit_bytes(s, idx, n)
            &&& n % 2 == 0 ==> atoi_hex_bytes(s, idx, old_bytes).skip(r) == old_bytes.skip(r)
        }),
{
    let n = hex_run(s, idx) as int;
    let r = atoi_hex_count(s, idx);
    lemma_hex_run(s, idx);
    let out = atoi_hex_bytes(s, idx, old_bytes);
    let st = hex_stored(s, idx, n, old_bytes);
    assert forall|k: int| idx <= k < idx + n implies hex_nibble(#[trigger] s[k]) < 16 by {
        assert(is_hex_digit(s[k]));
    }
    if n % 2 == 0 {
        assert(out.take(r) =~= hex_digit_bytes(s, idx, n));
        assert(out.skip(r) =~= old_bytes.skip(r));
    } else {
        let u = st.update(n / 2, (st[n / 2] * 16) as u8);
        assert(out == shift_nibble_right(u));
        assert forall|j: int| 0 <= j <= n / 2 implies #[trigger] u[j] / 16 == hex_nibble(
            s[idx + 2 * j],
        ) && u[j] % 16 == (if j < n / 2 {
            hex_nibble(s[idx + 2 * j + 1])
        } else {
            0
        }) by {
            let x = hex_nibble(s[idx + 2 * j]);
            assert(x < 16);
            if j < n / 2 {
                let y = hex_nibble(s[idx + 2 * j + 1]);
                assert(y < 16);
                assert(u[j] == x * 16 + y);
            } else {
                assert(u[j] == x * 16);
            }
        }
        assert forall|m: int| 0 <= m < r implies #[trigger] out[m] == hex_digit_bytes(
            s,
            idx,
            n,
        )[m] by {
            if m == 0 {
                assert(out[0] == u[0] / 16);
            } else {
                assert(out[m] == ((u[m - 1] % 16) * 16 + u[m] / 16) as u8);
                assert(u[m - 1] % 16 == hex_nibble(s[idx + 2 * m - 1]));
            }
        }
        assert(out.take(r) =~= hex_digit_bytes(s, idx, n));
    }
}

/// A hex number ended by a space or a nul is parsed by `atoi_hex` into the
/// big-endian bytes of its value, as many as its digits need; with an even
/// count of digits the bytes after those stay as they were.
pub proof fn law_atoi_hex_value(s: Seq<u8>, idx: int, old_bytes: Seq<u8>)
    requires
        atoi_hex_ok(s, idx),
        ends_hex_number(s[idx + hex_run(s, idx)]),
        old_bytes.len() == 4,
    ensures
        ({
            let n = hex_run(s, idx) as int;
            let r = atoi_hex_count(s, idx);
            &&& r == (n + 1) / 2
            &&& atoi_hex_bytes(s, idx, old_bytes).take(r) == be_bytes(
                hex_digits_value(s, idx, n),
                r as nat,
            )
            &&& n % 2 == 0 ==> atoi_hex_bytes(s, idx, old_bytes).skip(r) == old_bytes.skip(r)
        }),
{
    lemma_hex_run(s, idx);
    lemma_atoi_hex_digit_bytes(s, idx, old_bytes);
    lemma_hex_digit_bytes_value(s, idx, hex_run(s, idx) as int);
}

/// `t` spells the word `w` byte by byte, each byte either as itself (other
/// than '%') or as '%' and two hex digits of either case that encode it.
pub open spec fn url_encodes(w: Seq<u8>, t: Seq<u8>) -> bool
    decreases w.len(),
{
    if w.len() == 0 {
        t.len() == 0
    } else if t.len() >= 1 && t[0] != 0x25 && t[0] == w[0] {
        url_encodes(w.drop_first(), t.drop_first())
    } else {
        &&& t.len() >= 3
        &&& t[0] == 0x25
        &&& is_hex_digit(t[1])
        &&& is_hex_digit(t[2])
        &&& hex_nibble(t[1]) * 16 + hex_nibble(t[2]) == w[0]
        &&& url_encodes(w.drop_first(), t.skip(3))
    }
}

/// The first `j` bytes of `s` spell `w` and the byte after them ends a word:
/// a space, tab, '?', ':', '=', line feed, carriage return or nul.
pub open spec fn url_word_at(w: Seq<u8>, s: Seq<u8>, j: int) -> bool {
    &&& 0 <= j < s.len()
    &&& url_encodes(w, s.take(j))
    &&& (s[j] == 0x20 || s[j] == 0x09 || s[j] == 0x3f || s[j] == 0x3a || s[j] == 0x3d || s[j]
        == 0x0a || s[j] == 0x0d || s[j] == 0)
}

/// For nul-terminated strings, `is_url_word_x` answers whether some prefix
/// of the request text spells the word and is followed by a byte that ends
/// a word.
pub proof fn law_url_word_spelled(b: Seq<u8>, s: Seq<u8>)
    requires
        has_nul(b),
        has_nul(s),
    ensures
        url_word(b, s) == Some(exists|j: int| #[trigger] url_word_at(cstr(b), s, j)),
    decreases b.len(),
{
    let w = cstr(b);
    let kb = choose|k: int| 0 <= k < b.len() && b[k] == 0;
    let ks = choose|k: int| 0 <= k < s.len() && s[k] == 0;
    if b[0] == 0 {
        assert(w =~= Seq::<u8>::empty());
        if is_url_word_end(s[0]) {
            assert(s.take(0) =~= Seq::<u8>::empty());
            assert(url_word_at(w, s, 0));
        }
        assert forall|j: int| #[trigger] url_word_at(w, s, j) implies j == 0 by {
            assert(s.take(j).len() == 0);
        }
    } else {
        let b1 = b.drop_first();
        assert(b1[kb - 1] == 0);
        let w1 = cstr(b1);
        assert(cstr_len(b) == 1 + cstr_len(b1));
        lemma_cstr_len(b);
        lemma_cstr_len(b1);
        assert(w.len() >= 1 && w[0] == b[0]);
        assert(w.drop_first() =~= w1);
        assert(s[0] != 0 ==> ks >= 1);
        if s[0] == 0x25 {
            if is_hex_digit(s[1]) && is_hex_digit(s[2]) && hex_nibble(s[1]) * 16 + hex_nibble(s[2])
                == b[0] {
                let s3 = s.skip(3);
                assert(s3[ks - 3] == 0);
                law_url_word_spelled(b1, s3);
                if exists|j: int| #[trigger] url_word_at(w1, s3, j) {
                    let j = choose|j: int| #[trigger] url_word_at(w1, s3, j);
                    assert(s.take(j + 3).skip(3) =~= s3.take(j));
                    assert(url_word_at(w, s, j + 3));
                }
                assert forall|j: int| #[trigger] url_word_at(w, s, j) implies url_word_at(
                    w1,
                    s3,
                    j - 3,
                ) by {
                    assert(s.take(j).skip(3) =~= s3.take(j - 3));
                }
            } else {
                assert forall|j: int| !#[trigger] url_word_at(w, s, j) by {
                    if 0 <= j < s.len() && s.take(j).len() >= 3 {
                        assert(s.take(j)[1] == s[1] && s.take(j)[2] == s[2]);
                    }
                }
            }
        } else if s[0] != b[0] {
            assert forall|j: int| !#[trigger] url_word_at(w, s, j) by {}
        } else {
            let s1 = s.drop_first();
            assert(s1[ks - 1] == 0);
            law_url_word_spelled(b1, s1);
            if exists|j: int| #[trigger] url_word_at(w1, s1, j) {
                let j = choose|j: int| #[trigger] url_word_at(w1, s1, j);
                assert(s.take(j + 1).drop_first() =~= s1.take(j));
                assert(url_word_at(w, s, j + 1));
            }
            assert forall|j: int| #[trigger] url_word_at(w, s, j) implies url_word_at(
                w1,
                s1,
                j - 1,
            ) by {
                assert(s.take(j).drop_first() =~= s1.take(j - 1));
            }
        }
    }
}

/// For the 64 pins of the register word, `gpio_pin_test` reports pin `pin`
/// set (0x80) exactly when bit `pin` of the word is set.
pub proof fn law_gpio_pin_is_bit(pin: u8, regdata: u64)
    requires
        pin < 64,
    ensures
        gpio_spec(pin, regdata) == if (regdata >> pin) & 1 == 1 {
            0x80u8
        } else {
            0u8
        },
{
    let k = gpio_byte_index(pin);
    assert(k == pin / 8);
    let sh: u64 = (8 * k) as u64;
    let b: u8 = pin % 8;
    assert(sh == 8 * ((pin / 8) as u64));
    let byte = ((regdata >> sh) & 0xff) as u8;
    assert(gpio_bit_set(pin, regdata) == (byte & ((1u8 << b) as u8) != 0));
    assert(((((regdata >> sh) & 0xff) as u8) & ((1u8 << b) as u8) != 0) == ((regdata >> pin) & 1
        == 1)) by (bit_vector)
        requires
            pin < 64,
            sh == 8 * ((pin / 8) as u64),
            b == pin % 8,
    ;
}

/// The hex digits are exactly '0'..'9', 'a'..'f' and 'A'..'F', with their
/// usual values.
pub proof fn law_hex_digit_bytes(c: u8)
    ensures
        is_hex_digit(c) == ((0x30 <= c && c <= 0x39) || (0x61 <= c && c <= 0x66) || (0x41 <= c
            && c <= 0x46)),
        0x30 <= c <= 0x39 ==> hex_nibble(c) == c - 0x30,
        0x61 <= c <= 0x66 ==> hex_nibble(c) == c - 0x61 + 10,
        0x41 <= c <= 0x46 ==> hex_nibble(c) == c - 0x41 + 10,
{
}

/// `atoi_hex` reports bytes only for a number ended by a space or a nul: a
/// non-zero count means the byte after the run of hex digits is 0x20 or 0,
/// and every run of digits that is so ended, and not empty, gives a non-zero
/// count. The run is exactly the bytes '0'..'9', 'a'..'f', 'A'..'F' from
/// `idx` on.
pub proof fn law_atoi_hex_count_needs_end(s: Seq<u8>, idx: int)
    requires
        atoi_hex_ok(s, idx),
    ensures
        ({
            let n = hex_run(s, idx) as int;
            let c = s[idx + n];
            &&& atoi_hex_count(s, idx) != 0 ==> (c == 0x20 || c == 0)
            &&& (c == 0x20 || c == 0) ==> atoi_hex_count(s, idx) == (n + 1) / 2
            &&& !(c == 0x20 || c == 0) ==> atoi_hex_count(s, idx) == 0
            &&& forall|k: int|
                idx <= k < idx + n ==> (0x30 <= #[trigger] s[k] <= 0x39) || (0x61 <= s[k] <= 0x66)
                    || (0x41 <= s[k] <= 0x46)
            &&& !((0x30 <= c <= 0x39) || (0x61 <= c <= 0x66) || (0x41 <= c <= 0x46))
        }),
{
    lemma_hex_run(s, idx);
}

/// The digits that `parse_short` reads are exactly the bytes '0'..'9' at the
/// start of the buffer, and a number followed by any other byte has the
/// value of its digits alone.
pub proof fn law_parse_short_digits(d: Seq<u8>, x: u8, rest: Seq<u8>)
    requires
        forall|k: int| 0 <= k < d.len() ==> 0x30 <= #[trigger] d[k] <= 0x39,
        !(0x30 <= x <= 0x39),
    ensures
        digits_from(d.push(x) + rest, 0) == d.len(),
        leading_dec_value(d.push(x) + rest) == dec_value(d),
        (digits_from(d.push(x) + rest, 0) == 0) == (d.len() == 0),
{
    let s = d.push(x) + rest;
    lemma_digits_from_to(s, 0, d.len() as int);
    assert(s.take(d.len() as int) =~= d);
}

/// A run of decimal digits that ends before a byte that is none.
proof fn lemma_digits_from_to(s: Seq<u8>, i: int, l: int)
    requires
        0 <= i <= l < s.len(),
        forall|k: int| i <= k < l ==> 0x30 <= #[trigger] s[k] <= 0x39,
        !(0x30 <= s[l] <= 0x39),
    ensures
        digits_from(s, i) == l - i,
    decreases l - i,
{
    if i < l {
        lemma_digits_from_to(s, i + 1, l);
    }
}

/// The value of a decimal text: each digit after the first multiplies what
/// came before by ten.
pub proof fn law_dec_value_digits(a: u8, b: u8, c: u8)
    requires
        0x30 <= a <= 0x39,
        0x30 <= b <= 0x39,
        0x30 <= c <= 0x39,
    ensures
        dec_value(seq![a]) == a - 0x30,
        dec_value(seq![a, b]) == (a - 0x30) * 10 + (b - 0x30),
        dec_value(seq![a, b, c]) == (a - 0x30) * 100 + (b - 0x30) * 10 + (c - 0x30),
{
    let e = Seq::<u8>::empty();
    assert(dec_value(e) == 0);
    assert(seq![a].drop_last() =~= e);
    assert(seq![a, b].drop_last() =~= seq![a]);
    assert(seq![a, b, c].drop_last() =~= seq![a, b]);
    assert(dec_value(seq![a]) == a - 0x30);
    assert(dec_value(seq![a, b]) == (a - 0x30) * 10 + (b - 0x30));
    assert(dec_value(seq![a, b, c]) == dec_value(seq![a, b]) * 10 + (c - 0x30));
}

/// `itoa_html` writes one digit below 10, two below 100 and three above; its
/// bytes are decimal digits; the first is '0' only for the value 0; and the
/// digits spell the value.
pub proof fn law_dec_html_shape(v: u8)
    ensures
        ({
            let t = dec_html(v);
            &&& t.len() == if v < 10 {
                1int
            } else if v < 100 {
                2int
            } else {
                3int
            }
            &&& forall|k: int| 0 <= k < t.len() ==> 0x30 <= #[trigger] t[k] <= 0x39
            &&& t[0] == 0x30 ==> v == 0
            &&& t.len() == 1 ==> v == t[0] - 0x30
            &&& t.len() == 2 ==> v == (t[0] - 0x30) * 10 + (t[1] - 0x30)
            &&& t.len() == 3 ==> v == (t[0] - 0x30) * 100 + (t[1] - 0x30) * 10 + (t[2] - 0x30)
        }),
{
}

/// The word that `cmd_compare` accepts at offset `p` is exactly the word of
/// the line there: the text must be followed by a nul or a space, and for a
/// text without spaces `word_is` holds exactly when the line's word at `p`,
/// the bytes up to the next space or nul, is that text.
pub proof fn law_word_is_exact(buf: Seq<u8>, p: int, t: Seq<u8>)
    requires
        buf.len() == 128,
        0 <= p < 128,
        forall|k: int| 0 <= k < t.len() ==> #[trigger] t[k] != 0x20 && t[k] != 0,
    ensures
        word_is(buf, p, t) ==> (buf[p + t.len()] == 0 || buf[p + t.len()] == 0x20),
        word_is(buf, p, t) ==> forall|k: int| 0 <= k < t.len() ==> buf[p + k] == #[trigger] t[k],
        word_is(buf, p, t) <==> (p + word_len(buf, p) < 128 && word_text(buf, p) == t),
{
    lemma_word_len_any(buf, p);
    let wl = word_len(buf, p);
    if word_is(buf, p, t) {
        assert forall|k: int| 0 <= k < t.len() implies buf[p + k] == #[trigger] t[k] by {
            assert(buf.subrange(p, p + t.len())[k] == buf[p + k]);
        }
        // the word runs exactly as far as the text
        if wl < t.len() {
            assert(buf[p + wl] == t[wl]);
        } else if wl > t.len() {
            assert(p + t.len() < p + wl);
        }
        assert(wl == t.len());
        assert(word_text(buf, p) =~= t);
    }
    if p + wl < 128 && word_text(buf, p) == t {
        assert(buf.subrange(p, p + t.len()) =~= t);
    }
}

/// The word at `p` runs over bytes that are neither a space nor a nul, and
/// ends at one of them or at the end of the line buffer.
proof fn lemma_word_len_any(buf: Seq<u8>, p: int)
    requires
        buf.len() == 128,
        0 <= p <= 128,
    ensures
        0 <= word_len(buf, p),
        p + word_len(buf, p) <= 128,
        p + word_len(buf, p) < 128 ==> (buf[p + word_len(buf, p)] == 0 || buf[p + word_len(
            buf,
            p,
        )] == 0x20),
        forall|k: int| p <= k < p + word_len(buf, p) ==> buf[k] != 0 && buf[k] != 0x20,
    decreases 128 - p,
{
    if p < 128 && !(buf[p] == 0 || buf[p] == 0x20) {
        lemma_word_len_any(buf, p + 1);
    }
}

} // verus!