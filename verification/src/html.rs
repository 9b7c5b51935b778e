use vstd::prelude::*;

verus! {

/// The lower-case ASCII hex digit of a nibble.
pub open spec fn hex_char(n: u8) -> u8
    recommends
        n < 16,
{
    if n < 10 {
        (0x30 + n) as u8
    } else {
        (0x61 + n - 10) as u8
    }
}

/// Renders the low nibble of `val` as a lower-case hex digit.
pub fn itohex(val: u8) -> (r: u8)
    ensures
        r == hex_char(val % 16),
{
    let mut v = val & 0x0f;
    v = v.wrapping_sub(10);
    // a digit of ten or more leaves no borrow: move it to the letters
    if v < 0x80 {
        v = v.wrapping_add(0x61 - 0x30 - 10);
    }
    v = v.wrapping_add(0x30 + 10);
    assert({
        let a = ((val & 0x0f) as int - 10) % 256;
        let b = if a < 0x80 { (a + 39) % 256 } else { a };
        ((b + 58) % 256) as u8 == if val % 16 < 10 {
            (0x30 + val % 16) as u8
        } else {
            (0x61 + val % 16 - 10) as u8
        }
    }) by (bit_vector);
    v
}

/// The two hex digits of a byte, high nibble first.
pub open spec fn byte_html(b: u8) -> Seq<u8> {
    seq![hex_char(b / 16), hex_char(b % 16)]
}

/// Appends the two lower-case hex digits of `val` to `out`.
pub fn byte_to_html(val: u8, out: &mut Vec<u8>)
    ensures
        final(out)@ == old(out)@ + byte_html(val),
{
    let mut v = val;
    let mut again: u8 = 2;
    loop
        invariant_except_break
            again == 1 || again == 2,
            again == 2 ==> v == val && out@ == old(out)@,
            again == 1 ==> v == ((val << 4) | (val >> 4)) as u8 && out@ == old(out)@
                + seq![hex_char(val / 16)],
        ensures
            out@ == old(out)@ + byte_html(val),
        decreases again,
    {
        let ghost prev = v;
        v = (v << 4) | (v >> 4);
        assert((((prev << 4) | (prev >> 4)) as u8) % 16 == prev / 16) by (bit_vector);
        assert(prev == val ==> (((val << 4) | (val >> 4)) as u8) == v) by (bit_vector)
            requires
                v == ((prev << 4) | (prev >> 4)) as u8,
        ;
        assert(prev == ((val << 4) | (val >> 4)) as u8 ==> v == val && val % 16 == v % 16)
            by (bit_vector)
            requires
                v == ((prev << 4) | (prev >> 4)) as u8,
        ;
        let d = itohex(v);
        out.push(d);
        again -= 1;
        if again == 0 {
            break ;
        }
    }
}

/// The eight nibbles of a big-endian 32-bit word, most significant first.
pub open spec fn nibbles(d: [u8; 4]) -> Seq<u8> {
    Seq::new(8, |i: int| if i % 2 == 0 { d[i / 2] / 16 } else { d[i / 2] % 16 })
}

/// `s` without its leading zeros.
pub open spec fn strip_zeros(s: Seq<u8>) -> Seq<u8>
    decreases s.len(),
{
    if s.len() == 0 {
        s
    } else if s[0] == 0 {
        strip_zeros(s.drop_first())
    } else {
        s
    }
}

/// The hex text of a big-endian 32-bit word without leading zeros; "0" for zero.
pub open spec fn sfr_html(d: [u8; 4]) -> Seq<u8> {
    let t = strip_zeros(nibbles(d));
    if t.len() == 0 {
        seq![0x30u8]
    } else {
        t.map_values(|n: u8| hex_char(n))
    }
}

/// Stripping zeros from a sequence extended by one item.
pub proof fn lemma_strip_zeros_push(s: Seq<u8>, x: u8)
    ensures
        strip_zeros(s.push(x)) == if strip_zeros(s).len() == 0 && x == 0 {
            Seq::<u8>::empty()
        } else {
            strip_zeros(s).push(x)
        },
        strip_zeros(s).len() == 0 <==> (forall|i: int| 0 <= i < s.len() ==> s[i] == 0),
    decreases s.len(),
{
    if s.len() == 0 {
        assert(s.push(x).drop_first() =~= s);
    } else {
        lemma_strip_zeros_push(s.drop_first(), x);
        assert(s.push(x).drop_first() =~= s.drop_first().push(x));
        if s[0] == 0 {
            assert forall|i: int| 0 <= i < s.len() && (forall|j: int| 0 <= j < s.drop_first().len() ==> s.drop_first()[j] == 0) implies s[i] == 0 by {
                if i > 0 {
                    assert(s[i] == s.drop_first()[i - 1]);
                }
            }
        }
    }
}

/// Appends the hex text of the big-endian word `sfr_data` to `out`, without
/// leading zeros; a zero word is written as "0".
pub fn sfr_data_to_html(sfr_data: [u8; 4], out: &mut Vec<u8>)
    ensures
        final(out)@ == old(out)@ + sfr_html(sfr_data),
{
    let mut print_zeros: u8 = 0;
    let mut val: u8 = 0;
    let ghost ns = nibbles(sfr_data);
    for nibble in 0usize..8
        invariant
            ns == nibbles(sfr_data),
            print_zeros < 16,
            (print_zeros == 0) == (strip_zeros(ns.take(nibble as int)).len() == 0),
            out@ == old(out)@ + strip_zeros(ns.take(nibble as int)).map_values(
                |n: u8| hex_char(n),
            ),
            nibble % 2 == 1 ==> val == ((sfr_data[(nibble / 2) as int] << 4) | (
            sfr_data[(nibble / 2) as int] >> 4)) as u8,
    {
        assert(nibble & 1 == nibble % 2 && nibble >> 1 == nibble / 2) by (bit_vector);
        if (nibble & 1) == 0 {
            val = sfr_data[nibble >> 1];
        }
        let ghost byte = sfr_data[(nibble / 2) as int];
        let ghost b = val;
        // swap the nibbles: the one to print is always the low one
        val = (val << 4) | (val >> 4);
        assert((((byte << 4) | (byte >> 4)) as u8) % 16 == byte / 16) by (bit_vector);
        assert(((((byte << 4) | (byte >> 4)) as u8) << 4 | ((((byte << 4) | (byte >> 4)) as u8)
            >> 4)) as u8 == byte) by (bit_vector);
        let ghost n = ns[nibble as int];
        assert(val % 16 == n);
        let ghost pz = print_zeros;
        print_zeros |= val;
        print_zeros &= 0x0f;
        assert(((pz | val) & 0x0f) < 16 && ((((pz | val) & 0x0f) == 0) == (pz == 0 && val % 16
            == 0))) by (bit_vector)
            requires
                pz < 16,
        ;
        proof {
            lemma_strip_zeros_push(ns.take(nibble as int), n);
            assert(ns.take(nibble + 1) =~= ns.take(nibble as int).push(n));
        }
        if print_zeros != 0 {
            let d = itohex(val);
            out.push(d);
        }
        assert(out@ == old(out)@ + strip_zeros(ns.take(nibble + 1)).map_values(
            |n: u8| hex_char(n),
        ));
    }
    assert(ns.take(8) =~= ns);
    if print_zeros == 0 {
        out.push(0x30);
    }
    assert(out@ =~= old(out)@ + sfr_html(sfr_data));
}

/// The decimal digits of a byte without leading zeros.
pub open spec fn dec_html(v: u8) -> Seq<u8> {
    if v >= 100 {
        seq![(0x30 + v / 100) as u8, (0x30 + (v / 10) % 10) as u8, (0x30 + v % 10) as u8]
    } else if v >= 10 {
        seq![(0x30 + v / 10) as u8, (0x30 + v % 10) as u8]
    } else {
        seq![(0x30 + v) as u8]
    }
}

/// Appends the decimal text of `v` to `out`, without leading zeros.
pub fn itoa_html(v: u8, out: &mut Vec<u8>)
    ensures
        final(out)@ == old(out)@ + dec_html(v),
{
    let mut t: u8 = v / 100;
    let mut print_zero: u8 = t;
    if print_zero > 0 {
        out.push(t.wrapping_add(0x30));
    }
    t = (v / 10) % 10;
    let ghost pz = print_zero;
    print_zero |= t;
    assert((pz | t) > 0 <==> (pz > 0 || t > 0)) by (bit_vector);
    if print_zero > 0 {
        out.push(t.wrapping_add(0x30));
    }
    t = v % 10;
    out.push(t.wrapping_add(0x30));
    assert(out@ =~= old(out)@ + dec_html(v));
}

} // verus!
