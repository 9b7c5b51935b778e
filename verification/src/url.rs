use vstd::prelude::*;
use crate::parse::{hex_digit, hex_nibble, is_hex_digit};

verus! {

/// A byte that may follow a word of a request line: space, tab, '?', ':',
/// '=', line feed, carriage return or the end of the string.
pub open spec fn is_url_word_end(c: u8) -> bool {
    c == 0x20 || c == 0x09 || c == 0x3f || c == 0x3a || c == 0x3d || c == 0x0a || c == 0x0d
        || c == 0
}

/// Whether the nul-terminated word `b` is spelled at the start of `s`, each
/// byte either as itself or as '%' and two hex digits, and is followed by a
/// byte that ends a word. `None` where the comparison would run past the end
/// of `b` or of `s` before it is decided.
pub open spec fn url_word(b: Seq<u8>, s: Seq<u8>) -> Option<bool>
    decreases b.len(),
{
    if b.len() == 0 {
        None
    } else if b[0] == 0 {
        if s.len() == 0 {
            None
        } else {
            Some(is_url_word_end(s[0]))
        }
    } else if s.len() == 0 {
        None
    } else if s[0] == 0x25 {
        if s.len() < 2 {
            None
        } else if !is_hex_digit(s[1]) {
            Some(false)
        } else if s.len() < 3 {
            None
        } else if !is_hex_digit(s[2]) {
            Some(false)
        } else if hex_nibble(s[1]) * 16 + hex_nibble(s[2]) != b[0] {
            Some(false)
        } else {
            url_word(b.drop_first(), s.skip(3))
        }
    } else if s[0] != b[0] {
        Some(false)
    } else {
        url_word(b.drop_first(), s.drop_first())
    }
}

/// `s` holds a nul byte.
pub open spec fn has_nul(s: Seq<u8>) -> bool {
    exists|k: int| 0 <= k < s.len() && s[k] == 0
}

/// Between nul-terminated strings the comparison is always decided.
pub proof fn law_url_word_decided(b: Seq<u8>, s: Seq<u8>)
    requires
        has_nul(b),
        has_nul(s),
    ensures
        url_word(b, s) is Some,
    decreases b.len(),
{
    let kb = choose|k: int| 0 <= k < b.len() && b[k] == 0;
    let ks = choose|k: int| 0 <= k < s.len() && s[k] == 0;
    if b[0] != 0 {
        if s[0] == 0x25 {
            if is_hex_digit(s[1]) && is_hex_digit(s[2]) {
                assert(b.drop_first()[kb - 1] == 0);
                assert(s.skip(3)[ks - 3] == 0);
                law_url_word_decided(b.drop_first(), s.skip(3));
            }
        } else if s[0] == b[0] {
            assert(b.drop_first()[kb - 1] == 0);
            assert(s.drop_first()[ks - 1] == 0);
            law_url_word_decided(b.drop_first(), s.drop_first());
        }
    }
}

/// Whether the nul-terminated word in `buf` starts the request text `inp`,
/// where '%' escapes in `inp` stand for the bytes they encode, and the word is
/// followed in `inp` by a byte that ends a word.
pub fn is_url_word_x(buf: &[u8], inp: &[u8]) -> (r: bool)
    requires
        url_word(buf@, inp@) is Some,
    ensures
        r == url_word(buf@, inp@).unwrap(),
{
    let ghost res = url_word(buf@, inp@).unwrap();
    let mut i: usize = 0;
    let mut j: usize = 0;
    assert(buf@.skip(0) =~= buf@ && inp@.skip(0) =~= inp@);
    loop
        invariant_except_break
            i <= buf.len(),
            j <= inp.len(),
            url_word(buf@, inp@) == Some(res),
            url_word(buf@.skip(i as int), inp@.skip(j as int)) == Some(res),
        ensures
            i < buf.len(),
            j < inp.len(),
            buf[i as int] == 0,
            url_word(buf@.skip(i as int), inp@.skip(j as int)) == Some(res),
        decreases buf.len() - i,
    {
        let d = buf[i];
        if d == 0 {
            break ;
        }
        let mut c = inp[j];
        if c == 0x25 {
            let mut v: u8 = 0;
            j += 1;
            c = inp[j];
            if c == 0 {
                return false;
            }
            match hex_digit(c) {
                Some(x) => {
                    v = x;
                },
                None => {
                    return false;
                },
            }
            j += 1;
            c = inp[j];
            if c == 0 {
                return false;
            }
            let ghost hi = v;
            match hex_digit(c) {
                Some(x) => {
                    v = (v << 4) | x;
                    assert(((hi << 4) | x) as u8 == hi * 16 + x) by (bit_vector)
                        requires
                            hi < 16,
                            x < 16,
                    ;
                },
                None => {
                    return false;
                },
            }
            c = v;
            assert(inp@.skip(j - 2).skip(3) =~= inp@.skip(j + 1));
        } else {
            assert(inp@.skip(j as int).drop_first() =~= inp@.skip(j + 1));
        }
        if d != c {
            return false;
        }
        j += 1;
        i += 1;
        assert(buf@.skip(i - 1).drop_first() =~= buf@.skip(i as int));
    }
    let c = inp[j];
    c == 0x20 || c == 0x09 || c == 0x3f || c == 0x3a || c == 0x3d || c == 0x0a || c == 0x0d || c
        == 0
}

} // verus!
