use vstd::prelude::*;
use crate::cmd::{cstr, cstr_len, lemma_cstr_len};
use crate::url::has_nul;

verus! {

/// A window on the flash memory: its bytes and the address of the next
/// word to read.
pub struct Flash<'data> {
    buf: &'data [u8],
    addr: usize,
}

impl<'data> Flash<'data> {
    #[verifier::type_invariant]
    spec fn inv(&self) -> bool {
        self.buf@.len() <= usize::MAX
    }

    /// The bytes of the flash memory.
    pub closed spec fn spec_buf(&self) -> Seq<u8> {
        self.buf@
    }

    /// The address of the next word to read.
    pub closed spec fn spec_addr(&self) -> int {
        self.addr as int
    }

    /// A window on `buf` that reads from `addr` on.
    pub fn new(buf: &'data [u8], addr: usize) -> (r: Self)
        ensures
            r.spec_buf() == buf@,
            r.spec_addr() == addr,
    {
        // a slice always fits the address space
        let _size = buf.len();
        Flash { buf, addr }
    }

    /// Moves the read address.
    #[allow(dead_code)]
    fn set_addr(&mut self, addr: u32)
        ensures
            final(self).spec_buf() == old(self).spec_buf(),
            final(self).spec_addr() == addr,
    {
        proof {
            use_type_invariant(&*self);
        }
        self.addr = addr as usize;
    }

    /// Starts the read of the word at the read address; the whole word must
    /// lie in the flash memory.
    fn exec_go(&mut self)
        requires
            old(self).spec_addr() + 4 <= old(self).spec_buf().len(),
        ensures
            *final(self) == *old(self),
            old(self).spec_buf().len() <= usize::MAX,
    {
        proof {
            use_type_invariant(&*self);
        }
    }

    /// Byte 0 of the word at the read address.
    fn sfr_flash_data0(&self) -> (r: u8)
        requires
            self.spec_addr() < self.spec_buf().len(),
        ensures
            r == self.spec_buf()[self.spec_addr()],
    {
        self.buf[self.addr]
    }

    /// Byte 1 of the word at the read address.
    fn sfr_flash_data8(&self) -> (r: u8)
        requires
            self.spec_addr() + 1 < self.spec_buf().len(),
        ensures
            r == self.spec_buf()[self.spec_addr() + 1],
    {
        proof {
            use_type_invariant(self);
        }
        self.buf[self.addr + 1]
    }

    /// Byte 2 of the word at the read address.
    fn sfr_flash_data16(&self) -> (r: u8)
        requires
            self.spec_addr() + 2 < self.spec_buf().len(),
        ensures
            r == self.spec_buf()[self.spec_addr() + 2],
    {
        proof {
            use_type_invariant(self);
        }
        self.buf[self.addr + 2]
    }

    /// Byte 3 of the word at the read address.
    fn sfr_flash_data24(&self) -> (r: u8)
        requires
            self.spec_addr() + 3 < self.spec_buf().len(),
        ensures
            r == self.spec_buf()[self.spec_addr() + 3],
    {
        proof {
            use_type_invariant(self);
        }
        self.buf[self.addr + 3]
    }

    /// Advances the read address by `arg` bytes.
    fn inc_addr(&mut self, arg: u32)
        requires
            old(self).spec_addr() + arg <= usize::MAX,
        ensures
            final(self).spec_buf() == old(self).spec_buf(),
            final(self).spec_addr() == old(self).spec_addr() + arg,
    {
        proof {
            use_type_invariant(&*self);
        }
        self.addr += arg as usize;
    }
}

/// Byte `q` of what the search reads from flash starting at `a0`, with `len`
/// counting down by four per word: the first byte of a word always comes
/// from flash, byte `i` of word `t` only while `len - 4 * t >= i`, else 0.
pub open spec fn flash_byte(buf: Seq<u8>, a0: int, len: int, q: int) -> u8 {
    if q % 4 == 0 || len - 4 * (q / 4) >= q % 4 {
        buf[a0 + q]
    } else {
        0
    }
}

/// The count of words the search reads at most for a given `len`.
pub open spec fn block_count(len: int) -> int
    decreases len,
{
    if len <= 4 {
        1
    } else {
        1 + block_count(len - 4)
    }
}

/// Everything the search may read: `block_count(len)` words of four bytes.
pub open spec fn mark_stream(buf: Seq<u8>, a0: int, len: int) -> Seq<u8> {
    Seq::new((4 * block_count(len)) as nat, |q: int| flash_byte(buf, a0, len, q))
}

/// `m` occurs in `s` at `st`.
pub open spec fn matches_at(s: Seq<u8>, m: Seq<u8>, st: int) -> bool {
    0 <= st && st + m.len() <= s.len() && s.subrange(st, st + m.len()) == m
}

/// The first position from `st` on where `m` occurs in `s`; -1 if none does.
#[verifier::opaque]
pub open spec fn first_match_from(s: Seq<u8>, m: Seq<u8>, st: int) -> int
    decreases s.len() + 1 - st,
{
    if st < 0 || st + m.len() > s.len() {
        -1
    } else if matches_at(s, m, st) {
        st
    } else {
        first_match_from(s, m, st + 1)
    }
}

/// The attempt to match `m` at `st` never fails at a byte that lies in a
/// later 16-byte block of the stream than `st`: the search's ring buffer of
/// sixteen bytes could not step back across that boundary.
pub open spec fn rewind_ok(s: Seq<u8>, m: Seq<u8>, st: int) -> bool {
    forall|j: int|
        1 <= j < m.len() && st + j < s.len() && (forall|i: int|
            0 <= i < j ==> s[st + i] == #[trigger] m[i]) && s[st + j] != #[trigger] m[j] ==> (st
            + j) % 16 >= j
}

/// No attempt that starts before `lim` steps back across a 16-byte block.
#[verifier::opaque]
pub open spec fn rewinds_ok(s: Seq<u8>, m: Seq<u8>, lim: int) -> bool {
    forall|st: int| 0 <= st < lim ==> #[trigger] rewind_ok(s, m, st)
}

/// Where the search stops trying: at the first match, else at the end.
pub open spec fn search_limit(s: Seq<u8>, m: Seq<u8>) -> int {
    let f = first_match_from(s, m, 0);
    if f >= 0 {
        f
    } else {
        s.len() as int
    }
}

/// The words the search reads: up to the one in which the first match of
/// `m` ends, or all of them when there is none.
pub open spec fn blocks_read(buf: Seq<u8>, a0: int, len: int, m: Seq<u8>) -> int {
    let f = first_match_from(mark_stream(buf, a0, len), m, 0);
    if f >= 0 {
        let e = f + m.len();
        if e == 0 {
            1
        } else {
            (e - 1) / 4 + 1
        }
    } else {
        block_count(len)
    }
}

/// The value the search returns: four times the number of the word in which
/// the first match ends, plus the offset of the match's end within its word
/// (so a match that ends at the end of a word gives that word's start);
/// 0xffff when there is no match.
pub open spec fn find_mark_result(buf: Seq<u8>, a0: int, len: int, m: Seq<u8>) -> int {
    let f = first_match_from(mark_stream(buf, a0, len), m, 0);
    if f >= 0 {
        let e = f + m.len();
        let c = if e == 0 {
            0
        } else {
            (e - 1) / 4
        };
        4 * c + e % 4
    } else {
        0xffff
    }
}

/// The inputs on which the search runs without a fault: every word it reads
/// lies in flash, no failed attempt steps back across a 16-byte block, and
/// the position count stays within 16 bits when nothing is found.
pub open spec fn find_mark_ok(buf: Seq<u8>, a0: int, len: int, m: Seq<u8>) -> bool {
    let s = mark_stream(buf, a0, len);
    let f = first_match_from(s, m, 0);
    &&& a0 + 4 * blocks_read(buf, a0, len, m) <= buf.len()
    &&& rewinds_ok(s, m, search_limit(s, m))
    &&& f < 0 ==> 4 * block_count(len) <= 0xffff
}

/// The count of words in closed form.
pub proof fn lemma_block_count(len: int)
    requires
        0 <= len,
    ensures
        block_count(len) == if len <= 4 {
            1
        } else {
            (len + 3) / 4
        },
    decreases len,
{
    if len > 4 {
        lemma_block_count(len - 4);
    }
}

/// Where no match starts before `st`, the first match from 0 is the first
/// from `st`, and it is -1 or at least `st`.
pub proof fn lemma_first_match_skip(s: Seq<u8>, m: Seq<u8>, st: int)
    requires
        0 <= st,
        forall|x: int| 0 <= x < st ==> !matches_at(s, m, x),
    ensures
        first_match_from(s, m, 0) == first_match_from(s, m, st) || (first_match_from(s, m, 0)
            == -1 && st + m.len() > s.len()),
        first_match_from(s, m, st) == -1 || first_match_from(s, m, st) >= st,
    decreases st,
{
    reveal(first_match_from);
    lemma_first_match_from_bounds(s, m, st);
    if st > 0 {
        lemma_first_match_skip(s, m, st - 1);
    }
}

/// The first match from `st` is -1 or a match at or after `st`.
pub proof fn lemma_first_match_from_bounds(s: Seq<u8>, m: Seq<u8>, st: int)
    ensures
        first_match_from(s, m, st) == -1 || (first_match_from(s, m, st) >= st && matches_at(
            s,
            m,
            first_match_from(s, m, st),
        )),
    decreases s.len() + 1 - st,
{
    reveal(first_match_from);
    if !(st < 0 || st + m.len() > s.len()) && !matches_at(s, m, st) {
        lemma_first_match_from_bounds(s, m, st + 1);
    }
}

/// The ring of sixteen bytes holds the last sixteen bytes of the stream.
pub open spec fn ring_holds(ring: Seq<u8>, s: Seq<u8>, w: int) -> bool {
    forall|q: int| w - 16 <= q < w && 0 <= q ==> #[trigger] ring[q % 16] == s[q]
}

/// Writing the next word into the ring keeps it holding the last sixteen
/// bytes.
pub proof fn lemma_ring_write(old_ring: Seq<u8>, ring: Seq<u8>, s: Seq<u8>, w: int)
    requires
        0 <= w,
        w % 4 == 0,
        w + 4 <= s.len(),
        old_ring.len() == 16,
        ring.len() == 16,
        ring_holds(old_ring, s, w),
        forall|x: int| 0 <= x < 16 && (x < w % 16 || x >= w % 16 + 4) ==> ring[x] == old_ring[x],
        ring[w % 16] == s[w],
        ring[w % 16 + 1] == s[w + 1],
        ring[w % 16 + 2] == s[w + 2],
        ring[w % 16 + 3] == s[w + 3],
    ensures
        ring_holds(ring, s, w + 4),
{
    assert forall|q: int| w + 4 - 16 <= q < w + 4 && 0 <= q implies #[trigger] ring[q % 16]
        == s[q] by {
        if q >= w {
            assert(q % 16 == w % 16 + (q - w));
        } else {
            assert(old_ring[q % 16] == s[q]);
            assert(q % 16 < w % 16 || q % 16 >= w % 16 + 4);
        }
    }
}

/// A failed attempt at `st` may step back: the failing byte lies in the
/// 16-byte block of `st`.
pub proof fn lemma_rewind(s: Seq<u8>, m: Seq<u8>, st: int, j: int)
    requires
        rewinds_ok(s, m, search_limit(s, m)),
        0 <= st,
        0 <= j < m.len(),
        st + j < s.len(),
        forall|i: int| 0 <= i < j ==> s[st + i] == #[trigger] m[i],
        s[st + j] != m[j],
        forall|x: int| 0 <= x < st ==> !#[trigger] matches_at(s, m, x),
    ensures
        (st + j) % 16 >= j,
        !matches_at(s, m, st),
{
    lemma_first_match_skip(s, m, st);
    lemma_first_match_from_bounds(s, m, st);
    if matches_at(s, m, st) {
        assert(s.subrange(st, st + m.len())[j] == s[st + j]);
    }
    if j >= 1 {
        reveal(rewinds_ok);
        assert(st < search_limit(s, m));
        assert(rewind_ok(s, m, st));
    }
}

/// Stepping back in the ring: the position of a byte `j` back, where that
/// does not cross the ring's start.
pub proof fn lemma_ring_back(a: int, j: int)
    requires
        0 <= a,
        0 <= j,
        (a + j) % 16 >= j,
    ensures
        (a + j) % 16 - j == a % 16,
        ((a % 16) + 1) % 16 == (a + 1) % 16,
        (((a + j) % 16) + 1) % 16 == (a + j + 1) % 16,
{
}

/// Searches the flash from the read address for the nul-terminated `mark`,
/// reading a word of four bytes at a time through a ring buffer of sixteen,
/// and returns where the match ends (see `find_mark_result`); 0xffff when
/// `mark` has twelve bytes or more, or does not occur within the words that
/// `len` allows. After a match the read address is set to the start address
/// plus the returned position, so that a further search continues after the
/// mark; when there is no match it is left past the words read.
#[verifier::rlimit(60)]
#[verifier::spinoff_prover]
pub fn flash_find_mark(flash: &mut Flash<'_>, mark: &[u8], len: u16) -> (r: u16)
    requires
        has_nul(mark@),
        cstr(mark@).len() < 12 ==> find_mark_ok(
            old(flash).spec_buf(),
            old(flash).spec_addr(),
            len as int,
            cstr(mark@),
        ),
    ensures
        final(flash).spec_buf() == old(flash).spec_buf(),
        cstr(mark@).len() >= 12 ==> r == 0xffff && final(flash).spec_addr() == old(
            flash,
        ).spec_addr(),
        cstr(mark@).len() < 12 ==> r == find_mark_result(
            old(flash).spec_buf(),
            old(flash).spec_addr(),
            len as int,
            cstr(mark@),
        ) && final(flash).spec_addr() == old(flash).spec_addr() + if first_match_from(
            mark_stream(old(flash).spec_buf(), old(flash).spec_addr(), len as int),
            cstr(mark@),
            0,
        ) >= 0 {
            find_mark_result(
                old(flash).spec_buf(),
                old(flash).spec_addr(),
                len as int,
                cstr(mark@),
            )
        } else {
            4 * block_count(len as int)
        },
{
    proof {
        lemma_cstr_len(mark@);
        use_type_invariant(&*flash);
    }
    let ghost buf = flash.spec_buf();
    let ghost a0 = flash.spec_addr();
    let ghost len0 = len as int;
    let start_addr = flash.addr;
    let ghost m = cstr(mark@);
    let ghost ml = cstr_len(mark@) as int;
    // the bytes left to read, counting down by a word at a time
    let mut remaining = len;
    let mut mpos: u16 = 0;
    let mut fifobuf: [u8; 16] = [0; 16];
    let mut fifo_i: usize = 0;
    let mut search_ptr_markbuf_k: usize = 0;
    // the length of the mark
    while mark[fifo_i] != 0
        invariant
            0 <= fifo_i <= ml,
            ml == cstr_len(mark@),
            ml < mark@.len(),
            mark@[ml] == 0,
            forall|x: int| 0 <= x < ml ==> mark@[x] != 0,
        decreases ml - fifo_i,
    {
        fifo_i += 1;
    }
    let mark_len_l = fifo_i;
    if mark_len_l >= 12 {
        mpos = 0xffff;
        return mpos;
    }
    fifo_i = 0;
    let mut ptr_mark_j: usize = 0;
    let ghost s = mark_stream(buf, a0, len0);
    let ghost n = block_count(len0);
    let ghost f = first_match_from(s, m, 0);
    let ghost mut t: int = 0;
    let ghost mut st: int = 0;
    proof {
        lemma_block_count(len0);
        lemma_first_match_from_bounds(s, m, 0);
        assert forall|x: int| 0 <= x < ml implies m[x] == mark@[x] by {}
    }
    loop
        invariant_except_break
            buf == flash.spec_buf(),
            buf.len() <= usize::MAX,
            a0 == old(flash).spec_addr(),
            start_addr == a0,
            buf == old(flash).spec_buf(),
            s == mark_stream(buf, a0, len0),
            s.len() == 4 * n,
            n == block_count(len0),
            1 <= n <= 16384,
            f == first_match_from(s, m, 0),
            f == -1 || (f >= 0 && matches_at(s, m, f)),
            m == cstr(mark@),
            ml == m.len(),
            ml < 12,
            ml < mark@.len(),
            mark@[ml] == 0,
            forall|x: int| 0 <= x < ml ==> mark@[x] != 0,
            forall|x: int| 0 <= x < ml ==> m[x] == mark@[x],
            a0 + 4 * blocks_read(buf, a0, len0, m) <= buf.len(),
            rewinds_ok(s, m, search_limit(s, m)),
            f < 0 ==> 4 * n <= 0xffff,
            0 <= t < n,
            flash.spec_addr() == a0 + 4 * t,
            remaining == len0 - 4 * t,
            len0 == len as int,
            block_count(remaining as int) == n - t,
            mpos == 4 * t,
            fifo_i == (4 * t) % 16,
            0 <= st,
            st + ptr_mark_j == 4 * t,
            search_ptr_markbuf_k == (4 * t) % 16,
            ptr_mark_j < ml || (ml == 0 && t == 0),
            fifobuf@.len() == 16,
            ring_holds(fifobuf@, s, 4 * t),
            forall|i: int| 0 <= i < ptr_mark_j ==> s[st + i] == #[trigger] m[i],
            forall|x: int| 0 <= x < st ==> !#[trigger] matches_at(s, m, x),
        ensures
            f == -1,
            flash.spec_addr() == a0 + 4 * n,
            buf == flash.spec_buf(),
        decreases n - t,
    {
        let ghost w0 = 4 * t;
        proof {
            lemma_first_match_skip(s, m, st);
            // the word about to be read is one the search needs
            if f >= 0 {
                assert(f + ml <= s.len());
            }
            assert(blocks_read(buf, a0, len0, m) >= t + 1);
        }
        flash.exec_go();
        let ghost old_ring = fifobuf@;
        fifobuf[fifo_i] = flash.sfr_flash_data0();
        fifo_i += 1;
        fifobuf[fifo_i] = if remaining >= 1 {
            flash.sfr_flash_data8()
        } else {
            0
        };
        fifo_i += 1;
        fifobuf[fifo_i] = if remaining >= 2 {
            flash.sfr_flash_data16()
        } else {
            0
        };
        fifo_i += 1;
        fifobuf[fifo_i] = if remaining >= 3 {
            flash.sfr_flash_data24()
        } else {
            0
        };
        fifo_i += 1;
        proof {
            assert(s[w0] == flash_byte(buf, a0, len0, w0));
            assert(s[w0 + 1] == flash_byte(buf, a0, len0, w0 + 1));
            assert(s[w0 + 2] == flash_byte(buf, a0, len0, w0 + 2));
            assert(s[w0 + 3] == flash_byte(buf, a0, len0, w0 + 3));
            assert((w0 + 1) % 4 == 1 && (w0 + 1) / 4 == t);
            assert((w0 + 2) % 4 == 2 && (w0 + 2) / 4 == t);
            assert((w0 + 3) % 4 == 3 && (w0 + 3) / 4 == t);
            assert(w0 % 4 == 0 && w0 / 4 == t);
            lemma_ring_write(old_ring, fifobuf@, s, w0);
        }
        assert(fifo_i & 0xf == fifo_i % 16) by (bit_vector);
        fifo_i &= 0xf;
        flash.inc_addr(4);
        let ghost w = w0 + 4;
        while mark[ptr_mark_j] != 0 && (search_ptr_markbuf_k != fifo_i)
            invariant
                s == mark_stream(buf, a0, len0),
                f == first_match_from(s, m, 0),
                f == -1 || (f >= 0 && matches_at(s, m, f)),
                m == cstr(mark@),
                ml == m.len(),
                ml < 12,
                ml < mark@.len(),
                mark@[ml] == 0,
                forall|x: int| 0 <= x < ml ==> mark@[x] != 0,
                forall|x: int| 0 <= x < ml ==> m[x] == mark@[x],
                rewinds_ok(s, m, search_limit(s, m)),
                w == 4 * t + 4,
                w <= s.len(),
                fifo_i == w % 16,
                0 <= st,
                w - 14 <= st,
                4 * t < st + ml || (ml == 0 && t == 0),
                st + ptr_mark_j <= w,
                search_ptr_markbuf_k == (st + ptr_mark_j) % 16,
                ptr_mark_j <= ml,
                fifobuf@.len() == 16,
                ring_holds(fifobuf@, s, w),
                forall|i: int| 0 <= i < ptr_mark_j ==> s[st + i] == #[trigger] m[i],
                forall|x: int| 0 <= x < st ==> !#[trigger] matches_at(s, m, x),
            decreases w - st, w - st - ptr_mark_j,
        {
            let ghost p = st + ptr_mark_j;
            assert(p < w);
            assert(fifobuf@[p % 16] == s[p]);
            let mc = mark[ptr_mark_j];
            if mc != fifobuf[search_ptr_markbuf_k] {
                // not a match: go back to one past where this attempt began
                proof {
                    lemma_rewind(s, m, st, ptr_mark_j as int);
                    lemma_ring_back(st, ptr_mark_j as int);
                }
                search_ptr_markbuf_k = search_ptr_markbuf_k - ptr_mark_j;
                ptr_mark_j = 0;
                proof {
                    st = st + 1;
                }
            } else {
                proof {
                    lemma_ring_back(st + ptr_mark_j, 0);
                }
                ptr_mark_j = ptr_mark_j + 1;
            }
            let next = search_ptr_markbuf_k + 1;
            assert(next & 0xf == next % 16) by (bit_vector);
            search_ptr_markbuf_k = next & 0xf;
        }
        if mark[ptr_mark_j] == 0 {
            proof {
                assert(ptr_mark_j == ml);
                assert(s.subrange(st, st + ml) =~= m);
                assert(matches_at(s, m, st));
                lemma_first_match_skip(s, m, st);
                reveal(first_match_from);
                assert(f == st);
                let e = st + ml;
                assert(e <= 4 * t + 4);
                if e > 0 {
                    assert((e - 1) / 4 == t);
                }
                assert(find_mark_result(buf, a0, len0, m) == 4 * t + e % 4);
                assert(blocks_read(buf, a0, len0, m) == t + 1);
            }
            let sum: usize = fifo_i + search_ptr_markbuf_k;
            assert((sum as u16) & 3 == sum % 4) by (bit_vector)
                requires
                    sum < 32,
            ;
            assert(sum % 4 == (st + ml) % 4);
            mpos += (sum as u16) & 0x3;
            assert(mpos == find_mark_result(buf, a0, len0, m));
            // continue the next search just past the mark
            flash.addr = start_addr + mpos as usize;
            return mpos;
        }
        proof {
            assert(st + ptr_mark_j == w);
            lemma_first_match_skip(s, m, st);
            if f >= 0 {
                assert(f + ml <= s.len());
            }
        }
        mpos += 4;
        if remaining <= 4 {
            proof {
                assert(t == n - 1);
                lemma_first_match_skip(s, m, st);
            }
            break ;
        }
        proof {
            lemma_block_count(remaining - 4);
        }
        remaining -= 4;
        proof {
            t = t + 1;
        }
    }
    mpos = 0xffff;
    mpos
}

} // verus!
