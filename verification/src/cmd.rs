use vstd::prelude::*;

verus! {

/// The outcome of splitting a configuration line into words.
#[derive(Debug, PartialEq, Eq, Structural, Clone, Copy)]
pub enum ERR {
    NoError,
    TooManyArgs,
    CmdTooLong,
}

/// The size of the buffer that holds one configuration line.
pub const CMD_BUF_SIZE: u8 = 128;

/// The most words a line may hold, plus one.
pub const N_WORDS: u8 = 16;

/// The start offsets of the words of a configuration line.
#[derive(Debug, PartialEq, Eq)]
pub struct CmdArgs {
    len: u8,
    words: [u8; 16],
}

impl CmdArgs {
    #[verifier::type_invariant]
    spec fn inv(&self) -> bool {
        self.len <= 16
    }

    /// The count of offsets held.
    pub closed spec fn spec_len(&self) -> nat {
        self.len as nat
    }

    /// All sixteen offset slots, the unused ones included.
    pub closed spec fn spec_words(&self) -> Seq<u8> {
        self.words@
    }

    /// The offsets held, as a slice.
    pub fn as_slice(&self) -> (r: &[u8])
        ensures
            r@ == self@,
            r@.len() == self.spec_len(),
    {
        proof {
            use_type_invariant(self);
        }
        vstd::slice::slice_subrange(self.words.as_slice(), 0, self.len as usize)
    }

    /// The offsets held by a `CmdArgs` made from `data`, with the unused slots
    /// zero; `None` when `data` holds more than sixteen.
    pub fn from_slice(data: &[u8]) -> (r: Option<Self>)
        ensures
            r is Some <==> data@.len() <= 16,
            r matches Some(a) ==> a@ == data@ && a.spec_words() == data@ + Seq::new(
                (16 - data@.len()) as nat,
                |i: int| 0u8,
            ),
    {
        if data.len() > 16 {
            return None;
        }
        let len = data.len() as u8;
        let mut words: [u8; 16] = [0; 16];
        let mut i: usize = 0;
        while i < data.len()
            invariant
                data@.len() <= 16,
                0 <= i <= data@.len(),
                words@.len() == 16,
                forall|k: int| 0 <= k < i ==> words@[k] == data@[k],
                forall|k: int| i <= k < 16 ==> words@[k] == 0,
            decreases data.len() - i,
        {
            words[i] = data[i];
            i = i + 1;
        }
        let r = CmdArgs { len, words };
        assert(r@ =~= data@);
        assert(r.spec_words() =~= data@ + Seq::new((16 - data@.len()) as nat, |i: int| 0u8));
        Some(r)
    }
}

impl View for CmdArgs {
    type V = Seq<u8>;

    /// The offsets held, in order.
    open spec fn view(&self) -> Seq<u8> {
        self.spec_words().take(self.spec_len() as int)
    }
}

impl Default for CmdArgs {
    fn default() -> (r: Self)
        ensures
            r@ == Seq::<u8>::empty(),
            r.spec_len() == 0,
            r.spec_words() == Seq::new(16, |i: int| 0u8),
    {
        let r = CmdArgs { len: 0, words: [0; 16] };
        assert(r.spec_words() =~= Seq::new(16, |i: int| 0u8));
        assert(r@ =~= Seq::<u8>::empty());
        r
    }
}

/// The position where the scan of a line stops: its first nul, or the last
/// byte of the buffer, which a line may not use.
pub open spec fn cmd_end(buf: Seq<u8>, i: int) -> int
    decreases 127 - i,
{
    if i >= 127 || buf[i] == 0 {
        i
    } else {
        cmd_end(buf, i + 1)
    }
}

/// A word starts at `i`: a byte other than a space, first or after a space.
pub open spec fn is_word_start(buf: Seq<u8>, i: int) -> bool {
    buf[i] != 0x20 && (i == 0 || buf[i - 1] == 0x20)
}

/// The offsets of the words that start before position `l`, in order.
pub open spec fn word_starts(buf: Seq<u8>, l: int) -> Seq<u8>
    decreases l,
{
    if l <= 0 {
        Seq::empty()
    } else if is_word_start(buf, l - 1) {
        word_starts(buf, l - 1).push((l - 1) as u8)
    } else {
        word_starts(buf, l - 1)
    }
}

/// The sixteen offset slots after the first offsets of `ws` were stored.
pub open spec fn stored_words(old_words: Seq<u8>, ws: Seq<u8>) -> Seq<u8> {
    Seq::new(16, |m: int| if m < ws.len() { ws[m] } else { old_words[m] })
}

/// The words seen up to `a` begin the words seen up to `b`.
pub proof fn lemma_word_starts_prefix(buf: Seq<u8>, a: int, b: int)
    requires
        0 <= a <= b,
    ensures
        word_starts(buf, a).len() <= word_starts(buf, b).len(),
        word_starts(buf, a) == word_starts(buf, b).take(word_starts(buf, a).len() as int),
    decreases b - a,
{
    if a < b {
        lemma_word_starts_prefix(buf, a, b - 1);
        let wb = word_starts(buf, b - 1);
        assert(wb.push((b - 1) as u8).take(wb.len() as int) =~= wb);
        assert(wb.take(word_starts(buf, a).len() as int) =~= wb.push((b - 1) as u8).take(
            word_starts(buf, a).len() as int,
        ));
    } else {
        assert(word_starts(buf, a).take(word_starts(buf, a).len() as int) =~= word_starts(buf, a));
    }
}

/// Every word offset lies before the bound it was collected under.
pub proof fn lemma_word_starts_below(buf: Seq<u8>, l: int)
    requires
        0 <= l <= 128,
    ensures
        forall|m: int| 0 <= m < word_starts(buf, l).len() ==> word_starts(buf, l)[m] < l,
        word_starts(buf, l).len() <= l,
    decreases l,
{
    if l > 0 {
        lemma_word_starts_below(buf, l - 1);
    }
}

/// Below the stop, every byte is part of the line.
pub proof fn lemma_cmd_end(buf: Seq<u8>, i: int)
    requires
        0 <= i <= 127,
        forall|k: int| 0 <= k < i ==> buf[k] != 0,
    ensures
        cmd_end(buf, 0) == cmd_end(buf, i),
    decreases i,
{
    if i > 0 {
        lemma_cmd_end(buf, i - 1);
    }
}

/// The stop lies at a nul or at the last byte, and no nul comes before it.
pub proof fn lemma_cmd_end_bounds(buf: Seq<u8>, i: int)
    requires
        0 <= i <= 127,
    ensures
        i <= cmd_end(buf, i) <= 127,
        cmd_end(buf, i) == 127 || buf[cmd_end(buf, i)] == 0,
        forall|k: int| i <= k < cmd_end(buf, i) ==> buf[k] != 0,
    decreases 127 - i,
{
    if i < 127 && buf[i] != 0 {
        lemma_cmd_end_bounds(buf, i + 1);
    }
}

/// Splits the nul-terminated line in `cmd_buffer` into words at spaces and
/// records the offset of each word. Returns 0 with `ERR::NoError` and the offsets
/// when the line ends within the buffer and has at most fifteen words; else 1
/// with the error, no offsets held, and the slots written so far changed.
pub fn cmd_tokenize(cmd_buffer: &[u8; 128], cmd_words_b: &mut CmdArgs, err_status: &mut ERR) -> (r:
    u8)
    ensures
        ({
            let l = cmd_end(cmd_buffer@, 0);
            let ws = word_starts(cmd_buffer@, l);
            &&& final(cmd_words_b).spec_words() == stored_words(
                old(cmd_words_b).spec_words(),
                ws.take(if ws.len() < 16 {
                    ws.len() as int
                } else {
                    16
                }),
            )
            &&& if ws.len() >= 16 {
                r == 1 && *final(err_status) == ERR::TooManyArgs && final(cmd_words_b).spec_len()
                    == 0
            } else if cmd_buffer@[l] == 0 {
                r == 0 && *final(err_status) == ERR::NoError && final(cmd_words_b)@ == ws
            } else {
                r == 1 && *final(err_status) == ERR::CmdTooLong && final(cmd_words_b).spec_len()
                    == 0
            }
        }),
{
    let ghost buf = cmd_buffer@;
    let ghost l = cmd_end(buf, 0);
    let ghost ws = word_starts(buf, l);
    let ghost old_words = cmd_words_b.spec_words();
    proof {
        use_type_invariant(&*cmd_words_b);
        lemma_cmd_end_bounds(buf, 0);
        lemma_word_starts_below(buf, l);
    }
    *err_status = ERR::NoError;
    let mut line_ptr: u8 = 0;
    let mut is_white: bool = true;
    let mut word: u8 = 0;
    assert(cmd_words_b.spec_words() =~= stored_words(old_words, Seq::<u8>::empty()));
    loop
        invariant
            buf == cmd_buffer@,
            l == cmd_end(buf, 0),
            ws == word_starts(buf, l),
            0 <= l <= 127,
            l == 127 || buf[l] == 0,
            0 <= line_ptr <= l,
            forall|k: int| 0 <= k < line_ptr ==> buf[k] != 0,
            is_white == (line_ptr == 0 || buf[line_ptr - 1] == 0x20),
            word == word_starts(buf, line_ptr as int).len(),
            word < 16,
            cmd_words_b.spec_words() == stored_words(old_words, word_starts(buf, line_ptr as int)),
            *err_status == ERR::NoError,
            cmd_words_b.len <= 16,
            old_words == old(cmd_words_b).spec_words(),
        decreases 127 - line_ptr,
    {
        proof {
            lemma_cmd_end(buf, line_ptr as int);
            lemma_word_starts_prefix(buf, line_ptr as int, l);
            lemma_cmd_end_bounds(buf, line_ptr as int);
        }
        let c = cmd_buffer[line_ptr as usize];
        if c == 0 {
            assert(line_ptr == l);
            assert(ws.take(ws.len() as int) =~= ws);
            cmd_words_b.len = word;
            assert(cmd_words_b@ =~= ws);
            return 0;
        }
        if line_ptr >= CMD_BUF_SIZE - 1 {
            assert(line_ptr == l);
            assert(ws.take(ws.len() as int) =~= ws);
            cmd_words_b.len = 0;
            *err_status = ERR::CmdTooLong;
            return 1;
        }
        proof {
            lemma_word_starts_prefix(buf, line_ptr + 1, l);
            lemma_word_starts_below(buf, line_ptr + 1);
        }
        let ghost prev = word_starts(buf, line_ptr as int);
        if is_white && c != 0x20 {
            is_white = false;
            cmd_words_b.words[word as usize] = line_ptr;
            word += 1;
            assert(cmd_words_b.spec_words() =~= stored_words(old_words, prev.push(line_ptr)));
            if word >= N_WORDS {
                proof {
                    lemma_word_starts_prefix(buf, line_ptr + 1, l);
                }
                assert(ws.take(16) =~= prev.push(line_ptr));
                cmd_words_b.len = 0;
                *err_status = ERR::TooManyArgs;
                return 1;
            }
        } else if c == 0x20 {
            is_white = true;
        }
        line_ptr += 1;
    }
}

/// The length of the nul-terminated string at the start of `s`.
pub open spec fn cstr_len(s: Seq<u8>) -> nat
    decreases s.len(),
{
    if s.len() == 0 || s[0] == 0 {
        0
    } else {
        1 + cstr_len(s.drop_first())
    }
}

/// The bytes of a nul-terminated string before its nul.
pub open spec fn cstr(s: Seq<u8>) -> Seq<u8> {
    s.take(cstr_len(s) as int)
}

/// The nul that ends a string lies inside it, and no nul comes before it.
pub proof fn lemma_cstr_len(s: Seq<u8>)
    requires
        exists|k: int| 0 <= k < s.len() && s[k] == 0,
    ensures
        cstr_len(s) < s.len(),
        s[cstr_len(s) as int] == 0,
        forall|k: int| 0 <= k < cstr_len(s) ==> s[k] != 0,
    decreases s.len(),
{
    if s[0] != 0 {
        let k = choose|k: int| 0 <= k < s.len() && s[k] == 0;
        assert(s.drop_first()[k - 1] == 0);
        lemma_cstr_len(s.drop_first());
        assert forall|k: int| 0 <= k < cstr_len(s) implies s[k] != 0 by {
            if k > 0 {
                assert(s[k] == s.drop_first()[k - 1]);
            }
        }
    }
}

/// The word at offset `p` of the line is exactly `t`: its bytes follow at
/// `p`, inside the buffer, and are followed by a space or a nul.
pub open spec fn word_is(buf: Seq<u8>, p: int, t: Seq<u8>) -> bool {
    &&& p + t.len() < 128
    &&& buf.subrange(p, p + t.len()) == t
    &&& (buf[p + t.len()] == 0 || buf[p + t.len()] == 0x20)
}

/// Returns 1 when word number `start` of the line is the nul-terminated
/// string `text`, else 0.
pub fn cmd_compare(start: u8, text: &[u8], cmd_buffer: &[u8; 128], cmd_words_b: &CmdArgs) -> (r:
    u8)
    requires
        exists|k: int| 0 <= k < text@.len() && text@[k] == 0,
        start < cmd_words_b@.len() ==> cmd_words_b@[start as int] < 128,
    ensures
        r == if start < cmd_words_b@.len() && word_is(
            cmd_buffer@,
            cmd_words_b@[start as int] as int,
            cstr(text@),
        ) {
            1u8
        } else {
            0u8
        },
{
    proof {
        use_type_invariant(cmd_words_b);
        lemma_cstr_len(text@);
    }
    let ghost t = cstr(text@);
    let ghost tl = cstr_len(text@) as int;
    if cmd_words_b.len == 0 || start > cmd_words_b.len - 1 {
        return 0;
    }
    let ghost p = cmd_words_b@[start as int] as int;
    let mut buf_idx: u8 = cmd_words_b.words[start as usize];
    let mut cmd_idx: usize = 0;
    loop
        invariant_except_break
            t == cstr(text@),
            tl == cstr_len(text@),
            tl < text@.len(),
            text@[tl] == 0,
            forall|k: int| 0 <= k < tl ==> text@[k] != 0,
            0 <= cmd_idx <= tl,
            buf_idx == p + cmd_idx,
            buf_idx < 128,
            start < cmd_words_b@.len(),
            p == cmd_words_b@[start as int],
            forall|k: int| 0 <= k < cmd_idx ==> cmd_buffer@[p + k] == text@[k],
        ensures
            !word_is(cmd_buffer@, p, t),
            start < cmd_words_b@.len(),
            p == cmd_words_b@[start as int],
        decreases tl - cmd_idx,
    {
        let c = text[cmd_idx];
        let b = cmd_buffer[buf_idx as usize];
        if c == 0 {
            assert(cmd_idx == tl);
            if b == 0 || b == 0x20 {
                assert(cmd_buffer@.subrange(p, p + t.len()) =~= t);
                return 1;
            }
            break ;
        }
        if b != c {
            assert(word_is(cmd_buffer@, p, t) ==> cmd_buffer@.subrange(p, p + t.len())[cmd_idx as int]
                == t[cmd_idx as int]);
            break ;
        }
        cmd_idx += 1;
        buf_idx += 1;
        if buf_idx >= CMD_BUF_SIZE {
            break ;
        }
    }
    0
}

/// Reads the configuration stored in flash, in blocks of 256 bytes, copying
/// its bytes into the line buffer up to the first nul. A line feed ends
/// nothing: it is copied like any other byte (only a line feed in the very
/// first position has the empty line tokenized). So a configuration is
/// refused with `ERR::CmdTooLong` when it holds a whole block and its first
/// 127 bytes, line feeds included, hold no nul; a flash image shorter than
/// one block is accepted without reading.
pub fn execute_config(buf: &[u8]) -> (r: ERR)
    ensures
        r == if buf@.len() >= 256 && (forall|i: int| 0 <= i < 127 ==> buf@[i] != 0) {
            ERR::CmdTooLong
        } else {
            ERR::NoError
        },
{
    let mut err_status = ERR::NoError;
    let mut off: usize = 0;
    let mut cmd_buffer: [u8; 128] = [0; 128];
    let mut cmd_words_b = CmdArgs::default();
    let mut cmd_idx: u8 = 0;
    'lus: loop
        invariant_except_break
            off == 0,
            cmd_idx == 0,
            err_status == ERR::NoError,
            cmd_buffer@.len() == 128,
        ensures
            err_status == if buf@.len() >= 256 && (forall|i: int|
                0 <= i < 127 ==> buf@[i] != 0) {
                ERR::CmdTooLong
            } else {
                ERR::NoError
            },
        decreases buf.len() - off,
    {
        // the next whole block of the flash image, if there is one
        if buf.len() < 256 || off > buf.len() - 256 {
            break ;
        }
        let chunk = off;
        off += 256;
        let mut cfg_idx: u8 = 0;
        loop
            invariant_except_break
                chunk == 0,
                off == 256,
                buf@.len() >= 256,
                cfg_idx == cmd_idx,
                cmd_idx <= 127,
                forall|k: int| 0 <= k < cmd_idx ==> buf@[k] != 0,
                err_status == ERR::NoError,
                cmd_buffer@.len() == 128,
            ensures
                cfg_idx == 0,
                cfg_idx == cmd_idx,
                cmd_idx >= 1,
            decreases 127 - cmd_idx,
        {
            if cmd_idx >= CMD_BUF_SIZE - 1 {
                cmd_buffer[cmd_idx as usize] = 0;
                err_status = ERR::CmdTooLong;
                break 'lus;
            }
            let c = buf[chunk + cmd_idx as usize];
            cfg_idx = cfg_idx.wrapping_add(1);
            if c == 0 || c == 0x0a {
                cmd_buffer[cmd_idx as usize] = 0;
                if cmd_idx == 0 {
                    let _ = cmd_tokenize(&cmd_buffer, &mut cmd_words_b, &mut err_status);
                    assert(cmd_end(cmd_buffer@, 0) == 0);
                    assert(word_starts(cmd_buffer@, 0).len() == 0);
                }
                if c == 0 {
                    break 'lus;
                }
            }
            cmd_buffer[cmd_idx as usize] = c;
            cmd_idx += 1;
            if cfg_idx == 0 {
                break ;
            }
        }
    }
    err_status
}

} // verus!
