//! The encoder: the match loop, the flush heuristic and end-of-stream framing.
use vstd::prelude::*;
use crate::codes::{MAX_DICT_SIZE, NOOP, FLUSH_DICTIONARY, EOF, EOS};
use crate::dictionary::{
    initial_dict, dict_wf, with_phrase, lookup, lemma_lookup, lemma_initial_wf,
    lemma_with_phrase_wf, new_dict, copy_bytes, find,
};
use crate::packing::{pack, pack_spec};
use crate::stream::{pack_codes, written, pad, lemma_pack_push};

verus! {

/// The encoder as a mathematical value: its table, match buffer, pending code,
/// the codes sent so far, and the byte counts that drive the flush heuristic.
pub struct EncState {
    pub dict: Seq<Seq<u8>>,
    pub key: Seq<u8>,
    pub value: Option<u16>,
    pub codes: Seq<u16>,
    pub read: nat,
    pub read_mark: nat,
    pub written_mark: nat,
}

/// `c` followed by the pending code, if there is one.
pub open spec fn with_pending(c: Seq<u16>, value: Option<u16>) -> Seq<u16> {
    match value {
        Some(v) => c.push(v),
        None => c,
    }
}

/// The flush heuristic: a nearly full table and a truncated ratio of bytes
/// written to bytes read, in percent, above 200.
pub open spec fn flush_due(size: int, r: int, w: int) -> bool {
    size > 4000 && r > 0 && (w * 100) / r > 200
}

/// The match loop on one byte: extend the match, or send the pending code and
/// the byte as a literal and offer the extended buffer as a new phrase.
pub open spec fn match_step(s: EncState, b: u8) -> EncState {
    let k = s.key.push(b);
    match lookup(s.dict, k) {
        Some(i) => EncState { key: k, value: Some(i as u16), ..s },
        None => EncState {
            dict: with_phrase(s.dict, k),
            key: seq![],
            value: None,
            codes: with_pending(s.codes, s.value).push(b as u16),
            ..s
        },
    }
}

/// The flush heuristic applied to `t`: a flush sends the pending code,
/// FLUSH_DICTIONARY and padding, then resets the table and the counts.
pub open spec fn flush_rule(t: EncState) -> EncState {
    if flush_due(t.dict.len() as int, t.read - t.read_mark, written(t.codes) - t.written_mark) {
        let c = pad(with_pending(t.codes, t.value).push(FLUSH_DICTIONARY));
        EncState {
            dict: initial_dict(),
            key: seq![],
            value: None,
            codes: c,
            read_mark: t.read,
            written_mark: written(c),
            ..t
        }
    } else {
        t
    }
}

/// One input byte: the match loop, then the flush heuristic.
pub open spec fn enc_step(s: EncState, b: u8) -> EncState {
    flush_rule(EncState { read: s.read + 1, ..match_step(s, b) })
}

/// The encoder after the bytes `x`, one at a time.
pub open spec fn enc_run(s: EncState, x: Seq<u8>) -> EncState
    decreases x.len(),
{
    if x.len() == 0 {
        s
    } else {
        enc_step(enc_run(s, x.drop_last()), x.last())
    }
}

/// The state in which a run of the encoder starts: nothing sent or counted yet.
pub open spec fn run_start(dict: Seq<Seq<u8>>, key: Seq<u8>, value: Option<u16>) -> EncState {
    EncState { dict, key, value, codes: seq![], read: 0, read_mark: 0, written_mark: 0 }
}

/// The encoder before any input.
pub open spec fn enc_init() -> EncState {
    run_start(initial_dict(), seq![], None)
}

/// The codes of a run once the pending code is sent and the last pair padded.
pub open spec fn run_codes(s: EncState) -> Seq<u16> {
    pad(with_pending(s.codes, s.value))
}

/// `c` closed by the terminator `t` in both slots of a final group.
pub open spec fn framed(c: Seq<u16>, t: u16) -> Seq<u16> {
    pad(pad(c).push(t).push(t))
}

/// Every code that compressing `x` sends.
pub open spec fn compress_codes(x: Seq<u8>) -> Seq<u16> {
    framed(run_codes(enc_run(enc_init(), x)), EOF)
}

/// The compressed form of `x`.
pub open spec fn compress_bytes(x: Seq<u8>) -> Seq<u8> {
    pack_codes(compress_codes(x))
}

/// The bytes that a held-back code puts on the wire when it is padded.
pub open spec fn padding_bytes(w: Option<u16>) -> Seq<u8> {
    match w {
        Some(f) => pack_spec(f, NOOP),
        None => seq![],
    }
}

/// Running the encoder over `x1` then over `x2` is running it over `x1 + x2`.
pub proof fn lemma_enc_run_append(s: EncState, x1: Seq<u8>, x2: Seq<u8>)
    ensures
        enc_run(s, x1 + x2) == enc_run(enc_run(s, x1), x2),
    decreases x2.len(),
{
    if x2.len() > 0 {
        assert((x1 + x2).drop_last() =~= x1 + x2.drop_last());
        lemma_enc_run_append(s, x1, x2.drop_last());
    } else {
        assert(x1 + x2 =~= x1);
    }
}

/// The encoder side of the codec.
pub struct Compressor {
    dict: Vec<Vec<u8>>,
    key: Vec<u8>,
    value: Option<u16>,
    write_state: Option<u16>,
}

impl Compressor {
    /// The table, as phrases indexed by code.
    pub closed spec fn dict_view(&self) -> Seq<Seq<u8>> {
        self.dict@.map_values(|p: Vec<u8>| p@)
    }

    /// The bytes matched so far and not yet sent.
    pub closed spec fn key_view(&self) -> Seq<u8> {
        self.key@
    }

    /// The code of the current match, not yet sent.
    pub closed spec fn pending(&self) -> Option<u16> {
        self.value
    }

    /// A code waiting for a partner to fill its group.
    pub closed spec fn held(&self) -> Option<u16> {
        self.write_state
    }

    /// The state from which the next `compress` call runs.
    pub open spec fn start(&self) -> EncState {
        run_start(self.dict_view(), self.key_view(), self.pending())
    }

    pub open spec fn wf(&self) -> bool {
        dict_wf(self.dict_view())
    }

    /// A compressor with a fresh table and nothing pending.
    pub fn new() -> (c: Compressor)
        ensures
            c.wf(),
            c.start() == enc_init(),
            c.held() is None,
    {
        let c = Compressor { dict: new_dict(), key: Vec::new(), value: None, write_state: None };
        proof {
            lemma_initial_wf();
            assert(c.key@ =~= Seq::<u8>::empty());
        }
        c
    }

    /// Resets the table to the 256 literals.
    pub fn flush_dictionary(&mut self)
        ensures
            final(self).dict_view() == initial_dict(),
            final(self).key_view() == old(self).key_view(),
            final(self).pending() == old(self).pending(),
            final(self).held() == old(self).held(),
    {
        self.dict = new_dict();
    }

    /// Sends one code: it is held back, or completes a group that is written.
    fn encode(&mut self, code: u16, output: &mut Vec<u8>) -> (n: usize)
        ensures
            final(self).dict_view() == old(self).dict_view(),
            final(self).key_view() == old(self).key_view(),
            final(self).pending() == old(self).pending(),
            old(self).held() is None ==> final(self).held() == Some(code) && final(output)@
                == old(output)@ && n == 0,
            old(self).held() matches Some(f) ==> final(self).held() is None && final(output)@
                == old(output)@ + pack_spec(f, code) && n == 3,
    {
        match self.write_state {
            None => {
                self.write_state = Some(code);
                0
            },
            Some(first) => {
                let g = pack(first, code);
                output.push(g[0]);
                output.push(g[1]);
                output.push(g[2]);
                assert(output@ =~= old(output)@ + pack_spec(first, code));
                self.write_state = None;
                3
            },
        }
    }

    /// Pads a held-back code with NOOP and writes its group.
    fn flush(&mut self, output: &mut Vec<u8>) -> (n: usize)
        ensures
            final(self).dict_view() == old(self).dict_view(),
            final(self).key_view() == old(self).key_view(),
            final(self).pending() == old(self).pending(),
            final(self).held() is None,
            final(output)@ == old(output)@ + padding_bytes(old(self).held()),
            n == padding_bytes(old(self).held()).len(),
    {
        match self.write_state {
            Some(_) => self.encode(NOOP, output),
            None => {
                assert(output@ =~= old(output)@ + padding_bytes(old(self).held()));
                0
            },
        }
    }

    /// The encoder of the current run, given its progress `p`.
    closed spec fn model(&self, p: &Progress) -> EncState {
        EncState {
            dict: self.dict_view(),
            key: self.key@,
            value: self.value,
            codes: p.codes@,
            read: p.read as nat,
            read_mark: p.read_mark as nat,
            written_mark: p.written_mark as nat,
        }
    }

    /// `out` is `out0` followed by the groups of the run's complete pairs, and a
    /// code is held back exactly when the run has sent an odd number of codes.
    closed spec fn sent(&self, p: &Progress, out0: Seq<u8>, out: Seq<u8>) -> bool {
        &&& out == out0 + pack_codes(p.codes@)
        &&& (self.write_state is None <==> p.codes@.len() % 2 == 0)
        &&& (self.write_state matches Some(f) ==> p.codes@.len() > 0 && f == p.codes@.last())
        &&& p.written == written(p.codes@)
        &&& p.read_mark <= p.read
        &&& p.written_mark <= p.written
    }

    /// Sends `code` as part of the run `p`.
    fn send(&mut self, code: u16, output: &mut Vec<u8>, p: &mut Progress, Ghost(out0): Ghost<Seq<u8>>)
        requires
            old(self).sent(old(p), out0, old(output)@),
            old(p).codes@.len() < usize::MAX / 4,
        ensures
            final(self).sent(final(p), out0, final(output)@),
            final(p).codes@ == old(p).codes@.push(code),
            final(p).read == old(p).read,
            final(p).read_mark == old(p).read_mark,
            final(p).written_mark == old(p).written_mark,
            final(self).dict_view() == old(self).dict_view(),
            final(self).key@ == old(self).key@,
            final(self).value == old(self).value,
    {
        proof {
            lemma_pack_push(p.codes@, code);
        }
        let ghost c0 = p.codes@;
        let n = self.encode(code, output);
        p.written = p.written + n;
        p.codes = Ghost(p.codes@.push(code));
        proof {
            if c0.len() % 2 == 1 {
                assert(output@ =~= out0 + pack_codes(p.codes@));
            }
        }
    }

    /// Pads the last group of the run `p`.
    fn pad_run(&mut self, output: &mut Vec<u8>, p: &mut Progress, Ghost(out0): Ghost<Seq<u8>>)
        requires
            old(self).sent(old(p), out0, old(output)@),
            old(p).codes@.len() < usize::MAX / 4,
        ensures
            final(self).sent(final(p), out0, final(output)@),
            final(p).codes@ == pad(old(p).codes@),
            final(self).write_state is None,
            final(p).read == old(p).read,
            final(p).read_mark == old(p).read_mark,
            final(p).written_mark == old(p).written_mark,
            final(self).dict_view() == old(self).dict_view(),
            final(self).key@ == old(self).key@,
            final(self).value == old(self).value,
    {
        proof {
            lemma_pack_push(p.codes@, NOOP);
        }
        let ghost c0 = p.codes@;
        let n = self.flush(output);
        p.written = p.written + n;
        p.codes = Ghost(pad(p.codes@));
        proof {
            if c0.len() % 2 == 1 {
                assert(output@ =~= out0 + pack_codes(p.codes@));
            } else {
                assert(output@ =~= out0 + pack_codes(p.codes@));
            }
        }
    }

    /// The match loop on the byte `b`.
    fn match_byte(&mut self, b: u8, output: &mut Vec<u8>, p: &mut Progress, Ghost(out0): Ghost<Seq<u8>>)
        requires
            old(self).wf(),
            old(self).sent(old(p), out0, old(output)@),
            old(p).codes@.len() + 5 <= usize::MAX / 4,
        ensures
            final(self).wf(),
            final(self).sent(final(p), out0, final(output)@),
            final(self).model(final(p)) == match_step(old(self).model(old(p)), b),
            final(p).codes@.len() <= old(p).codes@.len() + 2,
    {
        self.key.push(b);
        proof {
            lemma_lookup(self.dict_view(), self.key@);
        }
        match find(&self.dict, &self.key) {
            Some(i) => {
                self.value = Some(i as u16);
            },
            None => {
                if let Some(last) = self.value {
                    self.send(last, output, p, Ghost(out0));
                    self.value = None;
                }
                self.send(b as u16, output, p, Ghost(out0));
                proof {
                    lemma_with_phrase_wf(self.dict_view(), self.key@);
                }
                if self.dict.len() <= MAX_DICT_SIZE {
                    let k = copy_bytes(&self.key);
                    let ghost d0 = self.dict_view();
                    self.dict.push(k);
                    assert(self.dict_view() =~= d0.push(k@));
                }
                self.key.clear();
            },
        }
    }

    /// The flush heuristic, after a byte has been counted as read.
    fn check_flush(&mut self, output: &mut Vec<u8>, p: &mut Progress, Ghost(out0): Ghost<Seq<u8>>)
        requires
            old(self).wf(),
            old(self).sent(old(p), out0, old(output)@),
            old(p).codes@.len() + 5 <= usize::MAX / 4,
        ensures
            final(self).wf(),
            final(self).sent(final(p), out0, final(output)@),
            final(self).model(final(p)) == flush_rule(old(self).model(old(p))),
            final(p).codes@.len() <= old(p).codes@.len() + 3,
            final(p).read == old(p).read,
    {
        if ratio_exceeded(self.dict.len(), p.read - p.read_mark, p.written - p.written_mark) {
            if let Some(last) = self.value {
                self.send(last, output, p, Ghost(out0));
                self.value = None;
            }
            self.key.clear();
            self.send(FLUSH_DICTIONARY, output, p, Ghost(out0));
            self.pad_run(output, p, Ghost(out0));
            self.flush_dictionary();
            proof {
                lemma_initial_wf();
            }
            p.read_mark = p.read;
            p.written_mark = p.written;
            assert(self.key@ =~= Seq::<u8>::empty());
        }
    }

    /// Runs the match loop and the flush heuristic over `input`, then sends the
    /// pending code and pads the last group. Returns the bytes read and written.
    pub fn compress(&mut self, input: &[u8], output: &mut Vec<u8>) -> (r: (usize, usize))
        requires
            old(self).wf(),
            old(self).held() is None,
            input@.len() <= usize::MAX / 32,
        ensures
            final(output)@ == old(output)@ + pack_codes(run_codes(enc_run(old(self).start(), input@))),
            r == (input@.len() as usize, written(run_codes(enc_run(old(self).start(), input@))) as usize),
            final(self).wf(),
            final(self).dict_view() == enc_run(old(self).start(), input@).dict,
            final(self).key_view() == Seq::<u8>::empty(),
            final(self).pending() is None,
            final(self).held() is None,
            written(run_codes(enc_run(old(self).start(), input@))) <= 8 * input@.len() + 3,
    {
        let ghost s0 = self.start();
        let ghost out0 = output@;
        let ghost none: Seq<u16> = Seq::empty();
        let mut p = Progress { read: 0, written: 0, read_mark: 0, written_mark: 0, codes: Ghost(none) };
        proof {
            assert(input@.take(0) =~= Seq::<u8>::empty());
            assert(output@ =~= out0 + pack_codes(p.codes@));
        }
        while p.read < input.len()
            invariant
                self.wf(),
                input@.len() <= usize::MAX / 32,
                p.read <= input@.len(),
                enc_run(s0, input@.take(p.read as int)) == self.model(&p),
                self.sent(&p, out0, output@),
                p.codes@.len() <= 5 * p.read,
            decreases input@.len() - p.read,
        {
            let b = input[p.read];
            proof {
                assert(input@.take(p.read + 1).drop_last() =~= input@.take(p.read as int));
            }
            self.match_byte(b, output, &mut p, Ghost(out0));
            p.read = p.read + 1;
            self.check_flush(output, &mut p, Ghost(out0));
        }
        proof {
            assert(input@.take(p.read as int) =~= input@);
        }
        if let Some(last) = self.value {
            self.send(last, output, &mut p, Ghost(out0));
        }
        self.value = None;
        self.key.clear();
        self.pad_run(output, &mut p, Ghost(out0));
        assert(self.key_view() =~= Seq::<u8>::empty());
        proof {
            let n = p.codes@.len();
            let m = input@.len();
            assert(n <= 5 * m + 2);
            assert(3 * (n / 2) <= 8 * m + 3) by (nonlinear_arith)
                requires
                    n <= 5 * m + 2,
            ;
        }
        (p.read, p.written)
    }

    /// Closes the stream with the terminator `t` in both slots of a group.
    fn terminate(&mut self, t: u16, output: &mut Vec<u8>) -> (n: usize)
        ensures
            final(output)@ == old(output)@ + padding_bytes(old(self).held()) + pack_spec(t, t),
            n == padding_bytes(old(self).held()).len() + 3,
            final(self).dict_view() == old(self).dict_view(),
            final(self).key_view() == old(self).key_view(),
            final(self).pending() == old(self).pending(),
            final(self).held() is None,
    {
        let mut n: usize = 0;
        n = n + self.flush(output);
        n = n + self.encode(t, output);
        n = n + self.encode(t, output);
        n = n + self.flush(output);
        assert(output@ =~= old(output)@ + padding_bytes(old(self).held()) + pack_spec(t, t));
        n
    }

    /// Ends a logical payload: pads the last group, then EOF in both slots.
    pub fn end_of_file(&mut self, output: &mut Vec<u8>) -> (n: usize)
        ensures
            final(output)@ == old(output)@ + padding_bytes(old(self).held()) + pack_spec(EOF, EOF),
            n == padding_bytes(old(self).held()).len() + 3,
            final(self).dict_view() == old(self).dict_view(),
            final(self).key_view() == old(self).key_view(),
            final(self).pending() == old(self).pending(),
            final(self).held() is None,
    {
        self.terminate(EOF, output)
    }

    /// Ends the whole stream: pads the last group, then EOS in both slots.
    pub fn end_of_stream(&mut self, output: &mut Vec<u8>) -> (n: usize)
        ensures
            final(output)@ == old(output)@ + padding_bytes(old(self).held()) + pack_spec(EOS, EOS),
            n == padding_bytes(old(self).held()).len() + 3,
            final(self).dict_view() == old(self).dict_view(),
            final(self).key_view() == old(self).key_view(),
            final(self).pending() == old(self).pending(),
            final(self).held() is None,
    {
        self.terminate(EOS, output)
    }
}

/// The counts of one `compress` run, and the codes it has sent.
struct Progress {
    read: usize,
    written: usize,
    read_mark: usize,
    written_mark: usize,
    codes: Ghost<Seq<u16>>,
}

/// Whether the flush heuristic fires for a table of `size` entries after `r`
/// bytes read and `w` bytes written since the last flush.
pub fn ratio_exceeded(size: usize, r: usize, w: usize) -> (b: bool)
    ensures
        b == flush_due(size as int, r as int, w as int),
{
    if size <= 4000 || r == 0 {
        return false;
    }
    let ratio: u128 = (w as u128) * 100 / (r as u128);
    ratio > 200
}

/// Framing an even run of codes adds one group carrying the terminator twice.
pub proof fn lemma_framed(c: Seq<u16>, t: u16)
    requires
        c.len() % 2 == 0,
    ensures
        framed(c, t) == c.push(t).push(t),
        pack_codes(framed(c, t)) == pack_codes(c) + pack_spec(t, t),
        written(framed(c, t)) == written(c) + 3,
{
    lemma_pack_push(c, t);
    lemma_pack_push(c.push(t), t);
}

/// Compresses `input`, appending the code stream and its EOF frame to `output`.
/// Returns the bytes read and written.
pub fn compress(input: &[u8], output: &mut Vec<u8>) -> (r: (usize, usize))
    requires
        input@.len() <= usize::MAX / 32,
    ensures
        final(output)@ == old(output)@ + compress_bytes(input@),
        r == (input@.len() as usize, compress_bytes(input@).len() as usize),
{
    let mut c = Compressor::new();
    let (r, w) = c.compress(input, output);
    let e = c.end_of_file(output);
    proof {
        let rc = run_codes(enc_run(enc_init(), input@));
        lemma_framed(rc, EOF);
        lemma_pack_push(rc, 0);
        lemma_pack_push(framed(rc, EOF), 0);
        assert(output@ =~= old(output)@ + compress_bytes(input@));
    }
    (r, w + e)
}

} // verus!
