//! The decoder: the unpacker state machine and phrase reconstruction.
use vstd::prelude::*;
use crate::codes::{MAX_DICT_SIZE, NOOP, FLUSH_DICTIONARY, EOF, EOS};
use crate::dictionary::{
    initial_dict, dict_wf, with_phrase, lemma_initial_wf, lemma_with_phrase_wf, new_dict,
    copy_bytes, append_bytes,
};
use crate::packing::{unpack, first_code, second_code};

verus! {

/// How far a decoder has come.
pub enum Status {
    Running,
    AtEof,
    AtEos,
    Corrupt,
}

/// The decoder as a mathematical value: its table, the phrases gathered since
/// the last admission, everything written, and its status.
pub struct DecState {
    pub dict: Seq<Seq<u8>>,
    pub key: Seq<u8>,
    pub out: Seq<u8>,
    pub status: Status,
}

/// One received code. Once the decoder has stopped, codes change nothing.
pub open spec fn dec_code(s: DecState, c: u16) -> DecState {
    if !(s.status is Running) || c == NOOP {
        s
    } else if c == EOF {
        DecState { status: Status::AtEof, ..s }
    } else if c == EOS {
        DecState { status: Status::AtEos, ..s }
    } else if c == FLUSH_DICTIONARY {
        DecState { dict: initial_dict(), key: seq![], ..s }
    } else if c as int >= s.dict.len() {
        DecState { status: Status::Corrupt, ..s }
    } else {
        let p = s.dict[c as int];
        let k = s.key + p;
        if k.len() > 1 && c < 256 {
            DecState { dict: with_phrase(s.dict, k), key: seq![], out: s.out + p, ..s }
        } else {
            DecState { key: k, out: s.out + p, ..s }
        }
    }
}

/// The decoder after the codes `c`, one at a time.
pub open spec fn dec_codes(s: DecState, c: Seq<u16>) -> DecState
    decreases c.len(),
{
    if c.len() == 0 {
        s
    } else {
        dec_code(dec_codes(s, c.drop_last()), c.last())
    }
}

/// The codes carried by the first `n` groups of `b`.
pub open spec fn unpack_groups(b: Seq<u8>, n: nat) -> Seq<u16>
    decreases n,
{
    if n == 0 {
        seq![]
    } else {
        let i = 3 * n - 3;
        unpack_groups(b, (n - 1) as nat).push(first_code(b[i], b[i + 1])).push(
            second_code(b[i + 1], b[i + 2]),
        )
    }
}

/// The decoder from `s` after the first `n` groups of `b`.
pub open spec fn dec_groups(s: DecState, b: Seq<u8>, n: nat) -> DecState {
    dec_codes(s, unpack_groups(b, n))
}

/// The bytes consumed by the first `n` groups of `b`: reading stops after the
/// group in which the decoder stopped.
pub open spec fn consumed(s: DecState, b: Seq<u8>, n: nat) -> nat
    decreases n,
{
    if n == 0 {
        0
    } else if dec_groups(s, b, (n - 1) as nat).status is Running {
        3 * n
    } else {
        consumed(s, b, (n - 1) as nat)
    }
}

/// The decoder from `s` after every complete group of `b`; a trailing partial
/// group is ignored.
pub open spec fn decode_from(s: DecState, b: Seq<u8>) -> DecState {
    dec_groups(s, b, b.len() / 3)
}

/// The bytes of `b` that decoding from `s` reads: all of them, unless a group
/// stops the decoder first.
pub open spec fn read_count(s: DecState, b: Seq<u8>) -> nat {
    if decode_from(s, b).status is Running {
        b.len()
    } else {
        consumed(s, b, b.len() / 3)
    }
}

/// The decoder before any input.
pub open spec fn dec_init() -> DecState {
    DecState { dict: initial_dict(), key: seq![], out: seq![], status: Status::Running }
}

/// The decoded form of the stream `b`.
pub open spec fn decompress_state(b: Seq<u8>) -> DecState {
    decode_from(dec_init(), b)
}

/// A received code whose phrase the table does not hold.
#[derive(Debug, PartialEq, Eq)]
pub enum DecodeError {
    CorruptStream,
}

/// The unpacker: bytes gathered towards the next group, or the terminator met.
#[derive(Clone, Copy)]
pub enum ReadState {
    Empty,
    One(u8),
    Two(u8, u8),
    Eof,
    Eos,
}

/// The status that a read state stands for.
pub open spec fn status_of(r: ReadState) -> Status {
    match r {
        ReadState::Eof => Status::AtEof,
        ReadState::Eos => Status::AtEos,
        _ => Status::Running,
    }
}

/// What one code does to the decoder does not depend on what it has written.
pub proof fn lemma_dec_code_out(s: DecState, c: u16)
    ensures
        dec_code(s, c) == (DecState {
            out: s.out + dec_code(DecState { out: seq![], ..s }, c).out,
            ..dec_code(DecState { out: seq![], ..s }, c)
        }),
{
    let e = DecState { out: seq![], ..s };
    assert(s.out + e.out =~= s.out);
    if (s.status is Running) && c != NOOP && c != EOF && c != EOS && c != FLUSH_DICTIONARY && (c as int) < s.dict.len() {
        let p = s.dict[c as int];
        assert(s.out + (e.out + p) =~= s.out + p);
    }
}

/// A stopped decoder stays as it is, whatever follows.
pub proof fn lemma_dec_codes_stopped(s: DecState, c: Seq<u16>)
    requires
        !(s.status is Running),
    ensures
        dec_codes(s, c) == s,
    decreases c.len(),
{
    if c.len() > 0 {
        lemma_dec_codes_stopped(s, c.drop_last());
    }
}

/// One group more: its two codes in turn.
pub proof fn lemma_dec_groups_step(s: DecState, b: Seq<u8>, n: nat)
    requires
        n > 0,
    ensures
        dec_groups(s, b, n) == dec_code(
            dec_code(dec_groups(s, b, (n - 1) as nat), first_code(b[3 * n - 3], b[3 * n - 2])),
            second_code(b[3 * n - 2], b[3 * n - 1]),
        ),
{
    let u = unpack_groups(b, (n - 1) as nat);
    let a = first_code(b[3 * n - 3], b[3 * n - 2]);
    let c = second_code(b[3 * n - 2], b[3 * n - 1]);
    assert(unpack_groups(b, n) == u.push(a).push(c));
    assert(u.push(a).push(c).drop_last() =~= u.push(a));
    assert(u.push(a).drop_last() =~= u);
    assert(dec_codes(s, u.push(a)) == dec_code(dec_codes(s, u), a));
    assert(dec_codes(s, u.push(a).push(c)) == dec_code(dec_codes(s, u.push(a)), c));
}

/// After the group in which the decoder stopped, further groups change nothing
/// and read nothing.
pub proof fn lemma_stopped_at(s: DecState, b: Seq<u8>, g: nat, n: nat)
    requires
        0 < g <= n,
        dec_groups(s, b, (g - 1) as nat).status is Running,
        !(dec_groups(s, b, g).status is Running),
    ensures
        dec_groups(s, b, n) == dec_groups(s, b, g),
        consumed(s, b, n) == 3 * g,
    decreases n - g,
{
    if n > g {
        lemma_stopped_at(s, b, g, (n - 1) as nat);
        lemma_dec_groups_step(s, b, n);
        lemma_dec_codes_stopped(dec_groups(s, b, g), seq![]);
    }
}

/// The decoder side of the codec.
pub struct Decompressor {
    dict: Vec<Vec<u8>>,
    key: Vec<u8>,
    read_state: ReadState,
}

impl Decompressor {
    /// The table, as phrases indexed by code.
    pub closed spec fn dict_view(&self) -> Seq<Seq<u8>> {
        self.dict@.map_values(|p: Vec<u8>| p@)
    }

    /// The decoder's state, with `out` as what it has written.
    pub closed spec fn state(&self, out: Seq<u8>) -> DecState {
        DecState {
            dict: self.dict_view(),
            key: self.key@,
            out,
            status: status_of(self.read_state),
        }
    }

    /// A decoder at a group boundary, still reading.
    pub closed spec fn ready(&self) -> bool {
        self.read_state is Empty
    }

    pub open spec fn wf(&self) -> bool {
        dict_wf(self.dict_view())
    }

    /// A decoder with a fresh table, at the start of a stream.
    pub fn new() -> (d: Decompressor)
        ensures
            d.wf(),
            d.ready(),
            d.state(seq![]) == dec_init(),
    {
        let d = Decompressor { dict: new_dict(), key: Vec::new(), read_state: ReadState::Empty };
        proof {
            lemma_initial_wf();
            assert(d.key@ =~= Seq::<u8>::empty());
        }
        d
    }

    /// Resets the table to the 256 literals and drops the gathered phrases.
    pub fn flush_dictionary(&mut self)
        ensures
            final(self).dict_view() == initial_dict(),
            final(self).state(seq![]) == (DecState {
                dict: initial_dict(),
                key: seq![],
                ..old(self).state(seq![])
            }),
            final(self).ready() == old(self).ready(),
    {
        self.dict = new_dict();
        self.key.clear();
        assert(self.key@ =~= Seq::<u8>::empty());
    }

    /// Writes the phrase of `value`, gathers it, and admits the gathered bytes
    /// when a literal follows an extended prefix.
    fn decode(&mut self, value: u16, output: &mut Vec<u8>) -> (r: Result<(), DecodeError>)
        requires
            old(self).wf(),
            status_of(old(self).read_state) is Running,
            !crate::codes::is_control(value),
        ensures
            final(self).wf(),
            r is Err <==> dec_code(old(self).state(seq![]), value).status is Corrupt,
            r is Ok ==> final(self).state(seq![]) == (DecState {
                out: seq![],
                ..dec_code(old(self).state(seq![]), value)
            }),
            r is Ok ==> final(output)@ == old(output)@ + dec_code(old(self).state(seq![]), value).out,
            final(self).read_state == old(self).read_state,
            r is Err ==> final(output)@ == old(output)@,
    {
        if value as usize >= self.dict.len() {
            return Err(DecodeError::CorruptStream);
        }
        let ghost p = self.dict_view()[value as int];
        assert(self.dict[value as int]@ == p);
        let b = copy_bytes(&self.dict[value as usize]);
        append_bytes(output, &b);
        append_bytes(&mut self.key, &b);
        if self.key.len() > 1 && value < 256 {
            proof {
                lemma_with_phrase_wf(self.dict_view(), self.key@);
            }
            if self.dict.len() <= MAX_DICT_SIZE {
                let k = copy_bytes(&self.key);
                let ghost d0 = self.dict_view();
                self.dict.push(k);
                assert(self.dict_view() =~= d0.push(k@));
            }
            self.key.clear();
        }
        proof {
            assert(self.key@ =~= dec_code(old(self).state(seq![]), value).key);
            assert(output@ =~= old(output)@ + dec_code(old(self).state(seq![]), value).out);
        }
        Ok(())
    }

    /// Handles one received code.
    fn accept(&mut self, code: u16, output: &mut Vec<u8>) -> (r: Result<(), DecodeError>)
        requires
            old(self).wf(),
            status_of(old(self).read_state) is Running,
        ensures
            final(self).wf(),
            r is Err <==> dec_code(old(self).state(seq![]), code).status is Corrupt,
            r is Ok ==> final(self).state(seq![]) == (DecState {
                out: seq![],
                ..dec_code(old(self).state(seq![]), code)
            }),
            r is Ok ==> final(output)@ == old(output)@ + dec_code(old(self).state(seq![]), code).out,
            r is Ok ==> (final(self).read_state is Empty || status_of(final(self).read_state)
                != Status::Running),
            r is Err ==> final(output)@ == old(output)@,
    {
        if code == NOOP {
            assert(output@ =~= old(output)@ + dec_code(old(self).state(seq![]), code).out);
            self.read_state = ReadState::Empty;
            Ok(())
        } else if code == EOF {
            assert(output@ =~= old(output)@ + dec_code(old(self).state(seq![]), code).out);
            self.read_state = ReadState::Eof;
            Ok(())
        } else if code == EOS {
            assert(output@ =~= old(output)@ + dec_code(old(self).state(seq![]), code).out);
            self.read_state = ReadState::Eos;
            Ok(())
        } else if code == FLUSH_DICTIONARY {
            assert(output@ =~= old(output)@ + dec_code(old(self).state(seq![]), code).out);
            self.flush_dictionary();
            self.read_state = ReadState::Empty;
            proof {
                lemma_initial_wf();
            }
            Ok(())
        } else {
            self.read_state = ReadState::Empty;
            self.decode(code, output)
        }
    }

    /// Handles the group `x, y, z`: its first code, then its second unless the
    /// first stopped the decoder.
    fn take_group(&mut self, x: u8, y: u8, z: u8, output: &mut Vec<u8>) -> (r: Result<(), DecodeError>)
        requires
            old(self).wf(),
            old(self).read_state is Empty,
        ensures
            final(self).wf(),
            r is Err <==> dec_code(dec_code(old(self).state(seq![]), first_code(x, y)), second_code(y, z)).status is Corrupt,
            final(output)@ == old(output)@ + dec_code(dec_code(old(self).state(seq![]), first_code(x, y)), second_code(y, z)).out,
            r is Ok ==> final(self).state(seq![]) == (DecState {
                out: seq![],
                ..dec_code(dec_code(old(self).state(seq![]), first_code(x, y)), second_code(y, z))
            }),
            r is Ok ==> (final(self).read_state is Empty <==> dec_code(dec_code(old(self).state(seq![]), first_code(x, y)), second_code(y, z)).status is Running),
    {
        let ghost s0 = self.state(seq![]);
        let (first, second) = unpack(x, y, z);
        let ghost mid = dec_code(s0, first);
        match self.accept(first, output) {
            Err(e) => {
                assert(output@ =~= old(output)@ + dec_code(mid, second).out);
                return Err(e);
            },
            Ok(()) => {},
        }
        if matches!(self.read_state, ReadState::Empty) {
            let res = self.accept(second, output);
            assert(output@ =~= old(output)@ + dec_code(mid, second).out);
            res
        } else {
            assert(output@ =~= old(output)@ + dec_code(mid, second).out);
            Ok(())
        }
    }

    /// Reads groups from `input` until a terminator, a corrupt code or the end
    /// of the input, writing the decoded bytes to `output`. Returns the bytes
    /// read and written.
    pub fn decompress(&mut self, input: &[u8], output: &mut Vec<u8>) -> (r: Result<
        (usize, usize),
        DecodeError,
    >)
        requires
            old(self).wf(),
            old(self).ready(),
        ensures
            final(output)@ == old(output)@ + decode_from(old(self).state(seq![]), input@).out,
            r is Err <==> decode_from(old(self).state(seq![]), input@).status is Corrupt,
            r matches Ok((rd, wr)) ==> rd == read_count(old(self).state(seq![]), input@) && wr
                == decode_from(old(self).state(seq![]), input@).out.len(),
    {
        let ghost s0 = self.state(seq![]);
        let ghost out0 = output@;
        let start_len = output.len();
        let mut bytes_read: usize = 0;
        proof {
            assert(output@ =~= out0 + dec_groups(s0, input@, 0).out);
        }
        while bytes_read < input.len()
            invariant
                self.wf(),
                bytes_read <= input@.len(),
                start_len == out0.len(),
                out0 == old(output)@,
                s0 == old(self).state(seq![]),
                dec_groups(s0, input@, (bytes_read / 3) as nat).status is Running,
                output@ == out0 + dec_groups(s0, input@, (bytes_read / 3) as nat).out,
                self.state(seq![]) == (DecState {
                    out: seq![],
                    ..dec_groups(s0, input@, (bytes_read / 3) as nat)
                }),
                bytes_read % 3 == 0 ==> self.read_state is Empty,
                bytes_read % 3 == 1 ==> self.read_state == ReadState::One(input@[bytes_read - 1]),
                bytes_read % 3 == 2 ==> self.read_state == ReadState::Two(
                    input@[bytes_read - 2],
                    input@[bytes_read - 1],
                ),
            decreases input@.len() - bytes_read,
        {
            let b = input[bytes_read];
            bytes_read = bytes_read + 1;
            match self.read_state {
                ReadState::Empty => {
                    self.read_state = ReadState::One(b);
                },
                ReadState::One(f) => {
                    self.read_state = ReadState::Two(f, b);
                },
                ReadState::Two(f, x) => {
                    let ghost g: nat = (bytes_read / 3) as nat;
                    proof {
                        assert((bytes_read - 1) / 3 == g - 1);
                        lemma_dec_groups_step(s0, input@, g);
                    }
                    self.read_state = ReadState::Empty;
                    let ghost st = self.state(seq![]);
                    let ghost prev = dec_groups(s0, input@, (g - 1) as nat);
                    proof {
                        let a = first_code(f, x);
                        lemma_dec_code_out(prev, a);
                        lemma_dec_code_out(dec_code(prev, a), second_code(x, b));
                        lemma_dec_code_out(st, a);
                        lemma_dec_code_out(dec_code(st, a), second_code(x, b));
                    }
                    let res = self.take_group(f, x, b, output);
                    proof {
                        assert(output@ =~= out0 + dec_groups(s0, input@, g).out);
                    }
                    if res.is_err() || !matches!(self.read_state, ReadState::Empty) {
                        proof {
                            lemma_stopped_at(s0, input@, g, input@.len() / 3);
                        }
                        match res {
                            Err(e) => {
                                return Err(e);
                            },
                            Ok(()) => {
                                return Ok((bytes_read, output.len() - start_len));
                            },
                        }
                    }
                },
                ReadState::Eof | ReadState::Eos => {},
            }
        }
        Ok((bytes_read, output.len() - start_len))
    }
}

/// Decompresses `input`, appending the decoded bytes to `output`, until a
/// terminator, a corrupt code or the end of the input. Returns the bytes read
/// and written.
pub fn decompress(input: &[u8], output: &mut Vec<u8>) -> (r: Result<(usize, usize), DecodeError>)
    ensures
        final(output)@ == old(output)@ + decompress_state(input@).out,
        r is Err <==> decompress_state(input@).status is Corrupt,
        r matches Ok((rd, wr)) ==> rd == read_count(dec_init(), input@) && wr
            == decompress_state(input@).out.len(),
{
    let mut d = Decompressor::new();
    d.decompress(input, output)
}

} // verus!
