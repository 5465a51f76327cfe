//! Laws that relate the encoder, the decoder and the wire format.
use vstd::prelude::*;
use crate::codes::{NOOP, FLUSH_DICTIONARY, EOF};
use crate::dictionary::{initial_dict, dict_wf, lookup, lemma_lookup, lemma_initial_wf, lemma_with_phrase_wf};
use crate::encoder::{
    EncState, with_pending, match_step, flush_rule, enc_step, enc_run, enc_init, run_codes,
    framed, compress_codes, lemma_framed,
};
use crate::decoder::{
    DecState, Status, dec_code, dec_codes, dec_init, unpack_groups, dec_groups,
    decompress_state, read_count,
};
use crate::encoder::{compress_bytes, lemma_enc_run_append};
use crate::packing::{first_code, pack_spec, lemma_unpack_pack};
use crate::stream::{pack_pairs, pack_codes, lemma_pack_pairs_len};

verus! {

/// Every code that `c` holds fits in 12 bits.
pub open spec fn fits(c: Seq<u16>) -> bool {
    forall|i: int| 0 <= i < c.len() ==> #[trigger] c[i] < 4096
}

/// The encoder `e`, having read `x`, and a decoder that has received the codes
/// `e` sent agree: same table, the decoder has written all of `x` but the
/// encoder's unsent match, and the pending code names exactly that match.
pub open spec fn synced(e: EncState, x: Seq<u8>) -> bool {
    let d = dec_codes(dec_init(), e.codes);
    &&& dict_wf(e.dict)
    &&& fits(e.codes)
    &&& (e.value is Some <==> e.key.len() > 0)
    &&& (e.value matches Some(v) ==> (v as int) < e.dict.len() && e.dict[v as int] == e.key)
    &&& d.dict == e.dict
    &&& d.key == Seq::<u8>::empty()
    &&& d.status is Running
    &&& d.out + e.key == x
}

proof fn lemma_dec_push(s: DecState, c: Seq<u16>, x: u16)
    ensures
        dec_codes(s, c.push(x)) == dec_code(dec_codes(s, c), x),
{
    assert(c.push(x).drop_last() =~= c);
}

/// Sending the pending code lets the decoder write the encoder's whole match.
proof fn lemma_send_pending(e: EncState, x: Seq<u8>)
    requires
        synced(e, x),
    ensures
        dec_codes(dec_init(), with_pending(e.codes, e.value)) == (DecState {
            dict: e.dict,
            key: e.key,
            out: x,
            status: Status::Running,
        }),
        fits(with_pending(e.codes, e.value)),
{
    let d = dec_codes(dec_init(), e.codes);
    match e.value {
        Some(v) => {
            lemma_dec_push(dec_init(), e.codes, v);
            assert(Seq::<u8>::empty() + e.key =~= e.key);
            if v < 256 {
                assert(e.dict[v as int] == seq![v as u8]);
                assert(e.key.len() == 1);
            }
            assert(v != NOOP && v != EOF && v != crate::codes::EOS && v != FLUSH_DICTIONARY);
            assert(d.key + d.dict[v as int] =~= e.key);

        },
        None => {
            assert(e.key =~= Seq::<u8>::empty());
            assert(d.out + e.key =~= d.out);
        },
    }
}

proof fn lemma_sync_match(e: EncState, x: Seq<u8>, b: u8)
    requires
        synced(e, x),
    ensures
        synced(match_step(e, b), x.push(b)),
{
    let k = e.key.push(b);
    let d = dec_codes(dec_init(), e.codes);
    lemma_lookup(e.dict, k);
    match lookup(e.dict, k) {
        Some(i) => {
            assert(d.out + k =~= (d.out + e.key).push(b));
        },
        None => {
            let v = e.value->0;
            lemma_send_pending(e, x);
            let c1 = with_pending(e.codes, e.value);
            let d1 = dec_codes(dec_init(), c1);
            lemma_dec_push(dec_init(), c1, b as u16);
            assert(e.dict[b as int] == seq![b]);
            assert(d1.key + seq![b] =~= k);
            assert(d1.out + seq![b] =~= x.push(b));
            lemma_with_phrase_wf(e.dict, k);
            let e1 = match_step(e, b);
            assert(e1.codes == c1.push(b as u16));
            assert(d1.out + seq![b] + e1.key =~= x.push(b));
        },
    }
}

proof fn lemma_sync_flush(t: EncState, y: Seq<u8>)
    requires
        synced(t, y),
    ensures
        synced(flush_rule(t), y),
{
    let f = flush_rule(t);
    if f != t {
        lemma_send_pending(t, y);
        let c1 = with_pending(t.codes, t.value);
        let c2 = c1.push(FLUSH_DICTIONARY);
        lemma_dec_push(dec_init(), c1, FLUSH_DICTIONARY);
        lemma_dec_push(dec_init(), c2, NOOP);
        lemma_initial_wf();
        assert(dec_codes(dec_init(), c2).out + f.key =~= y);
    }
}

/// One more byte keeps the encoder and the decoder in step.
pub proof fn lemma_sync_step(e: EncState, x: Seq<u8>, b: u8)
    requires
        synced(e, x),
    ensures
        synced(enc_step(e, b), x.push(b)),
{
    lemma_sync_match(e, x, b);
    let t = EncState { read: e.read + 1, ..match_step(e, b) };
    lemma_sync_flush(t, x.push(b));
}

/// The encoder and the decoder stay in step over any input.
pub proof fn lemma_sync_run(x: Seq<u8>)
    ensures
        synced(enc_run(enc_init(), x), x),
    decreases x.len(),
{
    if x.len() == 0 {
        lemma_initial_wf();
        assert(Seq::<u8>::empty() + Seq::<u8>::empty() =~= x);
    } else {
        lemma_sync_run(x.drop_last());
        lemma_sync_step(enc_run(enc_init(), x.drop_last()), x.drop_last(), x.last());
        assert(x.drop_last().push(x.last()) =~= x);
    }
}

/// Decoding every code that compressing `x` sends writes `x` and stops at EOF.
pub proof fn lemma_decode_codes(x: Seq<u8>)
    ensures
        dec_codes(dec_init(), compress_codes(x)).out == x,
        dec_codes(dec_init(), compress_codes(x)).status is AtEof,
        fits(compress_codes(x)),
        compress_codes(x).len() % 2 == 0,
{
    let e = enc_run(enc_init(), x);
    lemma_sync_run(x);
    lemma_send_pending(e, x);
    let c1 = with_pending(e.codes, e.value);
    let c2 = run_codes(e);
    lemma_dec_push(dec_init(), c1, NOOP);
    lemma_framed(c2, EOF);
    lemma_dec_push(dec_init(), c2, EOF);
    lemma_dec_push(dec_init(), c2.push(EOF), EOF);
}


proof fn lemma_unpack_prefix(b1: Seq<u8>, b2: Seq<u8>, m: nat)
    requires
        3 * m <= b1.len(),
    ensures
        unpack_groups(b1 + b2, m) == unpack_groups(b1, m),
    decreases m,
{
    if m > 0 {
        lemma_unpack_prefix(b1, b2, (m - 1) as nat);
    }
}

proof fn lemma_unpack_pack_pairs(c: Seq<u16>, n: nat)
    requires
        2 * n <= c.len(),
        fits(c),
    ensures
        unpack_groups(pack_pairs(c, n), n) == c.take(2 * n as int),
    decreases n,
{
    if n > 0 {
        let m = (n - 1) as nat;
        let b1 = pack_pairs(c, m);
        let g = pack_spec(c[2 * n - 2], c[2 * n - 1]);
        lemma_unpack_pack_pairs(c, m);
        lemma_pack_pairs_len(c, m);
        lemma_unpack_prefix(b1, g, m);
        lemma_unpack_pack(c[2 * n - 2], c[2 * n - 1]);
        let b = pack_pairs(c, n);
        assert(b[3 * n - 3] == g[0]);
        assert(b[3 * n - 2] == g[1]);
        assert(b[3 * n - 1] == g[2]);
        assert(c.take(2 * m as int).push(c[2 * n - 2]).push(c[2 * n - 1]) =~= c.take(2 * n as int));
    }
}

/// Unpacking the bytes of an even run of 12-bit codes gives the codes back.
pub proof fn lemma_unpack_codes(c: Seq<u16>)
    requires
        c.len() % 2 == 0,
        fits(c),
    ensures
        unpack_groups(pack_codes(c), c.len() / 2) == c,
        pack_codes(c).len() / 3 == c.len() / 2,
{
    lemma_unpack_pack_pairs(c, c.len() / 2);
    lemma_pack_pairs_len(c, c.len() / 2);
    assert(c.take(c.len() as int) =~= c);
}

/// Decompressing the compressed form of any input gives the input back: the
/// decoder stops at the EOF frame, having read every byte of the stream.
pub proof fn lemma_round_trip(x: Seq<u8>)
    ensures
        decompress_state(compress_bytes(x)).out == x,
        decompress_state(compress_bytes(x)).status is AtEof,
        read_count(dec_init(), compress_bytes(x)) == compress_bytes(x).len(),
{
    let c = compress_codes(x);
    let b = compress_bytes(x);
    lemma_decode_codes(x);
    lemma_unpack_codes(c);
    let n = c.len() / 2;
    // the decoder is still running before the last group
    let e = enc_run(enc_init(), x);
    let c2 = run_codes(e);
    lemma_sync_run(x);
    lemma_send_pending(e, x);
    lemma_dec_push(dec_init(), with_pending(e.codes, e.value), NOOP);
    lemma_framed(c2, EOF);
    lemma_unpack_codes(c2);
    lemma_pack_pairs_len(c2, c2.len() / 2);
    crate::stream::lemma_pack_push(c2, EOF);
    crate::stream::lemma_pack_push(c2.push(EOF), EOF);
    assert(b == pack_codes(c2) + pack_spec(EOF, EOF));
    lemma_unpack_prefix(pack_codes(c2), pack_spec(EOF, EOF), (n - 1) as nat);
    assert(dec_groups(dec_init(), b, (n - 1) as nat).status is Running);
}


/// Compressing is a function of the input alone: equal inputs give equal
/// streams.
pub proof fn lemma_deterministic(x: Seq<u8>, y: Seq<u8>)
    requires
        x == y,
    ensures
        compress_bytes(x) == compress_bytes(y),
{
}

/// However the input is split, feeding the parts in turn leaves the encoder as
/// feeding the whole does, so the compressed stream is the same.
pub proof fn lemma_streaming(x1: Seq<u8>, x2: Seq<u8>)
    ensures
        enc_run(enc_run(enc_init(), x1), x2) == enc_run(enc_init(), x1 + x2),
        compress_bytes(x1 + x2) == pack_codes(
            framed(run_codes(enc_run(enc_run(enc_init(), x1), x2)), EOF),
        ),
{
    lemma_enc_run_append(enc_init(), x1, x2);
}

/// Every compressed stream is whole groups and ends with a group whose two
/// slots hold EOF.
pub proof fn lemma_framing(x: Seq<u8>)
    ensures
        compress_bytes(x).len() >= 3,
        compress_bytes(x).len() % 3 == 0,
        compress_bytes(x).subrange(compress_bytes(x).len() - 3, compress_bytes(x).len() as int)
            == pack_spec(EOF, EOF),
        first_code(
            compress_bytes(x)[compress_bytes(x).len() - 3],
            compress_bytes(x)[compress_bytes(x).len() - 2],
        ) == EOF,
{
    let c2 = run_codes(enc_run(enc_init(), x));
    lemma_framed(c2, EOF);
    crate::stream::lemma_pack_push(c2, EOF);
    crate::stream::lemma_pack_push(c2.push(EOF), EOF);
    lemma_pack_pairs_len(c2, c2.len() / 2);
    let b = compress_bytes(x);
    let a = pack_codes(c2);
    assert(b == a + pack_spec(EOF, EOF));
    assert(b.subrange(b.len() - 3, b.len() as int) =~= pack_spec(EOF, EOF));
    lemma_unpack_pack(EOF, EOF);
}

/// A FLUSH_DICTIONARY leaves both tables in their initial state: the encoder's
/// when its heuristic sends one, the decoder's when it receives one.
pub proof fn lemma_flush_resets(t: EncState, s: DecState)
    requires
        s.status is Running,
    ensures
        flush_rule(t) != t ==> flush_rule(t).dict == initial_dict() && flush_rule(t).codes.contains(FLUSH_DICTIONARY),
        dec_code(s, FLUSH_DICTIONARY).dict == initial_dict(),
        dec_code(s, FLUSH_DICTIONARY).key.len() == 0,
{
    let f = flush_rule(t);
    if f != t {
        let c1 = with_pending(t.codes, t.value).push(FLUSH_DICTIONARY);
        assert(c1[c1.len() - 1] == FLUSH_DICTIONARY);
        assert(f.codes[c1.len() - 1] == FLUSH_DICTIONARY);
    }
}

/// When the heuristic fires on the byte `b` after the input `x`, the encoder's
/// table and that of a decoder which has received every code sent, the
/// FLUSH_DICTIONARY included, are both the 256 literals.
pub proof fn lemma_flush_synced(x: Seq<u8>, b: u8)
    ensures
        ({
            let t = EncState { read: enc_run(enc_init(), x).read + 1, ..match_step(enc_run(enc_init(), x), b) };
            flush_rule(t) != t ==> flush_rule(t).dict == initial_dict() && dec_codes(
                dec_init(),
                flush_rule(t).codes,
            ).dict == initial_dict()
        }),
{
    let e = enc_run(enc_init(), x);
    lemma_sync_run(x);
    lemma_sync_match(e, x, b);
    let t = EncState { read: e.read + 1, ..match_step(e, b) };
    lemma_sync_flush(t, x.push(b));
}

} // verus!
