//! The round-trip theorem: decoding a stream the compressor produced
//! reproduces the original buffer, for every input.

use vstd::prelude::*;

use crate::lzss::{
    chunk_flag, chunk_size, codes_bytes, encode_body, hdr_bytes, lemma_spec_tokens_valid, pad_len,
    spec_compress_nlz10, spec_tokens, tok_bit, token_bytes,
};
use crate::nlz::{decode_from, hdr_size, lz_copy, spec_decompress, DecodeError};
use crate::token::{
    lemma_tokens_len_nonneg, lemma_tokens_valid_split, token_len, token_valid, tokens_len,
    tokens_valid, Token,
};
use vstd::arithmetic::div_mod::{lemma_div_denominator, lemma_fundamental_div_mod};

verus! {

/// Bit `7 - q` of a chunk's flag byte is exactly the chunk's `q`-th
/// match/literal decision.
pub proof fn lemma_chunk_flag_bits(c: Seq<Token>)
    requires
        c.len() <= 8,
    ensures
        forall|q: int|
            0 <= q < 8 ==> ((chunk_flag(c) >> ((7 - q) as u8)) & 1) == tok_bit(c, q),
{
    let v0 = tok_bit(c, 0) as u8;
    let v1 = tok_bit(c, 1) as u8;
    let v2 = tok_bit(c, 2) as u8;
    let v3 = tok_bit(c, 3) as u8;
    let v4 = tok_bit(c, 4) as u8;
    let v5 = tok_bit(c, 5) as u8;
    let v6 = tok_bit(c, 6) as u8;
    let v7 = tok_bit(c, 7) as u8;
    let f = chunk_flag(c);
    assert(f == v0 * 128 + v1 * 64 + v2 * 32 + v3 * 16 + v4 * 8 + v5 * 4 + v6 * 2 + v7);
    assert(((f >> 7u8) & 1) == v0 && ((f >> 6u8) & 1) == v1 && ((f >> 5u8) & 1) == v2 && ((f
        >> 4u8) & 1) == v3 && ((f >> 3u8) & 1) == v4 && ((f >> 2u8) & 1) == v5 && ((f >> 1u8) & 1)
        == v6 && ((f >> 0u8) & 1) == v7) by (bit_vector)
        requires
            f == v0 * 128 + v1 * 64 + v2 * 32 + v3 * 16 + v4 * 8 + v5 * 4 + v6 * 2 + v7,
            v0 <= 1,
            v1 <= 1,
            v2 <= 1,
            v3 <= 1,
            v4 <= 1,
            v5 <= 1,
            v6 <= 1,
            v7 <= 1,
    ;
    assert forall|q: int| 0 <= q < 8 implies ((chunk_flag(c) >> ((7 - q) as u8)) & 1) == tok_bit(
        c,
        q,
    ) by {
        if q == 0 {
            assert((7 - q) as u8 == 7u8);
        } else if q == 1 {
            assert((7 - q) as u8 == 6u8);
        } else if q == 2 {
            assert((7 - q) as u8 == 5u8);
        } else if q == 3 {
            assert((7 - q) as u8 == 4u8);
        } else if q == 4 {
            assert((7 - q) as u8 == 3u8);
        } else if q == 5 {
            assert((7 - q) as u8 == 2u8);
        } else if q == 6 {
            assert((7 - q) as u8 == 1u8);
        } else {
            assert((7 - q) as u8 == 0u8);
        }
    }
}

/// The high nibble and low nibble of a packed code byte come back out.
proof fn lemma_code_split(b0: u8, a: u8, c: u8)
    requires
        a <= 15,
        c <= 15,
        b0 == a * 16 + c,
    ensures
        b0 >> 4 == a,
        b0 & 15 == c,
{
    assert(b0 >> 4 == a && b0 & 15 == c) by (bit_vector)
        requires
            b0 == a * 16 + c,
            a <= 15,
            c <= 15,
    ;
}

/// Replaying a valid match's copy on a correct prefix of the input extends
/// that prefix by the match's length.
pub proof fn lemma_lz_copy_match(inp: Seq<u8>, k: int, d: int, l: nat)
    requires
        1 <= d <= k,
        k + l <= inp.len(),
        forall|j: int| k <= j < k + l ==> inp[j - d] == #[trigger] inp[j],
    ensures
        lz_copy(inp.take(k), k - d, l) == inp.take(k + l),
    decreases l,
{
    if l == 0 {
        assert(inp.take(k) =~= inp.take(k + 0));
    } else {
        let out = inp.take(k);
        assert(out[k - d] == inp[k - d]);
        assert(inp[k - d] == inp[k]);
        assert(out.push(inp[k]) =~= inp.take(k + 1));
        lemma_lz_copy_match(inp, k + 1, d, (l - 1) as nat);
        assert(lz_copy(out, k - d, l) == lz_copy(out.push(out[k - d]), k - d + 1, (l - 1) as nat));
    }
}

/// Stepping the decoder through one chunk's remaining tokens consumes
/// exactly their code bytes and appends exactly their output.
proof fn lemma_decode_in_chunk(stream: Seq<u8>, inp: Seq<u8>, c: Seq<Token>, j: int, p: int, k: int)
    requires
        0 <= j <= c.len() <= 8,
        tokens_valid(inp, k, c.skip(j)),
        0 <= k,
        k + tokens_len(c.skip(j)) <= inp.len(),
        0 <= p,
        p + codes_bytes(c.skip(j)).len() <= stream.len(),
        forall|q: int|
            0 <= q < codes_bytes(c.skip(j)).len() ==> stream[p + q] == #[trigger] codes_bytes(
                c.skip(j),
            )[q],
    ensures
        decode_from(stream, p, inp.take(k), inp.len() as int, false, chunk_flag(c), (8 - j) as nat)
            == decode_from(
            stream,
            p + codes_bytes(c.skip(j)).len(),
            inp.take(k + tokens_len(c.skip(j))),
            inp.len() as int,
            false,
            chunk_flag(c),
            (8 - c.len()) as nat,
        ),
    decreases c.len() - j,
{
    let e = inp.len() as int;
    let rest = c.skip(j);
    let f = chunk_flag(c);
    if j == c.len() {
        assert(rest =~= Seq::<Token>::empty());
        assert(codes_bytes(rest).len() == 0);
        assert(tokens_len(rest) == 0);
        assert(inp.take(k + 0) =~= inp.take(k));
    } else {
        let tok = rest[0];
        assert(rest.skip(1) =~= c.skip(j + 1));
        let rest1 = c.skip(j + 1);
        assert(token_valid(inp, k, tok));
        assert(tokens_valid(inp, k + token_len(tok), rest1));
        lemma_tokens_len_nonneg(rest1, inp, k + token_len(tok));
        assert(tokens_len(rest) == token_len(tok) + tokens_len(rest1));
        assert(k < e);
        lemma_chunk_flag_bits(c);
        assert(c[j] == tok);
        let bits = (8 - j) as nat;
        assert((bits - 1) as u8 == (7 - j) as u8);
        assert(codes_bytes(rest) == token_bytes(tok) + codes_bytes(rest1));
        let w = token_bytes(tok).len() as int;
        match tok {
            Token::Literal(b) => {
                assert(tok_bit(c, j) == 0);
                assert((f >> ((bits - 1) as u8)) & 1 == 0);
                assert(codes_bytes(rest)[0] == b);
                assert(stream[p + 0] == codes_bytes(rest)[0]);
                assert(p < stream.len());
                assert(b == inp[k]);
                assert(inp.take(k).push(stream[p]) =~= inp.take(k + 1));
                assert(decode_from(stream, p, inp.take(k), e, false, f, bits) == decode_from(
                    stream,
                    p + 1,
                    inp.take(k + 1),
                    e,
                    false,
                    f,
                    (bits - 1) as nat,
                ));
                assert forall|q: int| 0 <= q < codes_bytes(rest1).len() implies stream[(p + 1) + q]
                    == #[trigger] codes_bytes(rest1)[q] by {
                    assert(codes_bytes(rest)[1 + q] == codes_bytes(rest1)[q]);
                    assert(stream[p + (1 + q)] == codes_bytes(rest)[1 + q]);
                }
                lemma_decode_in_chunk(stream, inp, c, j + 1, p + 1, k + 1);
                assert((8 - (j + 1)) as nat == (bits - 1) as nat);
            },
            Token::Match { len, disp } => {
                let l = len as int;
                let d = disp as int;
                assert(tok_bit(c, j) == 1);
                assert((f >> ((bits - 1) as u8)) & 1 == 1);
                let a = (l - 3) as u8;
                let hi = ((d - 1) / 256) as u8;
                let lo = ((d - 1) % 256) as u8;
                assert(0 <= (d - 1) / 256 <= 15) by {
                    assert(d - 1 <= 4095);
                };
                let b0 = stream[p + 0];
                let b1 = stream[p + 1];
                assert(b0 == codes_bytes(rest)[0]);
                assert(b1 == codes_bytes(rest)[1]);
                assert(token_bytes(tok)[0] == ((l - 3) * 16 + (d - 1) / 256) as u8);
                assert(b0 == a * 16 + hi);
                assert(b1 == lo);
                lemma_code_split(b0, a, hi);
                assert(b0 >> 4 == l - 3);
                assert(p + 2 <= stream.len());
                lemma_fundamental_div_mod(d - 1, 256);
                assert((b0 & 15) * 256 + b1 == d - 1);
                assert(d - 1 < k);
                lemma_lz_copy_match(inp, k, d, len as nat);
                assert(inp.take(k).len() - (d - 1) - 1 == k - d);
                assert(lz_copy(inp.take(k), k - d, len as nat) == inp.take(k + l));
                assert(decode_from(stream, p, inp.take(k), e, false, f, bits) == decode_from(
                    stream,
                    p + 2,
                    inp.take(k + l),
                    e,
                    false,
                    f,
                    (bits - 1) as nat,
                ));
                assert forall|q: int| 0 <= q < codes_bytes(rest1).len() implies stream[(p + 2) + q]
                    == #[trigger] codes_bytes(rest1)[q] by {
                    assert(codes_bytes(rest)[2 + q] == codes_bytes(rest1)[q]);
                    assert(stream[p + (2 + q)] == codes_bytes(rest)[2 + q]);
                }
                lemma_decode_in_chunk(stream, inp, c, j + 1, p + 2, k + l);
                assert((8 - (j + 1)) as nat == (bits - 1) as nat);
            },
        }
    }
}

/// Decoding the encoded body of a valid cover from any flag-exhausted state
/// reproduces the whole input.
proof fn lemma_decode_chunks(
    stream: Seq<u8>,
    inp: Seq<u8>,
    ts: Seq<Token>,
    p: int,
    k: int,
    fl: u8,
)
    requires
        tokens_valid(inp, k, ts),
        0 <= k,
        k + tokens_len(ts) == inp.len(),
        0 <= p,
        p + encode_body(ts).len() <= stream.len(),
        forall|q: int|
            0 <= q < encode_body(ts).len() ==> stream[p + q] == #[trigger] encode_body(ts)[q],
    ensures
        decode_from(stream, p, inp.take(k), inp.len() as int, false, fl, 0) == Ok::<
            Seq<u8>,
            DecodeError,
        >(inp),
    decreases ts.len(),
{
    let e = inp.len() as int;
    if ts.len() == 0 {
        assert(k == e);
        assert(inp.take(k) =~= inp);
    } else {
        lemma_tokens_len_nonneg(ts, inp, k);
        assert(k < e);
        let m = chunk_size(ts);
        let c = ts.take(m);
        assert(c.len() == m);
        lemma_tokens_valid_split(inp, k, ts, m);
        lemma_tokens_len_nonneg(ts.skip(m), inp, k + tokens_len(c));
        let eb = encode_body(ts);
        assert(eb == seq![chunk_flag(c)] + codes_bytes(c) + encode_body(ts.skip(m)));
        let cl = codes_bytes(c).len() as int;
        assert(eb[0] == chunk_flag(c));
        assert(stream[p + 0] == eb[0]);
        assert(p < stream.len());
        assert(decode_from(stream, p, inp.take(k), e, false, fl, 0) == decode_from(
            stream,
            p + 1,
            inp.take(k),
            e,
            false,
            stream[p],
            8,
        ));
        assert(c.skip(0) =~= c);
        assert forall|q: int| 0 <= q < codes_bytes(c.skip(0)).len() implies stream[(p + 1) + q]
            == #[trigger] codes_bytes(c.skip(0))[q] by {
            assert(eb[1 + q] == codes_bytes(c)[q]);
            assert(stream[p + (1 + q)] == eb[1 + q]);
        }
        lemma_decode_in_chunk(stream, inp, c, 0, p + 1, k);
        let p2 = p + 1 + cl;
        let k2 = k + tokens_len(c);
        assert(decode_from(stream, p, inp.take(k), e, false, fl, 0) == decode_from(
            stream,
            p2,
            inp.take(k2),
            e,
            false,
            stream[p],
            (8 - c.len()) as nat,
        ));
        if m == ts.len() {
            assert(ts.skip(m) =~= Seq::<Token>::empty());
            assert(tokens_len(ts.skip(m)) == 0);
            assert(k2 == e);
            assert(inp.take(k2) =~= inp);
        } else {
            assert(m == 8);
            assert forall|q: int| 0 <= q < encode_body(ts.skip(m)).len() implies stream[p2 + q]
                == #[trigger] encode_body(ts.skip(m))[q] by {
                assert(eb[(1 + cl) + q] == encode_body(ts.skip(m))[q]);
                assert(stream[p + ((1 + cl) + q)] == eb[(1 + cl) + q]);
            }
            lemma_decode_chunks(stream, inp, ts.skip(m), p2, k2, stream[p]);
        }
    }
}

/// Round trip: decompressing the stream the compressor describes for any
/// buffer gives back exactly that buffer.
pub proof fn lemma_round_trip(inp: Seq<u8>)
    requires
        inp.len() < 0x1000000,
    ensures
        spec_decompress(spec_compress_nlz10(inp)) == Ok::<Seq<u8>, DecodeError>(inp),
{
    let ts = spec_tokens(inp, 0);
    lemma_spec_tokens_valid(inp, 0);
    let n = inp.len() as int;
    let hdr = hdr_bytes(n);
    let body = encode_body(ts);
    let pads = Seq::new(pad_len(body.len() as int) as nat, |k: int| 0xFFu8);
    let s = spec_compress_nlz10(inp);
    assert(s == hdr + body + pads);
    assert(s.len() == 4 + body.len() + pads.len());
    assert(s[0] == 0x10);
    assert(s[1] == (n % 256) as u8);
    assert(s[2] == ((n / 256) % 256) as u8);
    assert(s[3] == ((n / 65536) % 256) as u8);
    assert(hdr_size(s) == n) by {
        lemma_fundamental_div_mod(n, 256);
        lemma_fundamental_div_mod(n / 256, 256);
        lemma_div_denominator(n, 256, 256);
        assert(n / 65536 == (n / 256) / 256);
        assert(n / 65536 < 256);
        assert((n / 65536) % 256 == n / 65536);
    };
    assert forall|q: int| 0 <= q < body.len() implies s[4 + q] == #[trigger] body[q] by {
        assert((hdr + body)[4 + q] == body[q]);
    }
    assert(Seq::<u8>::empty() =~= inp.take(0));
    lemma_decode_chunks(s, inp, ts, 4, 0, 0u8);
    assert(spec_decompress(s) == decode_from(s, 4, Seq::empty(), hdr_size(s), false, 0, 0));
}

} // verus!
