//! The token model shared by the compressor and the decoder: a token is a
//! literal byte or a (length, displacement) back-reference, and a token
//! sequence is valid for an input when replaying it reproduces the input.

use vstd::prelude::*;

verus! {

/// Longest window the match index may span, and the largest displacement the
/// fixed two-byte match code can carry.
pub const WINDOW_LEN: u32 = 4096;

/// Shortest back-reference worth emitting.
pub const MIN_MATCH: u32 = 3;

/// Longest back-reference the fixed two-byte match code can carry.
pub const MAX_MATCH: u32 = 18;

/// Smallest displacement the compressor accepts.
pub const DISP_MIN: u32 = 2;

/// One decision of the greedy matcher: a raw byte, or a copy of `len` bytes
/// starting `disp` bytes behind the current position.
#[derive(Clone, Copy, Debug, PartialEq, Eq, Structural)]
pub enum Token {
    Literal(u8),
    Match { len: u32, disp: u32 },
}

/// How many output bytes replaying the token produces.
pub open spec fn token_len(t: Token) -> int {
    match t {
        Token::Literal(_) => 1,
        Token::Match { len, disp } => len as int,
    }
}

/// The token, replayed at position `k`, reproduces `inp[k .. k + token_len(t)]`.
/// For a match this is the self-overlap-friendly statement: each copied byte
/// equals the byte `disp` positions earlier.
pub open spec fn token_valid(inp: Seq<u8>, k: int, t: Token) -> bool {
    match t {
        Token::Literal(b) => 0 <= k < inp.len() && b == inp[k],
        Token::Match { len, disp } => {
            &&& MIN_MATCH <= len <= MAX_MATCH
            &&& DISP_MIN <= disp <= WINDOW_LEN
            &&& disp <= k
            &&& k + len <= inp.len()
            &&& forall|j: int| k <= j < k + len ==> inp[j - disp] == #[trigger] inp[j]
        },
    }
}

/// Total number of output bytes a token sequence produces.
pub open spec fn tokens_len(ts: Seq<Token>) -> int
    decreases ts.len(),
{
    if ts.len() == 0 {
        0
    } else {
        token_len(ts[0]) + tokens_len(ts.skip(1))
    }
}

/// The sequence, replayed from position `k`, reproduces
/// `inp[k .. k + tokens_len(ts)]`.
pub open spec fn tokens_valid(inp: Seq<u8>, k: int, ts: Seq<Token>) -> bool
    decreases ts.len(),
{
    if ts.len() == 0 {
        true
    } else {
        token_valid(inp, k, ts[0]) && tokens_valid(inp, k + token_len(ts[0]), ts.skip(1))
    }
}

pub proof fn lemma_tokens_len_nonneg(ts: Seq<Token>, inp: Seq<u8>, k: int)
    requires
        tokens_valid(inp, k, ts),
    ensures
        tokens_len(ts) >= 0,
        ts.len() > 0 ==> tokens_len(ts) >= 1,
    decreases ts.len(),
{
    if ts.len() > 0 {
        lemma_tokens_len_nonneg(ts.skip(1), inp, k + token_len(ts[0]));
        assert(token_len(ts[0]) >= 1);
    }
}

/// A valid sequence splits into a valid prefix and a valid rest starting
/// where the prefix's output ends.
pub proof fn lemma_tokens_valid_split(inp: Seq<u8>, k: int, ts: Seq<Token>, m: int)
    requires
        tokens_valid(inp, k, ts),
        0 <= m <= ts.len(),
    ensures
        tokens_valid(inp, k, ts.take(m)),
        tokens_valid(inp, k + tokens_len(ts.take(m)), ts.skip(m)),
        tokens_len(ts) == tokens_len(ts.take(m)) + tokens_len(ts.skip(m)),
    decreases m,
{
    if m == 0 {
        assert(ts.take(0) =~= Seq::<Token>::empty());
        assert(ts.skip(0) =~= ts);
    } else {
        assert(ts.take(m)[0] == ts[0]);
        assert(ts.take(m).skip(1) =~= ts.skip(1).take(m - 1));
        assert(ts.skip(1).skip(m - 1) =~= ts.skip(m));
        lemma_tokens_valid_split(inp, k + token_len(ts[0]), ts.skip(1), m - 1);
    }
}

} // verus!
