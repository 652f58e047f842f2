//! The compressor: a chained position index over a bounded sliding window, a
//! greedy longest-match scan over it, and the bitstream encoder that turns
//! the token sequence into the fixed-code on-disk format.

use vstd::prelude::*;

use crate::nlz::clip0;
use crate::token::{token_len, token_valid, tokens_len, tokens_valid, Token, DISP_MIN, MAX_MATCH,
    MIN_MATCH, WINDOW_LEN};

verus! {

/// Oldest position still inside the window when scanning position `i`.
pub open spec fn win_lo(i: int) -> int {
    if i - WINDOW_LEN >= 0 {
        i - WINDOW_LEN
    } else {
        0
    }
}

/// Length of the byte-for-byte run starting at candidate `p` compared against
/// the run starting at `i`, stopping at the first mismatch or after `cap`
/// bytes.
pub open spec fn run_len(inp: Seq<u8>, p: int, i: int, cap: int) -> int
    decreases clip0(cap),
{
    if cap <= 0 || !(0 <= p < inp.len()) || !(0 <= i < inp.len()) || inp[p] != inp[i] {
        0
    } else {
        1 + run_len(inp, p + 1, i + 1, cap - 1)
    }
}

/// Match length the window reports for candidate `p` at scan position `i`:
/// the common run, capped at `MAX_MATCH` and at the end of the input.
pub open spec fn spec_match_len(inp: Seq<u8>, p: int, i: int) -> int {
    run_len(
        inp,
        p,
        i,
        if inp.len() - i < MAX_MATCH {
            inp.len() - i
        } else {
            MAX_MATCH as int
        },
    )
}

/// A candidate position qualifies when it lies in the window, keeps the
/// minimum displacement, and matches for at least `MIN_MATCH` bytes.
pub open spec fn cand_ok(inp: Seq<u8>, i: int, p: int) -> bool {
    &&& win_lo(i) <= p
    &&& p <= i - DISP_MIN
    &&& 0 <= p < inp.len()
    &&& 0 <= i < inp.len()
    &&& inp[p] == inp[i]
    &&& spec_match_len(inp, p, i) >= MIN_MATCH
}

/// The greedy selection walk: candidates are visited oldest first, a strict
/// improvement replaces the best seen, and the first candidate reaching
/// `MAX_MATCH` wins outright, so ties keep the earliest-considered candidate
/// (the largest displacement).
pub open spec fn spec_search_from(inp: Seq<u8>, i: int, p: int, bl: int, bd: int) -> Option<
    (int, int),
>
    decreases clip0(i - p),
{
    if p >= i {
        if bl >= MIN_MATCH {
            Some((bl, bd))
        } else {
            None
        }
    } else if cand_ok(inp, i, p) {
        let l = spec_match_len(inp, p, i);
        if l >= MAX_MATCH {
            Some((l, i - p))
        } else if l > bl {
            spec_search_from(inp, i, p + 1, l, i - p)
        } else {
            spec_search_from(inp, i, p + 1, bl, bd)
        }
    } else {
        spec_search_from(inp, i, p + 1, bl, bd)
    }
}

/// Best match the window reports at scan position `i`, if any.
pub open spec fn spec_search(inp: Seq<u8>, i: int) -> Option<(int, int)> {
    spec_search_from(inp, i, win_lo(i), 0, 0)
}

/// A (length, displacement) pair the matcher may emit at position `i`.
pub open spec fn good_pair(inp: Seq<u8>, i: int, l: int, d: int) -> bool {
    &&& MIN_MATCH <= l <= MAX_MATCH
    &&& DISP_MIN <= d <= WINDOW_LEN
    &&& d <= i
    &&& i + l <= inp.len()
    &&& forall|j: int| i <= j < i + l ==> inp[j - d] == #[trigger] inp[j]
}

pub proof fn lemma_run_len_props(inp: Seq<u8>, p: int, i: int, cap: int)
    requires
        0 <= p < i,
        0 <= cap,
        i + cap <= inp.len(),
    ensures
        0 <= run_len(inp, p, i, cap) <= cap,
        forall|j: int|
            i <= j < i + run_len(inp, p, i, cap) ==> inp[j - (i - p)] == #[trigger] inp[j],
        run_len(inp, p, i, cap) < cap ==> inp[p + run_len(inp, p, i, cap)] != inp[i + run_len(
            inp,
            p,
            i,
            cap,
        )],
    decreases cap,
{
    if cap > 0 && i < inp.len() && inp[p] == inp[i] {
        lemma_run_len_props(inp, p + 1, i + 1, cap - 1);
        let r = run_len(inp, p, i, cap);
        assert(r == 1 + run_len(inp, p + 1, i + 1, cap - 1));
        assert forall|j: int| i <= j < i + r implies inp[j - (i - p)] == #[trigger] inp[j] by {
            if j > i {
                assert(inp[j - ((i + 1) - (p + 1))] == inp[j]);
            }
        }
    }
}

pub proof fn lemma_search_from_props(inp: Seq<u8>, i: int, p: int, bl: int, bd: int)
    requires
        0 <= i < inp.len(),
        win_lo(i) <= p <= i,
        (bl == 0 && bd == 0) || (good_pair(inp, i, bl, bd) && bl < MAX_MATCH),
    ensures
        (match spec_search_from(inp, i, p, bl, bd) {
            Some((l, d)) => good_pair(inp, i, l, d),
            None => true,
        }),
    decreases i - p,
{
    if p >= i {
    } else if cand_ok(inp, i, p) {
        let cap = if inp.len() - i < MAX_MATCH {
            inp.len() - i
        } else {
            MAX_MATCH as int
        };
        lemma_run_len_props(inp, p, i, cap);
        let l = spec_match_len(inp, p, i);
        assert(good_pair(inp, i, l, i - p));
        if l >= MAX_MATCH {
        } else if l > bl {
            lemma_search_from_props(inp, i, p + 1, l, i - p);
        } else {
            lemma_search_from_props(inp, i, p + 1, bl, bd);
        }
    } else {
        lemma_search_from_props(inp, i, p + 1, bl, bd);
    }
}

/// Whatever the search returns can be emitted as a valid match token.
pub proof fn lemma_spec_search_some(inp: Seq<u8>, i: int)
    requires
        0 <= i < inp.len(),
    ensures
        (match spec_search(inp, i) {
            Some((l, d)) => good_pair(inp, i, l, d),
            None => true,
        }),
{
    lemma_search_from_props(inp, i, win_lo(i), 0, 0);
}

/// The token sequence the greedy matcher produces from position `i` on: the
/// best match if one exists, else one literal, then the rest.
pub open spec fn spec_tokens(inp: Seq<u8>, i: int) -> Seq<Token>
    decreases clip0(inp.len() - i),
{
    if !(0 <= i < inp.len()) {
        Seq::empty()
    } else {
        match spec_search(inp, i) {
            Some((l, d)) => {
                proof {
                    lemma_spec_search_some(inp, i);
                }
                seq![Token::Match { len: l as u32, disp: d as u32 }] + spec_tokens(inp, i + l)
            },
            None => seq![Token::Literal(inp[i])] + spec_tokens(inp, i + 1),
        }
    }
}

/// The greedy matcher's output covers the input exactly once with valid
/// tokens; with `token_valid` this bounds every emitted match's length and
/// displacement.
pub proof fn lemma_spec_tokens_valid(inp: Seq<u8>, i: int)
    requires
        0 <= i <= inp.len(),
    ensures
        tokens_valid(inp, i, spec_tokens(inp, i)),
        tokens_len(spec_tokens(inp, i)) == inp.len() - i,
    decreases clip0(inp.len() - i),
{
    if i == inp.len() {
    } else {
        lemma_spec_search_some(inp, i);
        match spec_search(inp, i) {
            Some((l, d)) => {
                let t = Token::Match { len: l as u32, disp: d as u32 };
                let ts = spec_tokens(inp, i);
                lemma_spec_tokens_valid(inp, i + l);
                assert(ts == seq![t] + spec_tokens(inp, i + l));
                assert(ts[0] == t);
                assert(ts.skip(1) =~= spec_tokens(inp, i + l));
                assert(token_valid(inp, i, t));
            },
            None => {
                let t = Token::Literal(inp[i]);
                let ts = spec_tokens(inp, i);
                lemma_spec_tokens_valid(inp, i + 1);
                assert(ts[0] == t);
                assert(ts.skip(1) =~= spec_tokens(inp, i + 1));
            },
        }
    }
}

/// Why compression failed.
#[derive(Clone, Copy, Debug, PartialEq, Eq, Structural)]
pub enum EncodeError {
    /// The input's length does not fit the header's 24-bit size field.
    InputTooLarge,
    /// A match's length or displacement does not fit the fixed code.
    CodeRangeExceeded,
    /// The match index's oldest entry was not the position the window
    /// expected to evict.
    IndexCorruption,
}

/// The positions in `[lo, hi)` whose byte equals `v`, oldest first.
pub open spec fn idx_seq(inp: Seq<u8>, lo: int, hi: int, v: int) -> Seq<u32>
    decreases clip0(hi - lo),
{
    if lo >= hi {
        Seq::empty()
    } else if 0 <= lo < inp.len() && inp[lo] == v {
        seq![lo as u32] + idx_seq(inp, lo + 1, hi, v)
    } else {
        idx_seq(inp, lo + 1, hi, v)
    }
}

pub proof fn lemma_idx_seq_props(inp: Seq<u8>, lo: int, hi: int, v: int)
    requires
        0 <= lo <= hi <= inp.len(),
        inp.len() < 0x1000000,
    ensures
        forall|k: int|
            0 <= k < idx_seq(inp, lo, hi, v).len() ==> lo <= #[trigger] idx_seq(inp, lo, hi, v)[k]
                < hi && inp[idx_seq(inp, lo, hi, v)[k] as int] == v,
        forall|k1: int, k2: int|
            0 <= k1 < k2 < idx_seq(inp, lo, hi, v).len() ==> idx_seq(inp, lo, hi, v)[k1] < idx_seq(
                inp,
                lo,
                hi,
                v,
            )[k2],
        forall|q: int|
            lo <= q < hi && inp[q] == v ==> idx_seq(inp, lo, hi, v).contains(q as u32),
    decreases hi - lo,
{
    if lo < hi {
        lemma_idx_seq_props(inp, lo + 1, hi, v);
        let s = idx_seq(inp, lo, hi, v);
        let s1 = idx_seq(inp, lo + 1, hi, v);
        if inp[lo] == v {
            assert(s == seq![lo as u32] + s1);
            assert forall|q: int| lo <= q < hi && inp[q] == v implies s.contains(q as u32) by {
                if q == lo {
                    assert(s[0] == lo as u32);
                } else {
                    let k = choose|k: int| 0 <= k < s1.len() && s1[k] == q as u32;
                    assert(s[k + 1] == q as u32);
                }
            }
        } else {
            assert forall|q: int| lo <= q < hi && inp[q] == v implies s.contains(q as u32) by {
                let k = choose|k: int| 0 <= k < s1.len() && s1[k] == q as u32;
                assert(s[k] == q as u32);
            }
        }
    }
}

/// Appending one more indexed position extends exactly the evicted byte's
/// list.
pub proof fn lemma_idx_seq_append(inp: Seq<u8>, lo: int, hi: int, v: int)
    requires
        0 <= lo <= hi < inp.len(),
    ensures
        idx_seq(inp, lo, hi + 1, v) == idx_seq(inp, lo, hi, v) + (if inp[hi] == v {
            seq![hi as u32]
        } else {
            Seq::<u32>::empty()
        }),
    decreases hi - lo,
{
    if lo >= hi {
        assert(idx_seq(inp, lo, hi, v) =~= Seq::<u32>::empty());
        if inp[hi] == v {
            assert(idx_seq(inp, hi + 1, hi + 1, v) =~= Seq::<u32>::empty());
            assert(idx_seq(inp, lo, hi + 1, v) =~= Seq::<u32>::empty() + seq![hi as u32]);
        } else {
            assert(idx_seq(inp, lo + 1, hi + 1, v) =~= Seq::<u32>::empty());
            assert(idx_seq(inp, lo, hi + 1, v) =~= Seq::<u32>::empty() + Seq::<u32>::empty());
        }
    } else {
        lemma_idx_seq_append(inp, lo + 1, hi, v);
        if inp[lo] == v {
            assert(idx_seq(inp, lo, hi + 1, v) =~= idx_seq(inp, lo, hi, v) + (if inp[hi] == v {
                seq![hi as u32]
            } else {
                Seq::<u32>::empty()
            }));
        }
    }
}

/// The chained position index: for each byte value, the window positions at
/// which it occurs, oldest first.
pub struct MatchIndex {
    lists: Vec<Vec<u32>>,
}

impl MatchIndex {
    pub closed spec fn wf(self) -> bool {
        self.lists@.len() == 256
    }

    /// The live position list for byte value `v`, oldest first.
    pub closed spec fn positions(self, v: int) -> Seq<u32> {
        self.lists@[v]@
    }

    pub fn new() -> (r: Self)
        ensures
            r.wf(),
            forall|v: int| 0 <= v < 256 ==> r.positions(v) == Seq::<u32>::empty(),
    {
        let mut lists: Vec<Vec<u32>> = Vec::new();
        let mut k: usize = 0;
        while k < 256
            invariant
                k <= 256,
                lists@.len() == k,
                forall|v: int| 0 <= v < k ==> lists@[v]@ == Seq::<u32>::empty(),
            decreases 256 - k,
        {
            let fresh: Vec<u32> = Vec::new();
            lists.push(fresh);
            k = k + 1;
        }
        MatchIndex { lists }
    }

    /// Appends `p` to byte value `v`'s position list.
    pub fn insert(&mut self, v: u8, p: u32)
        requires
            old(self).wf(),
        ensures
            final(self).wf(),
            final(self).positions(v as int) == old(self).positions(v as int).push(p),
            forall|w: int|
                0 <= w < 256 && w != v ==> final(self).positions(w) == old(self).positions(w),
    {
        self.lists[v as usize].push(p);
    }

    /// Removes the oldest entry for byte value `v` after checking that it is
    /// the position the caller expected; anything else is corruption of the
    /// FIFO eviction order.
    pub fn evict_oldest(&mut self, v: u8, expected: u32) -> (r: Result<(), EncodeError>)
        requires
            old(self).wf(),
        ensures
            final(self).wf(),
            (if old(self).positions(v as int).len() > 0 && old(self).positions(v as int)[0]
                == expected {
                &&& r is Ok
                &&& final(self).positions(v as int) == old(self).positions(v as int).skip(1)
                &&& forall|w: int|
                    0 <= w < 256 && w != v ==> final(self).positions(w) == old(self).positions(w)
            } else {
                r == Err::<(), EncodeError>(EncodeError::IndexCorruption) && *final(self) == *old(
                    self,
                )
            }),
    {
        let head_ok = {
            let lst = &self.lists[v as usize];
            lst.len() > 0 && lst[0] == expected
        };
        if !head_ok {
            return Err(EncodeError::IndexCorruption);
        }
        let _removed = self.lists[v as usize].remove(0);
        proof {
            assert(old(self).positions(v as int).remove(0) =~= old(self).positions(
                v as int,
            ).skip(1));
        }
        Ok(())
    }

    /// The live position list for byte value `v`, oldest first.
    pub fn positions_for(&self, v: u8) -> (r: &Vec<u32>)
        requires
            self.wf(),
        ensures
            r@ == self.positions(v as int),
    {
        &self.lists[v as usize]
    }
}

/// Stepping the candidate scan over positions whose byte cannot match
/// changes nothing.
pub proof fn lemma_search_skip(inp: Seq<u8>, i: int, a: int, b: int, bl: int, bd: int)
    requires
        0 <= i < inp.len(),
        a <= b <= i,
        forall|q: int| a <= q < b ==> #[trigger] inp[q] != inp[i],
    ensures
        spec_search_from(inp, i, a, bl, bd) == spec_search_from(inp, i, b, bl, bd),
    decreases b - a,
{
    if a < b {
        assert(!cand_ok(inp, i, a));
        lemma_search_skip(inp, i, a + 1, b, bl, bd);
    }
}

proof fn lemma_search_from_tie_break(inp: Seq<u8>, i: int, p: int, bl: int, bd: int)
    requires
        0 <= i < inp.len(),
        win_lo(i) <= p <= i,
        forall|q: int|
            win_lo(i) <= q < p && #[trigger] cand_ok(inp, i, q) ==> spec_match_len(inp, q, i)
                <= bl,
        forall|q: int|
            win_lo(i) <= q < p && #[trigger] cand_ok(inp, i, q) && spec_match_len(inp, q, i) == bl
                ==> i - q <= bd,
        bl != 0 ==> exists|q: int|
            win_lo(i) <= q < p && #[trigger] cand_ok(inp, i, q) && spec_match_len(inp, q, i) == bl
                && i - q == bd,
        bl == 0 ==> bd == 0 && forall|q: int|
            win_lo(i) <= q < p ==> !#[trigger] cand_ok(inp, i, q),
        bl == 0 || MIN_MATCH <= bl < MAX_MATCH,
    ensures
        (match spec_search_from(inp, i, p, bl, bd) {
            Some((l, d)) => {
                &&& cand_ok(inp, i, i - d) && spec_match_len(inp, i - d, i) == l
                &&& forall|q: int|
                    #[trigger] cand_ok(inp, i, q) ==> spec_match_len(inp, q, i) <= l
                &&& forall|q: int|
                    #[trigger] cand_ok(inp, i, q) && spec_match_len(inp, q, i) == l ==> i - q <= d
            },
            None => forall|q: int| !#[trigger] cand_ok(inp, i, q),
        }),
    decreases i - p,
{
    if p >= i {
        assert forall|q: int| #[trigger] cand_ok(inp, i, q) implies win_lo(i) <= q < i by {}
        if bl >= MIN_MATCH {
        } else {
        }
    } else if cand_ok(inp, i, p) {
        let cap = if inp.len() - i < MAX_MATCH {
            inp.len() - i
        } else {
            MAX_MATCH as int
        };
        lemma_run_len_props(inp, p, i, cap);
        let l = spec_match_len(inp, p, i);
        if l >= MAX_MATCH {
            assert(l == MAX_MATCH);
            assert forall|q: int| #[trigger] cand_ok(inp, i, q) implies spec_match_len(inp, q, i)
                <= l by {
                let capq = if inp.len() - i < MAX_MATCH {
                    inp.len() - i
                } else {
                    MAX_MATCH as int
                };
                lemma_run_len_props(inp, q, i, capq);
            }
        } else if l > bl {
            lemma_search_from_tie_break(inp, i, p + 1, l, i - p);
        } else {
            assert(bl != 0);
            let qw = choose|q: int|
                win_lo(i) <= q < p && #[trigger] cand_ok(inp, i, q) && spec_match_len(inp, q, i)
                    == bl && i - q == bd;
            assert(i - p < bd);
            lemma_search_from_tie_break(inp, i, p + 1, bl, bd);
        }
    } else {
        lemma_search_from_tie_break(inp, i, p + 1, bl, bd);
    }
}

/// Tie-break determinism: whatever the search returns is a qualifying match
/// of maximal length, and among the maximal candidates it carries the
/// largest displacement — the candidate discovered earliest in the index's
/// oldest-first walk; when it returns nothing, no candidate qualifies at
/// all.
pub proof fn lemma_search_tie_break(inp: Seq<u8>, i: int)
    requires
        0 <= i < inp.len(),
    ensures
        (match spec_search(inp, i) {
            Some((l, d)) => {
                &&& cand_ok(inp, i, i - d) && spec_match_len(inp, i - d, i) == l
                &&& forall|q: int|
                    #[trigger] cand_ok(inp, i, q) ==> spec_match_len(inp, q, i) <= l
                &&& forall|q: int|
                    #[trigger] cand_ok(inp, i, q) && spec_match_len(inp, q, i) == l ==> i - q <= d
            },
            None => forall|q: int| !#[trigger] cand_ok(inp, i, q),
        }),
{
    lemma_search_from_tie_break(inp, i, win_lo(i), 0, 0);
}

/// When nothing in the window qualifies anywhere, the greedy cover is one
/// literal per input byte: no match token is ever emitted.
pub proof fn lemma_all_literals(inp: Seq<u8>, i: int)
    requires
        0 <= i <= inp.len(),
        forall|j: int, p: int| 0 <= j < inp.len() ==> !#[trigger] cand_ok(inp, j, p),
    ensures
        spec_tokens(inp, i) =~= Seq::new(
            (inp.len() - i) as nat,
            |q: int| Token::Literal(inp[i + q]),
        ),
    decreases inp.len() - i,
{
    if i < inp.len() {
        lemma_search_tie_break(inp, i);
        if spec_search(inp, i) is Some {
            let (l, d) = spec_search(inp, i)->Some_0;
            assert(cand_ok(inp, i, i - d));
            assert(false);
        }
        lemma_all_literals(inp, i + 1);
        assert(spec_tokens(inp, i) == seq![Token::Literal(inp[i])] + spec_tokens(inp, i + 1));
    }
}

/// The sliding window: the input buffer, the match index over the live
/// window `[start, stop)`, and the scan cursor.
pub struct CompressWindow<'a> {
    input: &'a [u8],
    hash: MatchIndex,
    full: bool,
    start: u32,
    stop: u32,
    index: u32,
}

impl<'a> CompressWindow<'a> {
    /// The input buffer being scanned.
    pub closed spec fn inp(self) -> Seq<u8> {
        self.input@
    }

    /// The current scan position.
    pub closed spec fn idx(self) -> int {
        self.index as int
    }

    /// The window's invariant: the cursor and window bounds agree, and the
    /// index holds, for every byte value, exactly the window positions that
    /// carry it, oldest first.
    pub closed spec fn wf(self) -> bool {
        &&& self.hash.wf()
        &&& self.input@.len() < 0x1000000
        &&& self.stop == self.index
        &&& self.index <= self.input@.len()
        &&& (self.full <==> self.stop >= WINDOW_LEN)
        &&& self.start == win_lo(self.stop as int)
        &&& forall|v: int|
            0 <= v < 256 ==> self.hash.positions(v) == idx_seq(
                self.input@,
                self.start as int,
                self.stop as int,
                v,
            )
    }

    pub fn new(input: &'a [u8]) -> (r: CompressWindow<'a>)
        requires
            input@.len() < 0x1000000,
        ensures
            r.wf(),
            r.inp() == input@,
            r.idx() == 0,
    {
        let r = CompressWindow {
            input,
            hash: MatchIndex::new(),
            full: false,
            start: 0,
            stop: 0,
            index: 0,
        };
        proof {
            assert forall|v: int| 0 <= v < 256 implies r.hash.positions(v) == idx_seq(
                input@,
                0,
                0,
                v,
            ) by {
                assert(idx_seq(input@, 0, 0, v) =~= Seq::<u32>::empty());
            }
        }
        r
    }

    pub fn input_len(&self) -> (r: u32)
        requires
            self.wf(),
        ensures
            r == self.inp().len(),
    {
        self.input.len() as u32
    }

    /// Indexes the byte under the window's leading edge, evicting the oldest
    /// indexed position first when the window is full, and moves the cursor
    /// one position forward.
    pub fn next(&mut self) -> (r: Result<(), EncodeError>)
        requires
            old(self).wf(),
            old(self).idx() < old(self).inp().len(),
        ensures
            final(self).wf(),
            r is Ok,
            final(self).inp() == old(self).inp(),
            final(self).idx() == old(self).idx() + 1,
    {
        let ghost iseq = self.input@;
        if self.full {
            let olditem = self.input[self.start as usize];
            proof {
                assert(self.hash.positions(olditem as int) == idx_seq(
                    iseq,
                    self.start as int,
                    self.stop as int,
                    olditem as int,
                ));
                assert(idx_seq(iseq, self.start as int, self.stop as int, olditem as int)
                    == seq![self.start] + idx_seq(
                    iseq,
                    self.start as int + 1,
                    self.stop as int,
                    olditem as int,
                ));
            }
            match self.hash.evict_oldest(olditem, self.start) {
                Ok(_) => {
                    proof {
                        assert forall|v: int| 0 <= v < 256 implies self.hash.positions(v)
                            == idx_seq(
                            iseq,
                            self.start as int + 1,
                            self.stop as int,
                            v,
                        ) by {
                            if v == olditem as int {
                                assert((seq![self.start] + idx_seq(
                                    iseq,
                                    self.start as int + 1,
                                    self.stop as int,
                                    v,
                                )).skip(1) =~= idx_seq(
                                    iseq,
                                    self.start as int + 1,
                                    self.stop as int,
                                    v,
                                ));
                            }
                        }
                    }
                },
                Err(e) => {
                    return Err(e);
                },
            }
            self.start = self.start + 1;
        }
        let ghost lo = self.start as int;
        let item = self.input[self.stop as usize];
        self.hash.insert(item, self.stop);
        proof {
            assert forall|v: int| 0 <= v < 256 implies self.hash.positions(v) == idx_seq(
                iseq,
                lo,
                self.stop as int + 1,
                v,
            ) by {
                lemma_idx_seq_append(iseq, lo, self.stop as int, v);
                if v == item as int {
                    assert(idx_seq(iseq, lo, self.stop as int, v).push(self.stop) =~= idx_seq(
                        iseq,
                        lo,
                        self.stop as int,
                        v,
                    ) + seq![self.stop]);
                } else {
                    assert(idx_seq(iseq, lo, self.stop as int, v) + Seq::<u32>::empty()
                        =~= idx_seq(iseq, lo, self.stop as int, v));
                }
            }
        }
        self.stop = self.stop + 1;
        self.index = self.index + 1;
        if !self.full && self.stop >= WINDOW_LEN {
            self.full = true;
        }
        Ok(())
    }

    /// Moves the cursor forward by `n` positions.
    pub fn advance(&mut self, n: u32) -> (r: Result<(), EncodeError>)
        requires
            old(self).wf(),
            old(self).idx() + n <= old(self).inp().len(),
        ensures
            final(self).wf(),
            r is Ok,
            final(self).inp() == old(self).inp(),
            final(self).idx() == old(self).idx() + n,
    {
        let mut k: u32 = 0;
        while k < n
            invariant
                k <= n,
                self.wf(),
                self.inp() == old(self).inp(),
                self.idx() == old(self).idx() + k,
                old(self).idx() + n <= old(self).inp().len(),
            decreases n - k,
        {
            match self.next() {
                Ok(_) => {},
                Err(e) => {
                    return Err(e);
                },
            }
            k = k + 1;
        }
        Ok(())
    }

    /// Length of the match at candidate `start` against the run at
    /// `bufstart`, capped at `MAX_MATCH` and at the end of the input.
    pub fn match_data(&self, start: u32, bufstart: u32) -> (r: u32)
        requires
            self.wf(),
            start < bufstart,
            bufstart < self.inp().len(),
        ensures
            r == spec_match_len(self.inp(), start as int, bufstart as int),
    {
        let ghost iseq = self.input@;
        let n = self.input.len() as u32;
        let rem = n - bufstart;
        let cap = if rem < MAX_MATCH {
            rem
        } else {
            MAX_MATCH
        };
        let mut j: u32 = 0;
        while j < cap && self.input[(start + j) as usize] == self.input[(bufstart + j) as usize]
            invariant
                j <= cap,
                start < bufstart,
                bufstart + cap <= iseq.len(),
                iseq.len() < 0x1000000,
                iseq == self.input@,
                run_len(iseq, start as int, bufstart as int, cap as int) == j + run_len(
                    iseq,
                    start as int + j,
                    bufstart as int + j,
                    cap as int - j,
                ),
            decreases cap - j,
        {
            j = j + 1;
        }
        j
    }

    /// Reports the best qualifying match at the cursor, scanning the index's
    /// candidates oldest first exactly as `spec_search` does.
    pub fn search(&self) -> (r: Option<(u32, u32)>)
        requires
            self.wf(),
            self.idx() < self.inp().len(),
        ensures
            (match r {
                Some((l, d)) => spec_search(self.inp(), self.idx()) == Some((l as int, d as int)),
                None => spec_search(self.inp(), self.idx()) == None::<(int, int)>,
            }),
    {
        let ghost iseq = self.input@;
        let ghost ii = self.index as int;
        let i = self.index;
        let input_byte = self.input[i as usize];
        let lst = self.hash.positions_for(input_byte);
        proof {
            lemma_idx_seq_props(iseq, self.start as int, self.stop as int, input_byte as int);
        }
        let mut bl: u32 = 0;
        let mut bd: u32 = 0;
        let ghost mut pnext: int = win_lo(ii);
        let n_list = lst.len();
        let mut j: usize = 0;
        while j < n_list
            invariant
                j <= n_list,
                n_list == lst@.len(),
                0 <= ii < iseq.len(),
                i as int == ii,
                iseq.len() < 0x1000000,
                self.wf(),
                iseq == self.inp(),
                ii == self.idx(),
                input_byte == iseq[ii],
                lst@ == self.hash.positions(input_byte as int),
                forall|k: int|
                    0 <= k < lst@.len() ==> win_lo(ii) <= #[trigger] lst@[k] < ii && iseq[lst@[k]
                        as int] == input_byte,
                forall|k1: int, k2: int| 0 <= k1 < k2 < lst@.len() ==> lst@[k1] < lst@[k2],
                forall|q: int|
                    win_lo(ii) <= q < ii && iseq[q] == input_byte ==> lst@.contains(q as u32),
                win_lo(ii) <= pnext <= ii,
                j > 0 ==> pnext == lst@[j - 1] + 1,
                j == 0 ==> pnext == win_lo(ii),
                spec_search_from(iseq, ii, pnext, bl as int, bd as int) == spec_search(iseq, ii),
                bl <= MAX_MATCH,
                bd <= WINDOW_LEN,
            decreases n_list - j,
        {
            let p = lst[j];
            proof {
                assert(win_lo(ii) <= p < ii && iseq[p as int] == input_byte);
                assert forall|q: int| pnext <= q < p implies #[trigger] iseq[q] != iseq[ii] by {
                    if iseq[q] == input_byte {
                        assert(lst@.contains(q as u32));
                        let k = choose|k: int| 0 <= k < lst@.len() && lst@[k] == q as u32;
                        if k < j {
                            if j > 0 && k < j - 1 {
                                assert(lst@[k] < lst@[j - 1]);
                            }
                            assert(false);
                        } else {
                            if k > j {
                                assert(lst@[j as int] < lst@[k]);
                            }
                            assert(false);
                        }
                    }
                }
                lemma_search_skip(iseq, ii, pnext, p as int, bl as int, bd as int);
            }
            let ml = self.match_data(p, i);
            let disp = i - p;
            if ml >= MIN_MATCH && disp >= DISP_MIN {
                proof {
                    assert(cand_ok(iseq, ii, p as int));
                }
                if ml >= MAX_MATCH {
                    return Some((ml, disp));
                }
                if ml > bl {
                    bl = ml;
                    bd = disp;
                }
            } else {
                proof {
                    assert(!cand_ok(iseq, ii, p as int));
                }
            }
            proof {
                pnext = p as int + 1;
            }
            j = j + 1;
        }
        proof {
            assert forall|q: int| pnext <= q < ii implies #[trigger] iseq[q] != iseq[ii] by {
                if iseq[q] == input_byte {
                    assert(lst@.contains(q as u32));
                    let k = choose|k: int| 0 <= k < lst@.len() && lst@[k] == q as u32;
                    if n_list > 0 && k < n_list - 1 {
                        assert(lst@[k] < lst@[n_list - 1]);
                    }
                    assert(false);
                }
            }
            lemma_search_skip(iseq, ii, pnext, ii, bl as int, bd as int);
        }
        if bl >= MIN_MATCH {
            Some((bl, bd))
        } else {
            None
        }
    }
}

/// The greedy matcher: drives the window left to right, emitting the best
/// match at each position or a literal when none qualifies.
pub struct Compressor<'a> {
    window: CompressWindow<'a>,
    count: u32,
}

impl<'a> Compressor<'a> {
    pub closed spec fn wf(self) -> bool {
        self.window.wf() && self.count == self.window.idx()
    }

    pub closed spec fn inp(self) -> Seq<u8> {
        self.window.inp()
    }

    /// The next position to be tokenized.
    pub closed spec fn pos(self) -> int {
        self.count as int
    }

    pub fn new(window: CompressWindow<'a>) -> (r: Compressor<'a>)
        requires
            window.wf(),
            window.idx() == 0,
        ensures
            r.wf(),
            r.inp() == window.inp(),
            r.pos() == 0,
    {
        Compressor { window, count: 0 }
    }

    pub fn position(&self) -> (r: u32)
        requires
            self.wf(),
        ensures
            r == self.pos(),
    {
        self.count
    }

    /// Emits the next token of the greedy cover: exactly the head of
    /// `spec_tokens` at the current position, or `None` once the whole input
    /// is covered.
    pub fn next(&mut self) -> (r: Result<Option<Token>, EncodeError>)
        requires
            old(self).wf(),
        ensures
            final(self).wf(),
            final(self).inp() == old(self).inp(),
            (match r {
                Ok(Some(t)) => {
                    &&& old(self).pos() < old(self).inp().len()
                    &&& spec_tokens(old(self).inp(), old(self).pos()) == seq![t] + spec_tokens(
                        final(self).inp(),
                        final(self).pos(),
                    )
                    &&& final(self).pos() == old(self).pos() + token_len(t)
                    &&& final(self).pos() <= final(self).inp().len()
                },
                Ok(None) => old(self).pos() >= old(self).inp().len() && final(self).pos() == old(
                    self,
                ).pos(),
                Err(_) => false,
            }),
    {
        let n = self.window.input_len();
        if self.count >= n {
            return Ok(None);
        }
        let ghost iseq = self.inp();
        let ghost ii = self.pos();
        proof {
            lemma_spec_search_some(iseq, ii);
        }
        match self.window.search() {
            Some((l, d)) => {
                match self.window.advance(l) {
                    Ok(_) => {},
                    Err(e) => {
                        return Err(e);
                    },
                }
                self.count = self.count + l;
                Ok(Some(Token::Match { len: l, disp: d }))
            },
            None => {
                let b = self.window.input[self.count as usize];
                match self.window.next() {
                    Ok(_) => {},
                    Err(e) => {
                        return Err(e);
                    },
                }
                self.count = self.count + 1;
                Ok(Some(Token::Literal(b)))
            },
        }
    }
}

/// Every token of a valid cover keeps the fixed code's ranges.
pub open spec fn tok_in_range(t: Token) -> bool {
    match t {
        Token::Literal(_) => true,
        Token::Match { len, disp } => MIN_MATCH <= len <= MAX_MATCH && 1 <= disp <= WINDOW_LEN,
    }
}

pub proof fn lemma_tokens_in_range(inp: Seq<u8>, k: int, ts: Seq<Token>)
    requires
        tokens_valid(inp, k, ts),
    ensures
        forall|j: int| 0 <= j < ts.len() ==> tok_in_range(#[trigger] ts[j]),
    decreases ts.len(),
{
    if ts.len() > 0 {
        lemma_tokens_in_range(inp, k + token_len(ts[0]), ts.skip(1));
        assert forall|j: int| 0 <= j < ts.len() implies tok_in_range(#[trigger] ts[j]) by {
            if j > 0 {
                assert(ts.skip(1)[j - 1] == ts[j]);
                assert(tok_in_range(ts.skip(1)[j - 1]));
            }
        }
    }
}

/// 1 when the chunk's `k`-th token is a match, 0 otherwise (or past the
/// chunk's end).
pub open spec fn tok_bit(c: Seq<Token>, k: int) -> int {
    if 0 <= k < c.len() && c[k] is Match {
        1
    } else {
        0
    }
}

/// The chunk's flag byte: bit `7 - k` is set exactly when the `k`-th token
/// is a match.
pub open spec fn chunk_flag(c: Seq<Token>) -> u8 {
    (tok_bit(c, 0) * 128 + tok_bit(c, 1) * 64 + tok_bit(c, 2) * 32 + tok_bit(c, 3) * 16 + tok_bit(
        c,
        4,
    ) * 8 + tok_bit(c, 5) * 4 + tok_bit(c, 6) * 2 + tok_bit(c, 7)) as u8
}

/// On-disk bytes of one token in the fixed-code format: a literal is the raw
/// byte; a match is a big-endian 16-bit code, high 4 bits `length - 3`, low
/// 12 bits `displacement - 1`.
pub open spec fn token_bytes(t: Token) -> Seq<u8> {
    match t {
        Token::Literal(b) => seq![b],
        Token::Match { len, disp } => seq![
            ((len - 3) * 16 + (disp - 1) / 256) as u8,
            ((disp - 1) % 256) as u8,
        ],
    }
}

pub open spec fn codes_bytes(c: Seq<Token>) -> Seq<u8>
    decreases c.len(),
{
    if c.len() == 0 {
        Seq::empty()
    } else {
        token_bytes(c[0]) + codes_bytes(c.skip(1))
    }
}

/// How many tokens the next chunk holds: up to 8.
pub open spec fn chunk_size(ts: Seq<Token>) -> int {
    if ts.len() < 8 {
        ts.len() as int
    } else {
        8
    }
}

/// The encoded body: chunks of one flag byte followed by the chunk's token
/// codes.
pub open spec fn encode_body(ts: Seq<Token>) -> Seq<u8>
    decreases ts.len(),
{
    if ts.len() == 0 {
        Seq::empty()
    } else {
        let m = chunk_size(ts);
        seq![chunk_flag(ts.take(m))] + codes_bytes(ts.take(m)) + encode_body(ts.skip(m))
    }
}

/// 0xFF padding bytes to reach a multiple of four.
pub open spec fn pad_len(n: int) -> int {
    if n % 4 == 0 {
        0
    } else {
        4 - n % 4
    }
}

/// The fixed-format 4-byte little-endian header: tag 0x10 in the low byte,
/// the uncompressed length in the remaining 24 bits.
pub open spec fn hdr_bytes(n: int) -> Seq<u8> {
    seq![0x10u8, (n % 256) as u8, ((n / 256) % 256) as u8, ((n / 65536) % 256) as u8]
}

/// The whole fixed-variant stream for an input: header, encoded greedy
/// cover, 0xFF padding.
pub open spec fn spec_compress_nlz10(inp: Seq<u8>) -> Seq<u8> {
    let body = encode_body(spec_tokens(inp, 0));
    hdr_bytes(inp.len() as int) + body + Seq::new(pad_len(body.len() as int) as nat, |k: int| 0xFFu8)
}

/// Compresses a buffer into the fixed-code on-disk format, byte for byte the
/// stream `spec_compress_nlz10` describes; inputs whose length does not fit
/// the header's 24-bit size field are rejected.
pub fn compress_nlz10(input: &[u8]) -> (r: Result<Vec<u8>, EncodeError>)
    ensures
        input@.len() < 0x1000000 ==> (match r {
            Ok(v) => v@ == spec_compress_nlz10(input@) && crate::nlz::spec_decompress(v@) == Ok::<
                Seq<u8>,
                crate::nlz::DecodeError,
            >(input@),
            Err(_) => false,
        }),
        input@.len() >= 0x1000000 ==> r == Err::<Vec<u8>, EncodeError>(EncodeError::InputTooLarge),
{
    let n_in = input.len();
    if n_in >= 0x1000000 {
        return Err(EncodeError::InputTooLarge);
    }
    let ghost iseq = input@;
    let n32 = n_in as u32;

    let mut tokens: Vec<Token> = Vec::new();
    let mut comp = Compressor::new(CompressWindow::new(input));
    while comp.position() < n32
        invariant
            comp.wf(),
            comp.inp() == iseq,
            iseq.len() < 0x1000000,
            n32 == iseq.len(),
            0 <= comp.pos() <= iseq.len(),
            spec_tokens(iseq, 0) == tokens@ + spec_tokens(iseq, comp.pos()),
        decreases iseq.len() - comp.pos(),
    {
        let ghost pre_pos = comp.pos();
        let ghost pre_tokens = tokens@;
        match comp.next() {
            Ok(Some(tok)) => {
                tokens.push(tok);
                proof {
                    assert(pre_tokens + (seq![tok] + spec_tokens(iseq, comp.pos()))
                        =~= pre_tokens.push(tok) + spec_tokens(iseq, comp.pos()));
                }
            },
            Ok(None) => {},
            Err(e) => {
                return Err(e);
            },
        }
    }
    proof {
        assert(spec_tokens(iseq, comp.pos()) =~= Seq::<Token>::empty());
        assert(tokens@ + Seq::<Token>::empty() =~= tokens@);
        assert(tokens@ == spec_tokens(iseq, 0));
        lemma_spec_tokens_valid(iseq, 0);
        lemma_tokens_in_range(iseq, 0, tokens@);
    }

    let mut out: Vec<u8> = Vec::new();
    out.push(0x10u8);
    out.push((n_in % 256) as u8);
    out.push(((n_in / 256) % 256) as u8);
    out.push(((n_in / 65536) % 256) as u8);
    proof {
        assert(out@ =~= hdr_bytes(iseq.len() as int));
    }

    let ghost ts = tokens@;
    let ghost hdr = hdr_bytes(iseq.len() as int);
    let ghost mut emitted = Seq::<u8>::empty();
    proof {
        assert(out@ =~= hdr + emitted);
        assert(ts.skip(0) =~= ts);
    }
    let n_tok = tokens.len();
    let mut t: usize = 0;
    while t < n_tok
        invariant
            t <= n_tok,
            n_tok == ts.len(),
            tokens@ == ts,
            forall|j: int| 0 <= j < ts.len() ==> tok_in_range(#[trigger] ts[j]),
            out@ == hdr + emitted,
            hdr.len() == 4,
            encode_body(ts) == emitted + encode_body(ts.skip(t as int)),
        decreases n_tok - t,
    {
        let rem = n_tok - t;
        let m = if rem < 8 {
            rem
        } else {
            8
        };
        let ghost c = ts.skip(t as int).take(m as int);
        proof {
            assert(c.len() == m);
            assert forall|k: int| 0 <= k < m implies c[k] == ts[t + k] by {
                assert(ts.skip(t as int)[k] == ts[t + k]);
            }
        }
        let mut flag: u8 = 0;
        if matches!(tokens[t], Token::Match { .. }) {
            flag = flag + 128;
        }
        if m > 1 && matches!(tokens[t + 1], Token::Match { .. }) {
            flag = flag + 64;
        }
        if m > 2 && matches!(tokens[t + 2], Token::Match { .. }) {
            flag = flag + 32;
        }
        if m > 3 && matches!(tokens[t + 3], Token::Match { .. }) {
            flag = flag + 16;
        }
        if m > 4 && matches!(tokens[t + 4], Token::Match { .. }) {
            flag = flag + 8;
        }
        if m > 5 && matches!(tokens[t + 5], Token::Match { .. }) {
            flag = flag + 4;
        }
        if m > 6 && matches!(tokens[t + 6], Token::Match { .. }) {
            flag = flag + 2;
        }
        if m > 7 && matches!(tokens[t + 7], Token::Match { .. }) {
            flag = flag + 1;
        }
        proof {
            assert(flag == chunk_flag(c));
        }
        out.push(flag);
        let ghost mut emitted_codes = Seq::<u8>::empty();
        proof {
            assert(c.skip(0) =~= c);
            assert(out@ =~= hdr + emitted + seq![chunk_flag(c)]);
        }
        let end = t + m;
        let mut j: usize = t;
        while j < end
            invariant
                t <= j <= end,
                end == t + m,
                m == c.len(),
                end <= n_tok,
                n_tok == ts.len(),
                tokens@ == ts,
                forall|k: int| 0 <= k < m ==> c[k] == ts[t + k],
                forall|k: int| 0 <= k < ts.len() ==> tok_in_range(#[trigger] ts[k]),
                out@ == hdr + emitted + seq![chunk_flag(c)] + emitted_codes,
                codes_bytes(c) == emitted_codes + codes_bytes(c.skip(j - t)),
            decreases end - j,
        {
            let tok = tokens[j];
            let ghost pre_codes = emitted_codes;
            match tok {
                Token::Literal(b) => {
                    out.push(b);
                    proof {
                        emitted_codes = emitted_codes + seq![b];
                    }
                },
                Token::Match { len, disp } => {
                    if len < MIN_MATCH || len > MAX_MATCH || disp < 1 || disp > WINDOW_LEN {
                        return Err(EncodeError::CodeRangeExceeded);
                    }
                    let b0 = ((len - 3) * 16 + (disp - 1) / 256) as u8;
                    let b1 = ((disp - 1) % 256) as u8;
                    out.push(b0);
                    out.push(b1);
                    proof {
                        emitted_codes = emitted_codes + seq![b0, b1];
                    }
                },
            }
            proof {
                assert(c.skip(j - t).len() == m - (j - t) > 0);
                assert(c.skip(j - t).skip(1) =~= c.skip(j - t + 1));
                assert(c.skip(j - t)[0] == c[j - t]);
                assert(c[j - t] == ts[j as int]);
                assert(codes_bytes(c.skip(j - t)) == token_bytes(c[j - t]) + codes_bytes(
                    c.skip(j - t + 1),
                ));
                assert(emitted_codes =~= pre_codes + token_bytes(tok));
                assert(codes_bytes(c) =~= emitted_codes + codes_bytes(c.skip(j + 1 - t)));
                assert(out@ =~= hdr + emitted + seq![chunk_flag(c)] + emitted_codes);
            }
            j = j + 1;
        }
        proof {
            assert(c.skip(m as int) =~= Seq::<Token>::empty());
            assert(codes_bytes(c) == emitted_codes + codes_bytes(Seq::<Token>::empty()));
            assert(codes_bytes(c) =~= emitted_codes);
            assert(ts.skip(t as int).len() == rem);
            assert(chunk_size(ts.skip(t as int)) == m);
            assert(ts.skip(t as int).take(m as int) == c);
            assert(ts.skip(t as int).skip(m as int) =~= ts.skip(end as int));
            assert(encode_body(ts.skip(t as int)) == seq![chunk_flag(c)] + codes_bytes(c)
                + encode_body(ts.skip(end as int)));
            emitted = emitted + seq![chunk_flag(c)] + emitted_codes;
            assert(out@ =~= hdr + emitted);
            assert(encode_body(ts) =~= emitted + encode_body(ts.skip(end as int)));
        }
        t = end;
    }
    proof {
        assert(ts.skip(n_tok as int) =~= Seq::<Token>::empty());
        assert(encode_body(ts) == emitted);
    }

    let body_len = out.len() - 4;
    let pad = if body_len % 4 == 0 {
        0
    } else {
        4 - body_len % 4
    };
    let ghost padded = pad_len(emitted.len() as int);
    let mut k: usize = 0;
    while k < pad
        invariant
            k <= pad,
            pad == padded,
            out@ == hdr + emitted + Seq::new(k as nat, |q: int| 0xFFu8),
            hdr == hdr_bytes(iseq.len() as int),
            emitted == encode_body(ts),
        decreases pad - k,
    {
        out.push(0xFFu8);
        proof {
            assert(Seq::new((k + 1) as nat, |q: int| 0xFFu8) =~= Seq::new(
                k as nat,
                |q: int| 0xFFu8,
            ).push(0xFFu8));
        }
        k = k + 1;
    }
    proof {
        assert(out@ =~= spec_compress_nlz10(iseq));
        crate::roundtrip::lemma_round_trip(iseq);
    }
    Ok(out)
}

/// Compresses a buffer, returning the fixed-variant stream as a byte vector.
pub fn compress_arr(input: &[u8]) -> (r: Result<Vec<u8>, EncodeError>)
    ensures
        input@.len() < 0x1000000 ==> (match r {
            Ok(v) => v@ == spec_compress_nlz10(input@) && crate::nlz::spec_decompress(v@) == Ok::<
                Seq<u8>,
                crate::nlz::DecodeError,
            >(input@),
            Err(_) => false,
        }),
        input@.len() >= 0x1000000 ==> r == Err::<Vec<u8>, EncodeError>(EncodeError::InputTooLarge),
{
    compress_nlz10(input)
}

} // verus!
