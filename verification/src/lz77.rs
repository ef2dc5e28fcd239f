//! LZ77 match finder used by the encoder.
//!
//! [`MatchFinder`] owns the hash-chain tables (`head` + `prev`, up to
//! 256 KiB combined) so they can be reused across multiple encode calls.
//! The tables are allocated lazily on the first call that actually needs
//! them, and `prev` grows only up to the input length (capped at
//! `WINDOW_SIZE`) — short one-shot encodes don't pay for the full window.
//! Callers provide the `Vec<Lz77Code>` scratch buffer so the token
//! allocation can also be reused across encode passes.
//!
//! [`tokens`] says which tokens come out, and [`lemma_tokens`] that they stand
//! for the input.

use crate::inflate::{copied, lemma_copied, lemma_copied_front};
use crate::symbol::{MAX_MATCH, MIN_MATCH, WINDOW_SIZE};
use vstd::prelude::*;

verus! {

/// How many hash values there are.
pub const HASH_SIZE: usize = 32_768;

/// How many candidates for a match are tried.
pub const MAX_CHAIN_LEN: usize = 32;

/// No position.
pub const NIL: u32 = 0xffff_ffff;

/// One LZ77 token: either a literal byte or a back-reference.
#[derive(Debug, Clone, Copy, PartialEq, Eq, Structural)]
pub enum Lz77Code {
    Literal(u8),
    Pointer { length: usize, distance: usize },
}

// ---------------------------------------------------------------------------
// What the tokens are
// ---------------------------------------------------------------------------

/// The hash of three bytes.
pub open spec fn mix(a: u8, b: u8, c: u8) -> u32 {
    (((a as u32) << 10u32) ^ ((b as u32) << 5u32) ^ (c as u32)) & 0x7fffu32
}

/// The hash of the three bytes at `pos`.
pub open spec fn hash_at(input: Seq<u8>, pos: nat) -> u32 {
    mix(input[pos as int], input[pos as int + 1], input[pos as int + 2])
}

/// The last of the first `n` positions whose hash is `h`.
pub open spec fn last_with(input: Seq<u8>, h: u32, n: nat) -> Option<nat>
    decreases n,
{
    if n == 0 {
        None
    } else if hash_at(input, (n - 1) as nat) == h {
        Some((n - 1) as nat)
    } else {
        last_with(input, h, (n - 1) as nat)
    }
}

/// For how many bytes, `max` at most, the input at `a` and at `b` agrees.
pub open spec fn common(input: Seq<u8>, a: nat, b: nat, max: nat) -> nat
    decreases max,
{
    if max == 0 || input[a as int] != input[b as int] {
        0
    } else {
        1 + common(input, a + 1, b + 1, (max - 1) as nat)
    }
}

/// The length of the longest match that is possible at `cursor`.
pub open spec fn longest(input: Seq<u8>, cursor: nat) -> nat {
    if input.len() - cursor <= MAX_MATCH {
        (input.len() - cursor) as nat
    } else {
        MAX_MATCH as nat
    }
}

/// A position that a match at `cursor` can refer to: one in the window, and
/// not too large for the tables.
pub open spec fn in_reach(q: nat, cursor: nat) -> bool {
    q + WINDOW_SIZE >= cursor && q < NIL
}

/// The length and distance of the best match at `cursor`: the longest one of
/// at least three bytes, and of these the nearest. Only positions with the
/// hash `h` are looked at, from `candidate` backwards, until one is out of
/// reach or there have been too many of them. `best` is what was found before.
pub open spec fn search(
    input: Seq<u8>,
    cursor: nat,
    h: u32,
    candidate: Option<nat>,
    looked_at: nat,
    best: (nat, nat),
) -> (nat, nat)
    decreases MAX_CHAIN_LEN - looked_at,
{
    match candidate {
        None => best,
        Some(q) => if !in_reach(q, cursor) || looked_at >= MAX_CHAIN_LEN {
            best
        } else {
            let length = common(input, q, cursor, longest(input, cursor));
            let better = if length >= MIN_MATCH && length > best.0 {
                (length, (cursor - q) as nat)
            } else {
                best
            };
            search(input, cursor, h, last_with(input, h, q), looked_at + 1, better)
        },
    }
}

/// The match that is taken at `cursor`.
pub open spec fn match_at(input: Seq<u8>, cursor: nat) -> (nat, nat) {
    let h = hash_at(input, cursor);
    search(input, cursor, h, last_with(input, h, cursor), 0, (0, 0))
}

/// The tokens for the input from `cursor` on.
pub open spec fn tokens(input: Seq<u8>, cursor: nat) -> Seq<Lz77Code>
    decreases input.len() - cursor,
{
    if cursor >= input.len() {
        Seq::empty()
    } else {
        let (length, distance) = match_at(input, cursor);
        if cursor + MIN_MATCH <= input.len() && length >= MIN_MATCH {
            proof {
                lemma_match_at(input, cursor);
            }
            seq![Lz77Code::Pointer { length: length as usize, distance: distance as usize }]
                + tokens(input, cursor + length)
        } else {
            seq![Lz77Code::Literal(input[cursor as int])] + tokens(input, cursor + 1)
        }
    }
}

/// What the output becomes by tokens.
pub open spec fn expand(out: Seq<u8>, codes: Seq<Lz77Code>) -> Seq<u8>
    decreases codes.len(),
{
    if codes.len() == 0 {
        out
    } else {
        let next = match codes[0] {
            Lz77Code::Literal(byte) => out.push(byte),
            Lz77Code::Pointer { length, distance } => copied(out, distance as nat, length as nat),
        };
        expand(next, codes.skip(1))
    }
}

/// The lengths and distances are ones that DEFLATE has symbols for, and no
/// distance reaches before the start of the output, which has `n` bytes before
/// the first token.
pub open spec fn codes_ok(codes: Seq<Lz77Code>, n: nat) -> bool
    decreases codes.len(),
{
    codes.len() == 0 || match codes[0] {
        Lz77Code::Literal(byte) => codes_ok(codes.skip(1), n + 1),
        Lz77Code::Pointer { length, distance } => {
            &&& MIN_MATCH <= length <= MAX_MATCH
            &&& 1 <= distance <= WINDOW_SIZE
            &&& distance <= n
            &&& codes_ok(codes.skip(1), n + length as nat)
        },
    }
}

/// A token that DEFLATE has symbols for.
pub open spec fn encodable(code: Lz77Code) -> bool {
    match code {
        Lz77Code::Literal(byte) => true,
        Lz77Code::Pointer { length, distance } => {
            &&& MIN_MATCH <= length <= MAX_MATCH
            &&& 1 <= distance <= WINDOW_SIZE
        },
    }
}

// ---------------------------------------------------------------------------
// What they stand for
// ---------------------------------------------------------------------------

/// Each token of those that are in order can be encoded.
pub proof fn lemma_encodable(codes: Seq<Lz77Code>, n: nat)
    requires
        codes_ok(codes, n),
    ensures
        forall|i: int| 0 <= i < codes.len() ==> encodable(#[trigger] codes[i]),
    decreases codes.len(),
{
    if codes.len() > 0 {
        let more: nat = match codes[0] {
            Lz77Code::Literal(byte) => 1,
            Lz77Code::Pointer { length, distance } => length as nat,
        };
        lemma_encodable(codes.skip(1), n + more);
        assert forall|i: int| 0 <= i < codes.len() implies encodable(#[trigger] codes[i]) by {
            if i > 0 {
                assert(codes.skip(1)[i - 1] == codes[i]);
            }
        }
    }
}

proof fn lemma_last_with(input: Seq<u8>, h: u32, n: nat)
    ensures
        last_with(input, h, n) matches Some(q) ==> q < n && hash_at(input, q) == h,
    decreases n,
{
    if n > 0 {
        lemma_last_with(input, h, (n - 1) as nat);
    }
}

proof fn lemma_common(input: Seq<u8>, a: nat, b: nat, max: nat)
    ensures
        common(input, a, b, max) <= max,
        forall|t: int|
            0 <= t < common(input, a, b, max) ==> #[trigger] input[a + t] == input[b + t],
    decreases max,
{
    if max > 0 && input[a as int] == input[b as int] {
        lemma_common(input, a + 1, b + 1, (max - 1) as nat);
        assert forall|t: int| 0 <= t < common(input, a, b, max) implies #[trigger] input[a + t]
            == input[b + t] by {
            if t > 0 {
                assert(input[a + 1 + (t - 1)] == input[b + 1 + (t - 1)]);
            }
        }
    }
}

/// A match, or none.
pub open spec fn is_match(input: Seq<u8>, cursor: nat, found: (nat, nat)) -> bool {
    found.0 == 0 || {
        &&& MIN_MATCH <= found.0 <= longest(input, cursor)
        &&& 1 <= found.1 <= WINDOW_SIZE
        &&& found.1 <= cursor
        &&& forall|t: int|
            0 <= t < found.0 ==> #[trigger] input[cursor - found.1 + t] == input[cursor + t]
    }
}

proof fn lemma_search(
    input: Seq<u8>,
    cursor: nat,
    h: u32,
    candidate: Option<nat>,
    looked_at: nat,
    best: (nat, nat),
)
    requires
        cursor < input.len(),
        candidate is Some ==> candidate->0 < cursor,
        is_match(input, cursor, best),
    ensures
        is_match(input, cursor, search(input, cursor, h, candidate, looked_at, best)),
        best.0 == longest(input, cursor) ==> search(input, cursor, h, candidate, looked_at, best)
            == best,
    decreases MAX_CHAIN_LEN - looked_at,
{
    if candidate is Some {
        let q = candidate->0;
        if in_reach(q, cursor) && looked_at < MAX_CHAIN_LEN {
            let length = common(input, q, cursor, longest(input, cursor));
            lemma_common(input, q, cursor, longest(input, cursor));
            lemma_last_with(input, h, q);
            let better = if length >= MIN_MATCH && length > best.0 {
                (length, (cursor - q) as nat)
            } else {
                best
            };
            assert(is_match(input, cursor, better)) by {
                if better != best {
                    assert(cursor - better.1 == q);
                }
            }
            lemma_search(input, cursor, h, last_with(input, h, q), looked_at + 1, better);
        }
    }
}

/// What is found at a position is a match there.
pub proof fn lemma_match_at(input: Seq<u8>, cursor: nat)
    requires
        cursor < input.len(),
    ensures
        is_match(input, cursor, match_at(input, cursor)),
{
    let h = hash_at(input, cursor);
    lemma_last_with(input, h, cursor);
    lemma_search(input, cursor, h, last_with(input, h, cursor), 0, (0, 0));
}

/// Copying what is repeated gives what comes next.
proof fn lemma_copy_match(input: Seq<u8>, cursor: nat, distance: nat, length: nat)
    requires
        1 <= distance <= cursor,
        cursor + length <= input.len(),
        forall|t: int|
            0 <= t < length ==> #[trigger] input[cursor - distance + t] == input[cursor + t],
    ensures
        copied(input.take(cursor as int), distance, length) == input.take((cursor + length) as int),
    decreases length,
{
    if length > 0 {
        let out = input.take(cursor as int);
        assert(input[cursor - distance + 0int] == input[cursor + 0int]);
        assert(out.push(out[out.len() - distance]) =~= input.take(cursor as int + 1));
        assert forall|t: int| 0 <= t < length - 1 implies #[trigger] input[cursor + 1 - distance
            + t] == input[cursor + 1 + t] by {
            assert(input[cursor - distance + (t + 1)] == input[cursor + (t + 1)]);
        }
        lemma_copy_match(input, cursor + 1, distance, (length - 1) as nat);
    }
}

/// The tokens from `cursor` on stand for the input from there on, and DEFLATE
/// has symbols for them.
pub proof fn lemma_tokens(input: Seq<u8>, cursor: nat)
    requires
        cursor <= input.len(),
    ensures
        expand(input.take(cursor as int), tokens(input, cursor)) == input,
        codes_ok(tokens(input, cursor), cursor),
    decreases input.len() - cursor,
{
    let codes = tokens(input, cursor);
    if cursor == input.len() {
        assert(input.take(cursor as int) =~= input);
    } else {
        lemma_match_at(input, cursor);
        let (length, distance) = match_at(input, cursor);
        if cursor + MIN_MATCH <= input.len() && length >= MIN_MATCH {
            lemma_copy_match(input, cursor, distance, length);
            lemma_tokens(input, cursor + length);
            assert(codes.skip(1) =~= tokens(input, cursor + length));
        } else {
            assert(input.take(cursor as int).push(input[cursor as int]) =~= input.take(
                cursor as int + 1,
            ));
            lemma_tokens(input, cursor + 1);
            assert(codes.skip(1) =~= tokens(input, cursor + 1));
        }
    }
}

/// There are no more tokens than bytes.
pub proof fn lemma_tokens_len(input: Seq<u8>, cursor: nat)
    requires
        cursor <= input.len(),
    ensures
        tokens(input, cursor).len() <= input.len() - cursor,
    decreases input.len() - cursor,
{
    if cursor < input.len() {
        lemma_match_at(input, cursor);
        let (length, distance) = match_at(input, cursor);
        if cursor + MIN_MATCH <= input.len() && length >= MIN_MATCH {
            lemma_tokens_len(input, cursor + length);
        } else {
            lemma_tokens_len(input, cursor + 1);
        }
    }
}

/// Tokens that do not reach before `out` expand behind anything.
pub proof fn lemma_expand_behind(front: Seq<u8>, out: Seq<u8>, codes: Seq<Lz77Code>)
    requires
        codes_ok(codes, out.len()),
    ensures
        expand(front + out, codes) == front + expand(out, codes),
        codes_ok(codes, front.len() + out.len()),
    decreases codes.len(),
{
    if codes.len() > 0 {
        match codes[0] {
            Lz77Code::Literal(byte) => {
                assert((front + out).push(byte) =~= front + out.push(byte));
                lemma_expand_behind(front, out.push(byte), codes.skip(1));
            },
            Lz77Code::Pointer { length, distance } => {
                lemma_copied_front(front, out, distance as nat, length as nat);
                lemma_copied(out, distance as nat, length as nat);
                lemma_expand_behind(
                    front,
                    copied(out, distance as nat, length as nat),
                    codes.skip(1),
                );
            },
        }
    }
}

// ---------------------------------------------------------------------------
// No better match is passed over
// ---------------------------------------------------------------------------

/// How many of the positions behind `q` up to `c` have the hash `h`.
spec fn between(input: Seq<u8>, h: u32, q: nat, c: nat) -> nat
    decreases c,
{
    if c <= q {
        0
    } else {
        between(input, h, q, (c - 1) as nat) + if hash_at(input, c) == h {
            1nat
        } else {
            0nat
        }
    }
}

proof fn lemma_last_with_least(input: Seq<u8>, h: u32, q: nat, n: nat)
    requires
        q < n,
        hash_at(input, q) == h,
    ensures
        last_with(input, h, n) matches Some(c) && q <= c < n && hash_at(input, c) == h && between(
            input,
            h,
            q,
            c,
        ) == between(input, h, q, (n - 1) as nat),
    decreases n,
{
    if hash_at(input, (n - 1) as nat) != h {
        lemma_last_with_least(input, h, q, (n - 1) as nat);
    }
}

proof fn lemma_search_keeps(
    input: Seq<u8>,
    cursor: nat,
    h: u32,
    candidate: Option<nat>,
    looked_at: nat,
    best: (nat, nat),
)
    ensures
        ({
            let found = search(input, cursor, h, candidate, looked_at, best);
            found == best || found.0 > best.0
        }),
    decreases MAX_CHAIN_LEN - looked_at,
{
    if candidate is Some {
        let q = candidate->0;
        if in_reach(q, cursor) && looked_at < MAX_CHAIN_LEN {
            let length = common(input, q, cursor, longest(input, cursor));
            let better = if length >= MIN_MATCH && length > best.0 {
                (length, (cursor - q) as nat)
            } else {
                best
            };
            lemma_search_keeps(input, cursor, h, last_with(input, h, q), looked_at + 1, better);
        }
    }
}

proof fn lemma_common_least(input: Seq<u8>, a: nat, b: nat, n: nat, max: nat)
    requires
        n <= max,
        forall|t: int| 0 <= t < n ==> #[trigger] input[a + t] == input[b + t],
    ensures
        common(input, a, b, max) >= n,
    decreases n,
{
    if n > 0 {
        assert(input[a + 0int] == input[b + 0int]);
        assert forall|t: int| 0 <= t < n - 1 implies #[trigger] input[a + 1 + t] == input[b + 1
            + t] by {
            assert(input[a + (t + 1)] == input[b + (t + 1)]);
        }
        lemma_common_least(input, a + 1, b + 1, (n - 1) as nat, (max - 1) as nat);
    }
}

proof fn lemma_search_reaches(
    input: Seq<u8>,
    cursor: nat,
    h: u32,
    c: nat,
    looked_at: nat,
    best: (nat, nat),
    q: nat,
)
    requires
        q <= c < cursor <= 0xffff_ffff,
        cursor - q <= 32768,
        hash_at(input, q) == h,
        hash_at(input, c) == h,
        looked_at + between(input, h, q, c) < 32,
        best.0 > 0 ==> best.1 <= cursor - q,
        common(input, q, cursor, longest(input, cursor)) >= 3,
    ensures
        ({
            let length = common(input, q, cursor, longest(input, cursor));
            let found = search(input, cursor, h, Some(c), looked_at, best);
            &&& found.0 >= length
            &&& found.0 == length ==> found.1 <= cursor - q
        }),
    decreases c,
{
    let length = common(input, c, cursor, longest(input, cursor));
    let better = if length >= MIN_MATCH && length > best.0 {
        (length, (cursor - c) as nat)
    } else {
        best
    };
    let next = last_with(input, h, c);
    if c == q {
        lemma_search_keeps(input, cursor, h, next, looked_at + 1, better);
    } else {
        lemma_last_with_least(input, h, q, c);
        lemma_search_reaches(input, cursor, h, next->0, looked_at + 1, better, q);
    }
}

proof fn lemma_between(input: Seq<u8>, h: u32, q: nat, k: nat, same: spec_fn(int) -> bool)
    requires
        forall|p: int| q < p <= q + k ==> #[trigger] same(p) == (hash_at(input, p as nat) == h),
    ensures
        between(input, h, q, q + k) == Seq::new(k, |i: int| q + 1 + i).filter(same).len(),
    decreases k,
{
    reveal(Seq::filter);
    let places = Seq::new(k, |i: int| q + 1 + i);
    if k > 0 {
        lemma_between(input, h, q, (k - 1) as nat, same);
        assert(places.drop_last() =~= Seq::new((k - 1) as nat, |i: int| q + 1 + i));
        assert(places.last() == q + k);
    }
}

/// No candidate that is looked at gives a longer match than the one that is
/// taken, or one as long and nearer.
///
/// The candidates are the positions up to 32768 bytes back at which three bytes
/// with the same hash stand, the nearest 32 of them. If the input agrees with
/// itself at such a position `q` for `n` bytes, from 3 to 258, the match has at
/// least `n` bytes.
pub proof fn lemma_longest_match(input: Seq<u8>, cursor: nat, q: nat, n: nat)
    requires
        q < cursor <= 0xffff_ffff,
        cursor - q <= 32768,
        3 <= n <= 258,
        cursor + n <= input.len(),
        forall|t: int| 0 <= t < n ==> #[trigger] input[q + t] == input[cursor + t],
        Seq::new((cursor - q - 1) as nat, |i: int| q + 1 + i).filter(
            |p: int|
                ((input[p] as u32) << 10u32 ^ (input[p + 1] as u32) << 5u32 ^ (input[p
                    + 2] as u32)) & 0x7fffu32 == ((input[cursor as int] as u32) << 10u32 ^ (
                input[cursor + 1int] as u32) << 5u32 ^ (input[cursor + 2int] as u32)) & 0x7fffu32,
        ).len() < 32,
    ensures
        match_at(input, cursor).0 >= n,
        match_at(input, cursor).0 == n ==> match_at(input, cursor).1 <= cursor - q,
        tokens(input, cursor).len() > 0,
        tokens(input, cursor)[0] matches Lz77Code::Pointer { length, distance } && length
            == match_at(input, cursor).0 && distance == match_at(input, cursor).1,
{
    let h = hash_at(input, cursor);
    let same = |p: int|
        ((input[p] as u32) << 10u32 ^ (input[p + 1] as u32) << 5u32 ^ (input[p + 2] as u32))
            & 0x7fffu32 == ((input[cursor as int] as u32) << 10u32 ^ (input[cursor + 1int] as u32)
            << 5u32 ^ (input[cursor + 2int] as u32)) & 0x7fffu32;
    let k = (cursor - q - 1) as nat;
    assert(input[q + 0int] == input[cursor + 0int]);
    assert(input[q + 1int] == input[cursor + 1int]);
    assert(input[q + 2int] == input[cursor + 2int]);
    assert(hash_at(input, q) == h);
    lemma_between(input, h, q, k, same);
    lemma_common_least(input, q, cursor, n, longest(input, cursor));
    lemma_last_with_least(input, h, q, cursor);
    lemma_search_reaches(input, cursor, h, last_with(input, h, cursor)->0, 0, (0, 0), q);
    lemma_match_at(input, cursor);
}

/// A token that is no match is the byte itself, and the next token goes on
/// where it ends.
pub proof fn lemma_next_token(input: Seq<u8>, cursor: nat)
    requires
        cursor < input.len(),
    ensures
        tokens(input, input.len()).len() == 0,
        tokens(input, cursor).len() > 0,
        match tokens(input, cursor)[0] {
            Lz77Code::Literal(byte) => {
                &&& byte == input[cursor as int]
                &&& tokens(input, cursor).skip(1) == tokens(input, cursor + 1)
            },
            Lz77Code::Pointer { length, distance } => {
                &&& 3 <= length <= 258
                &&& cursor + length <= input.len()
                &&& 1 <= distance <= 32768
                &&& distance <= cursor
                &&& forall|t: int|
                    0 <= t < length ==> #[trigger] input[cursor - distance + t] == input[cursor + t]
                &&& tokens(input, cursor).skip(1) == tokens(input, cursor + length as nat)
            },
        },
{
    lemma_match_at(input, cursor);
    let (length, distance) = match_at(input, cursor);
    if cursor + MIN_MATCH <= input.len() && length >= MIN_MATCH {
        assert(tokens(input, cursor).skip(1) =~= tokens(input, cursor + length));
    } else {
        assert(tokens(input, cursor).skip(1) =~= tokens(input, cursor + 1));
    }
}

// ---------------------------------------------------------------------------
// Execution
// ---------------------------------------------------------------------------

fn hash3(input: &[u8], pos: usize) -> (h: usize)
    requires
        pos + 3 <= input@.len(),
    ensures
        h == hash_at(input@, pos as nat),
        h < HASH_SIZE,
{
    let a: u32 = input[pos] as u32;
    let b: u32 = input[pos + 1] as u32;
    let c: u32 = input[pos + 2] as u32;
    assert(((a << 10u32) ^ (b << 5u32) ^ c) & 0x7fffu32 < 32768) by (bit_vector);
    (((a << 10u32) ^ (b << 5u32) ^ c) & 0x7fffu32) as usize
}

/// Longest common prefix length of `input[a..]` and `input[b..]` up to
/// `max` bytes.
fn longest_common_prefix(input: &[u8], a: usize, b: usize, max: usize) -> (length: usize)
    requires
        a < b,
        b + max <= input@.len(),
    ensures
        length == common(input@, a as nat, b as nat, max as nat),
{
    let end: usize = input.len();
    let mut i: usize = 0;
    while i < max && input[a + i] == input[b + i]
        invariant
            i <= max,
            a < b,
            b + max <= end == input@.len(),
            common(input@, a as nat, b as nat, max as nat) == i + common(
                input@,
                (a + i) as nat,
                (b + i) as nat,
                (max - i) as nat,
            ),
        decreases max - i,
    {
        i += 1;
    }
    i
}

/// A position as the tables hold it.
spec fn entry(p: Option<nat>) -> u32 {
    match p {
        None => NIL,
        Some(q) => (q as u64) as u32,
    }
}

/// The tables lead from each hash to the last of the first `n` positions that
/// has it, and from each of these that is in the window to the one before.
spec fn tables_ok(input: Seq<u8>, head: Seq<u32>, prev: Seq<u32>, n: nat) -> bool {
    &&& head.len() == HASH_SIZE
    &&& prev.len() >= input.len() || prev.len() >= WINDOW_SIZE
    &&& forall|h: u32| h < HASH_SIZE ==> #[trigger] head[h as int] == entry(last_with(input, h, n))
    &&& forall|q: nat|
        q < n <= q + WINDOW_SIZE ==> prev[#[trigger] slot(q)] == entry(
            last_with(input, hash_at(input, q), q),
        )
}

/// Where the position before `q` is held.
spec fn slot(q: nat) -> int {
    q as int % WINDOW_SIZE as int
}

/// An entry that is too large was cut off to a position before the window.
proof fn lemma_entry(q: u64, cursor: u64)
    requires
        q < cursor,
    ensures
        q <= NIL ==> (q as u32) == q,
        q > NIL ==> (q as u32) + WINDOW_SIZE < cursor,
{
    assert(q <= 0xffff_ffff ==> (q as u32) == q) by (bit_vector);
    assert(q > 0xffff_ffff ==> (q as u32) + 0x1_0000_0000 <= q) by (bit_vector);
}

/// Hash-chain match finder with reusable internal tables.
#[derive(Debug)]
pub struct MatchFinder {
    /// `HASH_SIZE` slots once allocated; empty before the first call
    /// that needs hashing (input shorter than `MIN_MATCH` skips the
    /// allocation entirely).
    head: Vec<u32>,
    /// Up to `WINDOW_SIZE` slots; grown on demand to cover the longest
    /// input seen so far so that short one-shot encodes don't pay for
    /// the full 32 KiB window.
    prev: Vec<u32>,
    /// `head` has been dirtied by a previous `fill_symbols` call and
    /// needs to be re-filled with `NIL` before the next run. False
    /// while `head` is empty.
    head_dirty: bool,
}

impl MatchFinder {
    /// The tables have their sizes, and what was left in them is known to be
    /// there.
    pub closed spec fn wf(self) -> bool {
        &&& self.head@.len() == 0 || self.head@.len() == HASH_SIZE
        &&& self.head@.len() > 0 ==> self.head_dirty
    }

    /// There is nothing in the tables.
    pub closed spec fn blank(self) -> bool {
        self.head@.len() == 0 && self.prev@.len() == 0
    }

    /// A match finder without tables.
    pub fn new() -> (finder: Self)
        ensures
            finder.wf(),
            finder.blank(),
    {
        MatchFinder { head: Vec::new(), prev: Vec::new(), head_dirty: false }
    }

    /// Make the tables ready for an input of which no position has been entered.
    fn prepare(&mut self, input: &[u8])
        requires
            old(self).wf(),
        ensures
            final(self).wf(),
            tables_ok(input@, final(self).head@, final(self).prev@, 0),
    {
        if self.head.len() == 0 {
            self.head = vec![NIL; HASH_SIZE];
        } else if self.head_dirty {
            let mut i: usize = 0;
            while i < HASH_SIZE
                invariant
                    i <= HASH_SIZE,
                    self.head@.len() == HASH_SIZE,
                    self.head_dirty,
                    forall|k: int| 0 <= k < i ==> #[trigger] self.head@[k] == NIL,
                decreases HASH_SIZE - i,
            {
                self.head.set(i, NIL);
                i += 1;
            }
        }
        self.head_dirty = true;
        // `prev` is indexed by `pos % WINDOW_SIZE`. For inputs shorter than
        // `WINDOW_SIZE` that is `pos`, so we only need `input.len()` slots;
        // for longer inputs we need the full window. Grow lazily to cover
        // this call without ever shrinking.
        let prev_needed: usize = if input.len() < WINDOW_SIZE {
            input.len()
        } else {
            WINDOW_SIZE
        };
        while self.prev.len() < prev_needed
            invariant
                prev_needed == if input@.len() < WINDOW_SIZE {
                    input@.len()
                } else {
                    WINDOW_SIZE as nat
                },
                self.head@.len() == HASH_SIZE,
                self.head_dirty,
                forall|k: int| 0 <= k < HASH_SIZE ==> #[trigger] self.head@[k] == NIL,
            decreases prev_needed - self.prev@.len(),
        {
            self.prev.push(NIL);
        }
    }

    /// Enter a position, the first one that has not been entered.
    #[verifier::spinoff_prover]
    #[verifier::rlimit(60)]
    fn enter(&mut self, input: &[u8], pos: usize)
        requires
            old(self).wf(),
            pos + MIN_MATCH <= input@.len(),
            tables_ok(input@, old(self).head@, old(self).prev@, pos as nat),
        ensures
            final(self).wf(),
            tables_ok(input@, final(self).head@, final(self).prev@, pos as nat + 1),
    {
        let h: usize = hash3(input, pos);
        let before: u32 = self.head[h];
        let ghost n = pos as nat;
        proof {
            assert(before == entry(last_with(input@, h as u32, n)));
            assert(slot(n) < self.prev@.len());
        }
        self.prev.set(pos % WINDOW_SIZE, before);
        self.head.set(h, (pos as u64) as u32);
        proof {
            let hv = hash_at(input@, n);
            assert forall|k: u32| k < HASH_SIZE implies #[trigger] self.head@[k as int] == entry(
                last_with(input@, k, n + 1),
            ) by {
                assert(old(self).head@[k as int] == entry(last_with(input@, k, n)));
            }
            assert forall|q: nat| q < n + 1 <= q + WINDOW_SIZE implies self.prev@[#[trigger] slot(
                q,
            )] == entry(last_with(input@, hash_at(input@, q), q)) by {
                if q < n {
                    assert(slot(q) != slot(n));
                    assert(old(self).prev@[slot(q)] == entry(
                        last_with(input@, hash_at(input@, q), q),
                    ));
                }
            }
        }
    }

    /// The best match at `cursor`. Its length is zero if there is none.
    fn find_match(&self, input: &[u8], cursor: usize) -> (found: (usize, usize))
        requires
            self.wf(),
            cursor + MIN_MATCH <= input@.len(),
            tables_ok(input@, self.head@, self.prev@, cursor as nat),
        ensures
            (found.0 as nat, found.1 as nat) == match_at(input@, cursor as nat),
    {
        let ghost c = cursor as nat;
        let h: usize = hash3(input, cursor);
        let ghost hv = h as u32;
        let end: usize = input.len();
        let max_length: usize = if input.len() - cursor < MAX_MATCH {
            input.len() - cursor
        } else {
            MAX_MATCH
        };
        let search_start: usize = if cursor < WINDOW_SIZE {
            0
        } else {
            cursor - WINDOW_SIZE
        };
        let mut best_length: usize = 0;
        let mut best_distance: usize = 0;
        let mut chain_pos: u32 = self.head[h];
        let mut chain_count: usize = 0;
        let ghost mut candidate = last_with(input@, hv, c);
        proof {
            lemma_last_with(input@, hv, c);
            assert(self.head@[hv as int] == entry(candidate));
            if candidate is Some {
                lemma_entry(candidate->0 as u64, cursor as u64);
            }
        }
        while chain_pos != NIL && chain_pos as usize >= search_start && (chain_pos as usize)
            < cursor && chain_count < MAX_CHAIN_LEN
            invariant_except_break
                best_length < max_length,
                candidate is Some ==> (candidate->0 > NIL ==> chain_pos + WINDOW_SIZE < cursor) && (
                candidate->0 <= NIL ==> chain_pos == candidate->0),
                candidate is Some ==> candidate->0 < cursor && hash_at(input@, candidate->0) == hv,
                chain_pos == entry(candidate),
                chain_count <= MAX_CHAIN_LEN,
                is_match(input@, c, (best_length as nat, best_distance as nat)),
                search(
                    input@,
                    c,
                    hv,
                    candidate,
                    chain_count as nat,
                    (best_length as nat, best_distance as nat),
                ) == match_at(input@, c),
            invariant
                self.wf(),
                c == cursor,
                hv == hash_at(input@, c),
                cursor + MIN_MATCH <= end == input@.len(),
                max_length == longest(input@, c),
                search_start == if cursor < WINDOW_SIZE {
                    0
                } else {
                    cursor - WINDOW_SIZE
                },
                tables_ok(input@, self.head@, self.prev@, c),
            ensures
                match_at(input@, c) == (best_length as nat, best_distance as nat),
            decreases MAX_CHAIN_LEN - chain_count,
        {
            let position: usize = chain_pos as usize;
            let ghost q = position as nat;
            assert(candidate == Some(q));
            assert(in_reach(q, c));
            proof {
                lemma_common(input@, q, c, max_length as nat);
            }
            // Pre-check `best_length` position to short-circuit candidates
            // that can't possibly beat the current best.
            if best_length == 0 || (input[position + best_length] == input[cursor + best_length]
                && input[position] == input[cursor]) {
                let length: usize = longest_common_prefix(input, position, cursor, max_length);
                if length >= MIN_MATCH && length > best_length {
                    best_length = length;
                    best_distance = cursor - position;
                    assert(is_match(input@, c, (best_length as nat, best_distance as nat))) by {
                        assert(c - (cursor - position) == q);
                    }
                    if length == max_length {
                        proof {
                            lemma_last_with(input@, hv, q);
                            lemma_search(
                                input@,
                                c,
                                hv,
                                last_with(input@, hv, q),
                                chain_count as nat + 1,
                                (best_length as nat, best_distance as nat),
                            );
                        }
                        break;
                    }
                }
            } else {
                proof {
                    if common(input@, q, c, max_length as nat) > best_length {
                        assert(input@[q + best_length as int] == input@[c + best_length as int]);
                        assert(input@[q + 0int] == input@[c + 0int]);
                    }
                }
            }
            assert(slot(q) < self.prev@.len());
            chain_pos = self.prev[position % WINDOW_SIZE];
            chain_count += 1;
            proof {
                candidate = last_with(input@, hv, q);
                lemma_last_with(input@, hv, q);
                assert(self.prev@[slot(q)] == entry(candidate));
                if candidate is Some {
                    lemma_entry(candidate->0 as u64, cursor as u64);
                }
            }
        }
        (best_length, best_distance)
    }

    /// Produce LZ77 tokens for `input` into `symbols`. The hash tables
    /// are allocated lazily on the first call with `input.len() >=
    /// MIN_MATCH` and reused thereafter. `head` is reset only when
    /// dirtied by a prior call; `prev` does not need to be reset
    /// because every entry is overwritten before being read (each
    /// position writes its entry of `prev` before later code walks the
    /// chain through that same entry).
    pub fn fill_symbols(&mut self, input: &[u8], symbols: &mut Vec<Lz77Code>)
        requires
            old(self).wf(),
        ensures
            final(self).wf(),
            final(symbols)@ == tokens(input@, 0),
            expand(Seq::empty(), final(symbols)@) == input@,
            codes_ok(final(symbols)@, 0),
    {
        symbols.clear();
        let ghost all = tokens(input@, 0);
        proof {
            lemma_tokens(input@, 0);
            assert(input@.take(0) =~= Seq::<u8>::empty());
            assert(symbols@ + tokens(input@, 0) =~= all);
        }
        if input.len() < MIN_MATCH {
            let mut i: usize = 0;
            while i < input.len()
                invariant
                    i <= input@.len() < MIN_MATCH,
                    symbols@ + tokens(input@, i as nat) == all,
                decreases input@.len() - i,
            {
                let ghost before = symbols@;
                symbols.push(Lz77Code::Literal(input[i]));
                assert(symbols@ + tokens(input@, i as nat + 1) =~= before + tokens(
                    input@,
                    i as nat,
                ));
                i += 1;
            }
            assert(symbols@ =~= all);
            return;
        }
        self.prepare(input);
        let mut cursor: usize = 0;
        while cursor < input.len()
            invariant
                cursor <= input@.len(),
                MIN_MATCH <= input@.len(),
                self.wf(),
                cursor + MIN_MATCH <= input@.len() ==> tables_ok(
                    input@,
                    self.head@,
                    self.prev@,
                    cursor as nat,
                ),
                symbols@ + tokens(input@, cursor as nat) == all,
            decreases input@.len() - cursor,
        {
            let ghost before = symbols@;
            let ghost c = cursor as nat;
            if input.len() - cursor < MIN_MATCH {
                symbols.push(Lz77Code::Literal(input[cursor]));
                cursor += 1;
                assert(symbols@ + tokens(input@, c + 1) =~= before + tokens(input@, c));
            } else {
                let (best_length, best_distance): (usize, usize) = self.find_match(input, cursor);
                proof {
                    lemma_match_at(input@, c);
                }
                self.enter(input, cursor);
                if best_length >= MIN_MATCH {
                    let mut i: usize = 1;
                    while i < best_length
                        invariant
                            1 <= i <= best_length,
                            cursor + best_length <= input@.len(),
                            self.wf(),
                            cursor + i + MIN_MATCH <= input@.len() + 1 ==> tables_ok(
                                input@,
                                self.head@,
                                self.prev@,
                                (cursor + i) as nat,
                            ),
                        decreases best_length - i,
                    {
                        if input.len() - (cursor + i) >= MIN_MATCH {
                            self.enter(input, cursor + i);
                        }
                        i += 1;
                    }
                    symbols.push(
                        Lz77Code::Pointer { length: best_length, distance: best_distance },
                    );
                    cursor += best_length;
                    assert(symbols@ + tokens(input@, c + best_length as nat) =~= before + tokens(
                        input@,
                        c,
                    ));
                } else {
                    symbols.push(Lz77Code::Literal(input[cursor]));
                    cursor += 1;
                    assert(symbols@ + tokens(input@, c + 1) =~= before + tokens(input@, c));
                }
            }
        }
        assert(symbols@ =~= all);
    }
}

} // verus!
