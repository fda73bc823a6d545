//! What the hash table and the search for repetitions guarantee together.
use super::hash;
use super::pattern;
use super::pattern::MatchResult;
use super::state::ImplodeState;
use super::{HASH_TABLE_SIZE, MAX_REP_LENGTH, WORK_BUFF_SIZE};
use crate::bits::Bits;
use crate::codes;
use crate::common::{CompressionMode, DictionarySize};
use crate::explode::model;
use crate::explode::model::{Decoder, Token};
use crate::explode::pieces;
use crate::explode::OUT_START;
use crate::roundtrip;
use crate::tables::{
    CH_BITS_ASC, CH_CODE_ASC, DIST_BITS, DIST_CODE, EX_LEN_BITS, LEN_BASE, LEN_BITS, LEN_CODE,
};
use vstd::arithmetic::power2;
use vstd::prelude::*;

verus! {

/// In ascending order, without repeats.
pub open spec fn ascending(offsets: Seq<u16>) -> bool {
    forall|j: int, k: int|
        0 <= j < k < offsets.len() ==> (#[trigger] offsets[j]) < #[trigger] offsets[k]
}

/// The part of ascending offsets that lies in a window.
proof fn lemma_in_window(offsets: Seq<u16>, low: int, current: int, x: usize)
    requires
        ascending(offsets),
    ensures
        hash::in_window(offsets, low, current).contains(x) <==> low <= x < current && x
            <= u16::MAX && offsets.contains(x as u16),
    decreases offsets.len(),
{
    let all = hash::in_window(offsets, low, current);
    if offsets.len() > 0 {
        let rest = offsets.drop_first();
        let head = offsets[0];
        assert forall|j: int, k: int| 0 <= j < k < rest.len() implies (#[trigger] rest[j])
            < #[trigger] rest[k] by {
            assert(rest[j] == offsets[j + 1] && rest[k] == offsets[k + 1]);
        }
        lemma_in_window(rest, low, current, x);
        assert(x <= u16::MAX ==> (offsets.contains(x as u16) <==> x == head || rest.contains(
            x as u16,
        ))) by {
            if x <= u16::MAX {
                let y = x as u16;
                if offsets.contains(y) {
                    let i = offsets.index_of(y);
                    if i > 0 {
                        assert(rest[i - 1] == y);
                    }
                }
                if rest.contains(y) {
                    let i = rest.index_of(y);
                    assert(offsets[i + 1] == y);
                }
                if head == y {
                    assert(offsets[0] == y);
                }
            }
        }
        if head >= current {
            assert(all.len() == 0);
            if x <= u16::MAX && offsets.contains(x as u16) {
                let i = offsets.index_of(x as u16);
                assert(offsets[0] <= offsets[i]);
            }
        } else if head >= low {
            let tail = hash::in_window(rest, low, current);
            assert(all =~= seq![head as usize] + tail);
            if all.contains(x) {
                let i = all.index_of(x);
                if i > 0 {
                    assert(tail[i - 1] == x);
                }
            }
            if tail.contains(x) {
                let i = tail.index_of(x);
                assert(all[i + 1] == x);
            }
            if x == head {
                assert(all[0] == x);
            }
        }
    } else {
        assert(all.len() == 0);
    }
}

/// The part of ascending offsets that lies in a window is ascending.
proof fn lemma_in_window_ascending(offsets: Seq<u16>, low: int, current: int)
    requires
        ascending(offsets),
    ensures
        forall|j: int, k: int|
            0 <= j < k < hash::in_window(offsets, low, current).len() ==> (
            #[trigger] hash::in_window(offsets, low, current)[j]) < #[trigger] hash::in_window(
                offsets,
                low,
                current,
            )[k],
        forall|k: int|
            offsets.len() > 0 && 0 <= k < hash::in_window(offsets, low, current).len()
                ==> offsets[0] <= #[trigger] hash::in_window(offsets, low, current)[k],
    decreases offsets.len(),
{
    if offsets.len() > 0 && offsets[0] < current {
        let rest = offsets.drop_first();
        let head = offsets[0];
        assert forall|j: int, k: int| 0 <= j < k < rest.len() implies (#[trigger] rest[j])
            < #[trigger] rest[k] by {
            assert(rest[j] == offsets[j + 1] && rest[k] == offsets[k + 1]);
        }
        lemma_in_window_ascending(rest, low, current);
        let all = hash::in_window(offsets, low, current);
        let tail = hash::in_window(rest, low, current);
        assert forall|k: int| 0 <= k < tail.len() implies head < #[trigger] tail[k] by {
            if rest.len() > 0 {
                assert(rest[0] == offsets[1]);
            }
        }
        if head >= low {
            assert(all =~= seq![head as usize] + tail);
            assert forall|j: int, k: int| 0 <= j < k < all.len() implies (#[trigger] all[j])
                < #[trigger] all[k] by {
                assert(all[k] == tail[k - 1]);
                if j > 0 {
                    assert(all[j] == tail[j - 1]);
                }
            }
            assert forall|k: int| 0 <= k < all.len() implies head <= #[trigger] all[k] by {
                if k > 0 {
                    assert(all[k] == tail[k - 1]);
                }
            }
        }
    }
}

/// In a table that `sort_buffer` has built, every run of offsets lies in the table, and holds the
/// occurrences of its hash.
pub proof fn law_buckets_hold_the_occurrences(state: &ImplodeState, begin: int, end: int, hash: int)
    requires
        state.indexes(begin, end),
        0 <= begin <= end < WORK_BUFF_SIZE,
        0 <= hash < HASH_TABLE_SIZE,
        hash + 1 == HASH_TABLE_SIZE ==> state.pair_count == end - begin,
    ensures
        state.bucket_ok(hash),
        state.bucket(hash).len() == hash::occurrences(state.work_buff@, begin, end, hash).len(),
        forall|k: int|
            0 <= k < state.bucket(hash).len() ==> #[trigger] state.bucket(hash)[k]
                == hash::occurrences(state.work_buff@, begin, end, hash)[k] - begin,
{
    let work = state.work_buff@;
    let found = hash::occurrences(work, begin, end, hash);
    hash::lemma_count_all(work, begin, end);
    hash::lemma_count_mono(work, begin, end, hash, HASH_TABLE_SIZE as int);
    assert(hash::count_below(work, begin, end, hash + 1) == hash::count_below(
        work,
        begin,
        end,
        hash,
    ) + found.len());
    assert forall|k: int| 0 <= k < state.bucket(hash).len() implies #[trigger] state.bucket(hash)[k]
        == found[k] - begin by {
        assert(state.phash_offs@[hash::count_below(work, begin, end, hash) + k] == found[k]
            - begin);
    }
}

/// In a table that `sort_buffer` has built for the buffer from `begin`, the positions that are
/// found for a hash are exactly those in the dictionary of the current position where a byte pair
/// of that hash starts, taken from `begin`; they are in ascending order.
pub proof fn law_positions_are_the_occurrences(
    state: &ImplodeState,
    begin: int,
    end: int,
    hash: int,
    current: int,
    offset: usize,
)
    requires
        state.indexes(begin, end),
        0 <= begin <= end < WORK_BUFF_SIZE,
        0 <= hash < HASH_TABLE_SIZE,
        hash + 1 == HASH_TABLE_SIZE ==> state.pair_count == end - begin,
        0 <= current,
    ensures
        state.candidates(hash, current).contains(offset) <==> {
            &&& begin + offset < end
            &&& super::hash_at(state.work_buff@, begin + offset) == hash
            &&& state.window_start(current) <= offset < current
        },
        forall|j: int, k: int|
            0 <= j < k < state.candidates(hash, current).len() ==> (#[trigger] state.candidates(
                hash,
                current,
            )[j]) < #[trigger] state.candidates(hash, current)[k],
{
    let work = state.work_buff@;
    let found = hash::occurrences(work, begin, end, hash);
    let bucket = state.bucket(hash);
    law_buckets_hold_the_occurrences(state, begin, end, hash);
    hash::lemma_occurrences(work, begin, end, hash);
    hash::lemma_occurrences_sorted(work, begin, end, hash);
    assert(ascending(bucket)) by {
        assert forall|j: int, k: int| 0 <= j < k < bucket.len() implies (#[trigger] bucket[j])
            < #[trigger] bucket[k] by {
            assert(found[j] < found[k]);
        }
    }
    lemma_in_window(bucket, state.window_start(current), current, offset);
    lemma_in_window_ascending(bucket, state.window_start(current), current);
    if offset <= u16::MAX && bucket.contains(offset as u16) {
        let i = bucket.index_of(offset as u16);
        assert(begin <= found[i] < end);
        assert(found[i] == begin + offset);
    }
    if begin + offset < end && super::hash_at(work, begin + offset) == hash {
        hash::lemma_rank(work, begin, end, begin + offset);
        let rank = hash::occurrences(work, begin, begin + offset, hash).len() as int;
        assert(bucket[rank] == offset);
        assert(bucket.contains(offset as u16));
    }
}

/// Every place below the number of byte pairs belongs to the run of a hash.
proof fn lemma_slot_of(work: Seq<u8>, begin: int, end: int, i: int, high: int) -> (h: int)
    requires
        0 <= i < hash::count_below(work, begin, end, high),
        0 <= high,
    ensures
        0 <= h < high,
        hash::count_below(work, begin, end, h) <= i < hash::count_below(work, begin, end, h)
            + hash::occurrences(work, begin, end, h).len(),
    decreases high,
{
    if i >= hash::count_below(work, begin, end, high - 1) {
        high - 1
    } else {
        lemma_slot_of(work, begin, end, i, high - 1)
    }
}

/// A table that `sort_buffer` has built from the start of the work buffer, in place of empty
/// offsets, is valid for that buffer.
pub proof fn law_sorted_table_is_valid(state: &ImplodeState, buffer_end: int)
    requires
        2 <= buffer_end,
        state.indexes(0, hash::pairs_end(buffer_end)),
        forall|i: int|
            hash::pairs_end(buffer_end) <= i < WORK_BUFF_SIZE ==> #[trigger] state.phash_offs@[i]
                == 0,
    ensures
        state.table_valid(0, buffer_end),
{
    let work = state.work_buff@;
    let end = hash::pairs_end(buffer_end);
    hash::lemma_count_all(work, 0, end);
    assert forall|h: int| 0 <= h < HASH_TABLE_SIZE implies #[trigger] state.phash_to_index@[h]
        < WORK_BUFF_SIZE by {
        hash::lemma_count_mono(work, 0, end, h, HASH_TABLE_SIZE as int);
    }
    assert forall|i: int|
        0 <= i < WORK_BUFF_SIZE && #[trigger] state.phash_offs@[i] != 0 implies 0
        <= state.phash_offs@[i] < buffer_end by {
        let h = lemma_slot_of(work, 0, end, i, HASH_TABLE_SIZE as int);
        hash::lemma_occurrences(work, 0, end, h);
        let k = i - hash::count_below(work, 0, end, h);
        let pos = hash::occurrences(work, 0, end, h)[k];
        assert(state.phash_offs@[hash::count_below(work, 0, end, h) + k] == pos - 0);
    }
}

/// An agreement is one, byte by byte, and ends at the first byte that differs, at the limit or at
/// the end of the buffer.
proof fn lemma_agree(work: Seq<u8>, a: int, b: int, length: int, max: int)
    requires
        0 <= length,
        0 <= b < a,
        a + length <= work.len(),
        forall|k: int| 0 <= k < length ==> #[trigger] work[a + k] == work[b + k],
    ensures
        ({
            let l = pattern::agree_from(work, a, b, length, max);
            &&& length <= l
            &&& l <= max || l == length
            &&& a + l <= work.len()
            &&& forall|k: int| 0 <= k < l ==> #[trigger] work[a + k] == work[b + k]
            &&& l < max && a + l < work.len() ==> work[a + l] != work[b + l]
        }),
    decreases max - length,
{
    if length < max && a + length < work.len() && work[a + length] == work[b + length] {
        lemma_agree(work, a, b, length + 1, max);
    }
}

/// A run is one, byte by byte.
proof fn lemma_run(work: Seq<u8>, pos: int, length: int, max: int)
    requires
        1 <= length,
        0 <= pos,
        pos + length <= work.len(),
        forall|k: int| 0 <= k < length ==> #[trigger] work[pos + k] == work[pos],
    ensures
        ({
            let l = pattern::same_from(work, pos, length, max);
            &&& length <= l
            &&& l <= max || l == length
            &&& pos + l <= work.len()
            &&& forall|k: int| 0 <= k < l ==> #[trigger] work[pos + k] == work[pos]
            &&& l < max && pos + l < work.len() ==> work[pos + l] != work[pos]
        }),
    decreases max - length,
{
    if length < max && pos + length < work.len() && work[pos + length] == work[pos] {
        lemma_run(work, pos, length + 1, max);
    }
}

/// The length that the search takes a match to have is that of an actual match of two bytes or
/// more, the longest there is up to the limit; or it is less than two. One byte back this needs
/// the hashes to agree.
proof fn lemma_length_at(work: Seq<u8>, pos: int, q: int, max: int)
    requires
        0 <= q < pos,
        pos + 1 < work.len(),
        2 <= max,
        super::hash_at(work, pos) == super::hash_at(work, q),
    ensures
        ({
            let l = pattern::length_at(work, pos, q, max);
            &&& 0 <= l <= max
            &&& pos + l <= work.len()
            &&& l >= 2 ==> pattern::repeats(work, pos, q, l)
            &&& forall|m: int|
                2 <= m <= max && pos + m <= work.len() && #[trigger] pattern::repeats(work, pos, q, m)
                    ==> m <= l
        }),
{
    let l = pattern::length_at(work, pos, q, max);
    if pos - q == 1 {
        assert forall|k: int| 0 <= k < 1 implies #[trigger] work[pos + k] == work[pos] by {}
        lemma_run(work, pos, 1, max);
        if l >= 2 {
            assert(work[pos + 1] == work[pos]);
            assert(work[q] == work[pos]);
            assert forall|k: int| 0 <= k < l implies #[trigger] work[pos + k] == work[q + k] by {
                if k > 0 {
                    assert(work[pos + (k - 1)] == work[pos]);
                }
            }
        }
        assert forall|m: int|
            2 <= m <= max && pos + m <= work.len() && #[trigger] pattern::repeats(work, pos, q, m) implies m
            <= l by {
            lemma_repeat_is_run(work, pos, m);
            if l < m {
                assert(work[pos + l] == work[pos]);
            }
        }
    } else {
        if work[pos] == work[q] && work[pos + 1] == work[q + 1] {
            assert forall|k: int| 0 <= k < 2 implies #[trigger] work[pos + k] == work[q + k] by {}
            lemma_agree(work, pos, q, 2, max);
        }
        assert forall|m: int|
            2 <= m <= max && pos + m <= work.len() && #[trigger] pattern::repeats(work, pos, q, m) implies m
            <= l by {
            assert(work[pos + 0] == work[q + 0]);
            assert(work[pos + 1] == work[q + 1]);
            if l < m {
                assert(work[pos + l] == work[q + l]);
            }
        }
    }
}

/// A repetition one byte back is a run.
proof fn lemma_repeat_is_run(work: Seq<u8>, pos: int, m: int)
    requires
        1 <= m,
        pattern::repeats(work, pos, pos - 1, m),
    ensures
        forall|k: int| 0 <= k < m ==> #[trigger] work[pos + k] == work[pos],
    decreases m,
{
    if m > 1 {
        assert(pattern::repeats(work, pos, pos - 1, m - 1)) by {
            assert forall|k: int| 0 <= k < m - 1 implies #[trigger] work[pos + k] == work[pos - 1
                + k] by {}
        }
        lemma_repeat_is_run(work, pos, m - 1);
        assert forall|k: int| 0 <= k < m implies #[trigger] work[pos + k] == work[pos] by {
            if k > 0 {
                assert(work[pos + k] == work[pos - 1 + k]);
                assert(work[pos + (k - 1)] == work[pos]);
            }
        }
    }
}

/// A match of `length` bytes, `distance` bytes back, is no better than `found`: it is not longer, and
/// if it is as long, the rule on ties prefers `found`. A pair too far back to be used does not hide
/// one that lies one byte back.
spec fn no_better(found: MatchResult, length: int, distance: int) -> bool {
    &&& length <= found.length
    &&& length == found.length && length < MAX_REP_LENGTH && distance >= 2 ==> {
        &&& found.distance >= 2 ==> found.distance <= distance
        &&& found.distance == 1 ==> length == 2 && distance >= 0x100
    }
    &&& length >= 2 && distance == 1 ==> !(found.length == 2 && found.distance >= 0x100)
    &&& length == found.length && length >= MAX_REP_LENGTH ==> distance <= found.distance
}

/// What a search over candidates in ascending order comes to: `best` itself or the match with a
/// candidate, and no candidate is better.
proof fn lemma_best_match(
    work: Seq<u8>,
    pos: int,
    candidates: Seq<usize>,
    max: int,
    best: MatchResult,
)
    requires
        pos + 1 < work.len() <= WORK_BUFF_SIZE,
        2 <= max <= MAX_REP_LENGTH,
        forall|i: int|
            0 <= i < candidates.len() ==> (#[trigger] candidates[i]) < pos && super::hash_at(
                work,
                pos,
            ) == super::hash_at(work, candidates[i] as int),
        forall|j: int, k: int|
            0 <= j < k < candidates.len() ==> (#[trigger] candidates[j])
                < #[trigger] candidates[k],
        best.length <= MAX_REP_LENGTH,
        candidates.len() > 0 ==> best.distance != 1 && best.length < MAX_REP_LENGTH,
    ensures
        ({
            let found = pattern::best_match(work, pos, candidates, max, best);
            &&& found == best || exists|i: int|
                0 <= i < candidates.len() && found == pattern::match_at(
                    work,
                    pos,
                    #[trigger] candidates[i] as int,
                    max,
                )
            &&& found.length >= best.length
            &&& found.length == best.length ==> found.distance <= best.distance || best.length == 0
            &&& found.distance == 1 && candidates.len() > 0 ==> best.length < found.length || (
            found.length == 2 && best.distance >= 0x100)
            &&& forall|i: int|
                0 <= i < candidates.len() ==> no_better(
                    found,
                    pattern::length_at(work, pos, #[trigger] candidates[i] as int, max),
                    pos - candidates[i],
                )
            &&& found != best && candidates.len() > 0 ==> found.distance <= pos - candidates[0]
        }),
    decreases candidates.len(),
{
    if candidates.len() > 0 {
        let q = candidates[0] as int;
        let rest = candidates.drop_first();
        let found = pattern::best_match(work, pos, candidates, max, best);
        assert(super::hash_at(work, pos) == super::hash_at(work, candidates[0] as int));
        lemma_length_at(work, pos, q, max);
        assert forall|i: int| 0 <= i < rest.len() implies (#[trigger] rest[i]) < pos
            && super::hash_at(work, pos) == super::hash_at(work, rest[i] as int) by {
            assert(rest[i] == candidates[i + 1]);
        }
        assert forall|j: int, k: int| 0 <= j < k < rest.len() implies (#[trigger] rest[j])
            < #[trigger] rest[k] by {
            assert(rest[j] == candidates[j + 1] && rest[k] == candidates[k + 1]);
        }
        if rest.len() > 0 {
            assert(rest[0] == candidates[1]);
            assert(q < rest[0] < pos);
        }
        let better = pattern::match_at(work, pos, q, max);
        let improved = pattern::improves(work, pos, q, max, best);
        let stop = improved && pos - q != 1 && better.length >= MAX_REP_LENGTH;
        let next = if improved { better } else { best };
        if stop {
            assert(found == pattern::match_at(work, pos, candidates[0] as int, max));
            assert forall|i: int| 0 <= i < candidates.len() implies no_better(
                found,
                pattern::length_at(work, pos, #[trigger] candidates[i] as int, max),
                pos - candidates[i],
            ) by {
                lemma_length_at(work, pos, candidates[i] as int, max);
            }
        } else {
            lemma_best_match(work, pos, rest, max, next);
            if found != next {
                let i = choose|i: int|
                    0 <= i < rest.len() && found == pattern::match_at(
                        work,
                        pos,
                        #[trigger] rest[i] as int,
                        max,
                    );
                assert(rest[i] == candidates[i + 1]);
            } else if improved {
                assert(found == pattern::match_at(work, pos, candidates[0] as int, max));
            }
            assert forall|i: int| 0 <= i < candidates.len() implies no_better(
                found,
                pattern::length_at(work, pos, #[trigger] candidates[i] as int, max),
                pos - candidates[i],
            ) by {
                if i > 0 {
                    assert(candidates[i] == rest[i - 1]);
                }
            }
        }
    }
}

/// What the search at `pos` finds before the rule on far pairs is applied, in a table that was built
/// for the positions below `end`.
proof fn lemma_search(state: &ImplodeState, pos: int, end: int)
    requires
        state.indexes(0, end),
        0 <= end < WORK_BUFF_SIZE,
        0 <= pos,
        pos + 1 < state.work_bytes <= WORK_BUFF_SIZE,
    ensures
        ({
            let work = state.work_buff@;
            let max = state.room(pos);
            let found = pattern::best_match(
                work,
                pos,
                state.candidates_at(pos),
                max,
                MatchResult::none(),
            );
            &&& 2 <= max <= MAX_REP_LENGTH
            &&& found.length <= max
            &&& found.length >= 2 ==> {
                &&& 1 <= found.distance <= pos
                &&& found.distance <= state.dsize_bytes
                &&& pattern::repeats(work, pos, pos - found.distance, found.length as int)
            }
            &&& forall|q: int, m: int|
                state.window_start(pos) <= q < pos && q < end && 2 <= m <= max
                    && #[trigger] pattern::repeats(work, pos, q, m) ==> no_better(
                    found,
                    m,
                    pos - q,
                )
        }),
{
    let work = state.work_buff@;
    let max = state.room(pos);
    let h = super::hash_at(work, pos);
    let candidates = state.candidates_at(pos);
    let none = MatchResult::none();
    let found = pattern::best_match(work, pos, candidates, max, none);
    assert forall|i: int| 0 <= i < candidates.len() implies (#[trigger] candidates[i]) < pos && h
        == super::hash_at(work, candidates[i] as int) && state.window_start(pos)
        <= candidates[i] by {
        law_positions_are_the_occurrences(state, 0, end, h, pos, candidates[i]);
        assert(candidates.contains(candidates[i]));
    }
    law_positions_are_the_occurrences(state, 0, end, h, pos, 0);
    lemma_best_match(work, pos, candidates, max, none);
    if found != none {
        let i = choose|i: int|
            0 <= i < candidates.len() && found == pattern::match_at(
                work,
                pos,
                #[trigger] candidates[i] as int,
                max,
            );
        lemma_length_at(work, pos, candidates[i] as int, max);
    }
    assert forall|q: int, m: int|
        state.window_start(pos) <= q < pos && q < end && 2 <= m <= max
            && #[trigger] pattern::repeats(work, pos, q, m) implies no_better(
        found,
        m,
        pos - q,
    ) by {
        assert(work[pos + 0] == work[q + 0]);
        assert(work[pos + 1] == work[q + 1]);
        let o = q as usize;
        law_positions_are_the_occurrences(state, 0, end, h, pos, o);
        let i = candidates.index_of(o);
        assert(candidates[i] == o);
        lemma_length_at(work, pos, q, max);
    }
}

/// The search gives the best there is: a match is a repetition within the data and the dictionary,
/// and none is longer, or as long and preferred. Without a match, the only repetitions are pairs
/// that lie 256 bytes back or more.
pub proof fn law_repetition_is_best(state: &ImplodeState, pos: int)
    requires
        state.searchable(),
        0 <= pos,
    ensures
        state.repetition(pos).matched() ==> state.repeats_at(pos, state.repetition(pos)),
        state.nothing_better(pos, state.repetition(pos)),
{
    if pos + 1 < state.work_bytes {
        lemma_search(state, pos, state.work_bytes - 1);
    }
}

/// A repetition that is found is one: the bytes at the position are those that lie its distance
/// back. It lies within the data and within the dictionary.
pub proof fn law_repetition_is_genuine(state: &ImplodeState, pos: int)
    requires
        state.searchable(),
        0 <= pos,
        state.repetition(pos).matched(),
    ensures
        ({
            let found = state.repetition(pos);
            &&& pos + found.length <= state.work_bytes
            &&& found.length <= MAX_REP_LENGTH
            &&& 1 <= found.distance <= pos
            &&& found.distance <= state.dsize_bytes
            &&& pattern::repeats(state.work_buff@, pos, pos - found.distance, found.length as int)
        }),
{
    law_repetition_is_best(state, pos);
}

/// No repetition in the dictionary is longer than the one that is found, up to what the format
/// allows. If none is found, the repetition is a pair, and it lies 256 bytes back or more.
pub proof fn law_repetition_is_longest(state: &ImplodeState, pos: int, q: int, length: int)
    requires
        state.searchable(),
        0 <= pos,
        state.window_start(pos) <= q < pos,
        2 <= length <= MAX_REP_LENGTH,
        pos + length <= state.work_bytes,
        pattern::repeats(state.work_buff@, pos, q, length),
    ensures
        state.repetition(pos).matched() ==> length <= state.repetition(pos).length,
        !state.repetition(pos).matched() ==> length == 2 && pos - q >= 0x100,
{
    law_repetition_is_best(state, pos);
}

/// Of the repetitions two bytes back or more, none as long as the one that is found lies nearer,
/// unless the length is the greatest there is. A repetition one byte back is found only if it is
/// longer than all of those, but for pairs that lie 256 bytes back or more. Two bytes that lie less
/// than 256 bytes back do not go unfound.
pub proof fn law_repetition_is_nearest(state: &ImplodeState, pos: int, q: int)
    requires
        state.searchable(),
        0 <= pos,
        pos + 1 < state.work_bytes,
        state.window_start(pos) <= q < pos,
    ensures
        ({
            let found = state.repetition(pos);
            let length = found.length as int;
            found.matched() && length < MAX_REP_LENGTH && pos - q >= 2 && pattern::repeats(
                state.work_buff@,
                pos,
                q,
                length,
            ) ==> {
                &&& found.distance >= 2 ==> found.distance <= pos - q
                &&& found.distance == 1 ==> length == 2 && pos - q >= 0x100
            }
        }),
        pattern::repeats(state.work_buff@, pos, q, 2) && pos - q < 0x100 ==> state.repetition(
            pos,
        ).matched(),
{
    law_repetition_is_best(state, pos);
}

/// A search that finds no match gives no length and no distance.
pub proof fn law_no_match_is_none(state: &ImplodeState, pos: int)
    requires
        !state.repetition(pos).matched(),
    ensures
        state.repetition(pos) == MatchResult::none(),
{
}

/// Copying a repetition that is found to the end of the data before it gives the data after it.
pub proof fn law_repetition_replays(work: Seq<u8>, pos: int, length: nat, distance: nat)
    requires
        1 <= distance <= pos,
        pos + length <= work.len(),
        pattern::repeats(work, pos, pos - distance, length as int),
    ensures
        model::replay(work.take(pos), length, distance) == work.take(pos + length),
    decreases length,
{
    if length > 0 {
        let shorter = (length - 1) as nat;
        law_repetition_replays(work, pos, shorter, distance);
        let so_far = work.take(pos + shorter);
        assert(work[pos + shorter] == work[pos - distance + shorter]);
        assert(so_far.push(so_far[so_far.len() - distance]) =~= work.take(pos + length));
    }
}

/// A repetition that is found can be written with the state's dictionary size: a distance that
/// does not fit is never kept.
pub proof fn law_repetition_is_writable(state: &ImplodeState, dict_size: DictionarySize, pos: int)
    requires
        state.searchable(),
        state.has_dictionary(dict_size),
        0 <= pos,
        state.repetition(pos).matched(),
    ensures
        ({
            let found = state.repetition(pos);
            let token = Token::Copy {
                length: found.length as nat,
                distance: found.distance as nat,
            };
            &&& roundtrip::writable(dict_size.spec_bits() as nat, token)
            &&& found.length <= MAX_REP_LENGTH
        }),
{
    law_repetition_is_genuine(state, pos);
    power2::lemma2_to64();
}

/// The optimized search never gives up what it has: its result is the match it was given, or a
/// longer one that is a repetition within the data and the dictionary.
pub proof fn law_optimized_match_is_no_worse(state: &ImplodeState, pos: int, given: MatchResult)
    requires
        state.searchable(),
        0 <= pos,
        pos + 1 < state.work_bytes,
    ensures
        ({
            let found = state.optimized(pos, given);
            found == given || (found.length > given.length && state.repeats_at(pos, found))
        }),
{
    let candidates = state.candidates_at(pos);
    let h = super::hash_at(state.work_buff@, pos);
    assert forall|i: int| 0 <= i < candidates.len() implies state.window_start(pos)
        <= #[trigger] candidates[i] < pos by {
        law_positions_are_the_occurrences(state, 0, state.work_bytes - 1, h, pos, candidates[i]);
        assert(candidates.contains(candidates[i]));
    }
    lemma_longest_match(state, pos, candidates, given);
}

/// The optimized search has nothing to add to the search for repetitions: given what that one finds,
/// in the state that it leaves, it gives the same.
pub proof fn law_found_repetition_is_optimal(state: &ImplodeState, after: &ImplodeState, pos: int)
    requires
        state.searchable(),
        0 <= pos,
        *after == (ImplodeState { distance: after.distance, ..*state }),
    ensures
        after.optimized(pos, state.repetition(pos)) == state.repetition(pos),
{
    let found = state.repetition(pos);
    if found.length >= 10 {
        law_repetition_is_best(state, pos);
        law_optimized_match_is_no_worse(after, pos, found);
        let better = after.optimized(pos, found);
        if better != found {
            assert(pattern::repeats(
                state.work_buff@,
                pos,
                pos - better.distance,
                better.length as int,
            ));
        }
    }
}

/// What the optimized search over candidates in the dictionary comes to.
proof fn lemma_longest_match(
    state: &ImplodeState,
    pos: int,
    candidates: Seq<usize>,
    given: MatchResult,
)
    requires
        0 <= pos,
        pos + 1 < state.work_bytes <= WORK_BUFF_SIZE,
        forall|i: int|
            0 <= i < candidates.len() ==> state.window_start(pos) <= #[trigger] candidates[i]
                < pos,
    ensures
        ({
            let found = pattern::longest_match(
                state.work_buff@,
                pos,
                candidates,
                state.room(pos),
                given,
            );
            &&& found == given || (found.length > given.length && state.repeats_at(pos, found))
            &&& forall|i: int|
                0 <= i < candidates.len() && pos - candidates[i] != given.distance
                    ==> pattern::match_length(
                    state.work_buff@,
                    pos,
                    #[trigger] candidates[i] as int,
                    state.room(pos),
                ) <= found.length
        }),
    decreases candidates.len(),
{
    let work = state.work_buff@;
    let max = state.room(pos);
    if candidates.len() > 0 {
        let q = candidates[0] as int;
        let rest = candidates.drop_first();
        assert(state.window_start(pos) <= candidates[0] < pos);
        assert forall|i: int| 0 <= i < rest.len() implies state.window_start(pos)
            <= #[trigger] rest[i] < pos by {
            assert(rest[i] == candidates[i + 1]);
        }
        let length = pattern::match_length(work, pos, q, max);
        if work[pos] == work[q] && work[pos + 1] == work[q + 1] {
            assert forall|k: int| 0 <= k < 2 implies #[trigger] work[pos + k] == work[q + k] by {}
            lemma_agree(work, pos, q, 2, max);
        }
        let next = if pos - q != given.distance && length > given.length {
            MatchResult { length: length as usize, distance: (pos - q) as usize }
        } else {
            given
        };
        lemma_longest_match(state, pos, rest, next);
        let found = pattern::longest_match(work, pos, candidates, max, given);
        assert forall|i: int|
            0 <= i < candidates.len() && pos - candidates[i]
                != given.distance implies pattern::match_length(
            work,
            pos,
            #[trigger] candidates[i] as int,
            max,
        ) <= found.length by {
            if i > 0 {
                assert(candidates[i] == rest[i - 1]);
            }
        }
    }
}

/// If the optimized search is made, no repetition in the dictionary is longer than its result, up to
/// what the format allows, but for one at the distance of the match that it was given.
pub proof fn law_optimized_match_is_longest(
    state: &ImplodeState,
    pos: int,
    given: MatchResult,
    q: int,
    length: int,
)
    requires
        state.searchable(),
        0 <= pos,
        given.length >= 10,
        state.window_start(pos) <= q < pos,
        pos - q != given.distance,
        2 <= length <= MAX_REP_LENGTH,
        pos + length <= state.work_bytes,
        pattern::repeats(state.work_buff@, pos, q, length),
    ensures
        length <= state.optimized(pos, given).length,
{
    let work = state.work_buff@;
    let candidates = state.candidates_at(pos);
    let h = super::hash_at(work, pos);
    let end = state.work_bytes - 1;
    assert forall|i: int| 0 <= i < candidates.len() implies state.window_start(pos)
        <= #[trigger] candidates[i] < pos by {
        law_positions_are_the_occurrences(state, 0, end, h, pos, candidates[i]);
        assert(candidates.contains(candidates[i]));
    }
    lemma_longest_match(state, pos, candidates, given);
    assert(work[pos + 0] == work[q + 0]);
    assert(work[pos + 1] == work[q + 1]);
    let o = q as usize;
    law_positions_are_the_occurrences(state, 0, end, h, pos, o);
    let i = candidates.index_of(o);
    assert(candidates[i] == o);
    let l = pattern::match_length(work, pos, q, state.room(pos));
    assert forall|k: int| 0 <= k < 2 implies #[trigger] work[pos + k] == work[q + k] by {}
    lemma_agree(work, pos, q, 2, state.room(pos));
    if l < length {
        assert(work[pos + l] == work[q + l]);
    }
}

/// `tokens` describe `data` from `pos` on: each is the byte at its place,
/// or a repetition of what lies before.
pub open spec fn describes(data: Seq<u8>, pos: int, tokens: Seq<Token>) -> bool
    decreases tokens.len(),
{
    if tokens.len() == 0 {
        pos == data.len()
    } else {
        match tokens[0] {
            Token::Byte(byte) => {
                &&& pos < data.len()
                &&& byte == data[pos]
                &&& describes(data, pos + 1, tokens.drop_first())
            },
            Token::Copy { length, distance } => {
                &&& 1 <= distance <= pos
                &&& pos + length <= data.len()
                &&& pattern::repeats(data, pos, pos - distance, length as int)
                &&& describes(data, pos + length, tokens.drop_first())
            },
            Token::End => false,
        }
    }
}

/// Tokens that describe data give the data when they are applied to what lies before them.
pub proof fn law_described_data_is_replayed(front: Seq<u8>, data: Seq<u8>, pos: int, tokens: Seq<Token>)
    requires
        0 <= pos <= data.len(),
        describes(data, pos, tokens),
    ensures
        model::apply_all(front + data.take(pos), tokens) == front + data,
    decreases tokens.len(),
{
    if tokens.len() == 0 {
        assert(data.take(pos) =~= data);
    } else {
        let rest = tokens.drop_first();
        match tokens[0] {
            Token::Byte(byte) => {
                assert((front + data.take(pos)).push(byte) =~= front + data.take(pos + 1));
                law_described_data_is_replayed(front, data, pos + 1, rest);
            },
            Token::Copy { length, distance } => {
                law_repetition_replays(data, pos, length, distance);
                model::lemma_replay_suffix(front, data.take(pos), length, distance);
                law_described_data_is_replayed(front, data, pos + length, rest);
            },
            Token::End => {},
        }
    }
}

/// Compressed data comes back: a file that holds a header and the stream of tokens that describe
/// `data` is decompressed to `data`, however the file is cut into pieces.
pub proof fn law_compressed_data_comes_back(
    first: Seq<u8>,
    pieces: Seq<Seq<u8>>,
    data: Seq<u8>,
    tokens: Seq<Token>,
    padding: Bits,
)
    requires
        model::header_ok(first),
        forall|i: int| 0 <= i < pieces.len() ==> (#[trigger] pieces[i]).len() > 0,
        describes(data, 0, tokens),
        roundtrip::compressor_tokens(first[1] as nat, tokens),
        Bits::of_bytes((first + pieces::join(pieces)).skip(2)) == roundtrip::write_stream(
            if first[0] == 0 {
                CompressionMode::Binary
            } else {
                CompressionMode::ASCII
            },
            first[1] as nat,
            tokens,
            padding,
        ),
    ensures
        Decoder::fresh().opened(first).driven(pieces) == Some(data),
{
    pieces::law_streamed_file_roundtrip(first, pieces, tokens, padding);
    let front = model::dictionary();
    assert(front + data.take(0) =~= front);
    law_described_data_is_replayed(front, data, 0, tokens);
    assert((front + data).skip(OUT_START as int) =~= data);
}

/// The hash of a byte pair: four times the first byte and five times the second.
pub proof fn law_pair_hash(work: Seq<u8>, a: u8, b: u8, pos: int)
    ensures
        super::pair_hash(a, b) == 4 * a + 5 * b,
        super::hash_at(work, pos) == 4 * work[pos] + 5 * work[pos + 1],
{
}

/// A table that was built for the positions from `begin` up to `end` has, for each hash, a run of
/// places that holds exactly the positions of its byte pairs, taken from `begin`, in ascending order;
/// the runs follow each other from the first place on.
pub proof fn law_sorted_table_holds_every_pair(
    state: &ImplodeState,
    begin: int,
    end: int,
    hash: int,
    pos: int,
)
    requires
        state.indexes(begin, end),
        0 <= begin <= end < 0x2204,
        0 <= hash < 0x900,
        hash + 1 == 0x900 ==> state.pair_count == end - begin,
    ensures
        ({
            let work = state.work_buff@;
            let start = state.phash_to_index@[hash] as int;
            let stop = if hash + 1 < 0x900 {
                state.phash_to_index@[hash + 1] as int
            } else {
                state.pair_count as int
            };
            &&& 0 <= start <= stop <= end - begin
            &&& hash == 0 ==> start == 0
            &&& hash + 1 == 0x900 ==> stop == end - begin
            &&& forall|k: int|
                start <= k < stop ==> {
                    let at = begin + #[trigger] state.phash_offs@[k];
                    at < end && work[at] * 4 + work[at + 1] * 5 == hash
                }
            &&& forall|j: int, k: int|
                start <= j < k < stop ==> (#[trigger] state.phash_offs@[j])
                    < #[trigger] state.phash_offs@[k]
            &&& begin <= pos < end && work[pos] * 4 + work[pos + 1] * 5 == hash ==> exists|k: int|
                start <= k < stop && #[trigger] state.phash_offs@[k] == pos - begin
        }),
{
    let work = state.work_buff@;
    let found = hash::occurrences(work, begin, end, hash);
    let start = state.phash_to_index@[hash] as int;
    law_buckets_hold_the_occurrences(state, begin, end, hash);
    hash::lemma_occurrences(work, begin, end, hash);
    hash::lemma_occurrences_sorted(work, begin, end, hash);
    hash::lemma_count_all(work, begin, end);
    hash::lemma_count_mono(work, begin, end, hash, HASH_TABLE_SIZE as int);
    if hash + 1 < HASH_TABLE_SIZE {
        hash::lemma_count_mono(work, begin, end, hash + 1, HASH_TABLE_SIZE as int);
    }
    let bucket = state.bucket(hash);
    assert forall|k: int| start <= k < start + bucket.len() implies {
        let at = begin + #[trigger] state.phash_offs@[k];
        at < end && work[at] * 4 + work[at + 1] * 5 == hash
    } by {
        assert(bucket[k - start] == found[k - start] - begin);
    }
    assert forall|j: int, k: int| start <= j < k < start + bucket.len() implies (
    #[trigger] state.phash_offs@[j]) < #[trigger] state.phash_offs@[k] by {
        assert(bucket[j - start] == found[j - start] - begin);
        assert(bucket[k - start] == found[k - start] - begin);
        assert(found[j - start] < found[k - start]);
    }
    if begin <= pos < end && work[pos] * 4 + work[pos + 1] * 5 == hash {
        hash::lemma_rank(work, begin, end, pos);
        let rank = hash::occurrences(work, begin, pos, hash).len() as int;
        assert(bucket[rank] == pos - begin);
        assert(state.phash_offs@[start + rank] == pos - begin);
    }
}

/// The positions that are found for a hash are those where a byte pair of that hash starts and that lie
/// one byte back or more and at most the size of the dictionary, in ascending order.
pub proof fn law_positions_are_those_in_reach(
    state: &ImplodeState,
    begin: int,
    end: int,
    hash: int,
    current: int,
    offset: usize,
)
    requires
        state.indexes(begin, end),
        0 <= begin <= end < 0x2204,
        0 <= hash < 0x900,
        hash + 1 == 0x900 ==> state.pair_count == end - begin,
        0 <= current,
    ensures
        state.candidates(hash, current).contains(offset) <==> {
            &&& 1 <= current - offset <= state.dsize_bytes
            &&& begin + offset < end
            &&& state.work_buff@[begin + offset] * 4 + state.work_buff@[begin + offset + 1] * 5
                == hash
        },
        forall|j: int, k: int|
            0 <= j < k < state.candidates(hash, current).len() ==> (#[trigger] state.candidates(
                hash,
                current,
            )[j]) < #[trigger] state.candidates(hash, current)[k],
{
    law_positions_are_the_occurrences(state, begin, end, hash, current, offset);
}

/// In any table, sorted or not, the positions that are found are the offsets of the run that are at
/// most the size of the dictionary back, in order, up to the first that is not below the current
/// position.
pub proof fn law_positions_are_the_run_in_reach(
    state: &ImplodeState,
    hash: int,
    current: int,
) -> (cut: int)
    requires
        0 <= hash < 0x8FF,
        state.phash_to_index@[hash] <= state.phash_to_index@[hash + 1] <= 0x2204,
        0 <= current,
    ensures
        ({
            let run = state.phash_offs@.subrange(
                state.phash_to_index@[hash] as int,
                state.phash_to_index@[hash + 1] as int,
            );
            &&& 0 <= cut <= run.len()
            &&& forall|k: int| 0 <= k < cut ==> (#[trigger] run[k]) < current
            &&& cut < run.len() ==> run[cut] >= current
            &&& state.candidates(hash, current) == run.take(cut).filter(
                |offset: u16| current - offset <= state.dsize_bytes,
            ).map_values(|offset: u16| offset as usize)
        }),
        state.candidates(0x900, current).len() == 0,
{
    let run = state.phash_offs@.subrange(
        state.phash_to_index@[hash] as int,
        state.phash_to_index@[hash + 1] as int,
    );
    lemma_in_window_filters(
        run,
        state.window_start(current),
        current,
        |offset: u16| current - offset <= state.dsize_bytes,
    )
}

/// What lies in a window, as a filter.
proof fn lemma_in_window_filters(
    offsets: Seq<u16>,
    low: int,
    current: int,
    near: spec_fn(u16) -> bool,
) -> (cut: int)
    requires
        forall|offset: u16| #[trigger] near(offset) <==> offset >= low,
    ensures
        0 <= cut <= offsets.len(),
        forall|k: int| 0 <= k < cut ==> (#[trigger] offsets[k]) < current,
        cut < offsets.len() ==> offsets[cut] >= current,
        hash::in_window(offsets, low, current) == offsets.take(cut).filter(near).map_values(
            |offset: u16| offset as usize,
        ),
    decreases offsets.len(),
{
    reveal(Seq::filter);
    if offsets.len() == 0 || offsets[0] >= current {
        assert(offsets.take(0).filter(near) =~= Seq::empty());
        assert(hash::in_window(offsets, low, current) =~= offsets.take(0).filter(near).map_values(
            |offset: u16| offset as usize,
        ));
        0
    } else {
        let rest = offsets.drop_first();
        let cut = lemma_in_window_filters(rest, low, current, near);
        let head = seq![offsets[0]];
        assert(offsets.take(cut + 1) =~= head + rest.take(cut));
        Seq::filter_distributes_over_add(head, rest.take(cut), near);
        assert(head.drop_last() =~= Seq::empty());
        assert(head.drop_last().filter(near) =~= Seq::empty());
        assert(head.filter(near) =~= if near(offsets[0]) {
            head
        } else {
            Seq::empty()
        });
        assert forall|k: int| 0 <= k < cut + 1 implies (#[trigger] offsets[k]) < current by {
            if k > 0 {
                assert(rest[k - 1] == offsets[k]);
            }
        }
        assert(hash::in_window(offsets, low, current) =~= offsets.take(cut + 1).filter(
            near,
        ).map_values(|offset: u16| offset as usize));
        cut + 1
    }
}

/// A table is valid if and only if every run starts in the table of offsets and every offset but zero,
/// in whatever place, lies in the buffer: one that does not makes it invalid.
pub proof fn law_invalid_offsets_are_refused(state: &ImplodeState, start: int, end: int, i: int)
    requires
        0 <= i < 0x2204,
    ensures
        state.phash_offs@[i] != 0 && !(start <= state.phash_offs@[i] < end) ==> !state.table_valid(
            start,
            end,
        ),
        i < 0x900 && state.phash_to_index@[i] >= 0x2204 ==> !state.table_valid(start, end),
        !state.table_valid(start, end) ==> (exists|h: int|
            0 <= h < 0x900 && (#[trigger] state.phash_to_index@[h]) >= 0x2204) || (exists|k: int|
            0 <= k < 0x2204 && (#[trigger] state.phash_offs@[k]) != 0 && !(start
                <= state.phash_offs@[k] < end)),
{
}

/// A pair that is added is checked like any other: a table with a free place, to which a position
/// outside the buffer was added, is not valid.
pub proof fn law_added_pairs_are_checked(
    before: &ImplodeState,
    after: &ImplodeState,
    pos: u16,
    start: int,
    end: int,
    free: int,
)
    requires
        0 <= free < 0x2204,
        before.phash_offs@[free] == 0,
        after.phash_offs@ == hash::with_pair(before.phash_offs@, pos),
        pos != 0,
        !(start <= pos < end),
    ensures
        !after.table_valid(start, end),
{
    let place = hash::law_pair_takes_the_first_free_place(before.phash_offs@, pos);
    assert(after.phash_offs@[place] == pos);
}

/// The length of a match: none if the first two bytes differ or lie beyond the buffer; else up to the
/// first bytes that differ, the limit or the end of the buffer.
pub proof fn law_match_length(work: Seq<u8>, a: int, b: int, max: int)
    requires
        0 <= a,
        0 <= b,
    ensures
        ({
            let l = pattern::match_length(work, a, b, max);
            if a + 1 >= work.len() || b + 1 >= work.len() || work[a] != work[b] || work[a + 1]
                != work[b + 1] {
                l == 0
            } else {
                &&& l >= 2
                &&& l <= max || l == 2
                &&& a + l <= work.len()
                &&& b + l <= work.len()
                &&& forall|k: int| 0 <= k < l ==> #[trigger] work[a + k] == work[b + k]
                &&& l < max && a + l < work.len() && b + l < work.len() ==> work[a + l] != work[b
                    + l]
            }
        }),
{
    if a + 1 < work.len() && b + 1 < work.len() && work[a] == work[b] && work[a + 1] == work[b
        + 1] {
        assert forall|k: int| 0 <= k < 2 implies #[trigger] work[a + k] == work[b + k] by {}
        lemma_agreement(work, a, b, 2, max);
    }
}

/// An agreement of two places anywhere in the buffer.
proof fn lemma_agreement(work: Seq<u8>, a: int, b: int, length: int, max: int)
    requires
        0 <= length,
        0 <= a,
        0 <= b,
        a + length <= work.len(),
        b + length <= work.len(),
        forall|k: int| 0 <= k < length ==> #[trigger] work[a + k] == work[b + k],
    ensures
        ({
            let l = pattern::agree_from(work, a, b, length, max);
            &&& length <= l
            &&& l <= max || l == length
            &&& a + l <= work.len()
            &&& b + l <= work.len()
            &&& forall|k: int| 0 <= k < l ==> #[trigger] work[a + k] == work[b + k]
            &&& l < max && a + l < work.len() && b + l < work.len() ==> work[a + l] != work[b + l]
        }),
    decreases max - length,
{
    if length < max && a + length < work.len() && b + length < work.len() && work[a + length]
        == work[b + length] {
        lemma_agreement(work, a, b, length + 1, max);
    }
}

/// The length of a run: as many bytes as are the same, up to the limit or the end of the buffer, and at
/// least one where there is one.
pub proof fn law_run_length(work: Seq<u8>, pos: int, max: int)
    requires
        0 <= pos,
    ensures
        ({
            let l = pattern::run_length(work, pos, max);
            if pos >= work.len() {
                l == 0
            } else {
                &&& l >= 1
                &&& l <= max || l == 1
                &&& pos + l <= work.len()
                &&& forall|k: int| 0 <= k < l ==> #[trigger] work[pos + k] == work[pos]
                &&& l < max && pos + l < work.len() ==> work[pos + l] != work[pos]
            }
        }),
{
    if pos < work.len() {
        assert forall|k: int| 0 <= k < 1 implies #[trigger] work[pos + k] == work[pos] by {}
        lemma_run(work, pos, 1, max);
    }
}

/// What the search gives, in bytes and distances. The table was built for the positions below `end`. A
/// match has two to 516 bytes, lies within the data, and repeats what lies its distance back, which is
/// at most the size of the dictionary; it is not a pair 256 bytes back or more. What is no match has
/// neither length nor distance.
pub proof fn law_search_gives_a_usable_repetition(state: &ImplodeState, end: int, pos: int, k: int)
    requires
        state.indexes(0, end),
        0 <= end < 0x2204,
        state.work_bytes <= 0x2204,
        0 <= pos,
    ensures
        ({
            let found = state.repetition(pos);
            if found.length >= 2 {
                &&& found.length <= 516
                &&& pos + found.length <= state.work_bytes
                &&& 1 <= found.distance <= pos
                &&& found.distance <= state.dsize_bytes
                &&& !(found.length == 2 && found.distance >= 256)
                &&& 0 <= k < found.length ==> state.work_buff@[pos + k]
                    == state.work_buff@[pos - found.distance + k]
            } else {
                found.length == 0 && found.distance == 0
            }
        }),
{
    if pos + 1 < state.work_bytes {
        lemma_search(state, pos, end);
    }
}

/// The search reaches the whole dictionary: whatever repetition lies one byte back or more and at most
/// the size of the dictionary, what is found is not shorter, up to 516 bytes; only a pair that lies 256
/// bytes back or more may go unfound. The table was built for the positions below `end`.
pub proof fn law_search_reaches_the_whole_dictionary(
    state: &ImplodeState,
    end: int,
    pos: int,
    distance: int,
    length: int,
)
    requires
        state.indexes(0, end),
        0 <= end < 0x2204,
        state.work_bytes <= 0x2204,
        1 <= distance <= pos,
        distance <= state.dsize_bytes,
        pos - distance < end,
        2 <= length <= 516,
        pos + length <= state.work_bytes,
        forall|k: int|
            0 <= k < length ==> #[trigger] state.work_buff@[pos + k] == state.work_buff@[pos
                - distance + k],
    ensures
        ({
            let found = state.repetition(pos);
            if found.length >= 2 {
                found.length >= length
            } else {
                length == 2 && distance >= 256
            }
        }),
{
    let q = pos - distance;
    assert(pattern::repeats(state.work_buff@, pos, q, length)) by {
        assert forall|k: int| 0 <= k < length implies #[trigger] state.work_buff@[pos + k]
            == state.work_buff@[q + k] by {}
    }
    lemma_search(state, pos, end);
}

/// Which of several equally long repetitions is given. Below 516 bytes: the nearest of those two bytes
/// back or more; the one next door only if it is alone, or beside pairs that are too far back to be
/// used. Of 516 bytes: the farthest, where the search stops.
pub proof fn law_search_prefers(
    state: &ImplodeState,
    end: int,
    pos: int,
    distance: int,
)
    requires
        state.indexes(0, end),
        0 <= end < 0x2204,
        state.work_bytes <= 0x2204,
        1 <= distance <= pos,
        distance <= state.dsize_bytes,
        pos - distance < end,
        state.repetition(pos).length >= 2,
        forall|k: int|
            0 <= k < state.repetition(pos).length ==> #[trigger] state.work_buff@[pos + k]
                == state.work_buff@[pos - distance + k],
    ensures
        ({
            let found = state.repetition(pos);
            &&& found.length < 516 && distance >= 2 ==> {
                &&& found.distance >= 2 ==> found.distance <= distance
                &&& found.distance == 1 ==> found.length == 2 && distance >= 256
            }
            &&& found.length == 516 ==> found.distance >= distance
        }),
{
    let q = pos - distance;
    let length = state.repetition(pos).length as int;
    assert(pattern::repeats(state.work_buff@, pos, q, length)) by {
        assert forall|k: int| 0 <= k < length implies #[trigger] state.work_buff@[pos + k]
            == state.work_buff@[q + k] by {}
    }
    lemma_search(state, pos, end);
}

/// The optimized search, in bytes and distances. A match of less than ten bytes is handed back. Else
/// what comes out is what was given or a longer match, which repeats what lies its distance back within
/// the dictionary.
pub proof fn law_optimized_search_gives_a_repetition(
    state: &ImplodeState,
    pos: int,
    given: MatchResult,
    k: int,
)
    requires
        state.searchable(),
        0 <= pos,
        pos + 1 < state.work_bytes,
    ensures
        ({
            let found = state.optimized(pos, given);
            &&& given.length < 10 ==> found == given
            &&& found != given ==> {
                &&& given.length < found.length <= 516
                &&& pos + found.length <= state.work_bytes
                &&& 1 <= found.distance <= pos
                &&& found.distance <= state.dsize_bytes
                &&& 0 <= k < found.length ==> state.work_buff@[pos + k] == state.work_buff@[pos
                    - found.distance + k]
            }
        }),
{
    law_optimized_match_is_no_worse(state, pos, given);
}

/// The optimized search reaches the whole dictionary: whatever repetition lies at another distance than
/// the given one, up to the size of the dictionary, what comes out is not shorter; and if it is new and
/// as long, it does not lie nearer.
pub proof fn law_optimized_search_reaches_the_whole_dictionary(
    state: &ImplodeState,
    pos: int,
    given: MatchResult,
    distance: int,
    length: int,
)
    requires
        state.searchable(),
        given.length >= 10,
        1 <= distance <= pos,
        distance <= state.dsize_bytes,
        distance != given.distance,
        2 <= length <= 516,
        pos + length <= state.work_bytes,
        forall|k: int|
            0 <= k < length ==> #[trigger] state.work_buff@[pos + k] == state.work_buff@[pos
                - distance + k],
    ensures
        ({
            let found = state.optimized(pos, given);
            &&& found.length >= length
            &&& found != given && found.length == length ==> found.distance >= distance
        }),
{
    let work = state.work_buff@;
    let q = pos - distance;
    let end = state.work_bytes - 1;
    let h = super::hash_at(work, pos);
    let candidates = state.candidates_at(pos);
    assert(pattern::repeats(work, pos, q, length)) by {
        assert forall|k: int| 0 <= k < length implies #[trigger] work[pos + k] == work[q + k] by {}
    }
    law_optimized_match_is_longest(state, pos, given, q, length);
    assert(work[pos + 0] == work[q + 0]);
    assert(work[pos + 1] == work[q + 1]);
    law_positions_are_those_in_reach(state, 0, end, h, pos, q as usize);
    let i = candidates.index_of(q as usize);
    assert(candidates[i] == q as usize);
    law_match_length(work, pos, q, state.room(pos));
    let l = pattern::match_length(work, pos, q, state.room(pos));
    assert(l >= length) by {
        if l < length {
            assert(work[pos + l] == work[q + l]);
        }
    }
    assert forall|j: int| 0 <= j < candidates.len() implies (#[trigger] candidates[j]) < pos by {
        law_positions_are_those_in_reach(state, 0, end, h, pos, candidates[j]);
        assert(candidates.contains(candidates[j]));
    }
    lemma_longest_is_farthest(state, pos, candidates, given, given.distance as int, i);
}

/// The first of the longest candidates is taken.
proof fn lemma_longest_is_farthest(
    state: &ImplodeState,
    pos: int,
    candidates: Seq<usize>,
    best: MatchResult,
    skipped: int,
    i: int,
)
    requires
        0 <= i < candidates.len(),
        pos - candidates[i] != skipped,
        best.distance == skipped || (candidates.len() > 0 ==> best.distance > pos - candidates[0]),
        pos < WORK_BUFF_SIZE,
        forall|j: int| 0 <= j < candidates.len() ==> (#[trigger] candidates[j]) < pos,
        forall|j: int, k: int|
            0 <= j < k < candidates.len() ==> (#[trigger] candidates[j])
                < #[trigger] candidates[k],
    ensures
        ({
            let work = state.work_buff@;
            let max = state.room(pos);
            let found = pattern::longest_match(work, pos, candidates, max, best);
            let length = pattern::match_length(work, pos, candidates[i] as int, max);
            &&& found.length >= length
            &&& found != best && found.length == length ==> found.distance >= pos - candidates[i]
        }),
    decreases candidates.len(),
{
    let work = state.work_buff@;
    let max = state.room(pos);
    let q = candidates[0] as int;
    let rest = candidates.drop_first();
    assert(candidates[0] < pos);
    law_match_length(work, pos, q, max);
    let length = pattern::match_length(work, pos, q, max);
    let taken = pos - q != best.distance && length > best.length;
    let next = if taken {
        MatchResult { length: length as usize, distance: (pos - q) as usize }
    } else {
        best
    };
    assert forall|j: int| 0 <= j < rest.len() implies (#[trigger] rest[j]) < pos by {
        assert(rest[j] == candidates[j + 1]);
    }
    assert forall|j: int, k: int| 0 <= j < k < rest.len() implies (#[trigger] rest[j])
        < #[trigger] rest[k] by {
        assert(rest[j] == candidates[j + 1] && rest[k] == candidates[k + 1]);
    }
    if rest.len() > 0 {
        assert(rest[0] == candidates[1]);
        assert(q < rest[0]);
    }
    lemma_longest_from(state, pos, rest, next);
    if i > 0 {
        assert(rest[i - 1] == candidates[i]);
        assert(q < candidates[i]);
        lemma_longest_is_farthest(state, pos, rest, next, skipped, i - 1);
    }
}

/// A search over candidates keeps what it has, or takes a longer match with one of them.
proof fn lemma_longest_from(
    state: &ImplodeState,
    pos: int,
    candidates: Seq<usize>,
    best: MatchResult,
)
    requires
        pos < WORK_BUFF_SIZE,
        forall|j: int| 0 <= j < candidates.len() ==> (#[trigger] candidates[j]) < pos,
    ensures
        ({
            let found = pattern::longest_match(
                state.work_buff@,
                pos,
                candidates,
                state.room(pos),
                best,
            );
            found == best || found.length > best.length
        }),
    decreases candidates.len(),
{
    if candidates.len() > 0 {
        let work = state.work_buff@;
        let max = state.room(pos);
        let q = candidates[0] as int;
        let rest = candidates.drop_first();
        assert(candidates[0] < pos);
        law_match_length(work, pos, q, max);
        let length = pattern::match_length(work, pos, q, max);
        let next = if pos - q != best.distance && length > best.length {
            MatchResult { length: length as usize, distance: (pos - q) as usize }
        } else {
            best
        };
        assert forall|j: int| 0 <= j < rest.len() implies (#[trigger] rest[j]) < pos by {
            assert(rest[j] == candidates[j + 1]);
        }
        lemma_longest_from(state, pos, rest, next);
    }
}

/// What the words of the search mean: the dictionary of a position begins its size back, or at the
/// start; a repetition has room up to the end of the data and up to 516 bytes; a match has two bytes or
/// more; a run of the table lies between its start and the next one's.
pub proof fn law_search_terms(state: &ImplodeState, pos: int, hash: int, result: MatchResult)
    requires
        0 <= hash < 0x900,
    ensures
        forall|q: int|
            #![trigger state.work_buff@[q]]
            0 <= q < pos ==> (q >= state.window_start(pos) <==> pos - q <= state.dsize_bytes),
        pos > 0 ==> 0 <= state.window_start(pos) <= pos,
        state.room(pos) <= 516,
        state.room(pos) <= state.work_bytes - pos,
        state.room(pos) == 516 || state.room(pos) == state.work_bytes - pos,
        result.matched() <==> result.length >= 2,
        MatchResult::none().length == 0,
        MatchResult::none().distance == 0,
        state.bucket_ok(hash) <==> state.phash_to_index@[hash] <= (if hash + 1 < 0x900 {
            state.phash_to_index@[hash + 1] as int
        } else {
            state.pair_count as int
        }) <= 0x2204,
{
}

/// Sorting, and filling the code tables, changes nothing else.
pub proof fn law_tables_keep_the_rest(before: &ImplodeState, after: &ImplodeState)
    ensures
        after.only_hash_changed(before) <==> *after == (ImplodeState {
            phash_to_index: after.phash_to_index,
            phash_offs: after.phash_offs,
            pair_count: after.pair_count,
            ..*before
        }),
        after.only_literals_changed(before) <==> *after == (ImplodeState {
            literal_bits: after.literal_bits,
            literal_codes: after.literal_codes,
            ..*before
        }),
{
}

/// The code tables of a state are those of the format. A byte has nine bits, a clear one and its own,
/// or its code in the ASCII mode behind a clear bit.
pub proof fn law_byte_codes(state: &ImplodeState, byte: int)
    requires
        state.codes_wf(),
        0 <= byte < 0x100,
    ensures
        state.ctype == CompressionMode::Binary ==> state.literal_bits@[byte] == 9
            && state.literal_codes@[byte] == 2 * byte,
        state.ctype == CompressionMode::ASCII ==> state.literal_bits@[byte] == CH_BITS_ASC[byte] + 1
            && state.literal_codes@[byte] == 2 * CH_CODE_ASC[byte],
        state.dist_bits@ == DIST_BITS@,
        state.dist_codes@ == DIST_CODE@,
{
}

/// A repetition length has a set bit, the code of the range that holds it, and its place in the range;
/// so has the mark of the end, the last symbol.
pub proof fn law_length_codes(state: &ImplodeState, i: int, e: int)
    requires
        state.codes_wf(),
        0 <= i < 16,
        0 <= e < power2::pow2(EX_LEN_BITS[i] as nat),
    ensures
        ({
            let n = 0x100 + LEN_BASE[i] + e;
            &&& 0x100 <= n < 0x306
            &&& state.literal_bits@[n] == 1 + LEN_BITS[i] + EX_LEN_BITS[i]
            &&& state.literal_codes@[n] == 1 + 2 * (LEN_CODE[i] + power2::pow2(LEN_BITS[i] as nat)
                * e)
        }),
{
    codes::lemma_length_index_of(i, e);
    let p = power2::pow2(LEN_BITS[i] as nat);
    assert(p * e >= 0) by (nonlinear_arith)
        requires
            p >= 0,
            e >= 0,
    ;
    let n = 0x100 + LEN_BASE[i] + e;
    assert(state.literal_bits@[n] == codes::symbol_bits(state.ctype, n));
    assert(state.literal_codes@[n] == codes::symbol_code(state.ctype, n));
}

/// The dictionary sizes: each is twice the one before, sixty-four times what its verbatim distance bits
/// count, and the mask covers those bits.
pub proof fn law_dictionary_sizes(state: &ImplodeState, size: DictionarySize)
    ensures
        size.spec_bytes() == 64 * power2::pow2(size.spec_bits() as nat),
        DictionarySize::Size1K.spec_bytes() == 1024,
        DictionarySize::Size2K.spec_bytes() == 2 * DictionarySize::Size1K.spec_bytes(),
        DictionarySize::Size4K.spec_bytes() == 2 * DictionarySize::Size2K.spec_bytes(),
        state.has_dictionary(size) ==> {
            &&& state.dsize_bytes == size.spec_bytes()
            &&& state.dsize_bits == size.spec_bits()
            &&& state.dsize_mask == power2::pow2(state.dsize_bits as nat) - 1
            &&& state.dsize_bytes == 64 * (state.dsize_mask + 1)
        },
{
    power2::lemma2_to64();
}

/// A blank state has nothing in it.
pub proof fn law_blank_state_is_zero(state: &ImplodeState, i: int)
    requires
        state.blank(),
    ensures
        state.distance == 0 && state.out_bytes == 0 && state.out_bits == 0,
        state.work_pos == 0 && state.input_pos == 0 && state.work_bytes == 0,
        state.compressed_pos == 0 && state.pair_count == 0,
        0 <= i < 0x900 ==> state.phash_to_index@[i] == 0,
        0 <= i < 0x802 ==> state.out_buff@[i] == 0,
        0 <= i < 0x2204 ==> state.work_buff@[i] == 0 && state.phash_offs@[i] == 0,
        0 <= i < 0x204 ==> state.offs_buffer@[i] == 0,
{
}

/// In any table, sorted or not: what the search finds is the match with one of the positions that the
/// table gives, no such position has a longer one, and a match two bytes back or more is what the bytes
/// say, while one byte back it is the run at the position.
pub proof fn law_search_in_any_table(state: &ImplodeState, pos: int, i: int)
    requires
        0 <= pos,
        pos + 1 < state.work_bytes <= 0x2204,
        0 <= i < state.candidates_at(pos).len(),
        forall|j: int|
            0 <= j < state.candidates_at(pos).len() ==> (#[trigger] state.candidates_at(pos)[j])
                < pos,
    ensures
        ({
            let work = state.work_buff@;
            let candidates = state.candidates_at(pos);
            let found = state.repetition(pos);
            let length = if pos - candidates[i] == 1 {
                pattern::run_length(work, pos, state.room(pos))
            } else {
                pattern::match_length(work, pos, candidates[i] as int, state.room(pos))
            };
            &&& if found.length >= 2 {
                &&& length <= found.length
                &&& exists|j: int|
                    0 <= j < candidates.len() && found.distance == pos
                        - #[trigger] candidates[j]
                &&& found.length == if found.distance == 1 {
                    pattern::run_length(work, pos, state.room(pos))
                } else {
                    pattern::match_length(work, pos, pos - found.distance, state.room(pos))
                }
            } else {
                found == MatchResult { length: 0, distance: 0 } && length <= 2
            }
        }),
{
    let work = state.work_buff@;
    let candidates = state.candidates_at(pos);
    let max = state.room(pos);
    let none = MatchResult::none();
    lemma_best_of_any(work, pos, candidates, max, none, i);
    let best = pattern::best_match(work, pos, candidates, max, none);
    if best != none {
        let j = choose|j: int|
            0 <= j < candidates.len() && best == pattern::match_at(
                work,
                pos,
                #[trigger] candidates[j] as int,
                max,
            );
        assert(candidates[j] < pos);
        law_match_length(work, pos, candidates[j] as int, max);
        law_run_length(work, pos, max);
        assert(best.distance == pos - candidates[j]);
    }
}

/// The best of any candidates.
proof fn lemma_best_of_any(
    work: Seq<u8>,
    pos: int,
    candidates: Seq<usize>,
    max: int,
    best: MatchResult,
    i: int,
)
    requires
        pos + 1 < work.len() <= WORK_BUFF_SIZE,
        2 <= max <= MAX_REP_LENGTH,
        forall|j: int| 0 <= j < candidates.len() ==> (#[trigger] candidates[j]) < pos,
        0 <= i < candidates.len() || candidates.len() == 0,
        best.length <= MAX_REP_LENGTH,
    ensures
        ({
            let found = pattern::best_match(work, pos, candidates, max, best);
            &&& found.length >= best.length
            &&& candidates.len() > 0 ==> found.length >= pattern::length_at(
                work,
                pos,
                candidates[i] as int,
                max,
            )
            &&& found == best || exists|j: int|
                0 <= j < candidates.len() && found == pattern::match_at(
                    work,
                    pos,
                    #[trigger] candidates[j] as int,
                    max,
                )
            &&& found.length <= MAX_REP_LENGTH
        }),
    decreases candidates.len(),
{
    if candidates.len() > 0 {
        let q = candidates[0] as int;
        let rest = candidates.drop_first();
        let found = pattern::best_match(work, pos, candidates, max, best);
        assert(candidates[0] < pos);
        law_match_length(work, pos, q, max);
        law_run_length(work, pos, max);
        law_match_length(work, pos, candidates[i] as int, max);
        let better = pattern::match_at(work, pos, q, max);
        let next = if pattern::improves(work, pos, q, max, best) {
            better
        } else {
            best
        };
        assert forall|j: int| 0 <= j < rest.len() implies (#[trigger] rest[j]) < pos by {
            assert(rest[j] == candidates[j + 1]);
        }
        if i > 0 {
            assert(rest[i - 1] == candidates[i]);
        }
        lemma_best_of_any(work, pos, rest, max, next, if i > 0 { i - 1 } else { 0 });
        if found == better {
            assert(found == pattern::match_at(work, pos, candidates[0] as int, max));
        } else if found != best {
            let j = choose|j: int|
                0 <= j < rest.len() && found == pattern::match_at(
                    work,
                    pos,
                    #[trigger] rest[j] as int,
                    max,
                );
            assert(rest[j] == candidates[j + 1]);
        }
    }
}

/// In any table, sorted or not: the optimized search gives no shorter match than any position that the
/// table gives, but for the one at the given distance; and it gives what it was given, or something
/// longer.
pub proof fn law_optimized_search_in_any_table(
    state: &ImplodeState,
    pos: int,
    given: MatchResult,
    i: int,
)
    requires
        0 <= pos,
        pos + 1 < state.work_bytes <= 0x2204,
        given.length >= 10,
        0 <= i < state.candidates_at(pos).len(),
        pos - state.candidates_at(pos)[i] != given.distance,
        forall|j: int|
            0 <= j < state.candidates_at(pos).len() ==> state.window_start(pos)
                <= #[trigger] state.candidates_at(pos)[j] < pos,
    ensures
        ({
            let found = state.optimized(pos, given);
            let q = state.candidates_at(pos)[i] as int;
            &&& pattern::match_length(state.work_buff@, pos, q, state.room(pos)) <= found.length
            &&& found == given || found.length > given.length
        }),
{
    lemma_longest_match(state, pos, state.candidates_at(pos), given);
}

} // verus!
