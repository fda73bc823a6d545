//! The search for repetitions.
use super::hash;
use super::laws;
use super::state::ImplodeState;
use super::{MAX_REP_LENGTH, WORK_BUFF_SIZE};
use vstd::prelude::*;

verus! {

/// Result of the search for a repetition.
#[derive(Debug, Clone, Copy, PartialEq, Eq, Structural)]
pub struct MatchResult {
    /// Length of the found match (0 if no match).
    pub length: usize,
    /// Backward distance to the match (0 if no match).
    pub distance: usize,
}

impl MatchResult {
    /// A match of `length` bytes, `distance` bytes back.
    pub fn new(length: usize, distance: usize) -> (result: Self)
        ensures
            result.length == length,
            result.distance == distance,
    {
        MatchResult { length, distance }
    }

    /// The result that says that there is no match.
    pub open spec fn none() -> MatchResult {
        MatchResult { length: 0, distance: 0 }
    }

    /// The result that says that there is no match.
    pub fn no_match() -> (result: Self)
        ensures
            result == MatchResult::none(),
            result.length == 0,
            result.distance == 0,
    {
        MatchResult { length: 0, distance: 0 }
    }

    /// Whether this is a match: one of a single byte is not.
    pub open spec fn matched(self) -> bool {
        self.length >= 2
    }

    /// Whether this is a match: one of a single byte is not.
    pub fn is_match(&self) -> (result: bool)
        ensures
            result == self.matched(),
            result == (self.length >= 2),
    {
        self.length >= 2
    }
}

/// How far the bytes at `a` and at `b` agree, given that the first `length` do: up to `max` bytes,
/// or to the end of the buffer.
pub open spec fn agree_from(work: Seq<u8>, a: int, b: int, length: int, max: int) -> int
    decreases max - length,
{
    if length < max && a + length < work.len() && b + length < work.len() && work[a + length]
        == work[b + length] {
        agree_from(work, a, b, length + 1, max)
    } else {
        length
    }
}

/// The length of the match between the bytes at `a` and at `b`: zero unless the first two bytes
/// agree, and at most `max` behind those two.
pub open spec fn match_length(work: Seq<u8>, a: int, b: int, max: int) -> int {
    if a + 1 >= work.len() || b + 1 >= work.len() || work[a] != work[b] || work[a + 1] != work[b
        + 1] {
        0
    } else {
        agree_from(work, a, b, 2, max)
    }
}

/// How far the bytes at `pos` are all the same, given that the first `length` are: up to `max`
/// bytes, or to the end of the buffer.
pub open spec fn same_from(work: Seq<u8>, pos: int, length: int, max: int) -> int
    decreases max - length,
{
    if length < max && pos + length < work.len() && work[pos + length] == work[pos] {
        same_from(work, pos, length + 1, max)
    } else {
        length
    }
}

/// The length of the run of one byte at `pos`, at most `max` behind its first byte.
pub open spec fn run_length(work: Seq<u8>, pos: int, max: int) -> int {
    if pos >= work.len() {
        0
    } else {
        same_from(work, pos, 1, max)
    }
}

/// The length that the search takes the match between `pos` and the earlier position `q` to have:
/// one byte back, it is that of the run at `pos`.
pub open spec fn length_at(work: Seq<u8>, pos: int, q: int, max: int) -> int {
    if pos - q == 1 {
        run_length(work, pos, max)
    } else {
        match_length(work, pos, q, max)
    }
}

/// Whether the match at `q` replaces `best`: if it is longer, or as long and nearer. A run one byte
/// back must be longer, unless `best` is a pair that lies too far back to be used.
pub open spec fn improves(work: Seq<u8>, pos: int, q: int, max: int, best: MatchResult) -> bool {
    let length = length_at(work, pos, q, max);
    length > best.length || (length == best.length && pos - q < best.distance && (pos - q != 1 || (
    best.length == 2 && best.distance >= 0x100)))
}

/// The match between `pos` and `q`.
pub open spec fn match_at(work: Seq<u8>, pos: int, q: int, max: int) -> MatchResult {
    MatchResult { length: length_at(work, pos, q, max) as usize, distance: (pos - q) as usize }
}

/// The best of `best` and the matches with the candidates, taken in order. A match of full length
/// that is not one byte back ends the search.
pub open spec fn best_match(
    work: Seq<u8>,
    pos: int,
    candidates: Seq<usize>,
    max: int,
    best: MatchResult,
) -> MatchResult
    decreases candidates.len(),
{
    if candidates.len() == 0 {
        best
    } else {
        let q = candidates[0] as int;
        if improves(work, pos, q, max, best) {
            let better = match_at(work, pos, q, max);
            if pos - q != 1 && better.length >= MAX_REP_LENGTH {
                better
            } else {
                best_match(work, pos, candidates.drop_first(), max, better)
            }
        } else {
            best_match(work, pos, candidates.drop_first(), max, best)
        }
    }
}

/// The longest of `best` and the matches with the candidates, the first of those that are equally
/// long. A candidate at the distance of the best match so far is passed over.
pub open spec fn longest_match(
    work: Seq<u8>,
    pos: int,
    candidates: Seq<usize>,
    max: int,
    best: MatchResult,
) -> MatchResult
    decreases candidates.len(),
{
    if candidates.len() == 0 {
        best
    } else {
        let q = candidates[0] as int;
        let length = match_length(work, pos, q, max);
        let next = if pos - q != best.distance && length > best.length {
            MatchResult { length: length as usize, distance: (pos - q) as usize }
        } else {
            best
        };
        longest_match(work, pos, candidates.drop_first(), max, next)
    }
}

/// The bytes at `pos` are those at `q`, over `length` bytes.
pub open spec fn repeats(work: Seq<u8>, pos: int, q: int, length: int) -> bool {
    forall|k: int| 0 <= k < length ==> #[trigger] work[pos + k] == work[q + k]
}

/// The offsets in a window lie in it.
pub proof fn lemma_in_window_bounds(offsets: Seq<u16>, low: int, current: int)
    ensures
        forall|i: int|
            0 <= i < hash::in_window(offsets, low, current).len() ==> low
                <= #[trigger] hash::in_window(offsets, low, current)[i] < current,
    decreases offsets.len(),
{
    if offsets.len() > 0 && offsets[0] < current {
        let rest = hash::in_window(offsets.drop_first(), low, current);
        lemma_in_window_bounds(offsets.drop_first(), low, current);
        if offsets[0] >= low {
            let all = hash::in_window(offsets, low, current);
            assert forall|i: int| 0 <= i < all.len() implies low <= #[trigger] all[i]
                < current by {
                if i > 0 {
                    assert(all[i] == rest[i - 1]);
                }
            }
        }
    }
}

impl ImplodeState {
    /// How many bytes a repetition at `input_pos` can have.
    pub open spec fn room(&self, input_pos: int) -> int {
        let left = self.work_bytes - input_pos;
        if left < MAX_REP_LENGTH {
            left
        } else {
            MAX_REP_LENGTH as int
        }
    }

    /// The earlier positions that the search at `input_pos` looks at.
    pub open spec fn candidates_at(&self, input_pos: int) -> Seq<usize> {
        self.candidates(super::hash_at(self.work_buff@, input_pos), input_pos)
    }

    /// The repetition that is found at `input_pos`: none if less than two bytes are left; else the
    /// best match if it is one, unless it has two bytes and lies so far back that the literals are
    /// shorter.
    pub open spec fn repetition(&self, input_pos: int) -> MatchResult {
        let best = best_match(
            self.work_buff@,
            input_pos,
            self.candidates_at(input_pos),
            self.room(input_pos),
            MatchResult::none(),
        );
        if input_pos + 1 >= self.work_bytes || !best.matched() || (best.length == 2
            && best.distance >= 0x100) {
            MatchResult::none()
        } else {
            best
        }
    }

    /// `found` is a repetition at `pos`: the bytes there are those that lie its distance back. It
    /// lies within the data and within the dictionary.
    pub open spec fn repeats_at(&self, pos: int, found: MatchResult) -> bool {
        &&& pos + found.length <= self.work_bytes
        &&& found.length <= MAX_REP_LENGTH
        &&& 1 <= found.distance <= pos
        &&& found.distance <= self.dsize_bytes
        &&& repeats(self.work_buff@, pos, pos - found.distance, found.length as int)
    }

    /// No repetition in the dictionary is better at `pos` than `found`. None is longer, up to what
    /// the format allows. Of those as long that lie two bytes back or more, none lies nearer, unless
    /// the length is the greatest there is; and one byte back, `found` is longer than all of them but
    /// for pairs that lie 256 bytes back or more. If `found` is no match, the only repetitions are
    /// such pairs.
    pub open spec fn nothing_better(&self, pos: int, found: MatchResult) -> bool {
        forall|q: int, length: int|
            self.window_start(pos) <= q < pos && 2 <= length <= self.room(pos)
                && #[trigger] repeats(self.work_buff@, pos, q, length) ==> if found.matched() {
                &&& length <= found.length
                &&& length == found.length && length < MAX_REP_LENGTH && pos - q >= 2 ==> {
                    &&& found.distance >= 2 ==> found.distance <= pos - q
                    &&& found.distance == 1 ==> length == 2 && pos - q >= 0x100
                }
            } else {
                length == 2 && pos - q >= 0x100
            }
    }

    /// Finds the longest repetition at `input_pos`, and keeps its distance, less one.
    pub fn find_repetition(&mut self, input_pos: usize) -> (result: MatchResult)
        requires
            input_pos < usize::MAX,
            input_pos + 1 < old(self).work_bytes ==> input_pos + 1 < WORK_BUFF_SIZE,
            input_pos + 1 < old(self).work_bytes ==> old(self).bucket_ok(
                super::hash_at(old(self).work_buff@, input_pos as int),
            ),
        ensures
            result == old(self).repetition(input_pos as int),
            old(self).searchable() && result.matched() ==> old(self).repeats_at(
                input_pos as int,
                result,
            ),
            old(self).searchable() ==> old(self).nothing_better(input_pos as int, result),
            result.length < 2 ==> result.length == 0 && result.distance == 0,
            old(self).searchable() && result.length >= 2 ==> {
                &&& result.length <= 516
                &&& input_pos + result.length <= old(self).work_bytes
                &&& 1 <= result.distance <= input_pos
                &&& result.distance <= old(self).dsize_bytes
                &&& !(result.length == 2 && result.distance >= 256)
                &&& forall|k: int|
                    0 <= k < result.length ==> #[trigger] old(self).work_buff@[input_pos + k]
                        == old(self).work_buff@[input_pos - result.distance + k]
            },
            old(self).searchable() ==> forall|distance: int, length: int|
                1 <= distance <= input_pos && distance <= old(self).dsize_bytes && 2 <= length
                    <= 516 && input_pos + length <= old(self).work_bytes && #[trigger] repeats(
                    old(self).work_buff@,
                    input_pos as int,
                    input_pos - distance,
                    length,
                ) ==> if result.length >= 2 {
                    length <= result.length
                } else {
                    length == 2 && distance >= 256
                },
            *final(self) == (ImplodeState {
                distance: if result.matched() {
                    (result.distance - 1) as u32
                } else {
                    old(self).distance
                },
                ..*old(self)
            }),
    {
        proof {
            if self.searchable() {
                laws::law_repetition_is_best(self, input_pos as int);
                assert forall|distance: int, length: int|
                    1 <= distance <= input_pos && distance <= self.dsize_bytes && 2 <= length
                        <= 516 && input_pos + length <= self.work_bytes && #[trigger] repeats(
                        self.work_buff@,
                        input_pos as int,
                        input_pos - distance,
                        length,
                    ) implies if self.repetition(input_pos as int).length >= 2 {
                    length <= self.repetition(input_pos as int).length
                } else {
                    length == 2 && distance >= 256
                } by {
                    laws::law_search_reaches_the_whole_dictionary(
                        self,
                        self.work_bytes - 1,
                        input_pos as int,
                        distance,
                        length,
                    );
                }
            }
        }
        if input_pos + 1 >= self.work_bytes {
            return MatchResult::no_match();
        }
        let hash: usize = self.hash_of(input_pos);
        let positions: Vec<usize> = self.find_hash_positions(hash, input_pos);
        let left: usize = self.work_bytes - input_pos;
        let max_length: usize = if left < MAX_REP_LENGTH {
            left
        } else {
            MAX_REP_LENGTH
        };
        let mut best_match = MatchResult::no_match();
        let ghost work = self.work_buff@;
        let ghost pos = input_pos as int;
        let ghost max = max_length as int;
        let ghost low = self.window_start(pos);
        proof {
            lemma_in_window_bounds(self.bucket(hash as int), low, pos);
        }
        let mut i: usize = 0;
        assert(positions@.skip(0) =~= positions@);
        while i < positions.len()
            invariant_except_break
                self::best_match(work, pos, positions@.skip(i as int), max, best_match)
                    == self::best_match(work, pos, positions@, max, MatchResult::none()),
            invariant
                i <= positions@.len(),
                *self == *old(self),
                work == self.work_buff@,
                pos == input_pos,
                max == max_length,
                pos + 1 < WORK_BUFF_SIZE,
                low == self.window_start(pos),
                forall|k: int| 0 <= k < positions@.len() ==> low <= #[trigger] positions@[k] < pos,
                best_match.length > 0 ==> 1 <= best_match.distance <= self.dsize_bytes,
            ensures
                best_match == self::best_match(work, pos, positions@, max, MatchResult::none()),
            decreases positions@.len() - i,
        {
            let match_pos: usize = positions[i];
            let distance: usize = input_pos - match_pos;
            let ghost rest = positions@.skip(i as int);
            assert(rest.drop_first() =~= positions@.skip(i + 1));
            assert(rest[0] == match_pos);
            i = i + 1;
            let match_length: usize = if distance == 1 {
                self.find_run_length_match(input_pos, max_length)
            } else {
                self.compare_sequences(input_pos, match_pos, max_length)
            };
            if match_length > best_match.length || (match_length == best_match.length && distance
                < best_match.distance && (distance != 1 || (best_match.length == 2
                && best_match.distance >= 0x100))) {
                best_match = MatchResult::new(match_length, distance);
                if distance != 1 && match_length >= MAX_REP_LENGTH {
                    break;
                }
            }
        }
        if !best_match.is_match() || (best_match.length == 2 && best_match.distance >= 0x100) {
            return MatchResult::no_match();
        }
        self.distance = (best_match.distance - 1) as u32;
        best_match
    }

    /// The length of the match between the bytes at `pos1` and at `pos2`.
    pub fn compare_sequences(&self, pos1: usize, pos2: usize, max_length: usize) -> (length: usize)
        requires
            pos1 < usize::MAX,
            pos1 + 1 < WORK_BUFF_SIZE ==> pos2 < usize::MAX,
        ensures
            length == match_length(self.work_buff@, pos1 as int, pos2 as int, max_length as int),
            ({
                let work = self.work_buff@;
                if pos1 + 1 >= 0x2204 || pos2 + 1 >= 0x2204 || work[pos1 as int]
                    != work[pos2 as int] || work[pos1 + 1] != work[pos2 + 1] {
                    length == 0
                } else {
                    &&& length >= 2
                    &&& length <= max_length || length == 2
                    &&& pos1 + length <= 0x2204
                    &&& pos2 + length <= 0x2204
                    &&& forall|k: int|
                        0 <= k < length ==> #[trigger] work[pos1 + k] == work[pos2 + k]
                    &&& length < max_length && pos1 + length < 0x2204 && pos2 + length < 0x2204
                        ==> work[pos1 + length] != work[pos2 + length]
                }
            }),
    {
        proof {
            laws::law_match_length(
                self.work_buff@,
                pos1 as int,
                pos2 as int,
                max_length as int,
            );
        }
        if pos1 + 1 >= WORK_BUFF_SIZE || pos2 + 1 >= WORK_BUFF_SIZE {
            return 0;
        }
        if self.work_buff[pos1] != self.work_buff[pos2] || self.work_buff[pos1 + 1]
            != self.work_buff[pos2 + 1] {
            return 0;
        }
        let ghost work = self.work_buff@;
        let mut length: usize = 2;
        while length < max_length && pos1 + length < WORK_BUFF_SIZE && pos2 + length
            < WORK_BUFF_SIZE && self.work_buff[pos1 + length] == self.work_buff[pos2 + length]
            invariant
                pos1 + length <= WORK_BUFF_SIZE,
                pos2 + length <= WORK_BUFF_SIZE,
                work == self.work_buff@,
                agree_from(work, pos1 as int, pos2 as int, length as int, max_length as int)
                    == agree_from(work, pos1 as int, pos2 as int, 2, max_length as int),
            decreases WORK_BUFF_SIZE - length,
        {
            length = length + 1;
        }
        length
    }

    /// The length of the run of one byte at `pos`.
    pub fn find_run_length_match(&self, pos: usize, max_length: usize) -> (length: usize)
        ensures
            length == run_length(self.work_buff@, pos as int, max_length as int),
            ({
                let work = self.work_buff@;
                if pos >= 0x2204 {
                    length == 0
                } else {
                    &&& length >= 1
                    &&& length <= max_length || length == 1
                    &&& pos + length <= 0x2204
                    &&& forall|k: int|
                        0 <= k < length ==> #[trigger] work[pos + k] == work[pos as int]
                    &&& length < max_length && pos + length < 0x2204 ==> work[pos + length]
                        != work[pos as int]
                }
            }),
    {
        proof {
            laws::law_run_length(self.work_buff@, pos as int, max_length as int);
        }
        if pos >= WORK_BUFF_SIZE {
            return 0;
        }
        let ghost work = self.work_buff@;
        let byte_value: u8 = self.work_buff[pos];
        let mut length: usize = 1;
        while length < max_length && pos + length < WORK_BUFF_SIZE && self.work_buff[pos + length]
            == byte_value
            invariant
                pos + length <= WORK_BUFF_SIZE,
                pos < WORK_BUFF_SIZE,
                work == self.work_buff@,
                byte_value == work[pos as int],
                same_from(work, pos as int, length as int, max_length as int) == same_from(
                    work,
                    pos as int,
                    1,
                    max_length as int,
                ),
            decreases WORK_BUFF_SIZE - length,
        {
            length = length + 1;
        }
        length
    }

    /// The match that the optimized search at `input_pos` gives if `best` is known: a match of less
    /// than ten bytes is not worth the search.
    pub open spec fn optimized(&self, input_pos: int, best: MatchResult) -> MatchResult {
        if best.length >= 10 {
            longest_match(
                self.work_buff@,
                input_pos,
                self.candidates_at(input_pos),
                self.room(input_pos),
                best,
            )
        } else {
            best
        }
    }

    /// Looks for a longer match than a good one that is known, and keeps its distance, less one.
    pub fn find_optimized_match(
        &mut self,
        input_pos: usize,
        current_best: MatchResult,
    ) -> (result: MatchResult)
        requires
            current_best.length >= 10 ==> {
                &&& input_pos + 1 < WORK_BUFF_SIZE
                &&& input_pos <= old(self).work_bytes
                &&& old(self).bucket_ok(super::hash_at(old(self).work_buff@, input_pos as int))
            },
        ensures
            result == old(self).optimized(input_pos as int, current_best),
            current_best.length < 10 ==> result == current_best,
            result.length >= current_best.length,
            *final(self) == (ImplodeState {
                distance: if result.length > current_best.length {
                    (result.distance - 1) as u32
                } else {
                    old(self).distance
                },
                ..*old(self)
            }),
    {
        if !current_best.is_match() || current_best.length < 10 {
            return current_best;
        }
        let hash: usize = self.hash_of(input_pos);
        let positions: Vec<usize> = self.find_hash_positions(hash, input_pos);
        let left: usize = self.work_bytes - input_pos;
        let max_length: usize = if left < MAX_REP_LENGTH {
            left
        } else {
            MAX_REP_LENGTH
        };
        let mut best_match = current_best;
        let ghost work = self.work_buff@;
        let ghost pos = input_pos as int;
        let ghost max = max_length as int;
        let ghost low = self.window_start(pos);
        proof {
            lemma_in_window_bounds(self.bucket(hash as int), low, pos);
        }
        let mut i: usize = 0;
        assert(positions@.skip(0) =~= positions@);
        while i < positions.len()
            invariant
                i <= positions@.len(),
                work == self.work_buff@,
                pos == input_pos,
                max == max_length,
                pos + 1 < WORK_BUFF_SIZE,
                low == old(self).window_start(pos),
                self.dsize_bytes == old(self).dsize_bytes,
                forall|k: int| 0 <= k < positions@.len() ==> low <= #[trigger] positions@[k] < pos,
                longest_match(work, pos, positions@.skip(i as int), max, best_match)
                    == longest_match(work, pos, positions@, max, current_best),
                best_match.length >= current_best.length,
                *self == (ImplodeState {
                    distance: if best_match.length > current_best.length {
                        (best_match.distance - 1) as u32
                    } else {
                        old(self).distance
                    },
                    ..*old(self)
                }),
            decreases positions@.len() - i,
        {
            let match_pos: usize = positions[i];
            let distance: usize = input_pos - match_pos;
            let ghost rest = positions@.skip(i as int);
            assert(rest.drop_first() =~= positions@.skip(i + 1));
            assert(rest[0] == match_pos);
            i = i + 1;
            if distance != best_match.distance {
                let match_length: usize = self.compare_sequences(input_pos, match_pos, max_length);
                if match_length > best_match.length {
                    best_match = MatchResult::new(match_length, distance);
                    self.distance = (distance - 1) as u32;
                }
            }
        }
        best_match
    }

    /// Whether the bytes at `pos1` and at `pos2` may agree over `min_length` bytes: the first and
    /// the last of them do.
    pub fn quick_match_check(&self, pos1: usize, pos2: usize, min_length: usize) -> (result: bool)
        requires
            pos1 + min_length <= usize::MAX,
            pos1 + min_length <= WORK_BUFF_SIZE ==> pos2 + min_length <= usize::MAX,
            min_length == 0 && pos1 <= WORK_BUFF_SIZE && pos2 <= WORK_BUFF_SIZE ==> {
                &&& pos1 < WORK_BUFF_SIZE
                &&& pos2 < WORK_BUFF_SIZE
                &&& self.work_buff@[pos1 as int] == self.work_buff@[pos2 as int] ==> pos1 > 0
                    && pos2 > 0
            },
        ensures
            result == ({
                let work = self.work_buff@;
                &&& pos1 + min_length <= WORK_BUFF_SIZE
                &&& pos2 + min_length <= WORK_BUFF_SIZE
                &&& work[pos1 as int] == work[pos2 as int]
                &&& work[pos1 + min_length - 1] == work[pos2 + min_length - 1]
            }),
    {
        if pos1 + min_length > WORK_BUFF_SIZE || pos2 + min_length > WORK_BUFF_SIZE {
            return false;
        }
        self.work_buff[pos1] == self.work_buff[pos2] && self.work_buff[pos1 + min_length - 1]
            == self.work_buff[pos2 + min_length - 1]
    }
}

} // verus!
