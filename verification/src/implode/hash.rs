//! The table of byte pairs by hash.
use super::laws;
use super::state::ImplodeState;
use super::{byte_pair_hash, HASH_TABLE_SIZE, WORK_BUFF_SIZE};
use vstd::prelude::*;

verus! {

/// The positions from `begin` up to and not at `end` where a byte pair of hash `hash` starts, in
/// ascending order.
pub open spec fn occurrences(work: Seq<u8>, begin: int, end: int, hash: int) -> Seq<int>
    decreases end - begin,
{
    if end <= begin {
        Seq::empty()
    } else {
        let earlier = occurrences(work, begin, end - 1, hash);
        if super::hash_at(work, end - 1) == hash {
            earlier.push(end - 1)
        } else {
            earlier
        }
    }
}

/// The number of byte pairs that start from `begin` up to and not at `end` and whose hash is below
/// `hash`.
pub open spec fn count_below(work: Seq<u8>, begin: int, end: int, hash: int) -> nat
    decreases hash,
{
    if hash <= 0 {
        0
    } else {
        count_below(work, begin, end, hash - 1) + occurrences(work, begin, end, hash - 1).len()
    }
}

/// Where the byte pairs of a buffer that ends at `buffer_end` end: the last one starts a byte
/// before the end of the data, and none crosses the end of the work buffer.
pub open spec fn pairs_end(buffer_end: int) -> int {
    if buffer_end < WORK_BUFF_SIZE {
        buffer_end - 1
    } else {
        WORK_BUFF_SIZE - 1
    }
}

/// The offsets that lie from `low` up to and not at `current`, up to the first that does not lie
/// below `current`.
pub open spec fn in_window(offsets: Seq<u16>, low: int, current: int) -> Seq<usize>
    decreases offsets.len(),
{
    if offsets.len() == 0 || offsets[0] >= current {
        Seq::empty()
    } else if offsets[0] >= low {
        seq![offsets[0] as usize] + in_window(offsets.drop_first(), low, current)
    } else {
        in_window(offsets.drop_first(), low, current)
    }
}

/// `i` is the first place of `offsets` that holds zero.
pub open spec fn first_zero(offsets: Seq<u16>, i: int) -> bool {
    &&& 0 <= i < offsets.len()
    &&& offsets[i] == 0
    &&& forall|j: int| 0 <= j < i ==> offsets[j] != 0
}

/// `offsets` with `pos` in the first place that holds zero, or as they are if none does.
pub open spec fn with_pair(offsets: Seq<u16>, pos: u16) -> Seq<u16>
    decreases offsets.len(),
{
    if offsets.len() == 0 {
        offsets
    } else if offsets[0] == 0 {
        offsets.update(0, pos)
    } else {
        seq![offsets[0]] + with_pair(offsets.drop_first(), pos)
    }
}

/// A pair goes to the first place that holds zero, if there is one. All other places stay, and if
/// every place is taken, nothing changes. The place that is taken is returned, or -1.
pub proof fn law_pair_takes_the_first_free_place(offsets: Seq<u16>, pos: u16) -> (place: int)
    ensures
        with_pair(offsets, pos).len() == offsets.len(),
        forall|i: int|
            0 <= i < offsets.len() && i != place ==> #[trigger] with_pair(offsets, pos)[i]
                == offsets[i],
        (exists|i: int| 0 <= i < offsets.len() && #[trigger] offsets[i] == 0) ==> {
            &&& 0 <= place < offsets.len()
            &&& offsets[place] == 0
            &&& with_pair(offsets, pos)[place] == pos
            &&& forall|i: int| 0 <= i < place ==> #[trigger] offsets[i] != 0
        },
        (forall|i: int| 0 <= i < offsets.len() ==> #[trigger] offsets[i] != 0) ==> with_pair(
            offsets,
            pos,
        ) == offsets && place == -1,
    decreases offsets.len(),
{
    if offsets.len() == 0 {
        -1
    } else if offsets[0] == 0 {
        0
    } else {
        let rest = offsets.drop_first();
        let later = law_pair_takes_the_first_free_place(rest, pos);
        let all = with_pair(offsets, pos);
        assert forall|i: int| 0 < i < offsets.len() implies #[trigger] offsets[i] == rest[i
            - 1] by {}
        assert forall|i: int| 0 < i < offsets.len() implies #[trigger] all[i] == with_pair(
            rest,
            pos,
        )[i - 1] by {}
        if exists|i: int| 0 <= i < offsets.len() && #[trigger] offsets[i] == 0 {
            let i = choose|i: int| 0 <= i < offsets.len() && #[trigger] offsets[i] == 0;
            assert(rest[i - 1] == 0);
            later + 1
        } else {
            assert forall|i: int| 0 <= i < rest.len() implies #[trigger] rest[i] != 0 by {
                assert(offsets[i + 1] != 0);
            }
            assert(all =~= offsets);
            -1
        }
    }
}

/// A place is the first free one if and only if it holds zero and no place before it does.
pub proof fn law_first_zero(offsets: Seq<u16>, i: int)
    ensures
        first_zero(offsets, i) <==> 0 <= i < offsets.len() && offsets[i] == 0 && (forall|j: int|
            0 <= j < i ==> #[trigger] offsets[j] != 0),
{
}

/// Occurrences are positions of the hash, and one of them is known by how many come before it.
pub proof fn lemma_occurrences(work: Seq<u8>, begin: int, end: int, hash: int)
    ensures
        forall|k: int|
            0 <= k < occurrences(work, begin, end, hash).len() ==> {
                let pos = #[trigger] occurrences(work, begin, end, hash)[k];
                &&& begin <= pos < end
                &&& super::hash_at(work, pos) == hash
                &&& occurrences(work, begin, pos, hash).len() == k
            },
    decreases end - begin,
{
    if end > begin {
        lemma_occurrences(work, begin, end - 1, hash);
        let earlier = occurrences(work, begin, end - 1, hash);
        let all = occurrences(work, begin, end, hash);
        assert forall|k: int| 0 <= k < all.len() implies {
            let pos = #[trigger] all[k];
            &&& begin <= pos < end
            &&& super::hash_at(work, pos) == hash
            &&& occurrences(work, begin, pos, hash).len() == k
        } by {
            if k < earlier.len() {
                assert(all[k] == earlier[k]);
            }
        }
    }
}

/// A position of the hash is an occurrence, and its rank is how many come before it.
pub proof fn lemma_rank(work: Seq<u8>, begin: int, end: int, pos: int)
    requires
        begin <= pos < end,
    ensures
        ({
            let hash = super::hash_at(work, pos);
            let rank = occurrences(work, begin, pos, hash).len();
            &&& rank < occurrences(work, begin, end, hash).len()
            &&& occurrences(work, begin, end, hash)[rank as int] == pos
        }),
    decreases end - begin,
{
    if pos < end - 1 {
        lemma_rank(work, begin, end - 1, pos);
    }
}

/// Occurrences are in ascending order.
pub proof fn lemma_occurrences_sorted(work: Seq<u8>, begin: int, end: int, hash: int)
    ensures
        forall|j: int, k: int|
            0 <= j < k < occurrences(work, begin, end, hash).len() ==> (#[trigger] occurrences(
                work,
                begin,
                end,
                hash,
            )[j]) < #[trigger] occurrences(work, begin, end, hash)[k],
    decreases end - begin,
{
    if end > begin {
        lemma_occurrences_sorted(work, begin, end - 1, hash);
        lemma_occurrences(work, begin, end - 1, hash);
        let earlier = occurrences(work, begin, end - 1, hash);
        let all = occurrences(work, begin, end, hash);
        assert forall|j: int, k: int| 0 <= j < k < all.len() implies (#[trigger] all[j])
            < #[trigger] all[k] by {
            assert(all[j] == earlier[j]);
            if k < earlier.len() {
                assert(all[k] == earlier[k]);
            }
        }
    }
}

/// One more position adds one to the counts above its hash.
proof fn lemma_count_below_step(work: Seq<u8>, begin: int, end: int, hash: int)
    requires
        begin < end,
        super::hash_at(work, end - 1) >= 0,
    ensures
        count_below(work, begin, end, hash) == count_below(work, begin, end - 1, hash) + (if hash
            > super::hash_at(work, end - 1) {
            1nat
        } else {
            0nat
        }),
    decreases hash,
{
    if hash > 0 {
        lemma_count_below_step(work, begin, end, hash - 1);
    }
}

/// Every byte pair is counted once.
pub proof fn lemma_count_all(work: Seq<u8>, begin: int, end: int)
    ensures
        count_below(work, begin, end, HASH_TABLE_SIZE as int) == (if begin <= end {
            end - begin
        } else {
            0
        }),
    decreases end - begin,
{
    if begin < end {
        lemma_count_below_step(work, begin, end, HASH_TABLE_SIZE as int);
        lemma_count_all(work, begin, end - 1);
    } else {
        lemma_count_none(work, begin, end, HASH_TABLE_SIZE as int);
    }
}

/// No byte pairs, no counts.
proof fn lemma_count_none(work: Seq<u8>, begin: int, end: int, hash: int)
    requires
        end <= begin,
    ensures
        count_below(work, begin, end, hash) == 0,
    decreases hash,
{
    if hash > 0 {
        lemma_count_none(work, begin, end, hash - 1);
    }
}

/// A buffer that holds no byte pair, since it begins at the end of the work buffer, leaves every run
/// empty.
pub proof fn law_table_without_pairs(state: &ImplodeState, begin: int, end: int, hash: int)
    requires
        state.indexes(begin, end),
        end <= begin,
        0 <= hash < 0x900,
    ensures
        state.phash_to_index@[hash] == 0,
{
    lemma_count_none(state.work_buff@, begin, end, hash);
}

/// The byte pairs of a hash are counted below every higher hash.
pub proof fn lemma_count_mono(work: Seq<u8>, begin: int, end: int, low: int, high: int)
    requires
        0 <= low < high,
    ensures
        count_below(work, begin, end, low) + occurrences(work, begin, end, low).len()
            <= count_below(work, begin, end, high),
    decreases high - low,
{
    if low < high - 1 {
        lemma_count_mono(work, begin, end, low, high - 1);
    }
}

/// The place of the byte pair at `pos` in the order by hash and position.
spec fn slot(work: Seq<u8>, begin: int, end: int, pos: int) -> int {
    let hash = super::hash_at(work, pos);
    (count_below(work, begin, end, hash) + occurrences(work, begin, pos, hash).len()) as int
}

/// Byte pairs have places of their own, below the number of pairs.
proof fn lemma_slot(work: Seq<u8>, begin: int, end: int, p: int, q: int)
    requires
        begin <= p < end,
        begin <= q < end,
    ensures
        0 <= slot(work, begin, end, p) < end - begin,
        slot(work, begin, end, p) == slot(work, begin, end, q) ==> p == q,
{
    let hp = super::hash_at(work, p);
    let hq = super::hash_at(work, q);
    lemma_rank(work, begin, end, p);
    lemma_rank(work, begin, end, q);
    lemma_count_all(work, begin, end);
    lemma_count_mono(work, begin, end, hp, HASH_TABLE_SIZE as int);
    if hp < hq {
        lemma_count_mono(work, begin, end, hp, hq);
    } else if hq < hp {
        lemma_count_mono(work, begin, end, hq, hp);
    }
}

impl ImplodeState {
    /// The hash table holds the byte pairs of the work buffer from `begin` up to `end`: for each
    /// hash, where its run of offsets starts, and in that run its positions, taken from `begin`,
    /// in ascending order.
    pub open spec fn indexes(&self, begin: int, end: int) -> bool {
        let work = self.work_buff@;
        &&& forall|h: int|
            0 <= h < HASH_TABLE_SIZE ==> #[trigger] self.phash_to_index@[h] == count_below(
                work,
                begin,
                end,
                h,
            )
        &&& forall|h: int, k: int|
            0 <= h < HASH_TABLE_SIZE && 0 <= k < occurrences(work, begin, end, h).len()
                ==> self.phash_offs@[count_below(work, begin, end, h) + k]
                == #[trigger] occurrences(work, begin, end, h)[k] - begin
    }

    /// The hash table has been built for all data in the work buffer.
    pub open spec fn searchable(&self) -> bool {
        &&& 2 <= self.work_bytes <= WORK_BUFF_SIZE
        &&& self.indexes(0, self.work_bytes - 1)
    }

    /// This state is `before` with nothing changed but the hash table.
    pub open spec fn only_hash_changed(&self, before: &ImplodeState) -> bool {
        *self == (ImplodeState {
            phash_to_index: self.phash_to_index,
            phash_offs: self.phash_offs,
            pair_count: self.pair_count,
            ..*before
        })
    }

    /// Builds the hash table for the work buffer from `buffer_begin` up to `buffer_end`. A buffer
    /// without a byte pair leaves the table alone.
    pub fn sort_buffer(&mut self, buffer_begin: usize, buffer_end: usize)
        requires
            buffer_begin < usize::MAX,
        ensures
            final(self).only_hash_changed(old(self)),
            buffer_end <= buffer_begin + 1 ==> *final(self) == (ImplodeState {
                pair_count: 0,
                ..*old(self)
            }),
            buffer_end > buffer_begin + 1 ==> {
                &&& final(self).pair_count == buffer_end - buffer_begin - 1
                &&& final(self).indexes(buffer_begin as int, pairs_end(buffer_end as int))
                &&& forall|i: int|
                    0 <= i < WORK_BUFF_SIZE && i >= pairs_end(buffer_end as int) - buffer_begin
                        ==> #[trigger] final(self).phash_offs@[i] == old(self).phash_offs@[i]
                &&& forall|h: int|
                    0 <= h < HASH_TABLE_SIZE && (h + 1 < HASH_TABLE_SIZE || buffer_end
                        <= WORK_BUFF_SIZE) ==> #[trigger] final(self).bucket_ok(h)
            },
            buffer_begin == 0 && buffer_end == old(self).work_bytes && 2 <= buffer_end
                <= WORK_BUFF_SIZE ==> final(self).searchable(),
            buffer_end > buffer_begin + 1 ==> final(self).indexes(
                buffer_begin as int,
                if buffer_end < 0x2204 {
                    buffer_end - 1
                } else {
                    0x2203
                },
            ),
            buffer_end > buffer_begin + 1 ==> forall|i: int|
                0 <= i < 0x2204 && (i >= buffer_end - 1 - buffer_begin || i >= 0x2203
                    - buffer_begin) ==> #[trigger] final(self).phash_offs@[i] == old(
                    self,
                ).phash_offs@[i],
    {
        if buffer_end <= buffer_begin + 1 {
            self.pair_count = 0;
            return;
        }
        self.pair_count = buffer_end - buffer_begin - 1;
        let ghost work = self.work_buff@;
        let ghost begin = buffer_begin as int;
        let ghost pairs = pairs_end(buffer_end as int);
        let end: usize = if buffer_end < WORK_BUFF_SIZE {
            buffer_end - 1
        } else {
            WORK_BUFF_SIZE - 1
        };

        // Count the occurrences of each hash.
        self.phash_to_index = [0; HASH_TABLE_SIZE];
        let mut pos: usize = buffer_begin;
        while pos < end
            invariant
                end == pairs,
                begin == buffer_begin,
                buffer_begin <= pos,
                pos <= end || pos == buffer_begin,
                end < WORK_BUFF_SIZE,
                work == self.work_buff@,
                self.pair_count == buffer_end - buffer_begin - 1,
                self.phash_offs == old(self).phash_offs,
                self.only_hash_changed(old(self)),
                forall|h: int|
                    0 <= h < HASH_TABLE_SIZE ==> #[trigger] self.phash_to_index@[h]
                        == occurrences(work, begin, pos as int, h).len(),
            decreases end - pos,
        {
            let hash: usize = self.hash_of(pos);
            proof {
                lemma_occurrences_bound(work, begin, pos as int, hash as int);
            }
            self.phash_to_index[hash] = self.phash_to_index[hash] + 1;
            pos = pos + 1;
        }
        assert forall|h: int| 0 <= h < HASH_TABLE_SIZE implies #[trigger] self.phash_to_index@[h]
            == occurrences(work, begin, pairs, h).len() by {}

        // Turn the counts into running totals.
        let mut total_sum: u16 = 0;
        let mut index: usize = 0;
        while index < HASH_TABLE_SIZE
            invariant
                index <= HASH_TABLE_SIZE,
                begin == buffer_begin,
                pairs < WORK_BUFF_SIZE,
                work == self.work_buff@,
                self.pair_count == buffer_end - buffer_begin - 1,
                self.phash_offs == old(self).phash_offs,
                self.only_hash_changed(old(self)),
                total_sum == count_below(work, begin, pairs, index as int),
                forall|h: int|
                    0 <= h < index ==> #[trigger] self.phash_to_index@[h] == count_below(
                        work,
                        begin,
                        pairs,
                        h + 1,
                    ),
                forall|h: int|
                    index <= h < HASH_TABLE_SIZE ==> #[trigger] self.phash_to_index@[h]
                        == occurrences(work, begin, pairs, h).len(),
            decreases HASH_TABLE_SIZE - index,
        {
            proof {
                lemma_count_mono(work, begin, pairs, index as int, HASH_TABLE_SIZE as int);
                lemma_count_all(work, begin, pairs);
            }
            total_sum = total_sum + self.phash_to_index[index];
            self.phash_to_index[index] = total_sum;
            index = index + 1;
        }

        // Place the offsets, last position first; each total ends up as the start of its run.
        let mut next: usize = if buffer_begin < end {
            end
        } else {
            buffer_begin
        };
        while next > buffer_begin
            invariant
                begin == buffer_begin,
                buffer_begin <= next,
                next <= pairs || next == buffer_begin,
                pairs < WORK_BUFF_SIZE,
                work == self.work_buff@,
                self.pair_count == buffer_end - buffer_begin - 1,
                self.only_hash_changed(old(self)),
                forall|h: int|
                    0 <= h < HASH_TABLE_SIZE ==> #[trigger] self.phash_to_index@[h] == count_below(
                        work,
                        begin,
                        pairs,
                        h,
                    ) + occurrences(work, begin, next as int, h).len(),
                forall|q: int|
                    next <= q < pairs ==> self.phash_offs@[#[trigger] slot(
                        work,
                        begin,
                        pairs,
                        q,
                    )] == q - begin,
                forall|i: int|
                    0 <= i < WORK_BUFF_SIZE && i >= pairs - begin
                        ==> #[trigger] self.phash_offs@[i] == old(self).phash_offs@[i],
            decreases next,
        {
            next = next - 1;
            let ghost placed = self.phash_offs@;
            let hash: usize = self.hash_of(next);
            proof {
                lemma_slot(work, begin, pairs, next as int, next as int);
            }
            let place: u16 = self.phash_to_index[hash] - 1;
            self.phash_to_index[hash] = place;
            assert(place == slot(work, begin, pairs, next as int));
            self.phash_offs[place as usize] = (next - buffer_begin) as u16;
            assert forall|q: int| next <= q < pairs implies self.phash_offs@[#[trigger] slot(
                work,
                begin,
                pairs,
                q,
            )] == q - begin by {
                lemma_slot(work, begin, pairs, q, next as int);
            }
        }
        proof {
            assert forall|h: int| 0 <= h < HASH_TABLE_SIZE implies #[trigger] self.phash_to_index@[h]
                == count_below(work, begin, pairs, h) by {}
            assert forall|h: int, k: int|
                0 <= h < HASH_TABLE_SIZE && 0 <= k < occurrences(work, begin, pairs, h).len()
                implies self.phash_offs@[count_below(work, begin, pairs, h) + k]
                == #[trigger] occurrences(work, begin, pairs, h)[k] - begin by {
                lemma_occurrences(work, begin, pairs, h);
                let q = occurrences(work, begin, pairs, h)[k];
                assert(slot(work, begin, pairs, q) == count_below(work, begin, pairs, h) + k);
            }
            assert forall|h: int|
                0 <= h < HASH_TABLE_SIZE && (h + 1 < HASH_TABLE_SIZE || buffer_end
                    <= WORK_BUFF_SIZE) implies #[trigger] self.bucket_ok(h) by {
                lemma_count_all(work, begin, pairs);
                lemma_count_mono(work, begin, pairs, h, HASH_TABLE_SIZE as int);
                if h + 1 < HASH_TABLE_SIZE {
                    lemma_count_mono(work, begin, pairs, h + 1, HASH_TABLE_SIZE as int);
                    assert(self.phash_to_index@[h + 1] == count_below(work, begin, pairs, h + 1));
                }
            }
        }
    }

    /// Where the run of offsets of `hash` starts.
    pub open spec fn bucket_start(&self, hash: int) -> int {
        self.phash_to_index@[hash] as int
    }

    /// Where the run of offsets of `hash` ends: at the start of the next one, or after the last
    /// byte pair.
    pub open spec fn bucket_end(&self, hash: int) -> int {
        if hash + 1 < HASH_TABLE_SIZE {
            self.phash_to_index@[hash + 1] as int
        } else {
            self.pair_count as int
        }
    }

    /// The run of offsets of `hash` lies in the table.
    pub open spec fn bucket_ok(&self, hash: int) -> bool {
        self.bucket_start(hash) <= self.bucket_end(hash) <= WORK_BUFF_SIZE
    }

    /// The offsets of `hash`.
    pub open spec fn bucket(&self, hash: int) -> Seq<u16> {
        self.phash_offs@.subrange(self.bucket_start(hash), self.bucket_end(hash))
    }

    /// The lowest position in the dictionary of the byte at `current_pos`.
    pub open spec fn window_start(&self, current_pos: int) -> int {
        if current_pos > self.dsize_bytes {
            current_pos - self.dsize_bytes
        } else {
            0
        }
    }

    /// The offsets of `hash` that lie in the dictionary of the byte at `current_pos`.
    pub open spec fn candidates(&self, hash: int, current_pos: int) -> Seq<usize> {
        if hash < HASH_TABLE_SIZE {
            in_window(self.bucket(hash), self.window_start(current_pos), current_pos)
        } else {
            Seq::empty()
        }
    }

    /// Finds all positions in the dictionary of the byte at `current_pos` where a byte pair of
    /// hash `hash` starts.
    pub fn find_hash_positions(&self, hash: usize, current_pos: usize) -> (positions: Vec<usize>)
        requires
            hash < HASH_TABLE_SIZE ==> self.bucket_ok(hash as int),
        ensures
            positions@ == self.candidates(hash as int, current_pos as int),
            hash >= 0x900 ==> positions@.len() == 0,
            self.searchable() && hash < 0x8FF ==> forall|q: usize|
                positions@.contains(q) <==> {
                    &&& q < current_pos
                    &&& current_pos - q <= self.dsize_bytes
                    &&& q + 1 < self.work_bytes
                    &&& self.work_buff@[q as int] * 4 + self.work_buff@[q + 1] * 5 == hash
                },
            self.searchable() && hash < 0x8FF ==> forall|j: int, k: int|
                0 <= j < k < positions@.len() ==> (#[trigger] positions@[j])
                    < #[trigger] positions@[k],
    {
        proof {
            if self.searchable() && hash < 0x8FF {
                let end = self.work_bytes - 1;
                let current = current_pos as int;
                assert forall|q: usize|
                    self.candidates(hash as int, current).contains(q) <==> {
                        &&& q < current_pos
                        &&& current_pos - q <= self.dsize_bytes
                        &&& q + 1 < self.work_bytes
                        &&& self.work_buff@[q as int] * 4 + self.work_buff@[q + 1] * 5 == hash
                    } by {
                    laws::law_positions_are_those_in_reach(self, 0, end, hash as int, current, q);
                }
                laws::law_positions_are_those_in_reach(self, 0, end, hash as int, current, 0);
            }
        }
        let mut positions: Vec<usize> = Vec::new();
        if hash >= HASH_TABLE_SIZE {
            return positions;
        }
        let (start, end) = self.hash_bucket_range(hash);
        let min_offset: usize = current_pos.saturating_sub(self.dsize_bytes as usize);
        let ghost bucket = self.bucket(hash as int);
        let ghost low = min_offset as int;
        let ghost current = current_pos as int;
        let mut i: usize = start;
        assert(bucket.skip(0) =~= bucket);
        while i < end
            invariant_except_break
                positions@ + in_window(bucket.skip(i - start), low, current) == in_window(
                    bucket,
                    low,
                    current,
                ),
            invariant
                start <= i <= end <= WORK_BUFF_SIZE,
                low == min_offset,
                current == current_pos,
                bucket == self.phash_offs@.subrange(start as int, end as int),
            ensures
                positions@ == in_window(bucket, low, current),
            decreases end - i,
        {
            let offset: usize = self.phash_offs[i] as usize;
            let ghost rest = bucket.skip(i - start);
            assert(rest[0] == offset);
            assert(rest.drop_first() =~= bucket.skip(i + 1 - start));
            if offset >= current_pos {
                break;
            }
            let ghost before = positions@;
            if offset >= min_offset {
                positions.push(offset);
                assert(before + (seq![offset] + in_window(rest.drop_first(), low, current))
                    =~= positions@ + in_window(rest.drop_first(), low, current));
            }
            i = i + 1;
        }
        positions
    }

    /// The range in `phash_offs` that holds the offsets of `hash`.
    pub fn hash_bucket_range(&self, hash: usize) -> (range: (usize, usize))
        requires
            hash < HASH_TABLE_SIZE,
        ensures
            range.0 == self.bucket_start(hash as int),
            range.1 == self.bucket_end(hash as int),
            range.0 == self.phash_to_index@[hash as int],
            range.1 == (if hash + 1 < 0x900 {
                self.phash_to_index@[hash + 1] as int
            } else {
                self.pair_count as int
            }),
    {
        let start: usize = self.phash_to_index[hash] as usize;
        let end: usize = if hash + 1 < HASH_TABLE_SIZE {
            self.phash_to_index[hash + 1] as usize
        } else {
            self.pair_count
        };
        (start, end)
    }

    /// Puts the byte pair at `pos` in the first free place of the offsets. A place is free if it
    /// holds zero; if none is, or if the pair crosses the end of the work buffer, nothing
    /// changes.
    pub fn update_hash_incremental(&mut self, pos: usize)
        requires
            pos < usize::MAX,
        ensures
            *final(self) == (ImplodeState { phash_offs: final(self).phash_offs, ..*old(self) }),
            forall|i: int|
                pos + 1 < WORK_BUFF_SIZE && #[trigger] first_zero(old(self).phash_offs@, i)
                    ==> final(self).phash_offs@ == old(self).phash_offs@.update(i, pos as u16),
            pos + 1 >= WORK_BUFF_SIZE || (forall|i: int|
                0 <= i < WORK_BUFF_SIZE ==> #[trigger] old(self).phash_offs@[i] != 0)
                ==> *final(self) == *old(self),
            pos + 1 < 0x2204 ==> final(self).phash_offs@ == with_pair(
                old(self).phash_offs@,
                pos as u16,
            ),
            pos + 1 < 0x2204 && (exists|i: int|
                0 <= i < 0x2204 && #[trigger] old(self).phash_offs@[i] == 0) ==> exists|i: int|
                {
                    &&& 0 <= i < 0x2204
                    &&& #[trigger] old(self).phash_offs@[i] == 0
                    &&& forall|j: int| 0 <= j < i ==> #[trigger] old(self).phash_offs@[j] != 0
                    &&& final(self).phash_offs@ == old(self).phash_offs@.update(i, pos as u16)
                },
    {
        let ghost place = law_pair_takes_the_first_free_place(self.phash_offs@, pos as u16);
        if pos + 1 < WORK_BUFF_SIZE {
            let mut i: usize = 0;
            while i < WORK_BUFF_SIZE
                invariant
                    i <= WORK_BUFF_SIZE,
                    pos + 1 < WORK_BUFF_SIZE,
                    *self == *old(self),
                    0 <= place < WORK_BUFF_SIZE ==> self.phash_offs@[place] == 0,
                    0 <= place < WORK_BUFF_SIZE || place == -1,
                    place >= 0 ==> forall|j: int|
                        0 <= j < place ==> #[trigger] self.phash_offs@[j] != 0,
                    place == -1 ==> forall|j: int|
                        0 <= j < WORK_BUFF_SIZE ==> #[trigger] self.phash_offs@[j] != 0,
                    with_pair(self.phash_offs@, pos as u16) == if place >= 0 {
                        self.phash_offs@.update(place, pos as u16)
                    } else {
                        self.phash_offs@
                    },
                    forall|j: int| 0 <= j < i ==> #[trigger] self.phash_offs@[j] != 0,
                decreases WORK_BUFF_SIZE - i,
            {
                if self.phash_offs[i] == 0 {
                    self.phash_offs[i] = pos as u16;
                    assert forall|k: int| #[trigger] first_zero(
                        old(self).phash_offs@,
                        k,
                    ) implies k == i by {
                        assert(old(self).phash_offs@[i as int] == 0);
                    }
                    assert(old(self).phash_offs@[i as int] == 0);
                    assert(place == i);
                    assert(self.phash_offs@ =~= with_pair(old(self).phash_offs@, pos as u16));
                    return;
                }
                i = i + 1;
            }
        }
    }

    /// Every run of the hash table starts in the table of offsets, and every offset but zero lies
    /// from `buffer_start` up to and not at `buffer_end`.
    pub open spec fn table_valid(&self, buffer_start: int, buffer_end: int) -> bool {
        &&& forall|h: int|
            0 <= h < HASH_TABLE_SIZE ==> #[trigger] self.phash_to_index@[h] < WORK_BUFF_SIZE
        &&& forall|i: int|
            0 <= i < WORK_BUFF_SIZE && #[trigger] self.phash_offs@[i] != 0 ==> buffer_start
                <= self.phash_offs@[i] < buffer_end
    }

    /// Whether every run of the hash table starts in the table of offsets, and every offset but
    /// zero lies from `buffer_start` up to and not at `buffer_end`.
    pub fn validate_hash_table(&self, buffer_start: usize, buffer_end: usize) -> (valid: bool)
        ensures
            valid == self.table_valid(buffer_start as int, buffer_end as int),
            valid <==> {
                &&& forall|h: int|
                    0 <= h < 0x900 ==> (#[trigger] self.phash_to_index@[h]) < 0x2204
                &&& forall|i: int|
                    0 <= i < 0x2204 ==> (#[trigger] self.phash_offs@[i]) == 0 || buffer_start
                        <= self.phash_offs@[i] < buffer_end
            },
    {
        let mut h: usize = 0;
        while h < HASH_TABLE_SIZE
            invariant
                h <= HASH_TABLE_SIZE,
                forall|j: int|
                    0 <= j < h ==> #[trigger] self.phash_to_index@[j] < WORK_BUFF_SIZE,
            decreases HASH_TABLE_SIZE - h,
        {
            if self.phash_to_index[h] as usize >= WORK_BUFF_SIZE {
                return false;
            }
            h = h + 1;
        }
        let mut i: usize = 0;
        while i < WORK_BUFF_SIZE
            invariant
                i <= WORK_BUFF_SIZE,
                forall|j: int|
                    0 <= j < i && #[trigger] self.phash_offs@[j] != 0 ==> buffer_start
                        <= self.phash_offs@[j] < buffer_end,
            decreases WORK_BUFF_SIZE - i,
        {
            let offset: usize = self.phash_offs[i] as usize;
            if offset != 0 && (offset < buffer_start || offset >= buffer_end) {
                return false;
            }
            i = i + 1;
        }
        true
    }

    /// The hash of the byte pair at `pos` of the work buffer.
    pub fn hash_of(&self, pos: usize) -> (hash: usize)
        requires
            pos + 1 < WORK_BUFF_SIZE,
        ensures
            hash == super::hash_at(self.work_buff@, pos as int),
            hash < HASH_TABLE_SIZE,
    {
        let pair: [u8; 2] = [self.work_buff[pos], self.work_buff[pos + 1]];
        byte_pair_hash(&pair)
    }
}

/// There are no more occurrences than positions.
proof fn lemma_occurrences_bound(work: Seq<u8>, begin: int, end: int, hash: int)
    requires
        begin <= end,
    ensures
        occurrences(work, begin, end, hash).len() <= end - begin,
    decreases end - begin,
{
    if begin < end {
        lemma_occurrences_bound(work, begin, end - 1, hash);
    }
}

} // verus!
