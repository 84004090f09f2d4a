//! How a packet is divided among paths.

use crate::protocol::MAX_FRAGMENTS;
use crate::receive;
use crate::strategy::{PathStrategy, StrategyMode};
use vstd::prelude::*;

verus! {

/// The size of a packet of an MPEG transport stream.
pub const MPEG_TS_PACKET_SIZE: usize = 188;

/// The byte that each packet of an MPEG transport stream begins with.
pub const MPEG_TS_SYNC_BYTE: u8 = 0x47;

/// Whether a packet is divided. One that reaches the greatest size always is. Any other is only if
/// there are several paths, and never if a threshold is set that it does not exceed. Where it
/// exceeds the threshold, split mode divides it, and automatic mode does while packets are being
/// split; without a threshold split mode divides every packet, and automatic mode none.
pub open spec fn splits(
    packet_len: usize,
    threshold: Option<usize>,
    mtu: Option<usize>,
    path_count: usize,
    mode: StrategyMode,
    strategy: PathStrategy,
) -> bool {
    ||| mtu matches Some(limit) && packet_len >= limit
    ||| path_count > 1 && mode == StrategyMode::Split && (threshold matches Some(limit)
        ==> packet_len > limit)
    ||| path_count > 1 && mode == StrategyMode::Auto && strategy == PathStrategy::Split && (
    threshold matches Some(limit) && packet_len > limit)
}

/// With a threshold set, packets at or below it are sent whole in every mode, unless they reach the
/// greatest size. Packets above it are divided among several paths in split mode, and in automatic
/// mode while packets are being split.
pub proof fn law_threshold_decides(
    packet_len: usize,
    limit: usize,
    mtu: Option<usize>,
    path_count: usize,
    mode: StrategyMode,
    strategy: PathStrategy,
)
    requires
        mtu matches Some(most) ==> packet_len < most,
    ensures
        packet_len <= limit ==> !splits(packet_len, Some(limit), mtu, path_count, mode, strategy),
        packet_len > limit && path_count > 1 && (mode == StrategyMode::Split || mode
            == StrategyMode::Auto && strategy == PathStrategy::Split) ==> splits(
            packet_len,
            Some(limit),
            mtu,
            path_count,
            mode,
            strategy,
        ),
{
}

pub fn should_split(
    packet_len: usize,
    threshold: Option<usize>,
    mtu: Option<usize>,
    path_count: usize,
    mode: StrategyMode,
    strategy: PathStrategy,
) -> (split: bool)
    ensures
        split == splits(packet_len, threshold, mtu, path_count, mode, strategy),
{
    if let Some(limit) = mtu {
        if packet_len >= limit {
            return true;
        }
    }
    if path_count <= 1 {
        return false;
    }
    match mode {
        StrategyMode::Split => {
            return match threshold {
                Some(limit) => packet_len > limit,
                None => true,
            };
        },
        StrategyMode::Redundant => {
            return false;
        },
        StrategyMode::RoundRobin => {
            return false;
        },
        StrategyMode::Auto => {},
    }
    match threshold {
        Some(limit) => strategy == PathStrategy::Split && packet_len > limit,
        None => false,
    }
}

/// Whether a payload is made of whole packets of an MPEG transport stream.
pub open spec fn is_mpeg_ts(payload: Seq<u8>) -> bool {
    &&& payload.len() > 0
    &&& payload.len() % (MPEG_TS_PACKET_SIZE as nat) == 0
    &&& forall|i: int|
        0 <= i && i * MPEG_TS_PACKET_SIZE < payload.len() ==> #[trigger] payload[i
            * MPEG_TS_PACKET_SIZE] == MPEG_TS_SYNC_BYTE
}

pub fn is_mpeg_ts_payload(payload: &[u8]) -> (result: bool)
    ensures
        result == is_mpeg_ts(payload@),
{
    if payload.len() == 0 || payload.len() % MPEG_TS_PACKET_SIZE != 0 {
        return false;
    }
    let count: usize = payload.len() / MPEG_TS_PACKET_SIZE;
    for i in 0..count
        invariant
            count * MPEG_TS_PACKET_SIZE == payload@.len(),
            payload@.len() <= usize::MAX,
            forall|j: int|
                0 <= j < i ==> #[trigger] payload@[j * MPEG_TS_PACKET_SIZE] == MPEG_TS_SYNC_BYTE,
    {
        assert(i * MPEG_TS_PACKET_SIZE < payload@.len());
        if payload[i * MPEG_TS_PACKET_SIZE] != MPEG_TS_SYNC_BYTE {
            return false;
        }
    }
    true
}

/// The range of a packet that each path gets, if the paths before and with each get so much of it
/// as `cuts` says: the end of a range is the cut, but not before the range begins and not beyond
/// the packet, and the last range reaches to the end.
pub open spec fn ranges_of(packet_len: usize, cuts: Seq<usize>, count: nat) -> Seq<(usize, usize)>
    decreases count,
{
    if count == 0 {
        Seq::empty()
    } else {
        let before = ranges_of(packet_len, cuts, (count - 1) as nat);
        let start = if before.len() == 0 {
            0
        } else {
            before.last().1
        };
        let end = if count == cuts.len() {
            packet_len
        } else if cuts[count - 1] < start {
            start
        } else if cuts[count - 1] > packet_len {
            packet_len
        } else {
            cuts[count - 1]
        };
        before.push((start, end))
    }
}

/// Divides a packet at the given places; the last is not needed, for the last range reaches to the
/// end.
pub fn weighted_split_ranges(packet_len: usize, cuts: &[usize]) -> (ranges: Vec<(usize, usize)>)
    ensures
        ranges@ == ranges_of(packet_len, cuts@, cuts@.len()),
{
    let mut ranges: Vec<(usize, usize)> = Vec::new();
    let mut start: usize = 0;
    for index in 0..cuts.len()
        invariant
            ranges@ == ranges_of(packet_len, cuts@, index as nat),
            start == (if ranges@.len() == 0 {
                0
            } else {
                ranges@.last().1
            }),
    {
        let end: usize = if index == cuts.len() - 1 {
            packet_len
        } else if cuts[index] < start {
            start
        } else if cuts[index] > packet_len {
            packet_len
        } else {
            cuts[index]
        };
        ranges.push((start, end));
        start = end;
    }
    ranges
}

/// The ranges follow one another from the start of the packet to its end: together they cover the
/// packet once.
pub proof fn law_ranges_cover_packet_once(packet_len: usize, cuts: Seq<usize>)
    requires
        cuts.len() > 0,
    ensures
        ranges_of(packet_len, cuts, cuts.len()).len() == cuts.len(),
        ranges_of(packet_len, cuts, cuts.len())[0].0 == 0,
        ranges_of(packet_len, cuts, cuts.len()).last().1 == packet_len,
        forall|i: int|
            0 <= i < cuts.len() ==> (#[trigger] ranges_of(packet_len, cuts, cuts.len())[i]).0
                <= ranges_of(packet_len, cuts, cuts.len())[i].1 <= packet_len,
        forall|i: int, j: int|
            0 <= i < cuts.len() - 1 && j == i + 1 ==> (#[trigger] ranges_of(
                packet_len,
                cuts,
                cuts.len(),
            )[j]).0 == (#[trigger] ranges_of(packet_len, cuts, cuts.len())[i]).1,
{
    lemma_ranges(packet_len, cuts, cuts.len());
}

proof fn lemma_ranges(packet_len: usize, cuts: Seq<usize>, count: nat)
    requires
        count <= cuts.len(),
    ensures
        ranges_of(packet_len, cuts, count).len() == count,
        count > 0 ==> ranges_of(packet_len, cuts, count)[0].0 == 0,
        count > 0 && count == cuts.len() ==> ranges_of(packet_len, cuts, count).last().1
            == packet_len,
        forall|i: int|
            0 <= i < count ==> (#[trigger] ranges_of(packet_len, cuts, count)[i]).0 <= ranges_of(
                packet_len,
                cuts,
                count,
            )[i].1 <= packet_len,
        forall|i: int, j: int|
            0 <= i < count - 1 && j == i + 1 ==> (#[trigger] ranges_of(packet_len, cuts, count)[j]).0
                == (#[trigger] ranges_of(packet_len, cuts, count)[i]).1,
    decreases count,
{
    if count > 0 {
        lemma_ranges(packet_len, cuts, (count - 1) as nat);
        let before = ranges_of(packet_len, cuts, (count - 1) as nat);
        let all = ranges_of(packet_len, cuts, count);
        assert forall|i: int| 0 <= i < count implies (#[trigger] all[i]).0 <= all[i].1
            <= packet_len by {
            if i < count - 1 {
                assert(before[i].0 <= before[i].1 <= packet_len);
            } else if count > 1 {
                assert(before[count - 2].0 <= before[count - 2].1 <= packet_len);
            }
        }
        assert forall|i: int, j: int| 0 <= i < count - 1 && j == i + 1 implies (
        #[trigger] all[j]).0 == (#[trigger] all[i]).1 by {
            if j < count - 1 {
                assert(before[j].0 == before[i].1);
            }
        }
    }
}

/// The ranges that are not empty, each with its path.
pub open spec fn filled_ranges(ranges: Seq<(usize, usize)>, count: nat) -> Seq<
    (usize, usize, usize),
>
    decreases count,
{
    if count == 0 {
        Seq::empty()
    } else {
        let before = filled_ranges(ranges, (count - 1) as nat);
        let (start, end) = ranges[count - 1];
        if start == end {
            before
        } else {
            before.push(((count - 1) as usize, start, end))
        }
    }
}

/// How many chunks of at most `max_payload` bytes a packet makes.
pub open spec fn chunk_count(packet_len: usize, max_payload: usize) -> nat {
    if packet_len == 0 {
        0
    } else {
        ((packet_len - 1) / (max_payload as int) + 1) as nat
    }
}

/// The chunk of a packet at a place.
pub open spec fn chunk_at(packet_len: usize, max_payload: usize, index: int) -> (usize, usize) {
    let start = index * max_payload;
    let end = start + max_payload;
    (
        start as usize,
        if end > packet_len {
            packet_len
        } else {
            end as usize
        },
    )
}

/// The chunks that the first `count` paths get, each with its path.
pub open spec fn chunks_by_path(
    packet_len: usize,
    max_payload: usize,
    shares: Seq<(usize, usize)>,
    count: nat,
) -> Seq<(usize, usize, usize)>
    decreases count,
{
    if count == 0 {
        Seq::empty()
    } else {
        let (first, last) = shares[count - 1];
        chunks_by_path(packet_len, max_payload, shares, (count - 1) as nat) + Seq::new(
            (last - first) as nat,
            |i: int|
                {
                    let chunk = chunk_at(packet_len, max_payload, first + i);
                    ((count - 1) as usize, chunk.0, chunk.1)
                },
        )
    }
}

/// How a packet is divided: by the bytes that each path gets, or, if it reaches the greatest size,
/// into chunks of that size, by the number of chunks that each path gets. `cuts` counts bytes or
/// chunks accordingly. There is no division into too many parts.
pub open spec fn division_of(packet_len: usize, cuts: Seq<usize>, mtu: Option<usize>) -> Option<
    Seq<(usize, usize, usize)>,
> {
    match mtu {
        Some(max_payload) if packet_len >= max_payload => {
            let chunks = chunk_count(packet_len, max_payload);
            if chunks > MAX_FRAGMENTS {
                None
            } else {
                let shares = ranges_of(chunks as usize, cuts, cuts.len());
                Some(chunks_by_path(packet_len, max_payload, shares, shares.len()))
            }
        },
        _ => {
            let ranges = ranges_of(packet_len, cuts, cuts.len());
            let filled = filled_ranges(ranges, ranges.len());
            if filled.len() <= MAX_FRAGMENTS {
                Some(filled)
            } else {
                None
            }
        },
    }
}

/// How much there is to divide: bytes, or chunks if the packet reaches the greatest size.
pub fn units_to_divide(packet_len: usize, mtu: Option<usize>) -> (units: usize)
    requires
        mtu matches Some(max_payload) ==> max_payload > 0,
    ensures
        units == (match mtu {
            Some(max_payload) if packet_len >= max_payload => chunk_count(packet_len, max_payload),
            _ => packet_len as nat,
        }),
{
    match mtu {
        Some(max_payload) => if packet_len >= max_payload {
            count_chunks(packet_len, max_payload)
        } else {
            packet_len
        },
        None => packet_len,
    }
}

/// How many chunks of at most `max_payload` bytes a packet makes.
pub fn count_chunks(packet_len: usize, max_payload: usize) -> (count: usize)
    requires
        max_payload > 0,
    ensures
        count == chunk_count(packet_len, max_payload),
{
    if packet_len == 0 {
        0
    } else {
        proof {
            lemma_quotient_fits(packet_len - 1, max_payload as int);
        }
        (packet_len - 1) / max_payload + 1
    }
}

proof fn lemma_quotient_fits(value: int, divisor: int)
    requires
        value >= 0,
        divisor > 0,
    ensures
        0 <= value / divisor <= value,
        (value / divisor) * divisor <= value,
        value < (value / divisor + 1) * divisor,
{
    assert(0 <= value / divisor <= value && (value / divisor) * divisor <= value && value < (value
        / divisor + 1) * divisor) by (nonlinear_arith)
        requires
            value >= 0,
            divisor > 0,
    ;
}

/// A chunk lies within its packet.
pub proof fn lemma_chunk_fits(packet_len: usize, max_payload: usize, index: int)
    requires
        max_payload > 0,
        0 <= index < chunk_count(packet_len, max_payload),
    ensures
        0 <= index * max_payload < packet_len,
        index + 1 < chunk_count(packet_len, max_payload) ==> (index + 1) * max_payload
            < packet_len,
        index + 1 == chunk_count(packet_len, max_payload) ==> (index + 1) * max_payload
            >= packet_len,
        (index + 1) * max_payload == index * max_payload + max_payload,
{
    let quotient = (packet_len - 1) / (max_payload as int);
    lemma_quotient_fits(packet_len - 1, max_payload as int);
    assert(index * max_payload <= quotient * max_payload) by (nonlinear_arith)
        requires
            index <= quotient,
            max_payload > 0,
    ;
    assert(0 <= index * max_payload) by (nonlinear_arith)
        requires
            0 <= index,
            max_payload > 0,
    ;
    assert((index + 1) * max_payload == index * max_payload + max_payload) by (nonlinear_arith);
    if index + 1 < chunk_count(packet_len, max_payload) {
        assert((index + 1) * max_payload <= quotient * max_payload) by (nonlinear_arith)
            requires
                index + 1 <= quotient,
                max_payload > 0,
        ;
    }
}

/// The chunks of a packet, each with the path that gets it, if each path gets the chunks of its
/// share.
pub fn chunk_ranges(packet_len: usize, max_payload: usize, shares: &[(usize, usize)]) -> (ranges:
    Vec<(usize, usize, usize)>)
    requires
        max_payload > 0,
        forall|i: int|
            0 <= i < shares@.len() ==> (#[trigger] shares@[i]).0 <= shares@[i].1 <= chunk_count(
                packet_len,
                max_payload,
            ),
    ensures
        ranges@ == chunks_by_path(packet_len, max_payload, shares@, shares@.len()),
{
    let mut ranges: Vec<(usize, usize, usize)> = Vec::new();
    for path in 0..shares.len()
        invariant
            max_payload > 0,
            forall|i: int|
                0 <= i < shares@.len() ==> (#[trigger] shares@[i]).0 <= shares@[i].1
                    <= chunk_count(packet_len, max_payload),
            ranges@ == chunks_by_path(packet_len, max_payload, shares@, path as nat),
    {
        let (first, last) = shares[path];
        let ghost before = ranges@;
        let ghost added = |i: int|
            {
                let chunk = chunk_at(packet_len, max_payload, first + i);
                (path, chunk.0, chunk.1)
            };
        assert(shares@[path as int].0 <= shares@[path as int].1);
        for index in first..last
            invariant
                max_payload > 0,
                first <= last <= chunk_count(packet_len, max_payload),
                added == |i: int|
                    {
                        let chunk = chunk_at(packet_len, max_payload, first + i);
                        (path, chunk.0, chunk.1)
                    },
                ranges@ == before + Seq::new((index - first) as nat, added),
        {
            proof {
                lemma_chunk_fits(packet_len, max_payload, index as int);
            }
            let start: usize = index * max_payload;
            let end: usize = if packet_len - start < max_payload {
                packet_len
            } else {
                start + max_payload
            };
            ranges.push((path, start, end));
            proof {
                assert(added(index - first) == (path, start, end));
                assert(ranges@ =~= before + Seq::new((index + 1 - first) as nat, added));
            }
        }
        proof {
            let share = shares@[path as int];
            assert(Seq::new((last - first) as nat, added) =~= Seq::new(
                (share.1 - share.0) as nat,
                |i: int|
                    {
                        let chunk = chunk_at(packet_len, max_payload, share.0 + i);
                        ((path + 1 - 1) as usize, chunk.0, chunk.1)
                    },
            ));
        }
    }
    ranges
}

/// Divides a packet that reaches the greatest size into chunks of that size.
pub fn mtu_chunked_split_ranges(packet_len: usize, cuts: &[usize], max_payload: usize) -> (ranges:
    Option<Vec<(usize, usize, usize)>>)
    requires
        max_payload > 0,
        max_payload <= packet_len,
    ensures
        match division_of(packet_len, cuts@, Some(max_payload)) {
            Some(division) => ranges matches Some(found) && found@ == division,
            None => ranges is None,
        },
{
    let chunks: usize = count_chunks(packet_len, max_payload);
    if chunks > MAX_FRAGMENTS {
        return None;
    }
    let shares = weighted_split_ranges(chunks, cuts);
    proof {
        if cuts@.len() > 0 {
            law_ranges_cover_packet_once(chunks, cuts@);
        }
    }
    Some(chunk_ranges(packet_len, max_payload, shares.as_slice()))
}

/// Divides a packet among paths: the path, the start and the end of each part.
pub fn packet_split_ranges(packet_len: usize, cuts: &[usize], mtu: Option<usize>) -> (ranges:
    Option<Vec<(usize, usize, usize)>>)
    requires
        mtu matches Some(max_payload) ==> max_payload > 0,
    ensures
        match division_of(packet_len, cuts@, mtu) {
            Some(division) => ranges matches Some(found) && found@ == division,
            None => ranges is None,
        },
{
    if let Some(max_payload) = mtu {
        if packet_len >= max_payload {
            return mtu_chunked_split_ranges(packet_len, cuts, max_payload);
        }
    }
    let weighted = weighted_split_ranges(packet_len, cuts);
    let mut ranges: Vec<(usize, usize, usize)> = Vec::new();
    for path in 0..weighted.len()
        invariant
            ranges@ == filled_ranges(weighted@, path as nat),
            ranges@.len() <= path,
    {
        let (start, end) = weighted[path];
        if start != end {
            ranges.push((path, start, end));
        }
    }
    if ranges.len() <= MAX_FRAGMENTS {
        Some(ranges)
    } else {
        None
    }
}

/// Whether parts follow one another from the start of a packet to `end`, none of them empty.
pub open spec fn covers(parts: Seq<(usize, usize, usize)>, end: usize) -> bool {
    &&& parts.len() == 0 ==> end == 0
    &&& parts.len() > 0 ==> parts[0].1 == 0 && parts.last().2 == end
    &&& forall|i: int| 0 <= i < parts.len() ==> (#[trigger] parts[i]).1 < parts[i].2 <= end
    &&& forall|i: int, j: int|
        0 <= i < parts.len() - 1 && j == i + 1 ==> (#[trigger] parts[j]).1 == (
        #[trigger] parts[i]).2
}

proof fn lemma_filled_ranges_cover(packet_len: usize, cuts: Seq<usize>, count: nat)
    requires
        0 < count <= cuts.len(),
    ensures
        ({
            let ranges = ranges_of(packet_len, cuts, cuts.len());
            covers(filled_ranges(ranges, count), ranges[count - 1].1)
        }),
    decreases count,
{
    let ranges = ranges_of(packet_len, cuts, cuts.len());
    law_ranges_cover_packet_once(packet_len, cuts);
    let all = filled_ranges(ranges, count);
    let (start, end) = ranges[count - 1];
    if count == 1 {
        assert(filled_ranges(ranges, 0) =~= Seq::empty());
    } else {
        lemma_filled_ranges_cover(packet_len, cuts, (count - 1) as nat);
        let before = filled_ranges(ranges, (count - 1) as nat);
        assert(start == ranges[count - 2].1);
        if start != end {
            assert forall|i: int| 0 <= i < all.len() implies (#[trigger] all[i]).1 < all[i].2
                <= end by {
                if i < before.len() {
                    assert(before[i].1 < before[i].2 <= start);
                }
            }
            assert forall|i: int, j: int| 0 <= i < all.len() - 1 && j == i + 1 implies (
            #[trigger] all[j]).1 == (#[trigger] all[i]).2 by {
                if j < before.len() {
                    assert(before[j].1 == before[i].2);
                }
            }
        }
    }
}

pub proof fn lemma_chunks_by_path(
    packet_len: usize,
    max_payload: usize,
    chunks: usize,
    cuts: Seq<usize>,
    count: nat,
)
    requires
        0 < count <= cuts.len(),
    ensures
        ({
            let shares = ranges_of(chunks, cuts, cuts.len());
            let parts = chunks_by_path(packet_len, max_payload, shares, count);
            &&& parts.len() == shares[count - 1].1
            &&& forall|i: int|
                0 <= i < parts.len() ==> ((#[trigger] parts[i]).1, parts[i].2) == chunk_at(
                    packet_len,
                    max_payload,
                    i,
                )
        }),
    decreases count,
{
    let shares = ranges_of(chunks, cuts, cuts.len());
    law_ranges_cover_packet_once(chunks, cuts);
    let parts = chunks_by_path(packet_len, max_payload, shares, count);
    let (first, last) = shares[count - 1];
    assert(first <= last);
    let before = chunks_by_path(packet_len, max_payload, shares, (count - 1) as nat);
    if count == 1 {
        assert(before =~= Seq::empty());
    } else {
        lemma_chunks_by_path(packet_len, max_payload, chunks, cuts, (count - 1) as nat);
        assert(first == shares[count - 2].1);
    }
    assert forall|i: int| 0 <= i < parts.len() implies ((#[trigger] parts[i]).1, parts[i].2)
        == chunk_at(packet_len, max_payload, i) by {
        if i < before.len() {
            assert(parts[i] == before[i]);
        }
    }
}

/// Where the shares of the paths grow and none exceeds the packet, each path but the last gets what
/// is between the share before it and its own, and the last gets the rest.
pub proof fn law_ranges_end_at_the_cuts(packet_len: usize, cuts: Seq<usize>)
    requires
        forall|i: int| 0 <= i < cuts.len() ==> (#[trigger] cuts[i]) <= packet_len,
        forall|i: int, j: int| 0 <= i <= j < cuts.len() ==> #[trigger] cuts[i] <= #[trigger] cuts[j],
    ensures
        forall|i: int|
            0 <= i < cuts.len() ==> (#[trigger] ranges_of(packet_len, cuts, cuts.len())[i]) == (
                if i == 0 {
                    0
                } else {
                    cuts[i - 1]
                },
                if i == cuts.len() - 1 {
                    packet_len
                } else {
                    cuts[i]
                },
            ),
{
    lemma_ranges_end_at_the_cuts(packet_len, cuts, cuts.len());
}

proof fn lemma_ranges_end_at_the_cuts(packet_len: usize, cuts: Seq<usize>, count: nat)
    requires
        count <= cuts.len(),
        forall|i: int| 0 <= i < cuts.len() ==> (#[trigger] cuts[i]) <= packet_len,
        forall|i: int, j: int| 0 <= i <= j < cuts.len() ==> #[trigger] cuts[i] <= #[trigger] cuts[j],
    ensures
        ranges_of(packet_len, cuts, count).len() == count,
        forall|i: int|
            0 <= i < count ==> (#[trigger] ranges_of(packet_len, cuts, count)[i]) == (
                if i == 0 {
                    0
                } else {
                    cuts[i - 1]
                },
                if i == cuts.len() - 1 {
                    packet_len
                } else {
                    cuts[i]
                },
            ),
    decreases count,
{
    if count > 0 {
        lemma_ranges_end_at_the_cuts(packet_len, cuts, (count - 1) as nat);
        let before = ranges_of(packet_len, cuts, (count - 1) as nat);
        if count > 1 {
            assert(before.last() == before[count - 2]);
            assert(cuts[count - 2] <= cuts[count - 1]);
        }
        assert(cuts[count - 1] <= packet_len);
    }
}

/// A chunk is for the path in whose share it lies.
pub proof fn lemma_path_of_chunk(
    packet_len: usize,
    max_payload: usize,
    chunks: usize,
    cuts: Seq<usize>,
    count: nat,
    path: int,
    index: int,
)
    requires
        0 <= path < count <= cuts.len(),
        cuts.len() <= usize::MAX,
        ranges_of(chunks, cuts, cuts.len())[path].0 <= index < ranges_of(
            chunks,
            cuts,
            cuts.len(),
        )[path].1,
    ensures
        ({
            let parts = chunks_by_path(
                packet_len,
                max_payload,
                ranges_of(chunks, cuts, cuts.len()),
                count,
            );
            index < parts.len() && parts[index].0 == path
        }),
    decreases count,
{
    let shares = ranges_of(chunks, cuts, cuts.len());
    law_ranges_cover_packet_once(chunks, cuts);
    lemma_chunks_by_path(packet_len, max_payload, chunks, cuts, count);
    let before = chunks_by_path(packet_len, max_payload, shares, (count - 1) as nat);
    let (first, last) = shares[count - 1];
    assert(first <= last);
    if count == 1 {
        assert(before =~= Seq::empty());
    } else {
        lemma_chunks_by_path(packet_len, max_payload, chunks, cuts, (count - 1) as nat);
        assert(first == shares[count - 2].1);
    }
    if path < count - 1 {
        lemma_path_of_chunk(
            packet_len,
            max_payload,
            chunks,
            cuts,
            (count - 1) as nat,
            path,
            index,
        );
    }
}

/// Each range is for one of the paths.
pub proof fn lemma_paths_of_ranges(ranges: Seq<(usize, usize)>, count: nat)
    requires
        count <= usize::MAX,
    ensures
        forall|i: int|
            0 <= i < filled_ranges(ranges, count).len() ==> (#[trigger] filled_ranges(
                ranges,
                count,
            )[i]).0 < count,
    decreases count,
{
    if count > 0 {
        lemma_paths_of_ranges(ranges, (count - 1) as nat);
        let before = filled_ranges(ranges, (count - 1) as nat);
        let all = filled_ranges(ranges, count);
        assert forall|i: int| 0 <= i < all.len() implies (#[trigger] all[i]).0 < count by {
            if i < before.len() {
                assert(all[i] == before[i]);
            }
        }
    }
}

/// Each chunk is for one of the paths.
pub proof fn lemma_paths_of_chunks(
    packet_len: usize,
    max_payload: usize,
    shares: Seq<(usize, usize)>,
    count: nat,
)
    requires
        count <= usize::MAX,
    ensures
        forall|i: int|
            0 <= i < chunks_by_path(packet_len, max_payload, shares, count).len() ==> (
            #[trigger] chunks_by_path(packet_len, max_payload, shares, count)[i]).0 < count,
    decreases count,
{
    if count > 0 {
        lemma_paths_of_chunks(packet_len, max_payload, shares, (count - 1) as nat);
        let before = chunks_by_path(packet_len, max_payload, shares, (count - 1) as nat);
        let all = chunks_by_path(packet_len, max_payload, shares, count);
        assert forall|i: int| 0 <= i < all.len() implies (#[trigger] all[i]).0 < count by {
            if i < before.len() {
                assert(all[i] == before[i]);
            }
        }
    }
}

/// However a packet is divided, each part is for one of the paths.
pub proof fn law_division_is_among_paths(packet_len: usize, cuts: Seq<usize>, mtu: Option<usize>)
    requires
        cuts.len() <= usize::MAX,
    ensures
        division_of(packet_len, cuts, mtu) matches Some(parts) ==> forall|i: int|
            0 <= i < parts.len() ==> (#[trigger] parts[i]).0 < cuts.len(),
{
    if mtu is Some && packet_len >= mtu->0 {
        let shares = ranges_of(chunk_count(packet_len, mtu->0) as usize, cuts, cuts.len());
        lemma_ranges(chunk_count(packet_len, mtu->0) as usize, cuts, cuts.len());
        lemma_paths_of_chunks(packet_len, mtu->0, shares, shares.len());
    } else {
        let ranges = ranges_of(packet_len, cuts, cuts.len());
        lemma_ranges(packet_len, cuts, cuts.len());
        lemma_paths_of_ranges(ranges, ranges.len());
    }
}

/// The number of chunks is a machine number.
pub proof fn lemma_count_fits(packet_len: usize, max_payload: usize)
    requires
        max_payload > 0,
    ensures
        chunk_count(packet_len, max_payload) <= packet_len,
{
    if packet_len > 0 {
        lemma_quotient_fits(packet_len - 1, max_payload as int);
    }
}

/// The chunks of a packet follow one another from its start to its end.
pub proof fn lemma_chunks_cover(packet_len: usize, max_payload: usize, cuts: Seq<usize>)
    requires
        cuts.len() > 0,
        max_payload > 0,
    ensures
        ({
            let chunks = chunk_count(packet_len, max_payload);
            let shares = ranges_of(chunks as usize, cuts, cuts.len());
            let parts = chunks_by_path(packet_len, max_payload, shares, shares.len());
            covers(parts, packet_len) && parts.len() == chunks
        }),
{
    let chunks = chunk_count(packet_len, max_payload);
    lemma_count_fits(packet_len, max_payload);
    let shares = ranges_of(chunks as usize, cuts, cuts.len());
    law_ranges_cover_packet_once(chunks as usize, cuts);
    lemma_chunks_by_path(packet_len, max_payload, chunks as usize, cuts, cuts.len());
    let parts = chunks_by_path(packet_len, max_payload, shares, shares.len());
    assert(parts.len() == chunks);
    assert forall|i: int| 0 <= i < parts.len() implies (#[trigger] parts[i]).1 < parts[i].2
        <= packet_len by {
        lemma_chunk_fits(packet_len, max_payload, i);
    }
    assert forall|i: int, j: int| 0 <= i < parts.len() - 1 && j == i + 1 implies (
    #[trigger] parts[j]).1 == (#[trigger] parts[i]).2 by {
        lemma_chunk_fits(packet_len, max_payload, i);
        lemma_chunk_fits(packet_len, max_payload, j);
    }
    if chunks > 0 {
        assert(parts[0].1 == 0) by {
            assert((parts[0].1, parts[0].2) == chunk_at(packet_len, max_payload, 0));
        }
        lemma_chunk_fits(packet_len, max_payload, chunks - 1);
        assert(parts.last().2 == packet_len) by {
            assert((parts[chunks - 1].1, parts[chunks - 1].2) == chunk_at(
                packet_len,
                max_payload,
                chunks - 1,
            ));
        }
    }
}

/// However a packet is divided, its parts follow one another from its start to its end, and none
/// is empty.
pub proof fn law_division_covers_packet(packet_len: usize, cuts: Seq<usize>, mtu: Option<usize>)
    requires
        cuts.len() > 0,
        mtu matches Some(max_payload) ==> max_payload > 0,
    ensures
        division_of(packet_len, cuts, mtu) matches Some(parts) ==> covers(parts, packet_len)
            && parts.len() <= MAX_FRAGMENTS,
{
    if mtu is Some && packet_len >= mtu->0 {
        if chunk_count(packet_len, mtu->0) <= MAX_FRAGMENTS {
            law_ranges_cover_packet_once(chunk_count(packet_len, mtu->0) as usize, cuts);
            lemma_chunks_cover(packet_len, mtu->0, cuts);
        }
    } else {
        law_ranges_cover_packet_once(packet_len, cuts);
        lemma_filled_ranges_cover(packet_len, cuts, cuts.len());
    }
}

/// However a packet is divided, its parts lie within it and are for its paths.
pub proof fn lemma_division_fits(packet_len: usize, cuts: Seq<usize>, mtu: Option<usize>)
    requires
        cuts.len() <= usize::MAX,
        mtu matches Some(max_payload) ==> max_payload > 0,
    ensures
        division_of(packet_len, cuts, mtu) matches Some(parts) ==> parts.len() <= MAX_FRAGMENTS
            && forall|i: int|
            0 <= i < parts.len() ==> (#[trigger] parts[i]).0 < cuts.len() && parts[i].1
                <= parts[i].2 <= packet_len,
{
    law_division_is_among_paths(packet_len, cuts, mtu);
    if cuts.len() > 0 {
        law_division_covers_packet(packet_len, cuts, mtu);
    }
    if let Some(parts) = division_of(packet_len, cuts, mtu) {
        assert(cuts.len() == 0 ==> parts.len() == 0) by {
            if parts.len() > 0 {
                assert(parts[0].0 < cuts.len());
            }
        }
    }
}

/// The parts of a payload.
pub open spec fn parts_of(payload: Seq<u8>, parts: Seq<(usize, usize, usize)>) -> Seq<
    Option<Seq<u8>>,
> {
    Seq::new(
        parts.len(),
        |i: int| Some(payload.subrange(parts[i].1 as int, parts[i].2 as int)),
    )
}

/// A receiver that has every part of a divided payload puts the payload together again.
pub proof fn law_parts_make_the_payload(
    payload: Seq<u8>,
    cuts: Seq<usize>,
    mtu: Option<usize>,
)
    requires
        payload.len() <= usize::MAX,
        cuts.len() > 0,
        mtu matches Some(max_payload) ==> max_payload > 0,
    ensures
        division_of(payload.len() as usize, cuts, mtu) matches Some(parts)
            ==> receive::joined_parts(parts_of(payload, parts)) == payload,
{
    law_division_covers_packet(payload.len() as usize, cuts, mtu);
    if let Some(parts) = division_of(payload.len() as usize, cuts, mtu) {
        lemma_covering_parts_join(payload, parts);
    }
}

/// Parts that cover a payload make it.
pub proof fn lemma_covering_parts_join(payload: Seq<u8>, parts: Seq<(usize, usize, usize)>)
    requires
        payload.len() <= usize::MAX,
        covers(parts, payload.len() as usize),
    ensures
        receive::joined_parts(parts_of(payload, parts)) == payload,
{
    lemma_joined_parts(payload, parts, parts.len());
    assert(parts.take(parts.len() as int) =~= parts);
    if parts.len() == 0 {
        assert(payload =~= Seq::empty());
    }
    assert(payload.take(payload.len() as int) =~= payload);
}

proof fn lemma_joined_parts(payload: Seq<u8>, parts: Seq<(usize, usize, usize)>, count: nat)
    requires
        payload.len() <= usize::MAX,
        covers(parts, payload.len() as usize),
        count <= parts.len(),
    ensures
        receive::joined_parts(parts_of(payload, parts.take(count as int))) == (if count == 0 {
            Seq::empty()
        } else {
            payload.take(parts[count - 1].2 as int)
        }),
    decreases count,
{
    let held = parts_of(payload, parts.take(count as int));
    if count > 0 {
        lemma_joined_parts(payload, parts, (count - 1) as nat);
        let last = parts[count - 1];
        assert(last.1 < last.2 <= payload.len());
        assert(held.drop_last() =~= parts_of(payload, parts.take(count - 1)));
        assert(held.last() == Some(payload.subrange(last.1 as int, last.2 as int)));
        if count > 1 {
            assert(last.1 == parts[count - 2].2);
        }
        assert(receive::joined_parts(held) =~= payload.take(last.2 as int));
    }
}

} // verus!
