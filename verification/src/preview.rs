//! Still pictures of the stream, as a decoder gives them.

use crate::text;
use crate::text::push_decimal;
use vstd::prelude::*;
use vstd::slice::{slice_subrange, slice_to_vec};

verus! {

/// Whether two bytes stand at a place.
pub open spec fn pair_at(data: Seq<u8>, first: u8, second: u8, place: int) -> bool {
    0 <= place && place + 1 < data.len() && data[place] == first && data[place + 1] == second
}

/// The first place, from one on, at which two bytes stand.
pub open spec fn find_pair(data: Seq<u8>, first: u8, second: u8, from: nat) -> Option<nat>
    decreases data.len() - from,
{
    if from + 1 >= data.len() {
        None
    } else if pair_at(data, first, second, from as int) {
        Some(from)
    } else {
        find_pair(data, first, second, from + 1)
    }
}

/// The place of the first picture, from its start marker to the end of its end marker.
pub open spec fn frame_range(data: Seq<u8>) -> Option<(nat, nat)> {
    match find_pair(data, 0xff, 0xd8, 0) {
        Some(start) => match find_pair(data, 0xff, 0xd9, start + 2) {
            Some(end) => Some((start, end + 2)),
            None => None,
        },
        None => None,
    }
}

/// What is found is where it is said to be.
pub proof fn lemma_find_pair(data: Seq<u8>, first: u8, second: u8, from: nat)
    ensures
        find_pair(data, first, second, from) matches Some(place) ==> from <= place && pair_at(
            data,
            first,
            second,
            place as int,
        ),
    decreases data.len() - from,
{
    if from + 1 < data.len() && !pair_at(data, first, second, from as int) {
        lemma_find_pair(data, first, second, from + 1);
    }
}

/// The first place, from one on, at which two bytes stand.
fn position_of(data: &[u8], first: u8, second: u8, from: usize) -> (place: Option<usize>)
    ensures
        match find_pair(data@, first, second, from as nat) {
            Some(wanted) => place matches Some(found) && found == wanted,
            None => place is None,
        },
{
    let count: usize = data.len();
    let mut place: usize = from;
    while place < count && count - place > 1
        invariant
            count == data@.len(),
            find_pair(data@, first, second, from as nat) == find_pair(
                data@,
                first,
                second,
                place as nat,
            ),
        decreases count - place,
    {
        if data[place] == first && data[place + 1] == second {
            return Some(place);
        }
        place = place + 1;
    }
    None
}

/// The first picture in what a decoder gave, and how much of it is used up.
pub fn take_jpeg_frame(data: &[u8]) -> (frame: Option<(Vec<u8>, usize)>)
    ensures
        match frame_range(data@) {
            Some((start, end)) => frame matches Some(found) && found.0@ == data@.subrange(
                start as int,
                end as int,
            ) && found.1 == end,
            None => frame is None,
        },
{
    let start: usize = match position_of(data, 0xff, 0xd8, 0) {
        Some(start) => start,
        None => {
            return None;
        },
    };
    proof {
        lemma_find_pair(data@, 0xff, 0xd8, 0);
        assert(data.len() == data@.len());
    }
    let end: usize = match position_of(data, 0xff, 0xd9, start + 2) {
        Some(end) => end,
        None => {
            return None;
        },
    };
    proof {
        lemma_find_pair(data@, 0xff, 0xd9, (start + 2) as nat);
    }
    Some((slice_to_vec(slice_subrange(data, start, end + 2)), end + 2))
}

/// A picture begins with its start marker and ends with its end marker, and what is used up reaches
/// to its end.
pub proof fn law_frame_has_its_markers(data: Seq<u8>)
    ensures
        frame_range(data) matches Some((start, end)) ==> {
            let frame = data.subrange(start as int, end as int);
            &&& start + 4 <= end <= data.len()
            &&& frame[0] == 0xff && frame[1] == 0xd8
            &&& frame[frame.len() - 2] == 0xff && frame[frame.len() - 1] == 0xd9
        },
{
    lemma_find_pair(data, 0xff, 0xd8, 0);
    if let Some(start) = find_pair(data, 0xff, 0xd8, 0) {
        lemma_find_pair(data, 0xff, 0xd9, start + 2);
    }
}

/// The latest picture, and whether pictures are wanted.
#[derive(Debug)]
pub struct PreviewState {
    pub latest_jpeg: Vec<u8>,
    pub enabled: bool,
}

impl PreviewState {
    pub fn new() -> (state: PreviewState)
        ensures
            state.latest_jpeg@ == Seq::<u8>::empty(),
            state.enabled,
    {
        PreviewState { latest_jpeg: Vec::new(), enabled: true }
    }

    pub fn latest_jpeg_len(&self) -> (len: usize)
        ensures
            len == self.latest_jpeg@.len(),
    {
        self.latest_jpeg.len()
    }

    pub fn latest_jpeg(&self) -> (jpeg: Vec<u8>)
        ensures
            jpeg@ == self.latest_jpeg@,
    {
        slice_to_vec(self.latest_jpeg.as_slice())
    }

    /// Whether pictures are wanted; packets are decoded only if they are.
    pub fn enabled(&self) -> (enabled: bool)
        ensures
            enabled == self.enabled,
    {
        self.enabled
    }

    /// Asks for pictures, or for none; in that case the latest is dropped.
    pub fn set_enabled(&mut self, enabled: bool)
        ensures
            final(self).enabled == enabled,
            final(self).latest_jpeg@ == (if enabled {
                old(self).latest_jpeg@
            } else {
                Seq::empty()
            }),
    {
        self.enabled = enabled;
        if !enabled {
            self.latest_jpeg.clear();
        }
    }
}

/// What is left of a stream once its pictures are taken out, and the latest that is not too large.
pub open spec fn pictures_taken(stream: Seq<u8>, latest: Seq<u8>, max: nat) -> (Seq<u8>, Seq<u8>)
    decreases stream.len(),
{
    match frame_range(stream) {
        Some((start, end)) if 0 < end <= stream.len() => {
            let frame = stream.subrange(start as int, end as int);
            pictures_taken(
                stream.skip(end as int),
                if frame.len() <= max {
                    frame
                } else {
                    latest
                },
                max,
            )
        },
        _ => (stream, latest),
    }
}

/// What has come from a decoder and is not a whole picture yet.
#[derive(Debug)]
pub struct FrameReader {
    pub stream: Vec<u8>,
    pub max_jpeg_bytes: usize,
}

impl FrameReader {
    pub fn new(max_jpeg_bytes: usize) -> (reader: FrameReader)
        ensures
            reader.stream@ == Seq::<u8>::empty(),
            reader.max_jpeg_bytes == max_jpeg_bytes,
    {
        FrameReader { stream: Vec::new(), max_jpeg_bytes }
    }

    /// Takes up what a decoder gave. The latest picture that is not too large is kept; what remains
    /// is dropped if it exceeds twice the size of the largest picture.
    pub fn feed(&mut self, data: &[u8], state: &mut PreviewState)
        ensures
            final(self).max_jpeg_bytes == old(self).max_jpeg_bytes,
            final(state).enabled == old(state).enabled,
            ({
                let (rest, latest) = pictures_taken(
                    old(self).stream@ + data@,
                    old(state).latest_jpeg@,
                    old(self).max_jpeg_bytes as nat,
                );
                &&& final(state).latest_jpeg@ == latest
                &&& final(self).stream@ == (if rest.len() > 2 * old(self).max_jpeg_bytes {
                    Seq::empty()
                } else {
                    rest
                })
            }),
    {
        let ghost all = self.stream@ + data@;
        let ghost max = self.max_jpeg_bytes as nat;
        self.stream.extend_from_slice(data);
        assert(self.stream@ =~= all);
        loop
            invariant
                self.max_jpeg_bytes == old(self).max_jpeg_bytes,
                max == self.max_jpeg_bytes,
                state.enabled == old(state).enabled,
                pictures_taken(all, old(state).latest_jpeg@, max) == pictures_taken(
                    self.stream@,
                    state.latest_jpeg@,
                    max,
                ),
            ensures
                self.max_jpeg_bytes == old(self).max_jpeg_bytes,
                state.enabled == old(state).enabled,
                pictures_taken(all, old(state).latest_jpeg@, max) == (
                    self.stream@,
                    state.latest_jpeg@,
                ),
            decreases self.stream@.len(),
        {
            match take_jpeg_frame(self.stream.as_slice()) {
                Some((frame, consumed)) => {
                    proof {
                        law_frame_has_its_markers(self.stream@);
                    }
                    if frame.len() <= self.max_jpeg_bytes {
                        state.latest_jpeg = frame;
                    }
                    let rest = slice_to_vec(
                        slice_subrange(self.stream.as_slice(), consumed, self.stream.len()),
                    );
                    assert(rest@ =~= self.stream@.skip(consumed as int));
                    self.stream = rest;
                },
                None => {
                    break;
                },
            }
        }
        if self.stream.len() / 2 > self.max_jpeg_bytes || (self.stream.len() / 2
            == self.max_jpeg_bytes && self.stream.len() % 2 == 1) {
            self.stream.clear();
        }
    }
}

/// What the decoder is to be told.
#[derive(Debug, Clone, Copy, PartialEq, Eq, Structural)]
pub enum PreviewStep {
    /// Nothing.
    Idle,
    /// Start, and take the packet.
    StartAndWrite,
    /// Take the packet.
    Write,
    /// Stop.
    Stop,
}

/// Whether a decoder is running.
#[derive(Debug, Clone, Copy, PartialEq, Eq, Structural)]
pub struct PreviewLoop {
    pub decoding: bool,
}

impl PreviewLoop {
    pub fn new() -> (state: PreviewLoop)
        ensures
            state == (PreviewLoop { decoding: false }),
    {
        PreviewLoop { decoding: false }
    }

    /// A packet has come: a decoder takes it, if pictures are wanted, and is started if none runs.
    pub fn on_packet(&mut self, enabled: bool) -> (step: PreviewStep)
        ensures
            final(self).decoding == (old(self).decoding || enabled),
            step == (if !enabled {
                PreviewStep::Idle
            } else if old(self).decoding {
                PreviewStep::Write
            } else {
                PreviewStep::StartAndWrite
            }),
    {
        if !enabled {
            return PreviewStep::Idle;
        }
        if self.decoding {
            return PreviewStep::Write;
        }
        self.decoding = true;
        PreviewStep::StartAndWrite
    }

    /// The decoder did not take a packet: it is stopped.
    pub fn on_write_failed(&mut self) -> (step: PreviewStep)
        ensures
            !final(self).decoding,
            step == (if old(self).decoding {
                PreviewStep::Stop
            } else {
                PreviewStep::Idle
            }),
    {
        let step = if self.decoding {
            PreviewStep::Stop
        } else {
            PreviewStep::Idle
        };
        self.decoding = false;
        step
    }

    /// Time has passed: a decoder that runs is stopped if no pictures are wanted.
    pub fn on_tick(&mut self, enabled: bool) -> (step: PreviewStep)
        ensures
            final(self).decoding == (old(self).decoding && enabled),
            step == (if old(self).decoding && !enabled {
                PreviewStep::Stop
            } else {
                PreviewStep::Idle
            }),
    {
        if self.decoding && !enabled {
            self.decoding = false;
            PreviewStep::Stop
        } else {
            PreviewStep::Idle
        }
    }
}

/// What the decoder is told of the rate and the size of the pictures: one picture each so many
/// seconds, at least one.
pub fn fps_filter(decode_interval_secs: u64) -> (filter: String)
    ensures
        filter@ == "fps=1/"@ + text::decimal(
            if decode_interval_secs == 0 {
                1
            } else {
                decode_interval_secs as nat
            },
        ) + ",scale=420:-1"@,
{
    let mut filter = "fps=1/".to_owned();
    if decode_interval_secs == 0 {
        push_decimal(&mut filter, 1);
    } else {
        push_decimal(&mut filter, decode_interval_secs);
    }
    filter.append(",scale=420:-1");
    filter
}

} // verus!
