use vstd::prelude::*;
use std::collections::VecDeque;

verus! {

/// Most packets the demuxing thread keeps queued for the decoding thread.
pub const VIDEO_PACKET_QUEUE_MAX: usize = 1024;

/// Milliseconds the demuxing thread waits when the queue is full.
pub const QUEUE_FULL_SLEEP: u64 = 50;

/// Milliseconds the decoding thread waits when the queue is empty.
pub const NO_PACKET_SLEEP: u64 = 10;

/// Milliseconds `init` waits between two looks at the size of the first frame.
pub const FRAME_SIZE_POLL_SLEEP: u64 = 5;

/// What a player thread does after one step: go on at once, wait the given
/// number of milliseconds and go on, or stop.
#[derive(Clone, Copy, Debug, PartialEq, Eq, Structural)]
pub enum LoopState {
    Running,
    Sleep(u64),
    Exit,
}

/// What decoding one packet gave: an error, no picture yet, or a picture of
/// the given size.
#[derive(Clone, Copy, Debug, PartialEq, Eq, Structural)]
pub enum DecodeOutcome {
    Failed,
    NoPicture,
    Frame { width: u32, height: u32 },
}

/// What initialising a player reports: the stream's duration in milliseconds
/// and the size of the first decoded frame.
pub struct InitResult {
    pub duration: i64,
    pub size: (u32, u32),
}

/// One stream of the input: its index among the streams of the container,
/// its duration in milliseconds, and the packets read for it that wait to be
/// decoded, oldest first.
pub struct StreamData<P> {
    pub stream_index: usize,
    pub duration: i64,
    pub packet_queue: VecDeque<P>,
}

impl<P> View for StreamData<P> {
    type V = Seq<P>;

    /// The queued packets, oldest first.
    open spec fn view(&self) -> Seq<P> {
        self.packet_queue@
    }
}

/// The queue after one read of the demuxing thread: a packet of this stream
/// goes to the back, a packet of another stream and the end of the input
/// leave it as it was.
pub open spec fn after_read<P>(queue: Seq<P>, stream_index: usize, read: Option<(usize, P)>) -> Seq<P> {
    match read {
        Some((index, packet)) => if index == stream_index {
            queue.push(packet)
        } else {
            queue
        },
        None => queue,
    }
}

/// The queue after the demuxing thread has read `reads`, in order.
pub open spec fn after_reads<P>(queue: Seq<P>, stream_index: usize, reads: Seq<(usize, P)>) -> Seq<P>
    decreases reads.len(),
{
    if reads.len() == 0 {
        queue
    } else {
        after_read(after_reads(queue, stream_index, reads.drop_last()), stream_index, Some(reads.last()))
    }
}

/// The packets among `reads` that belong to the stream, in the order read.
pub open spec fn packets_of<P>(reads: Seq<(usize, P)>, stream_index: usize) -> Seq<P> {
    reads.filter_map(|r: (usize, P)| if r.0 == stream_index { Some(r.1) } else { None })
}

impl<P> StreamData<P> {
    /// A stream with no packet queued.
    pub fn new(stream_index: usize, duration: i64) -> (s: Self)
        ensures
            s.stream_index == stream_index,
            s.duration == duration,
            s@ == Seq::<P>::empty(),
    {
        StreamData { stream_index, duration, packet_queue: VecDeque::new() }
    }

    /// Number of queued packets.
    pub fn queue_len(&self) -> (n: usize)
        ensures
            n == self@.len(),
    {
        self.packet_queue.len()
    }

    /// The first half of a step of the demuxing thread: with the queue full
    /// it waits, else (`None`) it goes on to read the next packet.
    pub fn queue_full_wait(&self) -> (r: Option<LoopState>)
        ensures
            r == (if self@.len() >= VIDEO_PACKET_QUEUE_MAX {
                Some(LoopState::Sleep(QUEUE_FULL_SLEEP))
            } else {
                None
            }),
    {
        if self.packet_queue.len() >= VIDEO_PACKET_QUEUE_MAX {
            Some(LoopState::Sleep(QUEUE_FULL_SLEEP))
        } else {
            None
        }
    }

    /// The second half of a step of the demuxing thread, given what was read:
    /// at the end of the input the thread stops; a packet of this stream is
    /// queued, one of another stream dropped, and the thread goes on.
    pub fn enqueue_next_packet(&mut self, read: Option<(usize, P)>) -> (r: LoopState)
        ensures
            final(self).stream_index == old(self).stream_index,
            final(self).duration == old(self).duration,
            final(self)@ == after_read(old(self)@, old(self).stream_index, read),
            read is None ==> final(self)@ == old(self)@,
            forall|packet: P|
                read == Some((old(self).stream_index, packet)) ==> final(self)@ == old(self)@.push(
                    packet,
                ),
            forall|index: usize, packet: P|
                read == Some((index, packet)) && index != old(self).stream_index ==> final(self)@
                    == old(self)@,
            r == (if read is None {
                LoopState::Exit
            } else {
                LoopState::Running
            }),
    {
        match read {
            Some((index, packet)) => {
                if index == self.stream_index {
                    self.packet_queue.push_back(packet);
                }
                LoopState::Running
            },
            None => LoopState::Exit,
        }
    }

    /// Takes the oldest queued packet, if any.
    pub fn pop_packet(&mut self) -> (r: Option<P>)
        ensures
            final(self).stream_index == old(self).stream_index,
            final(self).duration == old(self).duration,
            old(self)@.len() == 0 ==> r is None && final(self)@ == old(self)@,
            old(self)@.len() > 0 ==> r == Some(old(self)@[0]) && final(self)@ == old(self)@.drop_first(),
    {
        self.packet_queue.pop_front()
    }
}

/// The part of the decoder's state that the player's threads share: the
/// video stream with its queued packets, the size of the pictures once one
/// has been decoded, and the texture they are shown on.
pub struct VideoStreamData<P, T> {
    pub stream: StreamData<P>,
    pub width: Option<u32>,
    pub height: Option<u32>,
    pub texture: T,
}

/// The size of the pictures, once both width and height are known.
pub open spec fn known_size(width: Option<u32>, height: Option<u32>) -> Option<(u32, u32)> {
    match (width, height) {
        (Some(w), Some(h)) => Some((w, h)),
        _ => None,
    }
}

impl<P, T> VideoStreamData<P, T> {
    /// A video stream whose picture size is not known yet.
    pub fn new(stream: StreamData<P>, texture: T) -> (v: Self)
        ensures
            v.stream == stream,
            v.width is None,
            v.height is None,
            v.texture == texture,
    {
        VideoStreamData { stream, width: None, height: None, texture }
    }

    /// The first half of a step of the decoding thread: the oldest queued
    /// packet, taken off the queue, or, with none queued, a wait.
    pub fn next_packet(&mut self) -> (r: Result<P, LoopState>)
        ensures
            final(self).stream.stream_index == old(self).stream.stream_index,
            final(self).stream.duration == old(self).stream.duration,
            final(self).width == old(self).width,
            final(self).height == old(self).height,
            final(self).texture == old(self).texture,
            old(self).stream@.len() == 0 ==> r == Err::<P, LoopState>(
                LoopState::Sleep(NO_PACKET_SLEEP),
            ) && final(self).stream@ == old(self).stream@,
            old(self).stream@.len() > 0 ==> r == Ok::<P, LoopState>(old(self).stream@[0])
                && final(self).stream@ == old(self).stream@.drop_first(),
    {
        match self.stream.pop_packet() {
            Some(packet) => Ok(packet),
            None => Err(LoopState::Sleep(NO_PACKET_SLEEP)),
        }
    }

    /// The second half of a step of the decoding thread, given what decoding
    /// the packet gave: on an error the thread stops; a picture's size is
    /// kept; otherwise nothing changes; and the thread goes on.
    pub fn record_decode(&mut self, outcome: DecodeOutcome) -> (r: LoopState)
        ensures
            final(self).stream == old(self).stream,
            final(self).texture == old(self).texture,
            match outcome {
                DecodeOutcome::Failed => {
                    &&& r == LoopState::Exit
                    &&& final(self).width == old(self).width
                    &&& final(self).height == old(self).height
                },
                DecodeOutcome::NoPicture => {
                    &&& r == LoopState::Running
                    &&& final(self).width == old(self).width
                    &&& final(self).height == old(self).height
                },
                DecodeOutcome::Frame { width, height } => {
                    &&& r == LoopState::Running
                    &&& final(self).width == Some(width)
                    &&& final(self).height == Some(height)
                },
            },
            known_size(old(self).width, old(self).height) is Some
                ==> known_size(final(self).width, final(self).height) is Some,
    {
        match outcome {
            DecodeOutcome::Failed => LoopState::Exit,
            DecodeOutcome::NoPicture => LoopState::Running,
            DecodeOutcome::Frame { width, height } => {
                self.width = Some(width);
                self.height = Some(height);
                LoopState::Running
            },
        }
    }

    /// The size of the pictures, once a picture has been decoded.
    pub fn frame_size(&self) -> (r: Option<(u32, u32)>)
        ensures
            r == known_size(self.width, self.height),
            self.width is Some && self.height is Some ==> r == Some(
                (self.width->0, self.height->0),
            ),
            self.width is None || self.height is None ==> r is None,
    {
        match (self.width, self.height) {
            (Some(w), Some(h)) => Some((w, h)),
            _ => None,
        }
    }
}

/// A read queues a packet of the stream at the back, leaves the queue as
/// it was for a packet of another stream, and leaves it as it was at the end
/// of the input: the queued packets are still decoded.
pub proof fn lemma_read_keeps_queued_packets<P>(
    queue: Seq<P>,
    stream_index: usize,
    index: usize,
    packet: P,
)
    ensures
        after_read(queue, stream_index, None) == queue,
        index == stream_index ==> after_read(queue, stream_index, Some((index, packet)))
            == queue.push(packet),
        index != stream_index ==> after_read(queue, stream_index, Some((index, packet))) == queue,
{
}

/// The size reported once known is the recorded width and height,
/// unchanged; before both are known there is none.
pub proof fn lemma_known_size_is_recorded_size(width: Option<u32>, height: Option<u32>, w: u32, h: u32)
    ensures
        known_size(Some(w), Some(h)) == Some((w, h)),
        width is None ==> known_size(width, height) is None,
        height is None ==> known_size(width, height) is None,
{
}

/// A packet read when the queue had room leaves at most
/// `VIDEO_PACKET_QUEUE_MAX` packets queued.
pub proof fn lemma_read_with_room_keeps_bound<P>(queue: Seq<P>, stream_index: usize, read: Option<(usize, P)>)
    requires
        queue.len() < VIDEO_PACKET_QUEUE_MAX,
    ensures
        after_read(queue, stream_index, read).len() <= VIDEO_PACKET_QUEUE_MAX,
{
}

/// Reading packets queues exactly those of the stream, after the ones
/// already queued and in the order they were read.
pub proof fn lemma_reads_queue_stream_packets_in_order<P>(
    queue: Seq<P>,
    stream_index: usize,
    reads: Seq<(usize, P)>,
)
    ensures
        after_reads(queue, stream_index, reads) == queue + packets_of(reads, stream_index),
    decreases reads.len(),
{
    if reads.len() > 0 {
        lemma_reads_queue_stream_packets_in_order(queue, stream_index, reads.drop_last());
        assert(after_reads(queue, stream_index, reads) =~= queue + packets_of(reads, stream_index));
    } else {
        assert(after_reads(queue, stream_index, reads) =~= queue + packets_of(reads, stream_index));
    }
}

} // verus!
