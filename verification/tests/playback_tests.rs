use video_player::playback::{
    DecodeOutcome, LoopState, StreamData, VideoStreamData, NO_PACKET_SLEEP, QUEUE_FULL_SLEEP,
    VIDEO_PACKET_QUEUE_MAX,
};

#[test]
fn new_stream_has_an_empty_queue() {
    let s: StreamData<u32> = StreamData::new(3, 1500);
    assert_eq!(s.stream_index, 3);
    assert_eq!(s.duration, 1500);
    assert_eq!(s.queue_len(), 0);
}

#[test]
fn full_queue_makes_the_demuxer_wait() {
    let mut s: StreamData<usize> = StreamData::new(0, 0);
    for i in 0..VIDEO_PACKET_QUEUE_MAX - 1 {
        assert_eq!(s.enqueue_next_packet(Some((0, i))), LoopState::Running);
    }
    assert_eq!(s.queue_full_wait(), None);
    assert_eq!(s.enqueue_next_packet(Some((0, 7))), LoopState::Running);
    assert_eq!(s.queue_len(), VIDEO_PACKET_QUEUE_MAX);
    assert_eq!(s.queue_full_wait(), Some(LoopState::Sleep(QUEUE_FULL_SLEEP)));
    assert_eq!(QUEUE_FULL_SLEEP, 50);
    assert_eq!(VIDEO_PACKET_QUEUE_MAX, 1024);
}

#[test]
fn packets_of_other_streams_are_dropped() {
    let mut s: StreamData<&str> = StreamData::new(1, 0);
    assert_eq!(s.enqueue_next_packet(Some((0, "audio"))), LoopState::Running);
    assert_eq!(s.queue_len(), 0);
    assert_eq!(s.enqueue_next_packet(Some((1, "video"))), LoopState::Running);
    assert_eq!(s.queue_len(), 1);
}

#[test]
fn end_of_input_stops_the_demuxer() {
    let mut s: StreamData<u8> = StreamData::new(0, 0);
    assert_eq!(s.enqueue_next_packet(None), LoopState::Exit);
    assert_eq!(s.queue_len(), 0);
}

#[test]
fn packets_are_decoded_in_the_order_read() {
    let mut v = VideoStreamData::new(StreamData::new(2, 0), ());
    for (index, packet) in [(2usize, 'a'), (0, 'x'), (2, 'b'), (1, 'y'), (2, 'c')] {
        v.stream.enqueue_next_packet(Some((index, packet)));
    }
    assert_eq!(v.next_packet(), Ok('a'));
    assert_eq!(v.next_packet(), Ok('b'));
    assert_eq!(v.next_packet(), Ok('c'));
    assert_eq!(v.next_packet(), Err(LoopState::Sleep(NO_PACKET_SLEEP)));
    assert_eq!(NO_PACKET_SLEEP, 10);
}

#[test]
fn decoding_records_the_picture_size() {
    let mut v: VideoStreamData<u8, ()> = VideoStreamData::new(StreamData::new(0, 0), ());
    assert_eq!(v.frame_size(), None);
    assert_eq!(v.record_decode(DecodeOutcome::NoPicture), LoopState::Running);
    assert_eq!(v.frame_size(), None);
    assert_eq!(
        v.record_decode(DecodeOutcome::Frame { width: 640, height: 360 }),
        LoopState::Running
    );
    assert_eq!(v.frame_size(), Some((640, 360)));
    assert_eq!(v.record_decode(DecodeOutcome::NoPicture), LoopState::Running);
    assert_eq!(v.frame_size(), Some((640, 360)));
}

#[test]
fn decode_error_stops_the_decoder_and_keeps_the_size() {
    let mut v: VideoStreamData<u8, ()> = VideoStreamData::new(StreamData::new(0, 0), ());
    v.record_decode(DecodeOutcome::Frame { width: 2, height: 4 });
    assert_eq!(v.record_decode(DecodeOutcome::Failed), LoopState::Exit);
    assert_eq!(v.frame_size(), Some((2, 4)));
}

#[test]
fn size_needs_both_width_and_height() {
    let mut v: VideoStreamData<u8, ()> = VideoStreamData::new(StreamData::new(0, 0), ());
    v.width = Some(10);
    assert_eq!(v.frame_size(), None);
    v.height = Some(20);
    assert_eq!(v.frame_size(), Some((10, 20)));
}
