use irohsion::preview::{
    fps_filter, take_jpeg_frame, FrameReader, PreviewLoop, PreviewState, PreviewStep,
};

#[test]
fn extracts_jpeg_frame() {
    let data = [0, 1, 0xff, 0xd8, 4, 5, 0xff, 0xd9, 9];
    let (frame, consumed) = take_jpeg_frame(&data).expect("frame");

    assert_eq!(frame, vec![0xff, 0xd8, 4, 5, 0xff, 0xd9]);
    assert_eq!(consumed, 8);
}

#[test]
fn a_frame_needs_both_markers_in_order() {
    assert!(take_jpeg_frame(&[]).is_none());
    assert!(take_jpeg_frame(&[0xff]).is_none());
    assert!(take_jpeg_frame(&[0xff, 0xd8, 1, 2]).is_none());
    assert!(take_jpeg_frame(&[0xff, 0xd9, 0xff, 0xd8]).is_none());
    assert!(take_jpeg_frame(&[0xff, 0xd8, 0xd9]).is_none());
    assert_eq!(
        take_jpeg_frame(&[0xff, 0xd8, 0xff, 0xd9]),
        Some((vec![0xff, 0xd8, 0xff, 0xd9], 4))
    );
}

#[test]
fn the_latest_frame_that_is_not_too_large_is_kept() {
    let mut state = PreviewState::new();
    let mut reader = FrameReader::new(6);
    reader.feed(&[7, 0xff, 0xd8, 1], &mut state);
    assert_eq!(state.latest_jpeg_len(), 0);
    reader.feed(&[0xff, 0xd9, 0xff, 0xd8, 2, 0xff, 0xd9], &mut state);
    assert_eq!(state.latest_jpeg(), vec![0xff, 0xd8, 2, 0xff, 0xd9]);
    reader.feed(&[0xff, 0xd8, 1, 2, 3, 0xff, 0xd9], &mut state);
    assert_eq!(state.latest_jpeg(), vec![0xff, 0xd8, 2, 0xff, 0xd9]);
    assert!(reader.stream.is_empty());
}

#[test]
fn a_stream_without_frames_is_dropped_when_it_grows() {
    let mut state = PreviewState::new();
    let mut reader = FrameReader::new(4);
    reader.feed(&[0; 8], &mut state);
    assert_eq!(reader.stream.len(), 8);
    reader.feed(&[0], &mut state);
    assert_eq!(reader.stream.len(), 0);
}

#[test]
fn no_picture_is_kept_while_none_is_wanted() {
    let mut state = PreviewState::new();
    FrameReader::new(100).feed(&[0xff, 0xd8, 0xff, 0xd9], &mut state);
    assert_eq!(state.latest_jpeg_len(), 4);
    state.set_enabled(false);
    assert!(!state.enabled());
    assert_eq!(state.latest_jpeg_len(), 0);
}

#[test]
fn the_decoder_runs_only_while_pictures_are_wanted() {
    let mut decoder = PreviewLoop::new();
    assert_eq!(decoder.on_packet(false), PreviewStep::Idle);
    assert_eq!(decoder.on_packet(true), PreviewStep::StartAndWrite);
    assert_eq!(decoder.on_packet(true), PreviewStep::Write);
    assert_eq!(decoder.on_tick(true), PreviewStep::Idle);
    assert_eq!(decoder.on_tick(false), PreviewStep::Stop);
    assert_eq!(decoder.on_tick(false), PreviewStep::Idle);
    assert_eq!(decoder.on_packet(true), PreviewStep::StartAndWrite);
    assert_eq!(decoder.on_write_failed(), PreviewStep::Stop);
    assert_eq!(decoder.on_write_failed(), PreviewStep::Idle);
}

#[test]
fn the_filter_names_the_interval() {
    assert_eq!(fps_filter(10), "fps=1/10,scale=420:-1");
    assert_eq!(fps_filter(0), "fps=1/1,scale=420:-1");
}
