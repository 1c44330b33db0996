# video_player

A small video player whose decisions are verified with Verus.

- `src/planes.rs`: copying the Y, U and V planes of a decoded YV12 frame into
  a locked streaming texture (`copy_yv12_planes`), with `Yv12Layout::check_fits`
  telling exactly when the copy goes through.
- `src/playback.rs`: the packet queue shared by the demuxing and decoding
  threads (`StreamData`, `VideoStreamData`), what each thread does after a
  step (`LoopState`), and what initialising reports (`InitResult`).
- `app/`: the program around the library: FFmpeg input and decoding, the
  threads, the SDL window and the Flutter texture.
