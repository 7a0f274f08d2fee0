use capture_supervisor::status::{
    field_kind, parse_bitrate, parse_ffmpeg_statusline, FfmpegStatusField,
};

#[test]
fn field_kind_names_each_progress_key() {
    assert_eq!(field_kind("frame"), Some(FfmpegStatusField::Frame));
    assert_eq!(field_kind("fps"), Some(FfmpegStatusField::Fps));
    assert_eq!(field_kind("size"), Some(FfmpegStatusField::Size));
    assert_eq!(field_kind("time"), Some(FfmpegStatusField::Duration));
    assert_eq!(field_kind("bitrate"), Some(FfmpegStatusField::BitRate));
    assert_eq!(field_kind("speed"), Some(FfmpegStatusField::Speed));
}

#[test]
fn field_kind_is_exact_and_case_sensitive() {
    assert_eq!(field_kind("Frame"), None);
    assert_eq!(field_kind("frames"), None);
    assert_eq!(field_kind("q"), None);
    assert_eq!(field_kind(""), None);
}

#[test]
fn bitrate_in_kilobits() {
    let st = parse_ffmpeg_statusline("bitrate=128.0kbits/s").unwrap();
    assert_eq!(st.bitrate, 128000);
}

#[test]
fn bitrate_in_megabits() {
    let st = parse_ffmpeg_statusline("bitrate=1.5mbits/s").unwrap();
    assert_eq!(st.bitrate, 1500000);
}

#[test]
fn bitrate_in_bits() {
    let st = parse_ffmpeg_statusline("bitrate=500bits/s").unwrap();
    assert_eq!(st.bitrate, 500);
}

#[test]
fn bitrate_units_ignore_case() {
    assert_eq!(parse_bitrate("64Kbits/s"), Some(64000));
    assert_eq!(parse_bitrate("2Mbits/s"), Some(2000000));
    assert_eq!(parse_bitrate("7B"), Some(7));
}

#[test]
fn bitrate_fraction_is_truncated_to_whole_bits() {
    assert_eq!(parse_bitrate("2097.2kbits/s"), Some(2097200));
    assert_eq!(parse_bitrate("1.23456789mbits/s"), Some(1234567));
    assert_eq!(parse_bitrate("12.9bits/s"), Some(12));
    assert_eq!(parse_bitrate(".5k"), Some(500));
}

#[test]
fn bitrate_unknown_or_missing_unit_counts_as_bits() {
    assert_eq!(parse_bitrate("300x"), Some(300));
    assert_eq!(parse_bitrate("42"), Some(42));
    assert_eq!(parse_bitrate("N/A"), Some(0));
}

#[test]
fn bitrate_too_large_does_not_decode() {
    assert_eq!(parse_bitrate("4294967295bits/s"), Some(4294967295));
    assert_eq!(parse_bitrate("4294967296bits/s"), None);
    assert_eq!(parse_bitrate("5000000kbits/s"), None);
    assert_eq!(parse_bitrate("99999999999999999999999"), None);
}

#[test]
fn full_progress_line() {
    let line = "frame=  100 fps= 25 q=-1.0 size=    1024kB time=00:00:04.00 bitrate=2097.2kbits/s speed=1.00x";
    let st = parse_ffmpeg_statusline(line).unwrap();
    assert_eq!(st.frames, 100);
    assert_eq!(st.fps, 25);
    assert_eq!(st.size, 1024 * 1024);
    assert_eq!(st.time, 4000);
    assert_eq!(st.bitrate, 2097200);
    assert_eq!(st.speed, 100);
}

#[test]
fn fps_is_whole_frames_per_second() {
    assert_eq!(parse_ffmpeg_statusline("fps=29.97").unwrap().fps, 29);
    assert_eq!(parse_ffmpeg_statusline("fps=255").unwrap().fps, 255);
    assert_eq!(parse_ffmpeg_statusline("fps=256").unwrap().fps, 0);
    assert_eq!(parse_ffmpeg_statusline("fps=.5").unwrap().fps, 0);
}

#[test]
fn size_is_in_bytes() {
    assert_eq!(parse_ffmpeg_statusline("size=12B").unwrap().size, 12);
    assert_eq!(parse_ffmpeg_statusline("size=3MiB").unwrap().size, 3 * 1048576);
    assert_eq!(parse_ffmpeg_statusline("size=4294967295kB").unwrap().size, 4294967295 * 1024);
    assert_eq!(parse_ffmpeg_statusline("size=N/A").unwrap().size, 0);
}

#[test]
fn time_is_in_milliseconds() {
    assert_eq!(parse_ffmpeg_statusline("time=01:02:03.456").unwrap().time, 3723456);
    assert_eq!(parse_ffmpeg_statusline("time=00:00:00.9").unwrap().time, 900);
    assert_eq!(parse_ffmpeg_statusline("time=1193:02:47.295").unwrap().time, 4294967295);
    assert_eq!(parse_ffmpeg_statusline("time=1193:02:47.296").unwrap().time, 0);
    assert_eq!(parse_ffmpeg_statusline("time=12:34").unwrap().time, 0);
    assert_eq!(parse_ffmpeg_statusline("time=-00:00:00.01").unwrap().time, 0);
}

#[test]
fn speed_is_in_hundredths() {
    assert_eq!(parse_ffmpeg_statusline("speed=1.00x").unwrap().speed, 100);
    assert_eq!(parse_ffmpeg_statusline("speed= 0.5x").unwrap().speed, 50);
    assert_eq!(parse_ffmpeg_statusline("speed=N/A").unwrap().speed, 0);
}

#[test]
fn frame_count_is_reported() {
    assert_eq!(parse_ffmpeg_statusline("frame=0").unwrap().frames, 0);
    assert_eq!(parse_ffmpeg_statusline("frame=4294967295").unwrap().frames, 4294967295);
    assert_eq!(parse_ffmpeg_statusline("fps=30 frame=007").unwrap().frames, 7);
}

#[test]
fn bad_frame_value_is_skipped() {
    let st = parse_ffmpeg_statusline("frame=abc bitrate=8bits/s").unwrap();
    assert_eq!(st.frames, 0);
    assert_eq!(st.bitrate, 8);
    let st = parse_ffmpeg_statusline("frame=4294967296").unwrap();
    assert_eq!(st.frames, 0);
    let st = parse_ffmpeg_statusline("frame=5 frame=x1").unwrap();
    assert_eq!(st.frames, 5);
}

#[test]
fn line_without_progress_key_gives_nothing() {
    assert_eq!(parse_ffmpeg_statusline(""), None);
    assert_eq!(parse_ffmpeg_statusline("Press [q] to stop, [?] for help"), None);
    assert_eq!(parse_ffmpeg_statusline("q=28.0 Lsize=12"), None);
    assert_eq!(parse_ffmpeg_statusline("frame="), None);
}

#[test]
fn unknown_keys_are_ignored() {
    let st = parse_ffmpeg_statusline("dup=3 drop=1 frame=9").unwrap();
    assert_eq!(st.frames, 9);
    assert_eq!(st.bitrate, 0);
}

#[test]
fn key_ends_at_punctuation() {
    assert_eq!(parse_ffmpeg_statusline("x-frame=5").unwrap().frames, 5);
    assert_eq!(parse_ffmpeg_statusline("xframe=5"), None);
}
