use capture_supervisor::launch::{capture_args, capture_program, CaptureSpec};

#[test]
fn argument_template() {
    let spec = CaptureSpec::new("rtsp://camera.local:554/stream", "out.ts");
    let args = capture_args(&spec);
    let expected = vec![
        "-y",
        "-rtsp_transport",
        "tcp",
        "-i",
        "rtsp://camera.local:554/stream",
        "-c:v",
        "copy",
        "-f",
        "mpegts",
        "out.ts",
    ];
    assert_eq!(args, expected);
    assert_eq!(capture_program(), "ffmpeg");
}

#[test]
fn spec_keeps_source_and_destination() {
    let spec = CaptureSpec::new("rtsp://a", "b.ts");
    assert_eq!(spec.source, "rtsp://a");
    assert_eq!(spec.destination, "b.ts");
}
