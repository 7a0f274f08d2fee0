use vstd::prelude::*;
use vstd::string::StringExecFns;

verus! {

/// What to capture: a network source and a local destination. Never
/// changed once made.
#[derive(Clone, Debug)]
pub struct CaptureSpec {
    pub source: String,
    pub destination: String,
}

impl CaptureSpec {
    pub fn new(source: &str, destination: &str) -> (r: CaptureSpec)
        ensures
            r.source@ == source@,
            r.destination@ == destination@,
    {
        CaptureSpec { source: String::from_str(source), destination: String::from_str(destination) }
    }
}

/// The capture program, looked up on the search path.
pub fn capture_program() -> (r: &'static str)
    ensures
        r@ == "ffmpeg"@,
{
    "ffmpeg"
}

/// The fixed argument template: overwrite the destination, pull the source
/// over TCP, copy the video stream as it is, and write an MPEG transport
/// stream; source and destination go last.
pub open spec fn capture_args_of(source: Seq<char>, destination: Seq<char>) -> Seq<Seq<char>> {
    seq![
        "-y"@,
        "-rtsp_transport"@,
        "tcp"@,
        "-i"@,
        source,
        "-c:v"@,
        "copy"@,
        "-f"@,
        "mpegts"@,
        destination,
    ]
}

/// The arguments with which the capture program is started for `spec`.
pub fn capture_args(spec: &CaptureSpec) -> (r: Vec<String>)
    ensures
        r@.len() == 10,
        forall|i: int|
            0 <= i < 10 ==> #[trigger] r@[i]@ == capture_args_of(
                spec.source@,
                spec.destination@,
            )[i],
{
    let mut r: Vec<String> = Vec::new();
    r.push(String::from_str("-y"));
    r.push(String::from_str("-rtsp_transport"));
    r.push(String::from_str("tcp"));
    r.push(String::from_str("-i"));
    r.push(spec.source.clone());
    r.push(String::from_str("-c:v"));
    r.push(String::from_str("copy"));
    r.push(String::from_str("-f"));
    r.push(String::from_str("mpegts"));
    r.push(spec.destination.clone());
    r
}

} // verus!
