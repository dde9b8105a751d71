//! The picture, when it is wanted.
//!
//! The camera's encoder writes one long stream. Whole pictures are cut out
//! of it here, and a picture that came in pieces is put back together.
//!
//! A picture does not fit in a packet, so each one goes out in pieces. A
//! piece that never arrives costs that one picture, and the next whole one
//! replaces it.

use vstd::prelude::*;
use vstd::set_lib::*;
use vstd::string::*;

use crate::text::decimal;

verus! {

/// What the camera sends, and how often.
pub const WIDTH: u16 = 480;

pub const HEIGHT: u16 = 360;

pub const FPS: u16 = 15;

/// The graphics chip that does the encoding, where there is one.
pub const RENDER: &'static str = "/dev/dri/renderD128";

// ---------------------------------------------------------------------
// The camera and the decoder
// ---------------------------------------------------------------------
/// Where the pictures come from: the moving picture that needs no camera,
/// or a camera. A camera paces itself. A made-up picture does not, so it has
/// to be told, or it floods the line as fast as the chip can encode.
pub open spec fn source_words(source: Seq<char>) -> Seq<Seq<char>> {
    if source == "test"@ {
        seq!["-re"@, "-f"@, "lavfi"@, "-i"@, "testsrc=size="@ + size_text('x') + ":rate="@ + fps_text()]
    } else {
        seq!["-f"@, "v4l2"@, "-framerate"@, fps_text(), "-i"@, source]
    }
}

/// Width and height, with something between them.
pub open spec fn size_text(between: char) -> Seq<char> {
    crate::text::decimal_text(WIDTH as nat).push(between) + crate::text::decimal_text(HEIGHT as nat)
}

/// How often a picture is taken.
pub open spec fn fps_text() -> Seq<char> {
    crate::text::decimal_text(FPS as nat)
}

/// Scale to what we send, drop what has not changed, then hand the frame to
/// the chip. The numbers are how different a frame has to be to count as a
/// new one; these let a face move and hold a still room shut.
pub open spec fn filter_text(hardware: bool) -> Seq<char> {
    let always = "scale="@ + size_text(':') + ",mpdecimate=hi=768:lo=320:frac=0.2"@;
    if hardware {
        always + ",format=nv12,hwupload"@
    } else {
        always
    }
}

/// What to ask `ffmpeg` for, to have the camera's pictures encoded on the
/// graphics chip or without one.
///
/// No B-frames, so a picture is ready the moment it is encoded, and one
/// keyframe at the start rather than every few seconds: a still scene should
/// cost nothing, and periodic keyframes are not nothing.
pub open spec fn camera_words(source: Seq<char>, hardware: bool) -> Seq<Seq<char>> {
    let chip = if hardware {
        seq!["-vaapi_device"@, RENDER@]
    } else {
        Seq::empty()
    };
    let codec = if hardware {
        seq!["-c:v"@, "h264_vaapi"@]
    } else {
        seq!["-c:v"@, "libx264"@, "-preset"@, "ultrafast"@, "-tune"@, "zerolatency"@]
    };
    seq!["-hide_banner"@, "-loglevel"@, "error"@] + chip + source_words(source) + seq![
        "-vf"@,
        filter_text(hardware),
    ] + codec + seq![
        "-b:v"@,
        "400k"@,
        "-g"@,
        "600"@,
        "-bf"@,
        "0"@,
        "-f"@,
        "h264"@,
        "-"@,
    ]
}

fn say(args: &mut Vec<String>, word: &str)
    ensures
        crate::text::texts(final(args)@) == crate::text::texts(old(args)@).push(word@),
{
    args.push(word.to_string());
    assert(crate::text::texts(args@) =~= crate::text::texts(old(args)@).push(word@));
}

fn size(between: &str) -> (s: String)
    requires
        between@.len() == 1,
    ensures
        s@ == size_text(between@[0]),
{
    let s = decimal(WIDTH as u64).concat(between).concat(decimal(HEIGHT as u64).as_str());
    assert(s@ =~= size_text(between@[0]));
    s
}

/// What to ask `ffmpeg` for, to have the camera as a stream of encoded
/// pictures. `source` is a device path, or the word `test` for a moving
/// picture that needs no camera.
pub fn camera(source: &str, hardware: bool) -> (args: Vec<String>)
    ensures
        crate::text::texts(args@) == camera_words(source@, hardware),
{
    proof {
        reveal_strlit("x");
        reveal_strlit(":");
    }
    let mut args: Vec<String> = Vec::new();
    say(&mut args, "-hide_banner");
    say(&mut args, "-loglevel");
    say(&mut args, "error");
    if hardware {
        say(&mut args, "-vaapi_device");
        say(&mut args, RENDER);
    }
    if source.to_string() == "test".to_string() {
        say(&mut args, "-re");
        say(&mut args, "-f");
        say(&mut args, "lavfi");
        say(&mut args, "-i");
        let made_up = "testsrc=size=".to_string().concat(size("x").as_str()).concat(":rate=").concat(
            decimal(FPS as u64).as_str(),
        );
        say(&mut args, made_up.as_str());
    } else {
        say(&mut args, "-f");
        say(&mut args, "v4l2");
        say(&mut args, "-framerate");
        say(&mut args, decimal(FPS as u64).as_str());
        say(&mut args, "-i");
        say(&mut args, source);
    }
    let mut filter = "scale=".to_string().concat(size(":").as_str()).concat(
        ",mpdecimate=hi=768:lo=320:frac=0.2",
    );
    if hardware {
        filter = filter.concat(",format=nv12,hwupload");
    }
    say(&mut args, "-vf");
    say(&mut args, filter.as_str());
    if hardware {
        say(&mut args, "-c:v");
        say(&mut args, "h264_vaapi");
    } else {
        say(&mut args, "-c:v");
        say(&mut args, "libx264");
        say(&mut args, "-preset");
        say(&mut args, "ultrafast");
        say(&mut args, "-tune");
        say(&mut args, "zerolatency");
    }
    say(&mut args, "-b:v");
    say(&mut args, "400k");
    say(&mut args, "-g");
    say(&mut args, "600");
    say(&mut args, "-bf");
    say(&mut args, "0");
    say(&mut args, "-f");
    say(&mut args, "h264");
    say(&mut args, "-");
    assert(crate::text::texts(args@) =~= camera_words(source@, hardware));
    args
}

/// What to ask `ffmpeg` for, to have the far end's pictures decoded to plain
/// pixels at the size they will be drawn, so nothing has to be scaled twice.
pub fn decoder(w: usize, h: usize) -> (args: Vec<String>)
    ensures
        crate::text::texts(args@) == seq![
            "-hide_banner"@,
            "-loglevel"@,
            "error"@,
            "-flags"@,
            "low_delay"@,
            "-f"@,
            "h264"@,
            "-i"@,
            "-"@,
            "-vf"@,
            "scale="@ + crate::text::decimal_text(w as nat) + ":"@ + crate::text::decimal_text(
                h as nat,
            ),
            "-pix_fmt"@,
            "rgb24"@,
            "-f"@,
            "rawvideo"@,
            "-"@,
        ],
{
    let args: Vec<String> = vec![
        "-hide_banner".to_string(),
        "-loglevel".to_string(),
        "error".to_string(),
        "-flags".to_string(),
        "low_delay".to_string(),
        "-f".to_string(),
        "h264".to_string(),
        "-i".to_string(),
        "-".to_string(),
        "-vf".to_string(),
        "scale=".to_string().concat(decimal(w as u64).as_str()).concat(":").concat(
            decimal(h as u64).as_str(),
        ),
        "-pix_fmt".to_string(),
        "rgb24".to_string(),
        "-f".to_string(),
        "rawvideo".to_string(),
        "-".to_string(),
    ];
    args
}

/// The camera that is opened is the one that was named: the word after `-i` is
/// the source itself, at the rate that pictures are taken.
pub proof fn law_the_camera_that_was_named(source: Seq<char>, hardware: bool)
    requires
        source != "test"@,
    ensures
        ({
            let words = camera_words(source, hardware);
            let i: int = if hardware {
                9
            } else {
                7
            };
            &&& words[i - 4] == "-f"@ && words[i - 3] == "v4l2"@
            &&& words[i - 2] == "-framerate"@ && crate::args::value_of(words[i - 1]) == 15
            &&& words[i] == "-i"@ && words[i + 1] == source
            &&& words[i + 2] == "-vf"@
        }),
{
    crate::args::law_figures_stand_for_their_number(15);
}

/// Two sources are never asked for in the same words.
pub proof fn law_two_cameras_are_told_apart(one: Seq<char>, other: Seq<char>, hardware: bool)
    requires
        camera_words(one, hardware) == camera_words(other, hardware),
    ensures
        one == other,
{
    let i: int = if hardware {
        10
    } else {
        8
    };
    // A made-up picture takes a word less than a camera.
    law_the_chip_encodes_where_there_is_one(one, hardware);
    law_the_chip_encodes_where_there_is_one(other, hardware);
    if one != "test"@ && other != "test"@ {
        law_the_camera_that_was_named(one, hardware);
        law_the_camera_that_was_named(other, hardware);
        assert(camera_words(one, hardware)[i] == one);
        assert(camera_words(other, hardware)[i] == other);
    }
}

/// A made-up picture needs no camera: it paces itself, and is as wide, as high
/// and as often as what is sent.
pub proof fn law_a_made_up_picture_needs_no_camera(hardware: bool)
    ensures
        ({
            let words = camera_words("test"@, hardware);
            let i: int = if hardware {
                8
            } else {
                6
            };
            &&& words[i - 3] == "-re"@ && words[i - 2] == "-f"@ && words[i - 1] == "lavfi"@
            &&& words[i] == "-i"@ && words[i + 1] == "testsrc=size=480x360:rate=15"@
            &&& words[i + 2] == "-vf"@
        }),
{
    let words = camera_words("test"@, hardware);
    lemma_sizes();
    reveal_strlit("testsrc=size=480x360:rate=15");
    reveal_strlit("testsrc=size=");
    reveal_strlit(":rate=");
    assert("testsrc=size="@ + size_text('x') + ":rate="@ + fps_text()
        =~= "testsrc=size=480x360:rate=15"@);
}

proof fn lemma_sizes()
    ensures
        size_text('x') == seq!['4', '8', '0', 'x', '3', '6', '0'],
        size_text(':') == seq!['4', '8', '0', ':', '3', '6', '0'],
        fps_text() == seq!['1', '5'],
{
    reveal_with_fuel(crate::text::decimal_text, 3);
    assert(crate::text::decimal_text(480) =~= seq!['4', '8', '0']);
    assert(crate::text::decimal_text(360) =~= seq!['3', '6', '0']);
    assert(crate::text::decimal_text(15) =~= seq!['1', '5']);
    assert(size_text('x') =~= seq!['4', '8', '0', 'x', '3', '6', '0']);
    assert(size_text(':') =~= seq!['4', '8', '0', ':', '3', '6', '0']);
}

/// What is done with the pictures does not depend on where they come from, but
/// on whether there is a chip alone: it is named before the source, the filter
/// hands the pictures to it, and it encodes them.
pub proof fn law_the_chip_encodes_where_there_is_one(source: Seq<char>, hardware: bool)
    ensures
        ({
            let words = camera_words(source, hardware);
            let filter = "scale=480:360,mpdecimate=hi=768:lo=320:frac=0.2"@;
            let end = words.len() - 9;
            &&& words[0] == "-hide_banner"@ && words[1] == "-loglevel"@ && words[2] == "error"@
            &&& hardware ==> {
                &&& words[3] == "-vaapi_device"@ && words[4] == "/dev/dri/renderD128"@
                &&& words[end - 4] == "-vf"@
                &&& words[end - 3] == filter + ",format=nv12,hwupload"@
                &&& words[end - 2] == "-c:v"@ && words[end - 1] == "h264_vaapi"@
                &&& words.len() == if source == "test"@ {
                    23
                } else {
                    24int
                }
            }
            &&& !hardware ==> {
                &&& words[end - 8] == "-vf"@ && words[end - 7] == filter
                &&& words[end - 6] == "-c:v"@ && words[end - 5] == "libx264"@
                &&& words[end - 4] == "-preset"@ && words[end - 3] == "ultrafast"@
                &&& words[end - 2] == "-tune"@ && words[end - 1] == "zerolatency"@
                &&& words.len() == if source == "test"@ {
                    25
                } else {
                    26int
                }
            }
            &&& words.skip(end) == seq![
                "-b:v"@,
                "400k"@,
                "-g"@,
                "600"@,
                "-bf"@,
                "0"@,
                "-f"@,
                "h264"@,
                "-"@,
            ]
        }),
{
    lemma_sizes();
    reveal_strlit("scale=480:360,mpdecimate=hi=768:lo=320:frac=0.2");
    reveal_strlit("scale=");
    reveal_strlit(",mpdecimate=hi=768:lo=320:frac=0.2");
    assert("scale="@ + size_text(':') + ",mpdecimate=hi=768:lo=320:frac=0.2"@
        =~= "scale=480:360,mpdecimate=hi=768:lo=320:frac=0.2"@);
}

// ---------------------------------------------------------------------
// Cutting pictures out of the stream
// ---------------------------------------------------------------------
/// A start code of `00 00 01` at `i`.
pub open spec fn short_code(b: Seq<u8>, i: int) -> bool {
    0 <= i && i + 2 < b.len() && b[i] == 0 && b[i + 1] == 0 && b[i + 2] == 1
}

/// A start code of `00 00 00 01` at `i`.
pub open spec fn long_code(b: Seq<u8>, i: int) -> bool {
    0 <= i && i + 3 < b.len() && b[i] == 0 && b[i + 1] == 0 && b[i + 2] == 0 && b[i + 3] == 1
}

/// Where the unit whose start code is at `i` says what it holds.
pub open spec fn head_of(b: Seq<u8>, i: int) -> int {
    if long_code(b, i) {
        i + 4
    } else {
        i + 3
    }
}

/// A unit starts at `i`: there is a start code, which is not merely the end
/// of a longer one, and the byte that says what the unit holds has come.
pub open spec fn unit_at(b: Seq<u8>, i: int) -> bool {
    &&& long_code(b, i) || (short_code(b, i) && !long_code(b, i - 1))
    &&& head_of(b, i) < b.len()
}

/// What the unit at `i` holds: the low five bits of its first byte.
pub open spec fn kind_at(b: Seq<u8>, i: int) -> u8 {
    b[head_of(b, i)] % 32
}

/// A unit of picture data starts at `i`.
pub open spec fn picture_at(b: Seq<u8>, i: int) -> bool {
    unit_at(b, i) && (kind_at(b, i) == 1 || kind_at(b, i) == 5)
}

/// A unit starts at `i` that a picture can begin with: picture data, or the
/// settings that come before a keyframe.
pub open spec fn opening_at(b: Seq<u8>, i: int) -> bool {
    picture_at(b, i) || (unit_at(b, i) && (kind_at(b, i) == 7 || kind_at(b, i) == 8))
}

/// There is picture data before `i`, and another picture can begin at `i`.
pub open spec fn cut_at(b: Seq<u8>, i: int) -> bool {
    opening_at(b, i) && exists|j: int| j < i && #[trigger] picture_at(b, j)
}

/// The first place to cut.
pub open spec fn first_cut(b: Seq<u8>, i: int) -> bool {
    cut_at(b, i) && forall|k: int| k < i ==> !#[trigger] cut_at(b, k)
}

/// Where the second picture in the buffer starts, if it has arrived.
pub open spec fn cut(b: Seq<u8>) -> Option<int> {
    if exists|i: int| first_cut(b, i) {
        Some(choose|i: int| first_cut(b, i))
    } else {
        None
    }
}

proof fn lemma_first_cut(b: Seq<u8>, i: int)
    requires
        first_cut(b, i),
    ensures
        cut(b) == Some(i),
{
    let c = choose|c: int| first_cut(b, c);
    assert(first_cut(b, c));
    if c < i {
        assert(!cut_at(b, c));
    } else if i < c {
        assert(!cut_at(b, i));
    }
}

/// No unit starts between the start code of a unit and its first byte.
proof fn lemma_inside_code(b: Seq<u8>, i: int)
    requires
        unit_at(b, i),
    ensures
        forall|k: int| i < k < head_of(b, i) ==> !#[trigger] unit_at(b, k),
        b[head_of(b, i) - 1] == 1,
{
}

/// Where the second picture in the buffer starts, if it has arrived.
pub fn boundary(buf: &[u8]) -> (at: Option<usize>)
    ensures
        at matches Some(i) ==> i < buf@.len() && cut(buf@) == Some(i as int),
        at is None ==> cut(buf@) is None,
{
    let mut seen = false;
    let mut i: usize = 0;
    let len: usize = buf.len();
    while i < len && len - i > 3
        invariant
            len == buf@.len(),
            i <= len,
            !long_code(buf@, i - 1),
            seen ==> exists|j: int| j < i && #[trigger] picture_at(buf@, j),
            !seen ==> forall|j: int| j < i ==> !#[trigger] picture_at(buf@, j),
            forall|k: int| k < i ==> !#[trigger] cut_at(buf@, k),
        decreases len - i,
    {
        if buf[i] != 0 || buf[i + 1] != 0 {
            assert(!unit_at(buf@, i as int));
            i = i + 1;
            continue ;
        }
        let head: usize = if buf[i + 2] == 1 {
            i + 3
        } else if buf[i + 2] == 0 && buf[i + 3] == 1 {
            i + 4
        } else {
            assert(!unit_at(buf@, i as int));
            i = i + 1;
            continue ;
        };
        if head >= len {
            assert forall|k: int| !#[trigger] cut_at(buf@, k) by {
                if k >= i {
                    assert(!unit_at(buf@, k));
                }
            }
            return None;
        }
        // The low five bits say what the unit holds. 1 and 5 are picture
        // data; 7 and 8 are the settings that come before a keyframe.
        let first: u8 = buf[head];
        let kind: u8 = first & 0x1f;
        assert(first & 0x1f == first % 32) by (bit_vector);
        proof {
            assert(unit_at(buf@, i as int));
            assert(head_of(buf@, i as int) == head);
            lemma_inside_code(buf@, i as int);
        }
        if kind == 1 || kind == 5 {
            assert(picture_at(buf@, i as int));
            if seen {
                proof {
                    assert(cut_at(buf@, i as int));
                    lemma_first_cut(buf@, i as int);
                }
                return Some(i);
            }
            seen = true;
        } else if seen && (kind == 7 || kind == 8) {
            // Settings again means the next keyframe has begun.
            proof {
                assert(cut_at(buf@, i as int));
                lemma_first_cut(buf@, i as int);
            }
            return Some(i);
        }
        assert forall|k: int| k < head implies !#[trigger] cut_at(buf@, k) by {
            if k > i {
                assert(!unit_at(buf@, k));
            }
        }
        i = head;
    }
    assert forall|k: int| !#[trigger] cut_at(buf@, k) by {
        if k >= i {
            assert(!unit_at(buf@, k));
        }
    }
    None
}

/// A cut leaves something on both sides of it.
proof fn lemma_cut_inside(b: Seq<u8>)
    ensures
        cut(b) matches Some(i) ==> 0 < i < b.len() && first_cut(b, i),
{
    if cut(b) is Some {
        let i = choose|i: int| first_cut(b, i);
        let j = choose|j: int| j < i && #[trigger] picture_at(b, j);
        assert(picture_at(b, j));
    }
}

/// All the pictures of a stream, in order: cut wherever another picture can
/// begin. What comes after the last cut is the last picture.
pub open spec fn pictures(stream: Seq<u8>) -> Seq<Seq<u8>>
    decreases stream.len(),
    via pictures_decreases
{
    match cut(stream) {
        Some(i) => seq![stream.take(i)] + pictures(stream.skip(i)),
        None => if stream.len() == 0 {
            Seq::empty()
        } else {
            seq![stream]
        },
    }
}

#[via_fn]
proof fn pictures_decreases(stream: Seq<u8>) {
    lemma_cut_inside(stream);
}

/// Whole pictures out of the encoder's stream.
///
/// H.264 arrives as pieces called NAL units, each after a start code of
/// `00 00 01`. Two of the kinds hold picture data, and one picture's worth
/// of them belongs together. So a new picture starts at the second
/// picture-data unit we meet, and everything before it is one frame.
pub struct Pictures {
    buf: Vec<u8>,
    ended: bool,
}

impl Pictures {
    /// What has come and not gone out in a picture yet.
    pub closed spec fn waiting(&self) -> Seq<u8> {
        self.buf@
    }

    /// Whether the camera has stopped.
    pub closed spec fn is_ended(&self) -> bool {
        self.ended
    }

    pub fn new() -> (p: Pictures)
        ensures
            p.waiting().len() == 0,
            !p.is_ended(),
    {
        Pictures { buf: Vec::new(), ended: false }
    }

    /// More of the stream has come.
    pub fn feed(&mut self, chunk: &[u8])
        ensures
            final(self).waiting() == old(self).waiting() + chunk@,
            final(self).is_ended() == old(self).is_ended(),
    {
        self.buf.extend_from_slice(chunk);
        assert(self.buf@ =~= old(self).buf@ + chunk@);
    }

    /// The camera has been read from, and gave these bytes, or failed. A read
    /// that gives nothing is the end of the stream, and so is one that fails.
    pub fn read(&mut self, got: Option<&[u8]>)
        ensures
            match got {
                Some(chunk) if chunk@.len() > 0 => {
                    &&& final(self).waiting() == old(self).waiting() + chunk@
                    &&& final(self).is_ended() == old(self).is_ended()
                },
                _ => {
                    &&& final(self).waiting() == old(self).waiting()
                    &&& final(self).is_ended()
                },
            },
    {
        match got {
            Some(chunk) => {
                if chunk.len() > 0 {
                    self.feed(chunk);
                } else {
                    self.end();
                }
            },
            None => {
                self.end();
            },
        }
    }

    /// The camera has stopped, and no more will come.
    pub fn end(&mut self)
        ensures
            final(self).waiting() == old(self).waiting(),
            final(self).is_ended(),
    {
        self.ended = true;
    }

    /// Whether the camera has stopped.
    pub fn ended(&self) -> (b: bool)
        ensures
            b == self.is_ended(),
    {
        self.ended
    }

    /// The next whole picture. There is nothing while the one that is coming
    /// may still grow, and nothing once the camera has stopped and the last
    /// one has gone out.
    pub fn next_picture(&mut self) -> (frame: Option<Vec<u8>>)
        ensures
            final(self).is_ended() == old(self).is_ended(),
            final(self).waiting() == next_of(old(self).waiting(), old(self).is_ended()).1,
            match next_of(old(self).waiting(), old(self).is_ended()).0 {
                Some(bytes) => frame matches Some(f) && f@ == bytes,
                None => frame is None,
            },
    {
        if let Some(at) = boundary(self.buf.as_slice()) {
            let mut frame = self.buf.split_off(at);
            core::mem::swap(&mut frame, &mut self.buf);
            return Some(frame);
        }
        if self.ended && !self.buf.is_empty() {
            let mut frame: Vec<u8> = Vec::new();
            core::mem::swap(&mut frame, &mut self.buf);
            assert(self.buf@ =~= Seq::empty());
            return Some(frame);
        }
        None
    }
}

/// The next picture out of what waits, if there is one, and what waits then.
/// The last picture ends with the stream.
pub open spec fn next_of(waiting: Seq<u8>, ended: bool) -> (Option<Seq<u8>>, Seq<u8>) {
    match cut(waiting) {
        Some(i) => (Some(waiting.take(i)), waiting.skip(i)),
        None => if ended && waiting.len() > 0 {
            (Some(waiting), Seq::empty())
        } else {
            (None, waiting)
        },
    }
}

/// Once the camera has stopped and there is no picture left, there never is
/// one again: nothing waits, and asking changes nothing.
pub proof fn law_the_end_is_the_end(waiting: Seq<u8>)
    requires
        next_of(waiting, true).0 is None,
    ensures
        waiting.len() == 0,
        next_of(waiting, true).1 == waiting,
        next_of(next_of(waiting, true).1, true).0 is None,
{
}

/// What comes out of a buffer when the rest of the stream is read in these
/// chunks: every picture that can be cut goes out before the next read.
pub open spec fn shown(buf: Seq<u8>, chunks: Seq<Seq<u8>>) -> Seq<Seq<u8>>
    decreases chunks.len(), buf.len(),
    via shown_decreases
{
    match cut(buf) {
        Some(i) => seq![buf.take(i)] + shown(buf.skip(i), chunks),
        None => if chunks.len() > 0 {
            shown(buf + chunks.first(), chunks.drop_first())
        } else if buf.len() == 0 {
            Seq::empty()
        } else {
            seq![buf]
        },
    }
}

#[via_fn]
proof fn shown_decreases(buf: Seq<u8>, chunks: Seq<Seq<u8>>) {
    lemma_cut_inside(buf);
}

/// A unit stays where it is when more of the stream comes.
proof fn lemma_unit_stays(b: Seq<u8>, more: Seq<u8>, i: int)
    ensures
        unit_at(b, i) ==> unit_at(b + more, i) && kind_at(b + more, i) == kind_at(b, i),
        i + 4 < b.len() && unit_at(b + more, i) ==> unit_at(b, i),
{
}

/// Once a picture is whole, nothing that comes later changes it.
pub proof fn law_a_whole_picture_stays_whole(b: Seq<u8>, more: Seq<u8>)
    requires
        cut(b) is Some,
    ensures
        cut(b + more) == cut(b),
{
    let all = b + more;
    lemma_cut_inside(b);
    let i = cut(b)->0;
    lemma_unit_stays(b, more, i);
    let j = choose|j: int| j < i && #[trigger] picture_at(b, j);
    lemma_unit_stays(b, more, j);
    assert(picture_at(all, j));
    assert(cut_at(all, i));
    assert forall|k: int| k < i implies !#[trigger] cut_at(all, k) by {
        if cut_at(all, k) {
            lemma_unit_stays(b, more, k);
            let m = choose|m: int| m < k && #[trigger] picture_at(all, m);
            lemma_unit_stays(b, more, m);
            assert(picture_at(b, m));
            assert(cut_at(b, k));
        }
    }
    lemma_first_cut(all, i);
}

/// However the stream is read, the same pictures come out of it.
pub proof fn law_pictures_do_not_depend_on_reads(buf: Seq<u8>, chunks: Seq<Seq<u8>>)
    ensures
        shown(buf, chunks) == pictures(buf + chunks.flatten()),
    decreases chunks.len(), buf.len(),
{
    let rest = chunks.flatten();
    lemma_cut_inside(buf);
    match cut(buf) {
        Some(i) => {
            law_a_whole_picture_stays_whole(buf, rest);
            law_pictures_do_not_depend_on_reads(buf.skip(i), chunks);
            assert((buf + rest).skip(i) == buf.skip(i) + rest);
            assert((buf + rest).take(i) == buf.take(i));
        },
        None => {
            if chunks.len() > 0 {
                law_pictures_do_not_depend_on_reads(buf + chunks.first(), chunks.drop_first());
                assert(buf + rest == (buf + chunks.first()) + chunks.drop_first().flatten());
            } else {
                assert(buf + rest == buf);
            }
        },
    }
}

/// The pictures of a stream, one after another, are the stream, and none of
/// them is empty.
pub proof fn law_no_byte_is_lost(stream: Seq<u8>)
    ensures
        pictures(stream).flatten() == stream,
        forall|i: int| 0 <= i < pictures(stream).len() ==> (#[trigger] pictures(stream)[i]).len() > 0,
    decreases stream.len(),
{
    lemma_cut_inside(stream);
    match cut(stream) {
        Some(i) => {
            law_no_byte_is_lost(stream.skip(i));
            let tail = pictures(stream.skip(i));
            assert(pictures(stream).drop_first() == tail);
            assert(stream.take(i) + stream.skip(i) == stream);
            assert forall|k: int| 0 <= k < pictures(stream).len() implies (
            #[trigger] pictures(stream)[k]).len() > 0 by {
                if k > 0 {
                    assert(pictures(stream)[k] == tail[k - 1]);
                }
            }
        },
        None => {
            if stream.len() > 0 {
                seq![stream].lemma_flatten_one_element();
            }
        },
    }
}

/// A picture that is cut out of the stream holds exactly one unit of picture
/// data.
pub proof fn law_one_picture_at_a_time(b: Seq<u8>)
    requires
        cut(b) is Some,
    ensures
        exists|j: int| #[trigger] picture_at(b.take(cut(b)->0), j),
        forall|j: int, k: int|
            picture_at(b.take(cut(b)->0), j) && picture_at(b.take(cut(b)->0), k) ==> j == k,
{
    lemma_cut_inside(b);
    let i = cut(b)->0;
    let front = b.take(i);
    assert(b == front + b.skip(i));
    let j = choose|j: int| j < i && #[trigger] picture_at(b, j);
    lemma_inside_code(b, j);
    assert(head_of(b, j) < i) by {
        if i < head_of(b, j) {
            assert(!unit_at(b, i));
        }
        assert(b[i] == 0);
    }
    assert(picture_at(front, j));
    assert forall|m: int, k: int| picture_at(front, m) && picture_at(front, k) implies m == k by {
        lemma_unit_stays(front, b.skip(i), m);
        lemma_unit_stays(front, b.skip(i), k);
        assert(picture_at(b, m) && picture_at(b, k));
        assert(m < i && k < i);
        assert(m < k ==> cut_at(b, k));
        assert(k < m ==> cut_at(b, m));
    }
}

/// A picture that is cut out of the stream cannot be cut again.
pub proof fn law_a_picture_is_not_cut_again(b: Seq<u8>)
    requires
        cut(b) is Some,
    ensures
        cut(b.take(cut(b)->0)) is None,
{
    lemma_cut_inside(b);
    let i = cut(b)->0;
    let front = b.take(i);
    assert(b == front + b.skip(i));
    if cut(front) is Some {
        lemma_cut_inside(front);
        let k = cut(front)->0;
        let j = choose|j: int| j < k && #[trigger] picture_at(front, j);
        lemma_unit_stays(front, b.skip(i), k);
        lemma_unit_stays(front, b.skip(i), j);
        assert(picture_at(b, j));
        assert(cut_at(b, k));
    }
}

/// The three bytes that every unit comes after.
pub open spec fn code_at(b: Seq<u8>, i: int) -> bool {
    0 <= i && i + 2 < b.len() && b[i] == 0 && b[i + 1] == 0 && b[i + 2] == 1
}

/// A unit is the three bytes and one more, which says what it holds, with or
/// without a nought in front.
proof fn lemma_unit_code(b: Seq<u8>, k: int)
    ensures
        unit_at(b, k) ==> {
            let c = head_of(b, k) - 3;
            &&& c == k || (c == k + 1 && b[k] == 0)
            &&& code_at(b, c) && c + 3 < b.len()
            &&& kind_at(b, k) == b[c + 3] % 32
        },
        code_at(b, k) && k + 3 < b.len() ==> {
            let u = if k > 0 && b[k - 1] == 0 {
                k - 1
            } else {
                k
            };
            unit_at(b, u) && head_of(b, u) == k + 3 && kind_at(b, u) == b[k + 3] % 32
        },
{
}

/// Two units do not share the three bytes.
proof fn lemma_units_apart(b: Seq<u8>, m: int, k: int)
    requires
        unit_at(b, m),
        unit_at(b, k),
        m < k,
    ensures
        head_of(b, m) < head_of(b, k),
{
    lemma_unit_code(b, m);
    lemma_unit_code(b, k);
}

/// A picture ends where the next begins. After one unit of picture data, with
/// other units before and after it that begin no picture, comes a start code
/// of either length and a byte: whatever its three high bits are, the stream
/// is cut before that code when the five low ones say picture data or
/// settings, whatever follows, and it is not cut when they say anything else.
pub proof fn law_a_picture_ends_where_the_next_begins(
    front: Seq<u8>,
    j: int,
    long: bool,
    h: u8,
    rest: Seq<u8>,
)
    requires
        code_at(front, j),
        j + 3 < front.len(),
        front[j + 3] % 32 == 1 || front[j + 3] % 32 == 5,
        forall|i: int|
            #[trigger] code_at(front, i) && i < j ==> front[i + 3] % 32 != 1 && front[i + 3] % 32
                != 5,
        forall|i: int|
            #[trigger] code_at(front, i) && j < i && i + 3 < front.len() ==> front[i + 3] % 32 != 1
                && front[i + 3] % 32 != 5 && front[i + 3] % 32 != 7 && front[i + 3] % 32 != 8,
        front.last() != 0,
    ensures
        ({
            let code = if long {
                seq![0u8, 0u8, 0u8, 1u8]
            } else {
                seq![0u8, 0u8, 1u8]
            };
            let opens = h % 32 == 1 || h % 32 == 5 || h % 32 == 7 || h % 32 == 8;
            &&& opens ==> cut(front + code + seq![h] + rest) == Some(front.len() as int)
            &&& !opens ==> cut(front + code + seq![h]) is None
        }),
{
    let code = if long {
        seq![0u8, 0u8, 0u8, 1u8]
    } else {
        seq![0u8, 0u8, 1u8]
    };
    let opens = h % 32 == 1 || h % 32 == 5 || h % 32 == 7 || h % 32 == 8;
    let n = front.len() as int;
    let b = if opens {
        front + code + seq![h] + rest
    } else {
        front + code + seq![h]
    };
    assert forall|k: int| k < n implies !#[trigger] cut_at(b, k) by {
        if cut_at(b, k) {
            let m = choose|m: int| m < k && #[trigger] picture_at(b, m);
            lemma_unit_code(b, k);
            lemma_unit_code(b, m);
            lemma_units_apart(b, m, k);
            let c = head_of(b, k) - 3;
            let d = head_of(b, m) - 3;
            if c + 3 < n {
                assert(code_at(front, c));
                assert(code_at(front, d));
            } else {
                assert(b[n - 1] == front.last());
                assert(c == n - 3);
                assert(b[n] == code[0]);
            }
        }
    }
    assert(code_at(b, j));
    lemma_unit_code(b, j);
    let u = if j > 0 && b[j - 1] == 0 {
        j - 1
    } else {
        j
    };
    assert(picture_at(b, u));
    assert(b[n - 1] == front.last());
    if opens {
        assert(unit_at(b, n));
        assert(kind_at(b, n) == h % 32);
        assert(cut_at(b, n));
        assert(first_cut(b, n));
        lemma_first_cut(b, n);
    } else {
        assert forall|k: int| k >= n implies !#[trigger] cut_at(b, k) by {
            lemma_unit_code(b, k);
        }
        if cut(b) is Some {
            lemma_cut_inside(b);
        }
    }
}

/// A cut is at a start code and at nothing else: the byte after it says picture
/// data or settings, and picture data came before it.
pub proof fn law_a_cut_is_at_a_start_code(b: Seq<u8>)
    ensures
        cut(b) matches Some(i) ==> {
            &&& exists|c: int|
                {
                    &&& #[trigger] code_at(b, c) && c + 3 < b.len()
                    &&& c == i || (c == i + 1 && b[i] == 0)
                    &&& b[c + 3] % 32 == 1 || b[c + 3] % 32 == 5 || b[c + 3] % 32 == 7 || b[c + 3]
                        % 32 == 8
                }
            &&& exists|d: int|
                {
                    &&& #[trigger] code_at(b, d) && d + 3 < i
                    &&& b[d + 3] % 32 == 1 || b[d + 3] % 32 == 5
                }
        },
{
    if cut(b) is Some {
        lemma_cut_inside(b);
        let i = cut(b)->0;
        let m = choose|m: int| m < i && #[trigger] picture_at(b, m);
        lemma_unit_code(b, i);
        lemma_unit_code(b, m);
        lemma_units_apart(b, m, i);
        assert(code_at(b, head_of(b, i) - 3));
        assert(code_at(b, head_of(b, m) - 3));
    }
}

/// What goes out is what came in, in order: a picture and what waits after it
/// are together what waited before. A picture goes out when it can be cut, and
/// once the camera has stopped as long as there is anything left.
pub proof fn law_a_picture_and_the_rest_are_all_there_was(waiting: Seq<u8>, ended: bool)
    ensures
        next_of(waiting, ended).0 matches Some(picture) ==> picture + next_of(waiting, ended).1
            == waiting && picture.len() > 0,
        next_of(waiting, ended).0 is None ==> next_of(waiting, ended).1 == waiting,
        next_of(waiting, ended).0 is Some <==> cut(waiting) is Some || (ended && waiting.len() > 0),
        cut(waiting) matches Some(i) ==> next_of(waiting, ended).1.len() == waiting.len() - i,
        cut(waiting) is None && next_of(waiting, ended).0 is Some ==> next_of(
            waiting,
            ended,
        ).1.len() == 0,
{
    lemma_cut_inside(waiting);
    if cut(waiting) is Some {
        let i = cut(waiting)->0;
        assert(waiting.take(i) + waiting.skip(i) == waiting);
    } else {
        assert(waiting + Seq::<u8>::empty() == waiting);
    }
}

/// The pictures of a stream are what goes out of it one after another.
pub proof fn law_the_pictures_are_those_that_go_out(stream: Seq<u8>)
    ensures
        pictures(stream) == match next_of(stream, true).0 {
            Some(picture) => seq![picture] + pictures(next_of(stream, true).1),
            None => Seq::empty(),
        },
{
    lemma_cut_inside(stream);
    if cut(stream) is None && stream.len() > 0 {
        let none: Seq<u8> = Seq::empty();
        lemma_cut_inside(none);
        assert(pictures(none) =~= Seq::empty());
        assert(seq![stream] + pictures(none) =~= seq![stream]);
    }
}

// ---------------------------------------------------------------------
// Putting pictures back together
// ---------------------------------------------------------------------
/// The pieces of a picture that have come, and how many pictures were lost
/// before it: what a [`Joining`] amounts to.
pub struct Assembly {
    pub frame: u32,
    pub pieces: Seq<Option<Seq<u8>>>,
    pub lost: nat,
    /// The number of the picture last given back, and of its pieces.
    pub done: Option<(u32, nat)>,
}

/// Whether any piece has come.
pub open spec fn begun(pieces: Seq<Option<Seq<u8>>>) -> bool {
    exists|i: int| 0 <= i < pieces.len() && (#[trigger] pieces[i]) is Some
}

/// Whether every piece has come.
pub open spec fn whole(pieces: Seq<Option<Seq<u8>>>) -> bool {
    forall|i: int| 0 <= i < pieces.len() ==> (#[trigger] pieces[i]) is Some
}

/// The pieces, one after another.
pub open spec fn joined(pieces: Seq<Option<Seq<u8>>>) -> Seq<u8> {
    pieces.map_values(|piece: Option<Seq<u8>>| piece->0).flatten()
}

impl Assembly {
    /// Whether a picture is waiting that was not given back just before: one
    /// that was has had all its pieces, and only copies of them are waiting.
    pub open spec fn is_owed(self) -> bool {
        begun(self.pieces) && self.done != Some((self.frame, self.pieces.len()))
    }

    /// Ready for a piece of this picture. Another one that was still waiting
    /// for a piece of its own is gone for good, and counts as lost.
    pub open spec fn ready(self, frame: u32, count: nat) -> Assembly {
        if self.frame == frame && self.pieces.len() == count {
            self
        } else {
            Assembly {
                frame,
                pieces: Seq::new(count, |i: int| None),
                lost: if self.is_owed() {
                    self.lost + 1
                } else {
                    self.lost
                },
                done: self.done,
            }
        }
    }

    /// With one piece put in.
    pub open spec fn put(self, frame: u32, index: int, count: nat, chunk: Seq<u8>) -> Assembly {
        let ready = self.ready(frame, count);
        Assembly { pieces: ready.pieces.update(index, Some(chunk)), ..ready }
    }

    /// What is left after a piece has come. A piece that cannot be is ignored,
    /// and a picture that is whole goes out.
    pub open spec fn after(self, frame: u32, index: int, count: nat, chunk: Seq<u8>) -> Assembly {
        let full = self.put(frame, index, count, chunk);
        if index >= count {
            self
        } else if whole(full.pieces) {
            Assembly { pieces: Seq::empty(), done: Some((frame, count)), ..full }
        } else {
            full
        }
    }

    /// The picture that a piece makes whole.
    pub open spec fn given(self, frame: u32, index: int, count: nat, chunk: Seq<u8>) -> Option<
        Seq<u8>,
    > {
        let full = self.put(frame, index, count, chunk);
        if index < count && whole(full.pieces) {
            Some(joined(full.pieces))
        } else {
            None
        }
    }
}

/// The pieces of one picture, as they arrive.
///
/// There is no time to ask for a piece again in a call, so a picture
/// missing one is dropped the moment a newer picture starts.
pub struct Joining {
    /// The picture that is being put together.
    pub frame: u32,
    pub pieces: Vec<Option<Vec<u8>>>,
    /// Pictures thrown away because a piece never came.
    pub lost: u64,
    /// The number of the picture last given back, and of its pieces. Copies of
    /// them that come late and are thrown away are no lost picture. A copy of
    /// a piece of any earlier picture is taken for a new one, and does count.
    pub done: Option<(u32, u16)>,
}

/// The bytes of a piece, if it has come.
pub open spec fn bytes_of(piece: Option<Vec<u8>>) -> Option<Seq<u8>> {
    match piece {
        Some(chunk) => Some(chunk@),
        None => None,
    }
}

impl View for Joining {
    type V = Assembly;

    open spec fn view(&self) -> Assembly {
        Assembly {
            frame: self.frame,
            pieces: self.pieces@.map_values(|piece: Option<Vec<u8>>| bytes_of(piece)),
            lost: self.lost as nat,
            done: match self.done {
                Some((frame, count)) => Some((frame, count as nat)),
                None => None,
            },
        }
    }
}

impl Joining {
    pub fn new() -> (j: Joining)
        ensures
            j@.frame == 0,
            j@.pieces.len() == 0,
            j@.lost == 0,
            j@.done is None,
    {
        Joining { frame: 0, pieces: Vec::new(), lost: 0, done: None }
    }

    /// Whether a piece has come.
    fn has_begun(&self) -> (b: bool)
        ensures
            b == begun(self@.pieces),
    {
        let mut i: usize = 0;
        while i < self.pieces.len()
            invariant
                i <= self.pieces@.len(),
                forall|k: int| 0 <= k < i ==> (#[trigger] self@.pieces[k]) is None,
            decreases self.pieces.len() - i,
        {
            if self.pieces[i].is_some() {
                assert(self@.pieces[i as int] is Some);
                return true;
            }
            i = i + 1;
        }
        false
    }

    /// Whether every piece has come.
    fn is_whole(&self) -> (b: bool)
        ensures
            b == whole(self@.pieces),
    {
        let mut i: usize = 0;
        while i < self.pieces.len()
            invariant
                i <= self.pieces@.len(),
                forall|k: int| 0 <= k < i ==> (#[trigger] self@.pieces[k]) is Some,
            decreases self.pieces.len() - i,
        {
            if self.pieces[i].is_none() {
                assert(self@.pieces[i as int] is None);
                return false;
            }
            i = i + 1;
        }
        true
    }

    /// Whether the pieces are copies, of the picture that was last given back.
    fn had_all(&self) -> (b: bool)
        ensures
            b == (self@.done == Some((self@.frame, self@.pieces.len()))),
    {
        match self.done {
            Some((frame, count)) => frame == self.frame && count as usize == self.pieces.len(),
            None => false,
        }
    }

    /// Put one piece in, and give back the picture once it is whole.
    pub fn take(&mut self, frame: u32, index: u16, count: u16, chunk: Vec<u8>) -> (picture: Option<
        Vec<u8>,
    >)
        requires
            index < count ==> old(self)@.ready(frame, count as nat).lost <= u64::MAX,
        ensures
            final(self)@ == old(self)@.after(frame, index as int, count as nat, chunk@),
            match old(self)@.given(frame, index as int, count as nat, chunk@) {
                Some(bytes) => picture matches Some(p) && p@ == bytes,
                None => picture is None,
            },
    {
        if count == 0 || index >= count {
            return None;
        }
        let n: usize = count as usize;
        if frame != self.frame || self.pieces.len() != n {
            // A picture we were still waiting for is gone for good.
            if self.has_begun() && !self.had_all() {
                self.lost = self.lost + 1;
            }
            self.frame = frame;
            let mut pieces: Vec<Option<Vec<u8>>> = Vec::new();
            while pieces.len() < n
                invariant
                    pieces@.len() <= n,
                    forall|k: int| 0 <= k < pieces@.len() ==> (#[trigger] pieces@[k]) is None,
                decreases n - pieces.len(),
            {
                pieces.push(None);
            }
            self.pieces = pieces;
        }
        assert(self@.pieces =~= old(self)@.ready(frame, count as nat).pieces);
        let ghost ready = self@.pieces;
        let ghost bytes = chunk@;
        self.pieces[index as usize] = Some(chunk);
        assert(self@.pieces =~= ready.update(index as int, Some(bytes)));
        if !self.is_whole() {
            return None;
        }
        let ghost all = self@.pieces;
        let ghost parts = all.map_values(|piece: Option<Seq<u8>>| piece->0);
        let mut whole_picture: Vec<u8> = Vec::new();
        let mut pieces: Vec<Option<Vec<u8>>> = Vec::new();
        core::mem::swap(&mut pieces, &mut self.pieces);
        let mut i: usize = 0;
        assert(whole_picture@ =~= parts.take(0).flatten());
        while i < pieces.len()
            invariant
                i <= pieces@.len(),
                all == pieces@.map_values(|piece: Option<Vec<u8>>| bytes_of(piece)),
                whole(all),
                parts == all.map_values(|piece: Option<Seq<u8>>| piece->0),
                whole_picture@ == parts.take(i as int).flatten(),
            decreases pieces.len() - i,
        {
            proof {
                assert(all[i as int] is Some);
                assert(parts.take(i + 1) == parts.take(i as int).push(parts[i as int]));
                parts.take(i as int).lemma_flatten_push(parts[i as int]);
            }
            if let Some(piece) = &pieces[i] {
                whole_picture.extend_from_slice(piece.as_slice());
            }
            i = i + 1;
            assert(whole_picture@ =~= parts.take(i as int).flatten());
        }
        assert(parts.take(i as int) == parts);
        assert(self@.pieces =~= Seq::empty());
        self.done = Some((frame, count));
        Some(whole_picture)
    }
}

impl Default for Joining {
    fn default() -> (j: Joining)
        ensures
            j@.frame == 0,
            j@.pieces.len() == 0,
            j@.lost == 0,
            j@.done is None,
    {
        Joining::new()
    }
}

// ---------------------------------------------------------------------
// What holds of a picture in pieces
// ---------------------------------------------------------------------
/// What is left once the first `k` pieces of a picture have come in this
/// order.
pub open spec fn after_pieces(
    start: Assembly,
    frame: u32,
    parts: Seq<Seq<u8>>,
    order: Seq<int>,
    k: nat,
) -> Assembly
    decreases k,
{
    if k == 0 {
        start
    } else {
        let i = order[k - 1];
        after_pieces(start, frame, parts, order, (k - 1) as nat).after(
            frame,
            i,
            parts.len(),
            parts[i],
        )
    }
}

/// How many pictures are lost once a new one has started.
pub open spec fn lost_at_start(start: Assembly) -> nat {
    if start.is_owed() {
        start.lost + 1
    } else {
        start.lost
    }
}

/// No piece of a picture of so many pieces has come.
pub open spec fn is_new(start: Assembly, frame: u32, count: nat) -> bool {
    start.frame != frame || !begun(start.pieces) || start.pieces.len() != count
}

/// The order names each piece exactly once.
pub open spec fn each_once(order: Seq<int>, n: nat) -> bool {
    &&& order.len() == n
    &&& order.no_duplicates()
    &&& forall|k: int| 0 <= k < n ==> 0 <= #[trigger] order[k] < n
}

/// The pieces that are there once the first `k` have come.
spec fn arrived(
    a: Assembly,
    start: Assembly,
    frame: u32,
    parts: Seq<Seq<u8>>,
    order: Seq<int>,
    k: int,
) -> bool {
    &&& a.frame == frame
    &&& a.done == start.done
    &&& a.lost == lost_at_start(start)
    &&& a.pieces.len() == parts.len()
    &&& forall|j: int|
        0 <= j < parts.len() ==> #[trigger] a.pieces[j] == if order.take(k).contains(j) {
            Some(parts[j])
        } else {
            None
        }
}

/// One more piece is there once it has been put in.
proof fn lemma_put(
    a: Assembly,
    start: Assembly,
    frame: u32,
    parts: Seq<Seq<u8>>,
    order: Seq<int>,
    k: int,
)
    requires
        each_once(order, parts.len()),
        0 <= k < order.len(),
        is_new(start, frame, parts.len()),
        k == 0 ==> a == start,
        k > 0 ==> arrived(a, start, frame, parts, order, k),
    ensures
        arrived(
            a.put(frame, order[k], parts.len(), parts[order[k]]),
            start,
            frame,
            parts,
            order,
            k + 1,
        ),
{
    let n = parts.len();
    let full = a.put(frame, order[k], n, parts[order[k]]);
    assert forall|j: int| 0 <= j < n implies #[trigger] full.pieces[j] == if order.take(
        k + 1,
    ).contains(j) {
        Some(parts[j])
    } else {
        None
    } by {
        assert(order.take(k + 1)[k] == order[k]);
        assert(order.take(k + 1) == order.take(k).push(order[k]));
        if j != order[k] {
            if order.take(k).contains(j) {
                let m = order.take(k).index_of(j);
                assert(order.take(k + 1)[m] == j);
            }
            if order.take(k + 1).contains(j) {
                let m = order.take(k + 1).index_of(j);
                assert(m < k);
                assert(order.take(k)[m] == j);
            }
            if k == 0 {
                assert(!order.take(0).contains(j));
                assert(a.ready(frame, n).pieces[j] is None);
            }
        }
    }
}

/// A picture is not whole while a piece is still to come.
proof fn lemma_not_whole(
    full: Assembly,
    start: Assembly,
    frame: u32,
    parts: Seq<Seq<u8>>,
    order: Seq<int>,
    k: int,
)
    requires
        each_once(order, parts.len()),
        0 <= k < order.len(),
        arrived(full, start, frame, parts, order, k),
    ensures
        !whole(full.pieces),
{
    let j = order[k];
    if order.take(k).contains(j) {
        let m = order.take(k).index_of(j);
        assert(order[m] == order[k]);
    }
    assert(full.pieces[j] is None);
}

proof fn lemma_after_pieces(
    start: Assembly,
    frame: u32,
    parts: Seq<Seq<u8>>,
    order: Seq<int>,
    k: nat,
)
    requires
        each_once(order, parts.len()),
        is_new(start, frame, parts.len()),
        k < parts.len(),
    ensures
        k > 0 ==> arrived(
            after_pieces(start, frame, parts, order, k),
            start,
            frame,
            parts,
            order,
            k as int,
        ),
    decreases k,
{
    if k > 0 {
        let p = (k - 1) as nat;
        lemma_after_pieces(start, frame, parts, order, p);
        let a = after_pieces(start, frame, parts, order, p);
        lemma_put(a, start, frame, parts, order, p as int);
        lemma_not_whole(
            a.put(frame, order[p as int], parts.len(), parts[order[p as int]]),
            start,
            frame,
            parts,
            order,
            k as int,
        );
    }
}

/// An order that names each piece once names every piece.
proof fn lemma_each_once(order: Seq<int>, n: nat, j: int)
    requires
        each_once(order, n),
        0 <= j < n,
    ensures
        order.contains(j),
{
    let all = set_int_range(0, n as int);
    order.unique_seq_to_set();
    lemma_int_range(0, n as int);
    assert(order.to_set().subset_of(all)) by {
        assert forall|x: int| order.to_set().contains(x) implies all.contains(x) by {
            let k = order.index_of(x);
            assert(order[k] == x);
        }
    }
    lemma_subset_equality(order.to_set(), all);
    assert(order.to_set().contains(j));
}

/// A picture in pieces goes back together, whatever order the pieces come
/// in: nothing comes out before the last piece, and the whole picture comes
/// out with it. Then nothing is waiting, and nothing was lost but a picture
/// that was waiting before. That holds from any start where no piece of it
/// has come.
pub proof fn law_pieces_go_back_together(
    start: Assembly,
    frame: u32,
    parts: Seq<Seq<u8>>,
    order: Seq<int>,
)
    requires
        parts.len() > 0,
        each_once(order, parts.len()),
        is_new(start, frame, parts.len()),
    ensures
        forall|k: int|
            0 <= k < parts.len() - 1 ==> after_pieces(
                start,
                frame,
                parts,
                order,
                k as nat,
            ).given(frame, #[trigger] order[k], parts.len(), parts[order[k]]) is None,
        after_pieces(start, frame, parts, order, (parts.len() - 1) as nat).given(
            frame,
            order.last(),
            parts.len(),
            parts[order.last()],
        ) == Some(parts.flatten()),
        after_pieces(start, frame, parts, order, parts.len()) == (Assembly {
            frame,
            pieces: Seq::empty(),
            lost: lost_at_start(start),
            done: Some((frame, parts.len())),
        }),
{
    let n = parts.len();
    assert forall|k: int| 0 <= k < n - 1 implies after_pieces(
        start,
        frame,
        parts,
        order,
        k as nat,
    ).given(frame, #[trigger] order[k], n, parts[order[k]]) is None by {
        let a = after_pieces(start, frame, parts, order, k as nat);
        lemma_after_pieces(start, frame, parts, order, k as nat);
        lemma_put(a, start, frame, parts, order, k);
        lemma_not_whole(
            a.put(frame, order[k], n, parts[order[k]]),
            start,
            frame,
            parts,
            order,
            k + 1,
        );
    }
    let p = (n - 1) as nat;
    let a = after_pieces(start, frame, parts, order, p);
    lemma_after_pieces(start, frame, parts, order, p);
    lemma_put(a, start, frame, parts, order, p as int);
    let full = a.put(frame, order[p as int], n, parts[order[p as int]]);
    assert(order.take(n as int) == order);
    assert forall|j: int| 0 <= j < n implies #[trigger] full.pieces[j] == Some(parts[j]) by {
        lemma_each_once(order, n, j);
    }
    assert(full.pieces.map_values(|piece: Option<Seq<u8>>| piece->0) =~= parts);
}

/// A picture that is still missing a piece is counted and thrown away when
/// another one starts, and nothing of it is left. Another number of pieces is
/// another picture, whatever its own number is.
pub proof fn law_a_half_picture_is_lost(
    a: Assembly,
    frame: u32,
    index: int,
    count: nat,
    chunk: Seq<u8>,
)
    requires
        a.is_owed(),
        0 <= index < count,
        frame != a.frame || count != a.pieces.len(),
    ensures
        a.after(frame, index, count, chunk).lost == a.lost + 1,
        forall|j: int|
            0 <= j < a.after(frame, index, count, chunk).pieces.len() && j != index ==> (
            #[trigger] a.after(frame, index, count, chunk).pieces[j]) is None,
        count == 1 ==> a.given(frame, index, count, chunk) == Some(chunk),
{
    if count == 1 {
        let full = a.put(frame, index, count, chunk);
        let parts = full.pieces.map_values(|piece: Option<Seq<u8>>| piece->0);
        assert(parts =~= seq![chunk]);
        seq![chunk].lemma_flatten_one_element();
        assert(full.pieces[0] is Some);
    }
}

/// A picture that came whole is not lost: only one that has begun can be.
pub proof fn law_a_whole_picture_is_not_lost(
    a: Assembly,
    frame: u32,
    index: int,
    count: nat,
    chunk: Seq<u8>,
)
    requires
        a.given(frame, index, count, chunk) is Some,
    ensures
        !begun(a.after(frame, index, count, chunk).pieces),
{
}

/// A late copy is not a lost picture: when a picture has been given back
/// nothing is owed, copies of its pieces change nothing about that, and
/// whatever comes while nothing is owed, nothing is lost.
pub proof fn law_a_late_copy_is_not_lost(
    a: Assembly,
    frame: u32,
    index: int,
    count: nat,
    chunk: Seq<u8>,
)
    requires
        0 <= index,
    ensures
        a.given(frame, index, count, chunk) is Some ==> !a.after(
            frame,
            index,
            count,
            chunk,
        ).is_owed(),
        !a.is_owed() && a.done == Some((frame, count)) ==> !a.after(
            frame,
            index,
            count,
            chunk,
        ).is_owed(),
        !a.is_owed() ==> a.after(frame, index, count, chunk).lost == a.lost,
{
}

/// A piece that cannot be is ignored: of a picture with no pieces at all, or
/// past the end of one.
pub proof fn law_nonsense_pieces_are_ignored(
    a: Assembly,
    frame: u32,
    index: int,
    count: nat,
    chunk: Seq<u8>,
)
    requires
        index >= count,
    ensures
        a.after(frame, index, count, chunk) == a,
        a.given(frame, index, count, chunk) is None,
{
}

/// A piece goes in its place. The others of its picture stay as they are, and
/// of a picture that had not begun there is nothing else. One that came before
/// in the same place is replaced.
pub proof fn law_a_piece_goes_in_its_place(
    a: Assembly,
    frame: u32,
    index: int,
    count: nat,
    chunk: Seq<u8>,
    j: int,
)
    requires
        0 <= index < count,
        0 <= j < count,
        a.given(frame, index, count, chunk) is None,
    ensures
        ({
            let after = a.after(frame, index, count, chunk);
            let same = a.frame == frame && a.pieces.len() == count;
            &&& after.frame == frame && after.pieces.len() == count
            &&& after.pieces[index] == Some(chunk)
            &&& j != index && same ==> after.pieces[j] == a.pieces[j]
            &&& j != index && !same ==> after.pieces[j] is None
            &&& same ==> after.lost == a.lost
            &&& after.done == a.done
        }),
{
}

/// A picture goes out with the piece that was the last to come, and with no
/// other: when each of the others is there, and they are of the same picture.
/// It is the pieces one after another, and nothing is left waiting.
pub proof fn law_the_last_piece_gives_the_picture(
    a: Assembly,
    frame: u32,
    index: int,
    count: nat,
    chunk: Seq<u8>,
    parts: Seq<Seq<u8>>,
)
    requires
        0 <= index < count,
    ensures
        a.given(frame, index, count, chunk) is Some <==> count == 1 || (a.frame == frame
            && a.pieces.len() == count && forall|j: int|
            0 <= j < count && j != index ==> (#[trigger] a.pieces[j]) is Some),
        a.given(frame, index, count, chunk) is Some && parts.len() == count && parts[index] == chunk
            && (forall|j: int|
            0 <= j < count && j != index ==> #[trigger] a.pieces[j] == Some(parts[j])) ==> a.given(
            frame,
            index,
            count,
            chunk,
        ) == Some(parts.flatten()),
        a.given(frame, index, count, chunk) is Some ==> a.after(
            frame,
            index,
            count,
            chunk,
        ).pieces.len() == 0,
{
    let full = a.put(frame, index, count, chunk);
    let ready = a.ready(frame, count);
    assert(full.pieces[index] == Some(chunk));
    assert forall|j: int| 0 <= j < count && j != index implies #[trigger] full.pieces[j]
        == ready.pieces[j] by {}
    if whole(full.pieces) {
        if count > 1 {
            let j: int = if index == 0 {
                1
            } else {
                0
            };
            assert(full.pieces[j] is Some);
            assert(ready.pieces[j] is Some);
            assert(a.frame == frame && a.pieces.len() == count);
            assert forall|k: int| 0 <= k < count && k != index implies (
            #[trigger] a.pieces[k]) is Some by {
                assert(full.pieces[k] is Some);
            }
        }
        if parts.len() == count && parts[index] == chunk && (forall|j: int|
            0 <= j < count && j != index ==> #[trigger] a.pieces[j] == Some(parts[j])) {
            assert(full.pieces.map_values(|piece: Option<Seq<u8>>| piece->0) =~= parts) by {
                assert forall|j: int| 0 <= j < count implies (#[trigger] full.pieces[j])
                    == Some(parts[j]) by {
                    if j != index {
                        assert(a.pieces[j] == Some(parts[j]));
                    }
                }
            }
        }
    } else if count == 1 {
        assert(full.pieces[0] is Some);
    }
}

/// What is being put together is what has come: each piece in its place, as it
/// is.
pub proof fn law_the_pieces_are_what_has_come(j: Joining, i: int)
    requires
        0 <= i < j.pieces@.len(),
    ensures
        j@.pieces.len() == j.pieces@.len(),
        j.pieces@[i] is None ==> j@.pieces[i] is None,
        j.pieces@[i] matches Some(chunk) ==> j@.pieces[i] == Some(chunk@),
        j@.frame == j.frame,
        j@.lost == j.lost,
        j.done is None ==> j@.done is None,
        j.done matches Some(d) ==> j@.done == Some((d.0, d.1 as nat)),
{
}

} // verus!
