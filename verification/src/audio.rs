//! Sound in, sound out, and the sound gate, which decides whether any of it
//! is worth sending.
//!
//! That gate is the point of the app. A frame of speech is about fifty
//! bytes once Opus has it. A frame of quiet is nothing at all: not a small
//! packet, not a comfort tone, nothing. On a normal call that is most of
//! the time.

use vstd::prelude::*;
use vstd::string::*;

use crate::text::decimal;

verus! {

/// Sound is handled 48,000 times a second, in frames of 20 milliseconds.
pub const RATE: usize = 48_000;

pub const FRAME: usize = RATE / 50;

// ---------------------------------------------------------------------
// Samples and bytes
// ---------------------------------------------------------------------
/// A sample as a number that is not negative: two's complement.
pub open spec fn unsigned(s: i16) -> int {
    if s < 0 {
        s + 65536
    } else {
        s as int
    }
}

/// The sample that two bytes hold, the low one first.
pub open spec fn sample(low: u8, high: u8) -> i16 {
    let u = low + 256 * high;
    if u < 32768 {
        u as i16
    } else {
        (u - 65536) as i16
    }
}

/// Samples as bytes, two for each, the low one first.
pub open spec fn sample_bytes(frame: Seq<i16>) -> Seq<u8> {
    Seq::new(
        2 * frame.len(),
        |i: int|
            if i % 2 == 0 {
                (unsigned(frame[i / 2]) % 256) as u8
            } else {
                (unsigned(frame[i / 2]) / 256) as u8
            },
    )
}

/// The samples that bytes hold. An odd byte at the end holds none.
pub open spec fn samples_of(bytes: Seq<u8>) -> Seq<i16> {
    Seq::new(bytes.len() / 2, |i: int| sample(bytes[2 * i], bytes[2 * i + 1]))
}

/// Samples as bytes, in the order ALSA wants them.
pub fn to_bytes(frame: &[i16]) -> (v: Vec<u8>)
    ensures
        v@ == sample_bytes(frame@),
{
    let mut v: Vec<u8> = Vec::new();
    let mut i: usize = 0;
    while i < frame.len()
        invariant
            i <= frame@.len(),
            v@ == sample_bytes(frame@.take(i as int)),
        decreases frame.len() - i,
    {
        let s: i16 = frame[i];
        let u: i32 = if s < 0 {
            s as i32 + 65536
        } else {
            s as i32
        };
        v.push((u % 256) as u8);
        v.push((u / 256) as u8);
        i = i + 1;
        assert(v@ =~= sample_bytes(frame@.take(i as int)));
    }
    assert(frame@.take(i as int) == frame@);
    v
}

/// Samples back out of bytes.
pub fn to_samples(bytes: &[u8]) -> (v: Vec<i16>)
    ensures
        v@ == samples_of(bytes@),
{
    let mut v: Vec<i16> = Vec::new();
    let n: usize = bytes.len() / 2;
    while v.len() < n
        invariant
            n == bytes@.len() / 2,
            bytes.len() == bytes@.len(),
            v@.len() <= n,
            v@ == samples_of(bytes@).take(v@.len() as int),
        decreases n - v.len(),
    {
        let i: usize = v.len();
        let u: i32 = bytes[2 * i] as i32 + 256 * bytes[2 * i + 1] as i32;
        let s: i16 = if u < 32768 {
            u as i16
        } else {
            (u - 65536) as i16
        };
        v.push(s);
    }
    v
}

/// Samples survive the round trip through bytes.
pub proof fn law_samples_survive(frame: Seq<i16>)
    ensures
        sample_bytes(frame).len() == 2 * frame.len(),
        samples_of(sample_bytes(frame)) == frame,
{
    assert(samples_of(sample_bytes(frame)) =~= frame);
}

/// Bytes survive the round trip through samples, two by two.
pub proof fn law_bytes_survive(bytes: Seq<u8>)
    requires
        bytes.len() % 2 == 0,
    ensures
        sample_bytes(samples_of(bytes)) == bytes,
{
    assert(sample_bytes(samples_of(bytes)) =~= bytes);
}

/// The bytes of a frame are those of its samples one after another, and the
/// samples of some bytes those of each two of them.
pub proof fn law_samples_come_one_by_one(
    frame: Seq<i16>,
    more: Seq<i16>,
    bytes: Seq<u8>,
    low: u8,
    high: u8,
    odd: u8,
)
    requires
        bytes.len() % 2 == 0,
    ensures
        sample_bytes(frame + more) == sample_bytes(frame) + sample_bytes(more),
        samples_of(bytes + seq![low, high]) == samples_of(bytes) + samples_of(seq![low, high]),
        samples_of(bytes + seq![odd]) == samples_of(bytes),
        samples_of(seq![low, high]).len() == 1,
{
    assert(sample_bytes(frame + more) =~= sample_bytes(frame) + sample_bytes(more)) by {
        assert forall|i: int| 0 <= i < 2 * more.len() implies #[trigger] sample_bytes(more)[i]
            == sample_bytes(frame + more)[2 * frame.len() + i] by {
            assert((2 * frame.len() + i) / 2 == frame.len() + i / 2);
            assert((frame + more)[frame.len() + i / 2] == more[i / 2]);
        }
    }
    assert(samples_of(bytes + seq![low, high]) =~= samples_of(bytes) + samples_of(
        seq![low, high],
    ));
    assert(samples_of(bytes + seq![odd]) =~= samples_of(bytes));
}

/// Two bytes hold a sample, the low one first, in two's complement.
pub proof fn law_the_low_byte_comes_first(frame: Seq<i16>, i: int)
    requires
        0 <= i < frame.len(),
    ensures
        ({
            let (low, high) = (sample_bytes(frame)[2 * i], sample_bytes(frame)[2 * i + 1]);
            let held = low + 256 * high;
            held == frame[i] || held == frame[i] + 65536
        }),
{
}

// ---------------------------------------------------------------------
// Loudness
// ---------------------------------------------------------------------
/// The squares of the samples, added up.
pub open spec fn squares(frame: Seq<i16>) -> nat
    decreases frame.len(),
{
    if frame.len() == 0 {
        0
    } else {
        squares(frame.drop_last()) + (frame.last() * frame.last()) as nat
    }
}

proof fn lemma_squares_bound(frame: Seq<i16>)
    ensures
        squares(frame) <= frame.len() * 0x4000_0000,
    decreases frame.len(),
{
    if frame.len() > 0 {
        lemma_squares_bound(frame.drop_last());
        let s = frame.last() as int;
        assert(0 <= s * s <= 0x4000_0000) by (nonlinear_arith)
            requires
                -32768 <= s <= 32767,
        ;
    }
}

/// How much sound there is in a frame: the squares of its samples, added
/// up. The root of their mean is how loud the frame is.
pub fn energy(frame: &[i16]) -> (sum: u128)
    ensures
        sum == squares(frame@),
{
    let mut sum: u128 = 0;
    let mut i: usize = 0;
    while i < frame.len()
        invariant
            i <= frame.len() == frame@.len(),
            sum == squares(frame@.take(i as int)),
        decreases frame.len() - i,
    {
        let s: i32 = frame[i] as i32;
        proof {
            assert(0 <= s * s <= 0x4000_0000) by (nonlinear_arith)
                requires
                    -32768 <= s <= 32767,
            ;
            assert(frame@.take(i + 1).drop_last() == frame@.take(i as int));
            lemma_squares_bound(frame@.take(i as int));
        }
        sum = sum + (s * s) as u128;
        i = i + 1;
    }
    assert(frame@.take(i as int) == frame@);
    sum
}

/// Silence has no energy, and nothing else has none.
pub proof fn law_only_silence_is_silent(frame: Seq<i16>)
    ensures
        squares(frame) == 0 <==> forall|i: int| 0 <= i < frame.len() ==> #[trigger] frame[i] == 0,
    decreases frame.len(),
{
    if frame.len() > 0 {
        let front = frame.drop_last();
        let s = frame.last() as int;
        law_only_silence_is_silent(front);
        assert(s * s >= 0 && (s * s == 0 <==> s == 0)) by (nonlinear_arith);
        if squares(frame) == 0 {
            assert forall|i: int| 0 <= i < frame.len() implies #[trigger] frame[i] == 0 by {
                if i < front.len() {
                    assert(front[i] == frame[i]);
                }
            }
        }
        if forall|i: int| 0 <= i < frame.len() ==> #[trigger] frame[i] == 0 {
            assert forall|i: int| 0 <= i < front.len() implies #[trigger] front[i] == 0 by {
                assert(front[i] == frame[i]);
            }
        }
    }
}

/// How far a sample is from silence.
pub open spec fn height(s: i16) -> int {
    if s < 0 {
        -s
    } else {
        s as int
    }
}

/// A frame that is nowhere quieter has no less energy.
pub proof fn law_louder_has_more_energy(soft: Seq<i16>, loud: Seq<i16>)
    requires
        soft.len() == loud.len(),
        forall|i: int| 0 <= i < soft.len() ==> height(#[trigger] soft[i]) <= height(loud[i]),
    ensures
        squares(soft) <= squares(loud),
    decreases soft.len(),
{
    if soft.len() > 0 {
        let a = soft.drop_last();
        let b = loud.drop_last();
        assert forall|i: int| 0 <= i < a.len() implies height(#[trigger] a[i]) <= height(b[i]) by {
            assert(a[i] == soft[i] && b[i] == loud[i]);
        }
        law_louder_has_more_energy(a, b);
        let x = soft.last() as int;
        let y = loud.last() as int;
        assert(height(soft[soft.len() - 1]) <= height(loud[soft.len() - 1]));
        assert(0 <= x * x <= y * y) by (nonlinear_arith)
            requires
                -y <= x <= y || y <= x <= -y,
        ;
    }
}

/// The energy of sound is that of its parts added up, and that of one sample
/// is its square.
pub proof fn law_energy_adds_up(frame: Seq<i16>, more: Seq<i16>, s: i16)
    ensures
        squares(frame + more) == squares(frame) + squares(more),
        squares(seq![s]) == s * s,
        squares(Seq::empty()) == 0,
    decreases more.len(),
{
    assert(seq![s].drop_last() == Seq::<i16>::empty());
    assert(squares(seq![s].drop_last()) == 0);
    assert(s * s >= 0) by (nonlinear_arith);
    if more.len() == 0 {
        assert(frame + more == frame);
    } else {
        law_energy_adds_up(frame, more.drop_last(), s);
        assert((frame + more).drop_last() == frame + more.drop_last());
    }
}

// ---------------------------------------------------------------------
// The sound gate
// ---------------------------------------------------------------------
/// How many frames the sound gate stays open after the last loud one: three
/// hundred milliseconds. Shorter clips word endings.
pub const HANGOVER: u32 = 15;

/// The sound gate: is this speech, or is it the room being quiet?
///
/// It opens at once and closes slowly, so the end of a word is never
/// clipped. What counts as loud in this room is for whoever listens to it
/// to say.
pub struct Gate {
    /// How many frames to keep sending after the talking stops.
    pub left: u32,
    pub open: bool,
}

impl Gate {
    /// While there are frames left to send, the sound gate is open.
    pub open spec fn wf(&self) -> bool {
        self.left <= HANGOVER && (self.left > 0 ==> self.open)
    }

    /// A gate that is shut.
    pub fn new() -> (gate: Gate)
        ensures
            gate.wf(),
            gate.left == 0,
            !gate.open,
    {
        Gate { left: 0, open: false }
    }

    /// Decide on one frame.
    pub fn speaking(&mut self, loud: bool) -> (open: bool)
        ensures
            old(self).wf() ==> final(self).wf(),
            open == lets_through(old(self).left as nat, loud),
            open == final(self).open,
            final(self).left == left_after(old(self).left as nat, loud),
    {
        self.open = loud || self.left > 0;
        if loud {
            self.left = HANGOVER;
        } else if self.left > 0 {
            self.left = self.left - 1;
        }
        self.open
    }
}

impl Default for Gate {
    fn default() -> (gate: Gate)
        ensures
            gate.wf(),
            gate.left == 0,
            !gate.open,
    {
        Gate::new()
    }
}

/// Whether a frame is let through with so many left to send: it is loud
/// itself, or the talking has only just stopped.
pub open spec fn lets_through(left: nat, loud: bool) -> bool {
    loud || left > 0
}

/// How many frames there are left to send after one more.
pub open spec fn left_after(left: nat, loud: bool) -> nat {
    if loud {
        HANGOVER as nat
    } else if left > 0 {
        (left - 1) as nat
    } else {
        0
    }
}

/// How many frames there are left to send after these, from a gate that was
/// shut.
pub open spec fn left_of(frames: Seq<bool>) -> nat
    decreases frames.len(),
{
    if frames.len() == 0 {
        0
    } else {
        left_after(left_of(frames.drop_last()), frames.last())
    }
}

/// Whether someone is talking or has only just stopped: the last frame was
/// loud, or one of the three hundred milliseconds before it.
pub open spec fn just_spoken(frames: Seq<bool>) -> bool {
    exists|i: int|
        0 <= i < frames.len() && i >= frames.len() - (HANGOVER + 1) && #[trigger] frames[i]
}

/// The sound gate opens on a loud frame at once, whatever came before, and
/// once it has shut nothing but a loud frame opens it.
pub proof fn law_the_gate_opens_at_once(left: nat, loud: bool)
    ensures
        lets_through(left, true),
        left_after(left, true) == HANGOVER,
        left == 0 ==> lets_through(left, loud) == loud,
{
}

/// A frame is let through exactly when it is loud or comes within three
/// hundred milliseconds of a loud one: the sound gate holds for that long
/// after the talking stops, then shuts, and a room that is never loud never
/// opens it.
pub proof fn law_the_gate_is_open_while_someone_has_just_spoken(before: Seq<bool>, loud: bool)
    ensures
        lets_through(left_of(before), loud) == just_spoken(before.push(loud)),
        left_of(before.push(loud)) == left_after(left_of(before), loud),
{
    let frames = before.push(loud);
    assert(frames.drop_last() == before);
    lemma_left_of(before);
    if loud {
        assert(frames[before.len() as int]);
    } else if left_of(before) > 0 {
        let i = before.len() - 1 - (HANGOVER - left_of(before));
        assert(frames[i] == before[i]);
    } else if just_spoken(frames) {
        let i = choose|i: int|
            0 <= i < frames.len() && i >= frames.len() - (HANGOVER + 1) && #[trigger] frames[i];
        assert(before[i]);
    }
}

/// The last loud frame is as far back as the count has run down.
proof fn lemma_left_of(frames: Seq<bool>)
    ensures
        left_of(frames) <= HANGOVER,
        left_of(frames) > 0 ==> {
            let i = frames.len() - 1 - (HANGOVER - left_of(frames));
            0 <= i < frames.len() && frames[i]
        },
        forall|i: int|
            0 <= i < frames.len() && #[trigger] frames[i] ==> i + HANGOVER - (frames.len() - 1)
                <= left_of(frames),
    decreases frames.len(),
{
    if frames.len() > 0 {
        let front = frames.drop_last();
        lemma_left_of(front);
        assert forall|i: int| 0 <= i < frames.len() && #[trigger] frames[i] implies i + HANGOVER - (
        frames.len() - 1) <= left_of(frames) by {
            if i < front.len() {
                assert(front[i]);
            }
        }
        if left_of(frames) > 0 && !frames.last() {
            let i = front.len() - 1 - (HANGOVER - left_of(front));
            assert(front[i] == frames[i]);
        }
    }
}

/// Three hundred milliseconds are fifteen frames: whatever came before, after
/// a loud frame the next fifteen quiet ones are let through and no more.
pub proof fn law_fifteen_quiet_frames_are_let_through(before: Seq<bool>, quiet: Seq<bool>)
    requires
        forall|i: int| 0 <= i < quiet.len() ==> !#[trigger] quiet[i],
    ensures
        lets_through(left_of(before.push(true) + quiet), false) == (quiet.len() < 15),
        lets_through(left_of(before.push(true) + quiet), true),
{
    lemma_runs_down(before, quiet);
}

proof fn lemma_runs_down(before: Seq<bool>, quiet: Seq<bool>)
    requires
        forall|i: int| 0 <= i < quiet.len() ==> !#[trigger] quiet[i],
    ensures
        left_of(before.push(true) + quiet) == if quiet.len() < 15 {
            (15 - quiet.len()) as nat
        } else {
            0
        },
    decreases quiet.len(),
{
    let all = before.push(true) + quiet;
    if quiet.len() == 0 {
        assert(all == before.push(true));
    } else {
        let less = quiet.drop_last();
        assert forall|i: int| 0 <= i < less.len() implies !#[trigger] less[i] by {
            assert(less[i] == quiet[i]);
        }
        lemma_runs_down(before, less);
        assert(all.drop_last() == before.push(true) + less);
        assert(all.last() == quiet[quiet.len() - 1]);
    }
}

// ---------------------------------------------------------------------
// The microphone and the speaker
// ---------------------------------------------------------------------
/// What to ask `arecord` for: raw samples from this device.
pub fn microphone(device: &str) -> (args: Vec<String>)
    ensures
        crate::text::texts(args@) == seq![
            "-q"@,
            "-D"@,
            device@,
            "-f"@,
            "S16_LE"@,
            "-r"@,
            crate::text::decimal_text(RATE as nat),
            "-c"@,
            "1"@,
            "-t"@,
            "raw"@,
            "-"@,
        ],
{
    let args: Vec<String> = vec![
        "-q".to_string(),
        "-D".to_string(),
        device.to_string(),
        "-f".to_string(),
        "S16_LE".to_string(),
        "-r".to_string(),
        decimal(RATE as u64),
        "-c".to_string(),
        "1".to_string(),
        "-t".to_string(),
        "raw".to_string(),
        "-".to_string(),
    ];
    args
}

/// What to ask `aplay` for: raw samples to this device, through a small
/// buffer, because a call is worth more latency-free than it is worth
/// gap-free.
pub fn speaker(device: &str) -> (args: Vec<String>)
    ensures
        crate::text::texts(args@) == seq![
            "-q"@,
            "-D"@,
            device@,
            "-f"@,
            "S16_LE"@,
            "-r"@,
            crate::text::decimal_text(RATE as nat),
            "-c"@,
            "1"@,
            "-t"@,
            "raw"@,
            "--buffer-size=4800"@,
            "-"@,
        ],
{
    let args: Vec<String> = vec![
        "-q".to_string(),
        "-D".to_string(),
        device.to_string(),
        "-f".to_string(),
        "S16_LE".to_string(),
        "-r".to_string(),
        decimal(RATE as u64),
        "-c".to_string(),
        "1".to_string(),
        "-t".to_string(),
        "raw".to_string(),
        "--buffer-size=4800".to_string(),
        "-".to_string(),
    ];
    args
}

} // verus!
