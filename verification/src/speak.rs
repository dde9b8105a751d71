//! Your own end: which frames go out, and in what packets.
//!
//! Turning samples into a packet of sound is the codec's work. Whether there
//! is anything to send, and what goes round it, is decided here.

use vstd::prelude::*;

use crate::audio::Gate;
use crate::net::audio;

verus! {

/// What a call has said so far.
pub struct Talker {
    pub gate: Gate,
    /// The count that the next packet carries.
    pub seq: u32,
    /// Frames the microphone gave us, spoken or not.
    pub heard_frames: u64,
    pub sent_frames: u64,
    pub sent_bytes: u64,
}

impl Talker {
    pub open spec fn wf(&self) -> bool {
        self.gate.wf()
    }

    /// Nothing has been said yet.
    pub fn new() -> (talker: Talker)
        ensures
            talker.wf(),
            talker.gate.left == 0,
            !talker.gate.open,
            talker.seq == 0,
            talker.heard_frames == 0,
            talker.sent_frames == 0,
            talker.sent_bytes == 0,
    {
        Talker { gate: Gate::new(), seq: 0, heard_frames: 0, sent_frames: 0, sent_bytes: 0 }
    }

    /// The microphone gave a frame. Says whether to send it. While the sound
    /// gate is shut, or the microphone is held shut, nothing goes out at all.
    pub fn frame(&mut self, loud: bool, muted: bool) -> (send: bool)
        ensures
            old(self).wf() ==> final(self).wf(),
            final(self).gate.left == crate::audio::left_after(old(self).gate.left as nat, loud),
            final(self).gate.open == crate::audio::lets_through(old(self).gate.left as nat, loud),
            send == sends(old(self).gate.left as nat, loud, muted),
            // Whatever the microphone gave before this frame.
            forall|before: Seq<bool>|
                old(self).gate.left == #[trigger] crate::audio::left_of(before) ==> {
                    &&& send == (!muted && crate::audio::just_spoken(before.push(loud)))
                    &&& final(self).gate.left == crate::audio::left_of(before.push(loud))
                },
            final(self).heard_frames == (old(self).heard_frames + 1) % 0x1_0000_0000_0000_0000,
            final(self).seq == old(self).seq,
            final(self).sent_frames == old(self).sent_frames,
            final(self).sent_bytes == old(self).sent_bytes,
    {
        let open = self.gate.speaking(loud);
        self.heard_frames = self.heard_frames.wrapping_add(1);
        proof {
            assert forall|before: Seq<bool>|
                old(self).gate.left == #[trigger] crate::audio::left_of(before) implies {
                &&& (open && !muted) == (!muted && crate::audio::just_spoken(before.push(loud)))
                &&& self.gate.left == crate::audio::left_of(before.push(loud))
            } by {
                crate::audio::law_the_gate_is_open_while_someone_has_just_spoken(before, loud);
            }
        }
        open && !muted
    }

    /// The packet for a frame that has been encoded. The count moves on.
    pub fn packet(&mut self, room: &str, name: &str, opus: &[u8]) -> (p: Vec<u8>)
        ensures
            old(self).wf() ==> final(self).wf(),
            p@ == crate::net::speech(room@, name@, old(self).seq, opus@),
            final(self).seq == (old(self).seq + 1) % 0x1_0000_0000,
            final(self).gate == old(self).gate,
            final(self).heard_frames == old(self).heard_frames,
            final(self).sent_frames == old(self).sent_frames,
            final(self).sent_bytes == old(self).sent_bytes,
    {
        let p = audio(room, name, self.seq, opus);
        self.seq = self.seq.wrapping_add(1);
        p
    }

    /// A packet of so many bytes has gone out.
    pub fn sent(&mut self, bytes: usize)
        ensures
            old(self).wf() ==> final(self).wf(),
            final(self).sent_bytes == (old(self).sent_bytes + bytes) % 0x1_0000_0000_0000_0000,
            final(self).sent_frames == (old(self).sent_frames + 1) % 0x1_0000_0000_0000_0000,
            final(self).gate == old(self).gate,
            final(self).seq == old(self).seq,
            final(self).heard_frames == old(self).heard_frames,
    {
        self.sent_bytes = self.sent_bytes.wrapping_add(bytes as u64);
        self.sent_frames = self.sent_frames.wrapping_add(1);
    }
}

/// Whether a frame goes out, with so many left to send after the talking
/// stopped.
pub open spec fn sends(left: nat, loud: bool, muted: bool) -> bool {
    crate::audio::lets_through(left, loud) && !muted
}

/// Silence sends nothing at all. After these frames, loud ones and others,
/// another one goes out exactly when the microphone is not held shut and the
/// frame, or one of the three hundred milliseconds before it, was loud.
pub proof fn law_silence_sends_nothing(before: Seq<bool>, loud: bool, muted: bool)
    ensures
        sends(crate::audio::left_of(before), loud, muted) == (!muted && crate::audio::just_spoken(
            before.push(loud),
        )),
{
    crate::audio::law_the_gate_is_open_while_someone_has_just_spoken(before, loud);
}

/// What is said here is heard there: a frame of sound under a name that fits
/// is read at the far end with the name and the sound as they were, and the
/// frame after it is not taken for one that comes after a loss.
pub proof fn law_what_is_said_is_heard(
    room: Seq<char>,
    name: Seq<char>,
    seq: u32,
    opus: Seq<u8>,
    next: Seq<u8>,
    track: crate::hear::Track,
)
    requires
        vstd::utf8::encode_utf8(name).len() <= crate::net::NAME_MAX,
        crate::net::tidy(name),
        opus.len() > 0,
        next.len() > 0,
    ensures
        crate::net::reading(crate::net::speech(room, name, seq, opus)) == (
        crate::net::Reading::Speech { from: name, seq, opus }),
        ({
            let then = ((seq + 1) % 0x1_0000_0000) as u32;
            &&& crate::net::reading(crate::net::speech(room, name, then, next)) == (
            crate::net::Reading::Speech { from: name, seq: then, opus: next })
            &&& track.last == Some(seq) ==> track.passed_over(then).len() == 0
        }),
{
    let then = ((seq + 1) % 0x1_0000_0000) as u32;
    if track.last == Some(seq) {
        crate::hear::law_a_steady_count_loses_nothing(track, seq);
    }
    assert(crate::net::reading(crate::net::speech(room, name, then, next)) == (
    crate::net::Reading::Speech { from: name, seq: then, opus: next })) by {
        crate::net::law_speaker_reads_back(room, name, then, next);
    }
    crate::net::law_speaker_reads_back(room, name, seq, opus);
}

} // verus!
