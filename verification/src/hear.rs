//! The far end: packets off the wire, and what is waiting to be played.
//!
//! Turning a packet of sound into samples is the codec's work. What a packet
//! says, what went missing before it and whether there is room for its sound
//! is decided here.

use vstd::prelude::*;
use vstd::string::*;

use crate::audio::energy;
use crate::audio::to_bytes;
use crate::audio::FRAME;
use crate::net::parse;
use crate::net::In;

verus! {

/// How many frames may wait to be played. A queue that grows is a queue
/// nobody is listening to.
pub const QUEUE_MAX: usize = 12;

/// From this many on, a jump in the count either way is a new start: no loss,
/// and nothing that is late.
pub const GAP_MAX: u32 = 100;

/// What is known of someone who speaks.
struct Speaker {
    name: String,
    /// The furthest frame number they have sent, so a gap can be counted.
    seq: Option<u32>,
    /// The frame numbers that were passed over and have not come.
    missing: Vec<u32>,
    /// How much sound there was in the last frame they sent.
    energy: u128,
}

/// What is known of someone, if anything.
spec fn known(speakers: Seq<Speaker>, who: Seq<char>) -> bool {
    exists|i: int| 0 <= i < speakers.len() && (#[trigger] speakers[i]).name@ == who
}

/// Nobody is in the list twice.
spec fn distinct(speakers: Seq<Speaker>) -> bool {
    forall|i: int, j: int|
        0 <= i < j < speakers.len() ==> (#[trigger] speakers[i]).name@ != (
        #[trigger] speakers[j]).name@
}

/// Where the count of someone stands, and the energy of their last frame.
spec fn lookup(speakers: Seq<Speaker>, who: Seq<char>) -> (Track, u128) {
    if known(speakers, who) {
        let i = choose|i: int|
            0 <= i < speakers.len() && (#[trigger] speakers[i]).name@ == who;
        (speakers[i].track(), speakers[i].energy)
    } else {
        (Track { last: None, missing: Seq::empty() }, 0)
    }
}

proof fn lemma_lookup(speakers: Seq<Speaker>, i: int)
    requires
        distinct(speakers),
        0 <= i < speakers.len(),
    ensures
        lookup(speakers, speakers[i].name@) == (speakers[i].track(), speakers[i].energy),
{
    let who = speakers[i].name@;
    let k = choose|k: int| 0 <= k < speakers.len() && (#[trigger] speakers[k]).name@ == who;
    assert(0 <= k < speakers.len() && speakers[k].name@ == who);
    if k < i {
        assert(speakers[k].name@ != speakers[i].name@);
    } else if i < k {
        assert(speakers[i].name@ != speakers[k].name@);
    }
}

/// A change to one speaker is a change to nobody else.
proof fn lemma_update(before: Seq<Speaker>, after: Seq<Speaker>, at: int)
    requires
        distinct(before),
        0 <= at < before.len(),
        after.len() == before.len(),
        after[at].name@ == before[at].name@,
        forall|i: int| 0 <= i < before.len() && i != at ==> #[trigger] after[i] == before[i],
    ensures
        distinct(after),
        forall|who: Seq<char>|
            #![trigger lookup(after, who)]
            lookup(after, who) == if who == before[at].name@ {
                (after[at].track(), after[at].energy)
            } else {
                lookup(before, who)
            },
{
    assert forall|i: int, j: int| 0 <= i < j < after.len() implies (#[trigger] after[i]).name@ != (
    #[trigger] after[j]).name@ by {
        assert(before[i].name@ != before[j].name@);
    }
    assert forall|who: Seq<char>|
        #![trigger lookup(after, who)]
        lookup(after, who) == if who == before[at].name@ {
            (after[at].track(), after[at].energy)
        } else {
            lookup(before, who)
        } by {
        if who == before[at].name@ {
            lemma_lookup(after, at);
        } else if known(before, who) {
            let k = choose|k: int| 0 <= k < before.len() && (#[trigger] before[k]).name@ == who;
            lemma_lookup(before, k);
            assert(after[k] == before[k]);
            lemma_lookup(after, k);
        } else if known(after, who) {
            let k = choose|k: int| 0 <= k < after.len() && (#[trigger] after[k]).name@ == who;
            assert(after[k].name@ == before[k].name@);
        }
    }
}

/// How far a count has moved, going round at the end.
pub open spec fn step(prev: u32, seq: u32) -> int {
    (seq - prev) % 0x1_0000_0000
}

/// Every frame number but one.
pub open spec fn all_but(seq: u32) -> spec_fn(u32) -> bool {
    |n: u32| n != seq
}

/// Where the count of someone stands.
pub struct Track {
    /// The furthest frame number they have sent.
    pub last: Option<u32>,
    /// The frame numbers that were passed over and have not come.
    pub missing: Seq<u32>,
}

impl Track {
    /// A frame that carries the count on. What it passes over has not come.
    pub open spec fn carries_on(self, seq: u32) -> bool {
        self.last matches Some(prev) && 0 < step(prev, seq) < GAP_MAX
    }

    /// A frame that was overtaken on the way, or that has come before.
    pub open spec fn is_late(self, seq: u32) -> bool {
        &&& !self.carries_on(seq)
        &&& self.last matches Some(prev) && (step(seq, prev) < GAP_MAX || self.missing.contains(
            seq,
        ))
    }

    /// The frame numbers that a frame passes over.
    pub open spec fn passed_over(self, seq: u32) -> Seq<u32> {
        if self.carries_on(seq) {
            let prev = self.last->0;
            Seq::new(
                (step(prev, seq) - 1) as nat,
                |i: int| ((prev + 1 + i) % 0x1_0000_0000) as u32,
            )
        } else {
            Seq::empty()
        }
    }

    /// What is still missing of what was passed over before, once a frame has
    /// come.
    pub open spec fn still_missing(self, seq: u32) -> Seq<u32> {
        self.missing.filter(all_but(seq))
    }

    /// Once a frame has come. One that is late does not set the count back,
    /// and is missing no longer. A new start leaves what is lost behind.
    pub open spec fn after(self, seq: u32) -> Track {
        if self.carries_on(seq) {
            Track {
                last: Some(seq),
                missing: self.still_missing(seq) + self.passed_over(seq),
            }
        } else if self.is_late(seq) {
            Track { last: self.last, missing: self.still_missing(seq) }
        } else {
            Track { last: Some(seq), missing: Seq::empty() }
        }
    }

    /// By how many the frames that are lost go up with a frame, or down: those
    /// it passes over are lost until they come.
    pub open spec fn more_lost(self, seq: u32) -> int {
        if self.carries_on(seq) || self.is_late(seq) {
            self.after(seq).missing.len() - self.missing.len()
        } else {
            0
        }
    }
}

impl Speaker {
    spec fn track(self) -> Track {
        Track { last: self.seq, missing: self.missing@ }
    }

    /// Whether a frame was passed over.
    fn misses(&self, seq: u32) -> (b: bool)
        ensures
            b == self.missing@.contains(seq),
    {
        let mut i: usize = 0;
        while i < self.missing.len()
            invariant
                i <= self.missing@.len(),
                forall|j: int| 0 <= j < i ==> self.missing@[j] != seq,
            decreases self.missing.len() - i,
        {
            if self.missing[i] == seq {
                return true;
            }
            i = i + 1;
        }
        false
    }

    /// What is still missing once a frame has come.
    fn missing_without(&self, seq: u32) -> (rest: Vec<u32>)
        ensures
            rest@ == self.track().still_missing(seq),
    {
        let ghost stays = all_but(seq);
        let mut rest: Vec<u32> = Vec::new();
        let mut i: usize = 0;
        proof {
            reveal(Seq::filter);
            assert(rest@ =~= self.missing@.take(0).filter(stays));
        }
        while i < self.missing.len()
            invariant
                i <= self.missing@.len(),
                stays == all_but(seq),
                rest@ == self.missing@.take(i as int).filter(stays),
            decreases self.missing.len() - i,
        {
            proof {
                reveal(Seq::filter);
                assert(self.missing@.take(i + 1).drop_last() == self.missing@.take(i as int));
            }
            if self.missing[i] != seq {
                rest.push(self.missing[i]);
            }
            i = i + 1;
        }
        assert(self.missing@.take(i as int) == self.missing@);
        rest
    }

    /// A frame is missing no longer. Says how often it was.
    fn take_off(&mut self, seq: u32) -> (found: u64)
        ensures
            final(self).missing@ == old(self).track().still_missing(seq),
            found == old(self).missing@.len() - final(self).missing@.len(),
            final(self).seq == old(self).seq,
            final(self).name == old(self).name,
            final(self).energy == old(self).energy,
    {
        if !self.misses(seq) {
            proof {
                lemma_nothing_taken_off(self.missing@, seq);
            }
            return 0;
        }
        let before: usize = self.missing.len();
        let rest = self.missing_without(seq);
        proof {
            self.missing@.lemma_filter_len(all_but(seq));
        }
        let found: u64 = (before - rest.len()) as u64;
        self.missing = rest;
        found
    }

    /// A frame has come. Says by how many the lost ones go up, and by how
    /// many they go down.
    fn came(&mut self, seq: u32) -> (lost: (u64, u64))
        ensures
            final(self).track() == old(self).track().after(seq),
            final(self).name == old(self).name,
            final(self).energy == old(self).energy,
            lost.0 - lost.1 == old(self).track().more_lost(seq),
    {
        let prev = match self.seq {
            Some(prev) => prev,
            None => {
                self.seq = Some(seq);
                self.missing = Vec::new();
                return (0, 0);
            },
        };
        let ahead: u32 = seq.wrapping_sub(prev);
        let behind: u32 = prev.wrapping_sub(seq);
        assert(ahead == step(prev, seq));
        assert(behind == step(seq, prev));
        if 0 < ahead && ahead < GAP_MAX {
            let ghost was = self.track();
            let found: u64 = self.take_off(seq);
            let ghost held = self.missing@;
            let mut i: u32 = 1;
            while i < ahead
                invariant
                    1 <= i <= ahead < GAP_MAX,
                    ahead == step(prev, seq),
                    was.last == Some(prev),
                    was.carries_on(seq),
                    self.missing@ == held + was.passed_over(seq).take(i - 1),
                    self.name == old(self).name,
                    self.energy == old(self).energy,
                decreases ahead - i,
            {
                let n: u32 = prev.wrapping_add(i);
                assert(n == was.passed_over(seq)[i - 1]);
                self.missing.push(n);
                assert(self.missing@ =~= held + was.passed_over(seq).take(i as int));
                i = i + 1;
            }
            assert(was.passed_over(seq).take(ahead - 1) == was.passed_over(seq));
            self.seq = Some(seq);
            ((ahead - 1) as u64, found)
        } else if behind < GAP_MAX || self.misses(seq) {
            (0, self.take_off(seq))
        } else {
            self.missing = Vec::new();
            self.seq = Some(seq);
            (0, 0)
        }
    }
}

/// Sound that has come and is to be decoded.
pub struct Sound {
    pub from: String,
    pub opus: Vec<u8>,
}

/// What a call has heard so far.
pub struct Listener {
    speakers: Vec<Speaker>,
    here: Vec<String>,
    last_in: Option<u64>,
    recv_bytes: u64,
    recv_frames: u64,
    lost_frames: u64,
    waiting: Vec<Vec<i16>>,
}

/// The samples of some frames.
pub open spec fn frames_of(queue: Seq<Vec<i16>>) -> Seq<Seq<i16>> {
    queue.map_values(|frame: Vec<i16>| frame@)
}

impl Listener {
    /// Where the count of someone stands.
    pub closed spec fn track(&self, who: Seq<char>) -> Track {
        lookup(self.speakers@, who).0
    }

    /// How much sound there was in the last frame heard from someone.
    pub closed spec fn last_energy(&self, who: Seq<char>) -> nat {
        lookup(self.speakers@, who).1 as nat
    }

    /// Everyone the relay says is in the room.
    pub closed spec fn room(&self) -> Seq<Seq<char>> {
        crate::text::texts(self.here@)
    }

    /// When sound was last heard.
    pub closed spec fn heard_at(&self) -> Option<u64> {
        self.last_in
    }

    pub closed spec fn bytes_heard(&self) -> u64 {
        self.recv_bytes
    }

    pub closed spec fn frames_heard(&self) -> u64 {
        self.recv_frames
    }

    pub closed spec fn frames_lost(&self) -> u64 {
        self.lost_frames
    }

    /// The frames waiting to be played, the next one first.
    pub closed spec fn queue(&self) -> Seq<Seq<i16>> {
        frames_of(self.waiting@)
    }

    /// Speakers are told apart by name, and the queue keeps its bound.
    pub closed spec fn wf(&self) -> bool {
        distinct(self.speakers@) && self.waiting@.len() <= QUEUE_MAX
    }

    /// Nobody has been heard yet, and only you are here.
    pub fn new(name: &str) -> (ears: Listener)
        ensures
            ears.wf(),
            ears.room() == seq![name@],
            ears.heard_at() is None,
            ears.bytes_heard() == 0,
            ears.frames_heard() == 0,
            ears.frames_lost() == 0,
            ears.queue().len() == 0,
            forall|who: Seq<char>| (#[trigger] ears.track(who)) == (Track {
                last: None,
                missing: Seq::empty(),
            }),
            forall|who: Seq<char>| (#[trigger] ears.last_energy(who)) == 0,
    {
        let ears = Listener {
            speakers: Vec::new(),
            here: vec![name.to_string()],
            last_in: None,
            recv_bytes: 0,
            recv_frames: 0,
            lost_frames: 0,
            waiting: Vec::new(),
        };
        assert(ears.room() =~= seq![name@]);
        ears
    }

    /// Everyone the relay says is in the room.
    pub fn here(&self) -> (here: &Vec<String>)
        ensures
            crate::text::texts(here@) == self.room(),
    {
        &self.here
    }

    /// How much sound there was in the last frame heard from someone, nought
    /// if there was none.
    pub fn energy_of(&self, who: &String) -> (sum: u128)
        requires
            self.wf(),
        ensures
            sum == self.last_energy(who@),
    {
        let mut i: usize = 0;
        while i < self.speakers.len()
            invariant
                self.wf(),
                i <= self.speakers@.len(),
                forall|j: int| 0 <= j < i ==> (#[trigger] self.speakers@[j]).name@ != who@,
            decreases self.speakers.len() - i,
        {
            if self.speakers[i].name == *who {
                proof {
                    lemma_lookup(self.speakers@, i as int);
                }
                return self.speakers[i].energy;
            }
            i = i + 1;
        }
        assert(!known(self.speakers@, who@));
        0
    }

    /// When sound was last heard.
    pub fn last_in(&self) -> (at: Option<u64>)
        ensures
            at == self.heard_at(),
    {
        self.last_in
    }

    pub fn recv_bytes(&self) -> (n: u64)
        ensures
            n == self.bytes_heard(),
    {
        self.recv_bytes
    }

    pub fn recv_frames(&self) -> (n: u64)
        ensures
            n == self.frames_heard(),
    {
        self.recv_frames
    }

    pub fn lost_frames(&self) -> (n: u64)
        ensures
            n == self.frames_lost(),
    {
        self.lost_frames
    }

    /// The place of a speaker in the list, which they are put into if they
    /// are not there.
    fn place(&mut self, who: &String) -> (at: usize)
        requires
            old(self).wf(),
        ensures
            final(self).wf(),
            final(self).here == old(self).here,
            final(self).last_in == old(self).last_in,
            final(self).recv_bytes == old(self).recv_bytes,
            final(self).recv_frames == old(self).recv_frames,
            final(self).lost_frames == old(self).lost_frames,
            final(self).waiting == old(self).waiting,
            forall|w: Seq<char>|
                #![trigger lookup(final(self).speakers@, w)]
                lookup(final(self).speakers@, w) == lookup(old(self).speakers@, w),
            at < final(self).speakers@.len(),
            final(self).speakers@[at as int].name@ == who@,
    {
        let mut i: usize = 0;
        while i < self.speakers.len()
            invariant
                *self == *old(self),
                self.wf(),
                i <= self.speakers@.len(),
                forall|j: int| 0 <= j < i ==> (#[trigger] self.speakers@[j]).name@ != who@,
            decreases self.speakers.len() - i,
        {
            if self.speakers[i].name == *who {
                return i;
            }
            i = i + 1;
        }
        let ghost before = self.speakers@;
        self.speakers.push(Speaker { name: who.clone(), seq: None, missing: Vec::new(), energy: 0 });
        proof {
            let after = self.speakers@;
            assert forall|w: Seq<char>|
                #![trigger lookup(after, w)]
                lookup(after, w) == lookup(before, w) by {
                if known(before, w) {
                    let k = choose|k: int| 0 <= k < before.len() && (#[trigger] before[k]).name@ == w;
                    lemma_lookup(before, k);
                    assert(after[k] == before[k]);
                    lemma_lookup(after, k);
                } else if w == who@ {
                    lemma_lookup(after, i as int);
                } else if known(after, w) {
                    let k = choose|k: int| 0 <= k < after.len() && (#[trigger] after[k]).name@ == w;
                    assert(after[k] == before[k]);
                }
            }
        }
        i
    }

    /// A packet has come. Sound is given back to be decoded, and the frames
    /// that it passed over count as lost until they come. A list of names says
    /// who is here. Anything else is ignored.
    pub fn hear(&mut self, buf: &[u8]) -> (sound: Option<Sound>)
        requires
            old(self).wf(),
        ensures
            final(self).wf(),
            final(self).heard_at() == old(self).heard_at(),
            final(self).bytes_heard() == old(self).bytes_heard(),
            final(self).frames_heard() == old(self).frames_heard(),
            final(self).queue() == old(self).queue(),
            forall|who: Seq<char>| #[trigger] final(self).last_energy(who) == old(self).last_energy(who),
            match crate::net::reading(buf@) {
                crate::net::Reading::Speech { from, seq, opus } => {
                    &&& sound matches Some(s) && s.from@ == from && s.opus@ == opus
                    &&& forall|who: Seq<char>| #[trigger]
                        final(self).track(who) == if who == from {
                            old(self).track(from).after(seq)
                        } else {
                            old(self).track(who)
                        }
                    &&& final(self).frames_lost() == (old(self).frames_lost() + old(self).track(
                        from,
                    ).more_lost(seq)) % 0x1_0000_0000_0000_0000
                    &&& final(self).room() == old(self).room()
                },
                crate::net::Reading::Who(names) => {
                    &&& sound is None
                    &&& final(self).room() == names
                    &&& final(self).frames_lost() == old(self).frames_lost()
                    &&& forall|who: Seq<char>| #[trigger]
                        final(self).track(who) == old(self).track(who)
                },
                crate::net::Reading::Other => sound is None && *final(self) == *old(self),
            },
    {
        match parse(buf) {
            In::Speech { from, seq, opus } => {
                let at: usize = self.place(&from);
                let ghost before = self.speakers@;
                proof {
                    lemma_lookup(before, at as int);
                }
                let lost: (u64, u64) = self.speakers[at].came(seq);
                self.lost_frames = self.lost_frames.wrapping_add(lost.0).wrapping_sub(lost.1);
                proof {
                    lemma_update(before, self.speakers@, at as int);
                    assert forall|who: Seq<char>| #[trigger]
                        self.last_energy(who) == old(self).last_energy(who) by {
                        assert(lookup(before, who) == lookup(old(self).speakers@, who));
                    }
                    assert forall|who: Seq<char>| #[trigger]
                        self.track(who) == if who == from@ {
                            old(self).track(from@).after(seq)
                        } else {
                            old(self).track(who)
                        } by {
                        assert(lookup(before, who) == lookup(old(self).speakers@, who));
                    }
                    assert(lookup(before, from@) == lookup(old(self).speakers@, from@));
                }
                Some(Sound { from, opus })
            },
            In::Who(names) => {
                self.here = names;
                None
            },
            In::Other => None,
        }
    }

    /// The sound of a packet of so many bytes has been decoded. It waits to
    /// be played, unless too much is waiting already.
    pub fn decoded(&mut self, from: &String, bytes: usize, frame: Vec<i16>, now: u64)
        requires
            old(self).wf(),
        ensures
            final(self).wf(),
            final(self).room() == old(self).room(),
            final(self).frames_lost() == old(self).frames_lost(),
            forall|who: Seq<char>| #[trigger] final(self).track(who) == old(self).track(who),
            forall|who: Seq<char>| #[trigger]
                final(self).last_energy(who) == if who == from@ {
                    crate::audio::squares(frame@)
                } else {
                    old(self).last_energy(who)
                },
            final(self).heard_at() == Some(now),
            final(self).bytes_heard() == (old(self).bytes_heard() + bytes)
                % 0x1_0000_0000_0000_0000,
            final(self).frames_heard() == (old(self).frames_heard() + 1)
                % 0x1_0000_0000_0000_0000,
            final(self).queue() == if old(self).queue().len() < QUEUE_MAX {
                old(self).queue().push(frame@)
            } else {
                old(self).queue()
            },
    {
        let at: usize = self.place(from);
        let ghost before = self.speakers@;
        let loud: u128 = energy(frame.as_slice());
        self.recv_bytes = self.recv_bytes.wrapping_add(bytes as u64);
        self.recv_frames = self.recv_frames.wrapping_add(1);
        self.speakers[at].energy = loud;
        self.last_in = Some(now);
        proof {
            lemma_lookup(before, at as int);
            lemma_update(before, self.speakers@, at as int);
            assert forall|who: Seq<char>| #[trigger]
                self.track(who) == old(self).track(who) by {
                assert(lookup(before, who) == lookup(old(self).speakers@, who));
            }
            assert forall|who: Seq<char>| #[trigger]
                self.last_energy(who) == if who == from@ {
                    crate::audio::squares(frame@)
                } else {
                    old(self).last_energy(who)
                } by {
                assert(lookup(before, who) == lookup(old(self).speakers@, who));
            }
        }
        let ghost samples = frame@;
        if self.waiting.len() < QUEUE_MAX {
            self.waiting.push(frame);
            assert(self.queue() =~= old(self).queue().push(samples));
        }
    }

    /// The next twenty milliseconds for the speaker: the frame that has waited
    /// longest, or silence when there is nothing waiting.
    pub fn play(&mut self) -> (bytes: Vec<u8>)
        requires
            old(self).wf(),
        ensures
            final(self).wf(),
            old(self).queue().len() == 0 ==> {
                &&& bytes@ == crate::audio::sample_bytes(quiet())
                &&& final(self).queue() == old(self).queue()
            },
            old(self).queue().len() > 0 ==> {
                &&& bytes@ == crate::audio::sample_bytes(old(self).queue().first())
                &&& final(self).queue() == old(self).queue().drop_first()
            },
            final(self).room() == old(self).room(),
            final(self).heard_at() == old(self).heard_at(),
            final(self).bytes_heard() == old(self).bytes_heard(),
            final(self).frames_heard() == old(self).frames_heard(),
            final(self).frames_lost() == old(self).frames_lost(),
            forall|who: Seq<char>| #[trigger] final(self).track(who) == old(self).track(who),
            forall|who: Seq<char>| #[trigger] final(self).last_energy(who) == old(self).last_energy(who),
    {
        if self.waiting.is_empty() {
            let silence: Vec<i16> = vec![0i16; FRAME];
            assert(silence@ =~= quiet());
            to_bytes(silence.as_slice())
        } else {
            let frame = self.waiting.remove(0);
            assert(self.queue() =~= old(self).queue().drop_first());
            to_bytes(frame.as_slice())
        }
    }
}

/// A frame of silence.
pub open spec fn quiet() -> Seq<i16> {
    Seq::new(FRAME as nat, |i: int| 0i16)
}

// ---------------------------------------------------------------------
// What holds of the far end
// ---------------------------------------------------------------------
/// Nothing is lost while the count goes up by one, round the end too.
pub proof fn law_a_steady_count_loses_nothing(track: Track, prev: u32)
    requires
        track.last == Some(prev),
    ensures
        track.passed_over(((prev + 1) % 0x1_0000_0000) as u32).len() == 0,
        track.more_lost(((prev + 1) % 0x1_0000_0000) as u32) <= 0,
{
    let seq = ((prev + 1) % 0x1_0000_0000) as u32;
    track.missing.lemma_filter_len(all_but(seq));
}

/// A jump in the count is that many frames that have not come.
pub proof fn law_a_jump_is_counted(track: Track, prev: u32, gone: nat)
    requires
        track.last == Some(prev),
        gone + 1 < GAP_MAX,
    ensures
        ({
            let seq = ((prev + 1 + gone) % 0x1_0000_0000) as u32;
            &&& track.passed_over(seq).len() == gone
            &&& !track.missing.contains(seq) ==> track.more_lost(seq) == gone
        }),
{
    let seq = ((prev + 1 + gone) % 0x1_0000_0000) as u32;
    if !track.missing.contains(seq) {
        lemma_nothing_taken_off(track.missing, seq);
    }
}

/// A frame that is late does not set the count back, and is missing no
/// longer. One that was not missing changes nothing.
pub proof fn law_a_late_frame_is_missing_no_longer(track: Track, seq: u32)
    requires
        track.is_late(seq),
    ensures
        track.after(seq).last == track.last,
        !track.after(seq).missing.contains(seq),
        track.missing.contains(seq) ==> track.more_lost(seq) < 0,
        track.missing.contains(seq) && track.missing.no_duplicates() ==> track.more_lost(seq)
            == -1,
        !track.missing.contains(seq) ==> track.after(seq) == track && track.more_lost(seq) == 0,
{
    let stays = all_but(seq);
    if track.after(seq).missing.contains(seq) {
        let k = track.after(seq).missing.index_of(seq);
        crate::relay::lemma_filter_from(track.missing, stays, k);
    }
    if track.missing.contains(seq) {
        lemma_taken_off(track.missing, seq);
    } else {
        lemma_nothing_taken_off(track.missing, seq);
    }
}

proof fn lemma_nothing_taken_off(s: Seq<u32>, seq: u32)
    requires
        !s.contains(seq),
    ensures
        s.filter(all_but(seq)) == s,
{
    crate::relay::lemma_filter_all(s, all_but(seq));
}

proof fn lemma_taken_off(s: Seq<u32>, seq: u32)
    requires
        s.contains(seq),
    ensures
        s.filter(all_but(seq)).len() < s.len(),
        s.no_duplicates() ==> s.filter(all_but(seq)).len() == s.len() - 1,
    decreases s.len(),
{
    reveal(Seq::filter);
    let front = s.drop_last();
    front.lemma_filter_len(all_but(seq));
    let k = s.index_of(seq);
    if k < front.len() {
        assert(front[k] == seq);
        lemma_taken_off(front, seq);
        if s.no_duplicates() {
            assert(s[k] != s[s.len() - 1]);
            assert(front.no_duplicates());
        }
    } else if front.contains(seq) {
        lemma_taken_off(front, seq);
        let j = front.index_of(seq);
        assert(s[j] == s[k]);
    } else {
        lemma_nothing_taken_off(front, seq);
    }
}

proof fn lemma_filter_apart(s: Seq<u32>, pred: spec_fn(u32) -> bool)
    requires
        s.no_duplicates(),
    ensures
        s.filter(pred).no_duplicates(),
    decreases s.len(),
{
    reveal(Seq::filter);
    if s.len() > 0 {
        let front = s.drop_last();
        assert(front.no_duplicates());
        lemma_filter_apart(front, pred);
        let kept = front.filter(pred);
        assert forall|i: int| 0 <= i < kept.len() implies kept[i] != s.last() by {
            crate::relay::lemma_filter_from(front, pred, i);
            let k = front.index_of(kept[i]);
            assert(s[k] == front[k]);
            assert(s[k] != s[s.len() - 1]);
        }
    }
}

/// Where the count of someone stands who sent these frames, as they came.
pub open spec fn track_of(counts: Seq<u32>) -> Track
    decreases counts.len(),
{
    if counts.len() == 0 {
        Track { last: None, missing: Seq::empty() }
    } else {
        track_of(counts.drop_last()).after(counts.last())
    }
}

/// How many frames are lost of someone who sent these.
pub open spec fn lost_of(counts: Seq<u32>) -> int
    decreases counts.len(),
{
    if counts.len() == 0 {
        0
    } else {
        lost_of(counts.drop_last()) + track_of(counts.drop_last()).more_lost(counts.last())
    }
}

/// Frames of one run: from `base` on, the count goes less than halfway round,
/// and no frame makes a new start but the first.
pub open spec fn one_run(base: u32, counts: Seq<u32>) -> bool {
    &&& forall|i: int| 0 <= i < counts.len() ==> step(base, #[trigger] counts[i]) < 0x8000_0000
    &&& forall|i: int|
        0 < i < counts.len() ==> {
            let track = track_of(#[trigger] counts.take(i));
            track.carries_on(counts[i]) || track.is_late(counts[i])
        }
}

/// Steps add up, while they are short.
proof fn lemma_steps(base: u32, a: u32, b: u32)
    requires
        step(base, a) < 0x8000_0000,
        step(base, b) < 0x8000_0000,
        step(a, b) < GAP_MAX,
    ensures
        step(base, b) == step(base, a) + step(a, b),
{
}

/// What lies between two counts lies between them from anywhere before.
proof fn lemma_steps_between(base: u32, prev: u32, seq: u32, i: int)
    requires
        step(base, prev) < 0x8000_0000,
        0 <= i < step(prev, seq) - 1,
        step(prev, seq) < GAP_MAX,
    ensures
        step(base, ((prev + 1 + i) % 0x1_0000_0000) as u32) == step(base, prev) + 1 + i,
{
}

/// Two lists of counts have none in common when one lies before the other.
proof fn lemma_joined_apart(base: u32, near: Seq<u32>, far: Seq<u32>, limit: int)
    requires
        near.no_duplicates(),
        forall|i: int| 0 <= i < near.len() ==> step(base, #[trigger] near[i]) < limit,
        forall|i: int| 0 <= i < far.len() ==> step(base, #[trigger] far[i]) == limit + 1 + i,
    ensures
        (near + far).no_duplicates(),
{
    let all = near + far;
    assert forall|i: int, j: int| 0 <= i < j < all.len() implies all[i] != all[j] by {
        if j < near.len() {
            assert(near[i] != near[j]);
        } else if i < near.len() {
            assert(step(base, near[i]) < limit);
            assert(step(base, far[j - near.len()]) > limit);
        } else {
            assert(step(base, far[i - near.len()]) < step(base, far[j - near.len()]));
        }
    }
}

proof fn lemma_one_run(base: u32, counts: Seq<u32>)
    requires
        one_run(base, counts),
        counts.len() > 0,
    ensures
        ({
            let track = track_of(counts);
            &&& track.last matches Some(last) && counts.contains(last) && forall|c: u32| #[trigger]
                counts.contains(c) ==> step(base, c) <= step(base, last)
            &&& track.missing.no_duplicates()
            &&& lost_of(counts) == track.missing.len()
            &&& forall|i: int|
                0 <= i < track.missing.len() ==> step(base, #[trigger] track.missing[i]) < step(
                    base,
                    track.last->0,
                ) && !counts.contains(track.missing[i])
        }),
    decreases counts.len(),
{
    let front = counts.drop_last();
    let seq = counts.last();
    let was = track_of(front);
    let track = track_of(counts);
    assert(counts[counts.len() - 1] == seq);
    assert(counts.contains(seq));
    assert forall|c: u32| #[trigger] counts.contains(c) implies c == seq || front.contains(c) by {
        let k = counts.index_of(c);
        if k < front.len() {
            assert(front[k] == c);
        }
    }
    assert forall|c: u32| #[trigger] front.contains(c) implies counts.contains(c) by {
        let k = front.index_of(c);
        assert(counts[k] == c);
    }
    if front.len() > 0 {
        assert(one_run(base, front)) by {
            assert forall|i: int| 0 <= i < front.len() implies step(base, #[trigger] front[i])
                < 0x8000_0000 by {
                assert(front[i] == counts[i]);
            }
            assert forall|i: int| 0 < i < front.len() implies ({
                let track = track_of(#[trigger] front.take(i));
                track.carries_on(front[i]) || track.is_late(front[i])
            }) by {
                assert(front.take(i) == counts.take(i));
            }
        }
        lemma_one_run(base, front);
        assert(counts.take(counts.len() - 1) == front);
        let prev = was.last->0;
        assert(front.contains(prev));
        assert(step(base, prev) < 0x8000_0000) by {
            let k = front.index_of(prev);
            assert(counts[k] == prev);
        }
        let stays = all_but(seq);
        let still = was.still_missing(seq);
        lemma_filter_apart(was.missing, stays);
        assert forall|i: int| 0 <= i < still.len() implies step(base, #[trigger] still[i]) < step(
            base,
            prev,
        ) && !counts.contains(still[i]) by {
            crate::relay::lemma_filter_from(was.missing, stays, i);
            let k = was.missing.index_of(still[i]);
            assert(was.missing[k] == still[i]);
        }
        if was.carries_on(seq) {
            let passed = was.passed_over(seq);
            lemma_steps(base, prev, seq);
            assert forall|i: int| 0 <= i < passed.len() implies step(base, #[trigger] passed[i])
                == step(base, prev) + 1 + i && !counts.contains(passed[i]) by {
                lemma_steps_between(base, prev, seq, i);
            }
            lemma_joined_apart(base, still, passed, step(base, prev));
            assert forall|i: int| 0 <= i < track.missing.len() implies step(
                base,
                #[trigger] track.missing[i],
            ) < step(base, seq) && !counts.contains(track.missing[i]) by {
                if i >= still.len() {
                    assert(track.missing[i] == passed[i - still.len()]);
                } else {
                    assert(track.missing[i] == still[i]);
                }
            }
        } else {
            assert(was.is_late(seq));
            assert(step(base, seq) <= step(base, prev)) by {
                if was.missing.contains(seq) {
                    let k = was.missing.index_of(seq);
                    assert(was.missing[k] == seq);
                } else {
                    lemma_steps(base, seq, prev);
                }
            }
        }
    } else {
        assert(was.last is None && lost_of(front) == 0);
        assert(track == (Track { last: Some(seq), missing: Seq::empty() }));
    }
    assert(lost_of(counts) == lost_of(front) + was.more_lost(seq));
    assert(lost_of(counts) == track.missing.len());
}

/// Nothing that came is lost: in one run of frames, as many are lost as were
/// passed over and have not come, in whatever order the others did.
pub proof fn law_nothing_that_came_is_lost(base: u32, counts: Seq<u32>)
    requires
        one_run(base, counts),
    ensures
        lost_of(counts) == track_of(counts).missing.len(),
        track_of(counts).missing.no_duplicates(),
        forall|i: int|
            0 <= i < track_of(counts).missing.len() ==> !counts.contains(
                #[trigger] track_of(counts).missing[i],
            ),
{
    if counts.len() > 0 {
        lemma_one_run(base, counts);
    }
}

/// When every frame of a run has come, none is lost, however late some were.
pub proof fn law_when_all_came_none_is_lost(base: u32, counts: Seq<u32>, n: nat)
    requires
        one_run(base, counts),
        forall|i: int| 0 <= i < counts.len() ==> step(base, #[trigger] counts[i]) < n,
        forall|c: u32| step(base, c) < n ==> #[trigger] counts.contains(c),
    ensures
        lost_of(counts) == 0,
        track_of(counts).missing.len() == 0,
{
    if counts.len() > 0 {
        lemma_one_run(base, counts);
        let track = track_of(counts);
        if track.missing.len() > 0 {
            let c = track.missing[0];
            let k = counts.index_of(track.last->0);
            assert(step(base, counts[k]) < n);
            assert(counts.contains(c));
        }
    }
}

/// No more than a dozen frames ever wait to be played.
pub proof fn law_the_queue_keeps_its_bound(ears: &Listener)
    requires
        ears.wf(),
    ensures
        ears.queue().len() <= QUEUE_MAX,
        QUEUE_MAX == 12,
{
}

/// The count goes on from the furthest frame: one that is a little ahead moves
/// it there, one that is a little behind does not move it, and one that is far
/// off either way starts it anew, with nothing more lost and nothing awaited.
pub proof fn law_the_count_goes_on_from_the_furthest(track: Track, prev: u32, seq: u32)
    ensures
        ({
            let ahead = if seq >= prev {
                seq - prev
            } else {
                seq - prev + 0x1_0000_0000
            };
            let behind = if prev >= seq {
                prev - seq
            } else {
                prev - seq + 0x1_0000_0000
            };
            &&& track.last is None ==> {
                &&& track.after(seq).last == Some(seq)
                &&& track.after(seq).missing.len() == 0
                &&& track.more_lost(seq) == 0
            }
            &&& track.last == Some(prev) && 0 < ahead < 100 ==> {
                &&& track.after(seq).last == Some(seq)
                &&& track.more_lost(seq) == track.after(seq).missing.len() - track.missing.len()
                &&& forall|n: u32| #[trigger]
                    track.after(seq).missing.contains(n) == ((track.missing.contains(n) && n
                        != seq) || track.passed_over(seq).contains(n))
            }
            &&& track.last == Some(prev) && (ahead == 0 || ahead >= 100) && (behind < 100
                || track.missing.contains(seq)) ==> {
                &&& track.after(seq).last == Some(prev)
                &&& track.more_lost(seq) == track.after(seq).missing.len() - track.missing.len()
                &&& forall|n: u32| #[trigger]
                    track.after(seq).missing.contains(n) == (track.missing.contains(n) && n != seq)
            }
            &&& track.last == Some(prev) && ahead >= 100 && behind >= 100
                && !track.missing.contains(seq) ==> {
                &&& track.after(seq).last == Some(seq)
                &&& track.after(seq).missing.len() == 0
                &&& track.more_lost(seq) == 0
            }
        }),
{
    let still = track.still_missing(seq);
    if track.last == Some(prev) && track.is_late(seq) {
        assert forall|n: u32| #[trigger]
            still.contains(n) == (track.missing.contains(n) && n != seq) by {
            crate::relay::lemma_filter_has(track.missing, all_but(seq), n);
        }
    }
    if track.last == Some(prev) && track.carries_on(seq) {
        let passed = track.passed_over(seq);
        assert forall|n: u32| #[trigger]
            track.after(seq).missing.contains(n) == ((track.missing.contains(n) && n != seq)
                || passed.contains(n)) by {
            crate::relay::lemma_filter_has(track.missing, all_but(seq), n);
            if still.contains(n) {
                let k = still.index_of(n);
                assert(track.after(seq).missing[k] == n);
            }
            if passed.contains(n) {
                let k = passed.index_of(n);
                assert(track.after(seq).missing[still.len() + k] == n);
            }
            if track.after(seq).missing.contains(n) {
                let k = track.after(seq).missing.index_of(n);
                if k < still.len() {
                    assert(still[k] == n);
                } else {
                    assert(passed[k - still.len()] == n);
                }
            }
        }
    }
}

/// What a frame passes over are the counts between it and the one before, each
/// once, round the end too.
pub proof fn law_what_is_passed_over_lies_between(track: Track, prev: u32, ahead: int, k: int)
    requires
        track.last == Some(prev),
        0 < ahead < 100,
        0 < k < ahead,
    ensures
        ({
            let seq = ((prev + ahead) % 0x1_0000_0000) as u32;
            &&& track.passed_over(seq).len() == ahead - 1
            &&& track.passed_over(seq)[k - 1] == (prev + k) % 0x1_0000_0000
        }),
{
}

} // verus!
