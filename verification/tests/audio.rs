use hush::audio::{
    energy, microphone, speaker, to_bytes, to_samples, Gate, FRAME, HANGOVER, RATE,
};

fn tone(n: usize, amp: f64) -> Vec<i16> {
    (0..n).map(|i| ((i as f64 * 0.05).sin() * amp * 32767.0) as i16).collect()
}

/// How loud a frame is, from 0 to 1.
fn loudness(frame: &[i16]) -> f32 {
    if frame.is_empty() {
        return 0.0;
    }
    (energy(frame) as f64 / (32768.0 * 32768.0) / frame.len() as f64).sqrt() as f32
}

/// A gate in a room whose quiet is learned.
struct Room {
    floor: f32,
    gate: Gate,
}

impl Room {
    fn new() -> Room {
        Room { floor: 0.002, gate: Gate::new() }
    }

    fn speaking(&mut self, level: f32) -> bool {
        let loud = level > 0.004 && level > self.floor * 2.6;
        if level < self.floor {
            self.floor += (level - self.floor) * 0.25;
        } else {
            self.floor *= 1.004;
        }
        self.floor = self.floor.clamp(0.0005, 0.08);
        self.gate.speaking(loud)
    }
}

#[test]
fn loudness_runs_from_quiet_to_loud() {
    assert_eq!(loudness(&[0i16; 100]), 0.0);
    let soft = loudness(&tone(960, 0.01));
    let loud = loudness(&tone(960, 0.5));
    assert!(loud > soft * 20.0, "a shout reads far louder than a whisper");
    assert!(loud < 1.0 && soft > 0.0);
}

#[test]
fn the_gate_stays_shut_on_a_quiet_room() {
    let mut g = Room::new();
    for _ in 0..200 {
        g.speaking(0.001);
    }
    assert!(!g.gate.open, "a quiet room never opens the sound gate");
}

#[test]
fn the_gate_opens_on_speech_and_holds_briefly_after() {
    let mut g = Room::new();
    for _ in 0..100 {
        g.speaking(0.001);
    }
    assert!(g.speaking(0.2), "a loud frame opens it at once");
    let mut open_after = 0;
    for _ in 0..40 {
        if g.speaking(0.001) {
            open_after += 1;
        }
    }
    assert!(
        open_after >= 10 && open_after <= 20,
        "it holds for about three hundred milliseconds, not {open_after} frames"
    );
    assert!(!g.gate.open, "and then it shuts");
}

#[test]
fn the_gate_learns_a_noisy_room_rather_than_shouting_over_it() {
    let mut quiet = Room::new();
    let mut noisy = Room::new();
    for _ in 0..600 {
        quiet.speaking(0.001);
        noisy.speaking(0.02);
    }
    assert!(noisy.floor > quiet.floor * 4.0, "the noisy room learned a higher floor");
    // The same voice: loud enough in a quiet room, lost in a noisy one.
    assert!(quiet.speaking(0.03), "speech carries in the quiet room");
    assert!(!noisy.speaking(0.03), "the same level is only the room next door");
}

#[test]
fn samples_survive_the_round_trip_through_bytes() {
    let f = tone(960, 0.4);
    assert_eq!(to_samples(&to_bytes(&f)), f);
    assert_eq!(to_bytes(&f).len(), FRAME * 2);
}

#[test]
fn bytes_survive_the_round_trip_through_samples() {
    let bytes: Vec<u8> = (0..=255).collect();
    assert_eq!(to_bytes(&to_samples(&bytes)), bytes);
}

#[test]
fn every_sample_has_the_bytes_that_std_gives_it() {
    for s in i16::MIN..=i16::MAX {
        let bytes = to_bytes(&[s]);
        assert_eq!(bytes, s.to_le_bytes().to_vec());
        assert_eq!(to_samples(&bytes), vec![s]);
    }
}

#[test]
fn an_odd_byte_is_no_sample() {
    assert_eq!(to_samples(&[1, 2, 3]), vec![0x0201]);
    assert_eq!(to_samples(&[7]), Vec::<i16>::new());
}

#[test]
fn energy_is_the_sum_of_squares() {
    assert_eq!(energy(&[]), 0);
    assert_eq!(energy(&[3, -4]), 25);
    assert_eq!(energy(&[i16::MIN, i16::MIN]), 2 * 32768 * 32768);
    assert!(energy(&[0, 0, 1]) > 0, "only silence is silent");
    assert!(energy(&[-10, 5]) <= energy(&[11, -5]), "louder has more energy");
}

#[test]
fn the_gate_shuts_three_hundred_milliseconds_after_the_last_loud_frame() {
    let mut g = Gate::new();
    assert!(!g.speaking(false));
    assert!(g.speaking(true));
    for _ in 0..HANGOVER {
        assert!(g.speaking(false));
    }
    assert!(!g.speaking(false));
    assert_eq!(HANGOVER as usize * FRAME * 1000 / RATE, 300);
    assert!(!Gate::default().open);
    let mut g = Gate::new();
    assert!(g.speaking(true));
    let held: Vec<bool> = (0..16).map(|_| g.speaking(false)).collect();
    assert_eq!(held, [vec![true; 15], vec![false]].concat());
}

#[test]
fn a_pause_in_a_sentence_does_not_shut_the_gate() {
    let mut g = Gate::new();
    for _ in 0..5 {
        assert!(g.speaking(true));
        for _ in 0..10 {
            assert!(g.speaking(false));
        }
    }
}

#[test]
fn the_microphone_and_the_speaker_are_asked_for_raw_samples() {
    assert_eq!(
        microphone("hw:1").join(" "),
        "-q -D hw:1 -f S16_LE -r 48000 -c 1 -t raw -"
    );
    assert_eq!(
        speaker("default").join(" "),
        "-q -D default -f S16_LE -r 48000 -c 1 -t raw --buffer-size=4800 -"
    );
}
