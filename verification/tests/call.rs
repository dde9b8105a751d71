use hush::audio::{energy, to_bytes, FRAME, HANGOVER, RATE};
use hush::hear::{Listener, GAP_MAX, QUEUE_MAX};
use hush::net::{audio, fixed, join, parse, In, NAME_MAX, WHO};
use hush::pace::{Pace, STEP};
use hush::speak::Talker;

#[test]
fn what_is_said_is_heard() {
    let mut mouth = Talker::new();
    let mut ears = Listener::new("alice");
    for sound in [vec![1u8], vec![2, 3], vec![4, 5, 6]] {
        assert!(mouth.frame(true, false));
        let p = mouth.packet("kitchen", "geir", &sound);
        mouth.sent(p.len());
        let heard = ears.hear(&p).expect("sound");
        assert_eq!(heard.from, "geir");
        assert_eq!(heard.opus, sound);
    }
    assert_eq!(mouth.heard_frames, 3);
    assert_eq!(mouth.sent_frames, 3);
    assert_eq!(mouth.sent_bytes, 38 + 39 + 40);
    assert_eq!(ears.lost_frames(), 0);
}

#[test]
fn silence_sends_nothing() {
    let mut mouth = Talker::new();
    for _ in 0..100 {
        assert!(!mouth.frame(false, false));
    }
    assert!(mouth.frame(true, false));
    let sent = (0..100).filter(|_| mouth.frame(false, false)).count();
    assert_eq!(sent, HANGOVER as usize);
    assert_eq!(mouth.heard_frames, 201);
    assert_eq!(mouth.sent_frames, 0);
}

#[test]
fn a_microphone_held_shut_sends_nothing() {
    let mut mouth = Talker::new();
    assert!(!mouth.frame(true, true));
    assert!(mouth.gate.open, "the sound gate goes on listening");
    assert!(mouth.frame(false, false));
}

#[test]
fn the_count_goes_round_at_the_end() {
    let mut mouth = Talker::new();
    mouth.seq = u32::MAX;
    let last = mouth.packet("r", "n", &[1]);
    let first = mouth.packet("r", "n", &[1]);
    assert!(matches!(parse(&last), In::Speech { seq: u32::MAX, .. }));
    assert!(matches!(parse(&first), In::Speech { seq: 0, .. }));
    let mut ears = Listener::new("x");
    ears.hear(&last);
    ears.hear(&first);
    assert_eq!(ears.lost_frames(), 0);
}

#[test]
fn a_jump_in_the_count_is_a_loss() {
    let mut ears = Listener::new("x");
    for (seq, lost) in [
        (10, 0),
        (11, 0),
        (14, 2),
        (13, 1),                  // one that arrived late
        (13, 1),                  // one that came twice
        (14 + GAP_MAX - 1, 99),   // the longest gap there is
        (12, 98),                 // very late, and missing no longer
        (114, 98),
        (114 + GAP_MAX, 98),      // a new start
        (100, 98),                // and another, since it was left behind
        (u32::MAX, 98),
        (1, 99),
    ] {
        ears.hear(&audio("r", "geir", seq, &[1]));
        assert_eq!(ears.lost_frames(), lost, "at {seq}");
    }
    let lost = ears.lost_frames();
    // Everyone has a count of their own.
    ears.hear(&audio("r", "alice", 50, &[1]));
    ears.hear(&audio("r", "geir", 2, &[1]));
    ears.hear(&audio("r", "alice", 52, &[1]));
    assert_eq!(ears.lost_frames(), lost + 1);
}

#[test]
fn a_late_frame_is_not_lost() {
    for order in [[1, 3, 2, 4], [1, 4, 3, 2], [1, 2, 4, 3], [2, 1, 3, 4]] {
        let mut ears = Listener::new("x");
        for seq in order {
            ears.hear(&audio("r", "geir", seq, &[1]));
        }
        assert_eq!(ears.lost_frames(), 0, "{order:?}");
    }
    let mut ears = Listener::new("x");
    for seq in [u32::MAX - 1, 1, 0, u32::MAX, 3] {
        ears.hear(&audio("r", "geir", seq, &[1]));
    }
    assert_eq!(ears.lost_frames(), 1, "only 2 has not come");
}

#[test]
fn whoever_comes_back_starts_anew() {
    let mut ears = Listener::new("x");
    for seq in [5000, 5002, 0, 1, 4] {
        ears.hear(&audio("r", "geir", seq, &[1]));
    }
    assert_eq!(ears.lost_frames(), 1 + 2);
}

#[test]
fn the_room_list_says_who_is_here() {
    let mut ears = Listener::new("geir");
    assert_eq!(*ears.here(), vec!["geir"]);
    let mut who = vec![WHO];
    who.extend(fixed("geir", NAME_MAX));
    who.extend(fixed("alice", NAME_MAX));
    assert!(ears.hear(&who).is_none());
    assert_eq!(*ears.here(), vec!["geir", "alice"]);
    assert!(ears.hear(&join("kitchen", "bob")).is_none());
    assert!(ears.hear(&[]).is_none());
    assert_eq!(*ears.here(), vec!["geir", "alice"]);
}

#[test]
fn sound_is_played_in_the_order_it_came() {
    let mut ears = Listener::new("x");
    let geir = String::from("geir");
    assert_eq!(ears.last_in(), None);
    ears.decoded(&geir, 50, vec![1; FRAME], 7);
    ears.decoded(&geir, 60, vec![-2; FRAME], 9);
    assert_eq!(ears.last_in(), Some(9));
    assert_eq!(ears.recv_bytes(), 110);
    assert_eq!(ears.recv_frames(), 2);
    assert_eq!(ears.energy_of(&geir), energy(&vec![-2; FRAME]));
    assert_eq!(ears.energy_of(&String::from("alice")), 0);
    assert_eq!(ears.play(), to_bytes(&vec![1; FRAME]));
    assert_eq!(ears.play(), to_bytes(&vec![-2; FRAME]));
    assert_eq!(ears.play(), vec![0; 2 * FRAME], "silence when there is nothing waiting");
}

#[test]
fn a_queue_that_grows_is_a_queue_nobody_is_listening_to() {
    let mut ears = Listener::new("x");
    let geir = String::from("geir");
    for i in 0..20i16 {
        ears.decoded(&geir, 1, vec![i + 1; FRAME], 1);
    }
    assert_eq!(ears.recv_frames(), 20);
    for i in 0..QUEUE_MAX as i16 {
        assert_eq!(ears.play(), to_bytes(&vec![i + 1; FRAME]));
    }
    assert_eq!(ears.play(), vec![0; 2 * FRAME]);
}

#[test]
fn the_speaker_is_fed_in_time() {
    assert_eq!(STEP, 1_000_000_000 * FRAME as u64 / RATE as u64);
    let mut pace = Pace::new(1000);
    assert_eq!(pace.tick(1500), STEP - 500);
    assert_eq!(pace.tick(1000 + STEP), STEP);
    // Late, and the time lost is not made up.
    assert_eq!(pace.tick(1000 + 5 * STEP), 0);
    assert_eq!(pace.tick(1000 + 5 * STEP), STEP);
    // Just in time is no wait either.
    assert_eq!(pace.tick(1000 + 7 * STEP), 0);
}
