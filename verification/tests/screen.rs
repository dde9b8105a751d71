use hush::audio::{energy, FRAME};
use hush::hear::Listener;
use hush::net::{fixed, NAME_MAX, WHO};
use hush::screen::{
    camera_runs, echo_note, far_ends, gap_width, key, meter, meter_width, mine, others, pressed, right_end, rows, share_line,
    tally_line, theirs, through, Cell, Key, Mood, LIVE_FOR,
};

/// How far a level lights a bar of this width.
fn reach(level: f32, width: usize) -> usize {
    (((level.max(1e-5).log10() + 3.0) / 3.0).clamp(0.0, 1.0) * width as f32) as usize
}

fn drawn(level: f32, floor: f32, open: bool, width: usize) -> Vec<Cell> {
    meter(reach(level, width), reach(floor * 2.6, width), open, width)
}

fn lit(cells: &[Cell]) -> usize {
    cells.iter().filter(|c| **c == Cell::Live || **c == Cell::Idle).count()
}

#[test]
fn the_meter_is_as_wide_as_it_is_asked_to_be() {
    let bar = drawn(0.05, 0.002, true, 20);
    let blocks = bar.len();
    assert_eq!(blocks, 20);
}

#[test]
fn a_louder_voice_lights_more_of_the_meter() {
    let soft = lit(&drawn(0.002, 0.001, true, 30));
    let loud = lit(&drawn(0.2, 0.001, true, 30));
    assert!(loud > soft, "a shout lights more of the bar than a whisper");
}

#[test]
fn the_mark_stands_on_the_bar() {
    assert_eq!(
        meter(3, 1, true, 5),
        vec![Cell::Live, Cell::Mark, Cell::Live, Cell::Dark, Cell::Dark]
    );
    assert_eq!(meter(1, 2, false, 3), vec![Cell::Idle, Cell::Dark, Cell::Mark]);
    assert_eq!(meter(9, 9, true, 2), vec![Cell::Live, Cell::Live]);
    assert!(meter(1, 1, true, 0).is_empty());
}

#[test]
fn the_meter_takes_what_the_names_leave() {
    assert_eq!(meter_width(0), 10);
    assert_eq!(meter_width(44), 10);
    assert_eq!(meter_width(45), 11);
    assert_eq!(meter_width(80), 46);
    assert_eq!(meter_width(94), 60);
    assert_eq!(meter_width(95), 60);
    assert_eq!(meter_width(u16::MAX), 60);
}

#[test]
fn the_gap_fills_the_line() {
    assert_eq!(gap_width(80, 30, 20), 30);
    assert_eq!(gap_width(40, 30, 20), 0);
    assert_eq!(gap_width(40, usize::MAX, usize::MAX), 0);
}

#[test]
fn everyone_but_you_is_another() {
    let here: Vec<String> = ["geir", "alice", "geir", "bob"].map(String::from).to_vec();
    assert_eq!(others(&here, "geir"), vec!["alice", "bob"]);
    assert_eq!(others(&here, "x"), here);
    assert!(others(&Vec::new(), "x").is_empty());
}

#[test]
fn each_end_is_doing_one_thing() {
    assert_eq!(mine(true, true).word(), "muted");
    assert_eq!(mine(true, false).word(), "muted");
    assert_eq!(mine(false, true).word(), "sending");
    assert_eq!(mine(false, false).word(), "quiet");
    assert_eq!(theirs(None, 5), Mood::Quiet);
    assert_eq!(theirs(Some(10), 10 + LIVE_FOR - 1).word(), "speaking");
    assert_eq!(theirs(Some(10), 10 + LIVE_FOR), Mood::Quiet);
    assert_eq!(theirs(Some(10), 5), Mood::Speaking);
}

#[test]
fn the_rows_follow_the_others() {
    let r = rows(0);
    assert_eq!((r.you, r.others, r.tally, r.share), (3, 5, 7, 8));
    let r = rows(1);
    assert_eq!((r.you, r.others, r.tally, r.share), (3, 5, 7, 8));
    let r = rows(3);
    assert_eq!((r.you, r.others, r.tally, r.share), (3, 5, 9, 10));
}

#[test]
fn the_others_stand_one_to_a_row() {
    let mut ears = Listener::new("geir");
    assert!(far_ends(&ears, "geir", 0).is_empty());
    let mut who = vec![WHO];
    for name in ["alice", "geir", "bob"] {
        who.extend(fixed(name, NAME_MAX));
    }
    ears.hear(&who);
    ears.decoded(&String::from("bob"), 40, vec![3; FRAME], 1000);
    let live = far_ends(&ears, "geir", 1000);
    let shown: Vec<_> = live.iter().map(|l| (l.row, l.name.as_str(), l.energy, l.mood)).collect();
    let loud = energy(&vec![3; FRAME]);
    assert_eq!(shown, vec![(5, "alice", 0, Mood::Speaking), (6, "bob", loud, Mood::Speaking)]);
    let later = far_ends(&ears, "geir", 1000 + LIVE_FOR);
    let shown: Vec<_> = later.iter().map(|l| (l.row, l.name.as_str(), l.energy, l.mood)).collect();
    assert_eq!(shown, vec![(5, "alice", 0, Mood::Quiet), (6, "bob", 0, Mood::Quiet)]);
}

#[test]
fn the_words_on_the_screen() {
    assert_eq!(
        tally_line(2048, "1.0 kB/s", 900, "450 B/s", 0, 7),
        "sent 2.0 kB  (1.0 kB/s)      received 900 B  (450 B/s)"
    );
    assert_eq!(
        tally_line(0, "0 B/s", 0, "0 B/s", 3, 7),
        "sent 0 B  (0 B/s)      received 0 B  (0 B/s)      3 frames lost of 10"
    );
    assert_eq!(share_line("41"), "the line carried your voice 41% of the time");
    assert_eq!(right_end("geir", 65), "geir  01:05 ");
    assert_eq!(through("host:7777"), "through host:7777");
    assert_eq!(echo_note(true), "echo cancelled");
    assert_eq!(echo_note(false), "no echo cancelling · wear headphones");
}

#[test]
fn a_key_mutes_hangs_up_or_stops_the_camera() {
    assert_eq!(pressed(Key::Mute, false), (true, false));
    assert_eq!(pressed(Key::Mute, true), (false, false));
    assert_eq!(pressed(Key::HangUp, true), (true, true));
    assert_eq!(pressed(Key::Camera, true), (true, false));
    assert_eq!(pressed(Key::Nothing, false), (false, false));
    assert!(!camera_runs(Key::Camera, true, true));
    assert!(camera_runs(Key::Camera, true, false));
    assert!(camera_runs(Key::Mute, true, true));
    assert!(!camera_runs(Key::Camera, false, false), "no camera runs unless asked for");
}

#[test]
fn three_keys_and_escape_do_something() {
    assert_eq!(key("q"), Key::HangUp);
    assert_eq!(key("ESC"), Key::HangUp);
    assert_eq!(key("m"), Key::Mute);
    assert_eq!(key("v"), Key::Camera);
    assert_eq!(key("M"), Key::Nothing);
    assert_eq!(key(""), Key::Nothing);
}
