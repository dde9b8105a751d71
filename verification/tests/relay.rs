use hush::net::{audio, fixed, join, leave, parse, ping, In, NAME_MAX, ROOM_LEN};
use hush::relay::{Addr, Note, Outcome, Relay};

const SECOND: u64 = 1_000_000_000;

fn at(port: u16) -> Addr {
    Addr { ip: 0x0a00_0001, port }
}

fn names(out: &Outcome) -> Vec<String> {
    match parse(&out.bytes) {
        In::Who(names) => names,
        _ => panic!("no room list"),
    }
}

fn lines(out: &Outcome) -> Vec<String> {
    out.notes.iter().map(|n| n.line()).collect()
}

#[test]
fn everyone_is_told_who_is_here() {
    let mut r = Relay::new();
    let out = r.packet(&join("kitchen", "geir"), at(1), 1);
    assert_eq!(names(&out), vec!["geir"]);
    assert_eq!(out.to, vec![at(1)]);
    assert_eq!(lines(&out), vec!["kitchen: geir joined (1 here)"]);
    let out = r.packet(&join("kitchen", "alice"), at(2), 2);
    assert_eq!(names(&out), vec!["geir", "alice"]);
    assert_eq!(out.to, vec![at(1), at(2)]);
    assert_eq!(lines(&out), vec!["kitchen: alice joined (2 here)"]);
}

#[test]
fn sound_goes_to_the_others_as_it_came() {
    let mut r = Relay::new();
    r.packet(&join("kitchen", "geir"), at(1), 1);
    r.packet(&join("kitchen", "alice"), at(2), 1);
    r.packet(&join("kitchen", "bob"), at(3), 1);
    let p = audio("kitchen", "alice", 5, &[1, 2, 3]);
    let out = r.packet(&p, at(2), 2);
    assert_eq!(out.bytes, p);
    assert_eq!(out.to, vec![at(1), at(3)]);
    assert!(out.notes.is_empty());
}

#[test]
fn a_talker_never_has_to_announce_itself() {
    let mut r = Relay::new();
    r.packet(&join("kitchen", "geir"), at(1), 1);
    let out = r.packet(&audio("kitchen", "alice", 0, &[1]), at(2), 2);
    assert_eq!(out.to, vec![at(1)]);
    assert_eq!(lines(&out), vec!["kitchen: alice joined (2 here)"]);
    assert_eq!(names(&r.packet(&ping("kitchen", "geir"), at(1), 3)), vec!["geir", "alice"]);
}

#[test]
fn nobody_is_here_twice() {
    let mut r = Relay::new();
    r.packet(&join("kitchen", "geir"), at(1), 1);
    let out = r.packet(&ping("kitchen", "bob"), at(1), 2);
    assert_eq!(names(&out), vec!["bob"], "the same address under its latest name");
    assert!(out.notes.is_empty());
    // The same port elsewhere is someone else.
    let out = r.packet(&join("kitchen", "bob"), Addr { ip: 7, port: 1 }, 3);
    assert_eq!(names(&out), vec!["bob", "bob"]);
}

#[test]
fn who_leaves_is_gone_at_once() {
    let mut r = Relay::new();
    r.packet(&join("kitchen", "geir"), at(1), 1);
    r.packet(&join("kitchen", "alice"), at(2), 1);
    let out = r.packet(&leave("kitchen", "geir"), at(1), 2);
    assert_eq!(names(&out), vec!["alice"]);
    assert_eq!(out.to, vec![at(2)]);
    assert!(out.notes.is_empty());
    let out = r.packet(&leave("kitchen", "alice"), at(2), 2);
    assert!(names(&out).is_empty());
    assert!(out.to.is_empty());
}

#[test]
fn rooms_are_apart() {
    let mut r = Relay::new();
    r.packet(&join("kitchen", "geir"), at(1), 1);
    r.packet(&join("office", "alice"), at(2), 1);
    let out = r.packet(&audio("kitchen", "geir", 0, &[1]), at(1), 2);
    assert!(out.to.is_empty());
    let out = r.packet(&ping("office", "alice"), at(2), 3);
    assert_eq!(names(&out), vec!["alice"]);
    assert_eq!(out.to, vec![at(2)]);
}

#[test]
fn nothing_said_is_kept() {
    let mut one = Relay::new();
    let mut other = Relay::new();
    one.packet(&audio("kitchen", "geir", 0, &[1, 2, 3]), at(1), 1);
    other.packet(&audio("kitchen", "geir", 9, &[]), at(1), 1);
    let a = one.packet(&ping("kitchen", "alice"), at(2), 2);
    let b = other.packet(&ping("kitchen", "alice"), at(2), 2);
    assert_eq!((a.bytes, a.to), (b.bytes, b.to));
}

#[test]
fn a_room_name_too_long_is_cut_for_everyone() {
    let mut r = Relay::new();
    r.packet(&join("kitchen-table", "geir"), at(1), 1);
    let out = r.packet(&join("kitchen-tablet", "alice"), at(2), 1);
    assert_eq!(names(&out), vec!["geir", "alice"]);
}

#[test]
fn a_packet_that_names_no_room_is_as_if_it_had_never_come() {
    let mut r = Relay::new();
    r.packet(&join("kitchen", "geir"), at(1), 1);
    for p in [vec![], vec![1], join("kitchen", "x")[..32].to_vec(), join("", "x"), join("\0", "x")] {
        let out = r.packet(&p, at(9), 2);
        assert!(out.bytes.is_empty() && out.to.is_empty() && out.notes.is_empty());
    }
    assert_eq!(names(&r.packet(&ping("kitchen", "geir"), at(1), 3)), vec!["geir"]);
}

#[test]
fn an_unknown_kind_counts_as_being_here() {
    let mut r = Relay::new();
    let mut p = vec![99];
    p.extend(fixed("kitchen", ROOM_LEN));
    p.extend(fixed("geir", NAME_MAX));
    p.extend([1, 2, 3]);
    let out = r.packet(&p, at(1), 1);
    assert_eq!(names(&out), vec!["geir"]);
    assert_eq!(out.to, vec![at(1)]);
}

#[test]
fn who_is_silent_for_half_a_minute_has_gone() {
    let mut r = Relay::new();
    r.packet(&join("kitchen", "geir"), at(1), SECOND);
    r.packet(&join("kitchen", "alice"), at(2), SECOND);
    r.packet(&join("office", "bob"), at(3), SECOND);
    let out = r.packet(&ping("kitchen", "alice"), at(2), 31 * SECOND - 1);
    assert_eq!(names(&out), vec!["geir", "alice"]);
    assert!(out.notes.is_empty(), "not quite half a minute");
    let out = r.packet(&ping("kitchen", "alice"), at(2), 31 * SECOND);
    assert_eq!(names(&out), vec!["alice"]);
    assert_eq!(out.to, vec![at(2)]);
    let mut told = lines(&out);
    told.sort();
    assert_eq!(told, vec!["kitchen: 1 left (1 here)", "office: 1 left (0 here)"]);
    let out = r.packet(&ping("kitchen", "alice"), at(2), 37 * SECOND);
    assert_eq!(names(&out), vec!["alice"]);
    assert!(out.notes.is_empty());
    // Whoever comes back is new.
    let out = r.packet(&ping("office", "bob"), at(3), 38 * SECOND);
    assert_eq!(lines(&out), vec!["office: bob joined (1 here)"]);
}

#[test]
fn no_sound_goes_to_whoever_has_gone() {
    let mut r = Relay::new();
    r.packet(&join("kitchen", "geir"), at(1), 0);
    r.packet(&join("kitchen", "alice"), at(2), 20 * SECOND);
    let out = r.packet(&audio("kitchen", "bob", 0, &[1]), at(3), 31 * SECOND);
    assert_eq!(out.to, vec![at(2)]);
    assert_eq!(
        lines(&out),
        vec!["kitchen: bob joined (2 here)", "kitchen: 1 left (2 here)"]
    );
}

#[test]
fn nobody_is_held_while_no_packet_comes() {
    let mut r = Relay::new();
    assert_eq!(r.next_gone(), None);
    r.packet(&join("kitchen", "geir"), at(1), 2 * SECOND);
    r.packet(&join("office", "bob"), at(2), 5 * SECOND);
    assert_eq!(r.next_gone(), Some(32 * SECOND));
    assert!(r.sweep(32 * SECOND - 1).is_empty());
    let told: Vec<String> = r.sweep(32 * SECOND).iter().map(|n| n.line()).collect();
    assert_eq!(told, vec!["kitchen: 1 left (0 here)"]);
    assert_eq!(r.next_gone(), Some(35 * SECOND));
    assert_eq!(r.sweep(40 * SECOND).len(), 1);
    assert_eq!(r.next_gone(), None);
}

#[test]
fn the_lines_that_are_told() {
    let joined = Note::Joined { room: "k".into(), name: "geir".into(), here: 12 };
    assert_eq!(joined.line(), "k: geir joined (12 here)");
    let left = Note::Left { room: "k".into(), gone: 3, here: 0 };
    assert_eq!(left.line(), "k: 3 left (0 here)");
}
