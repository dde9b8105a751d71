use hush::net::{
    audio, fixed, join, leave, parse, ping, unfixed, In, AUDIO, AUDIO_HEAD, HEAD, JOIN, LEAVE,
    NAME_MAX, PING, ROOM_LEN, WHO,
};

#[test]
fn a_name_survives_the_round_trip() {
    assert_eq!(unfixed(&fixed("geir", NAME_MAX)), "geir");
    assert_eq!(fixed("geir", NAME_MAX).len(), NAME_MAX);
    let long = "a".repeat(40);
    assert_eq!(
        unfixed(&fixed(&long, NAME_MAX)).len(),
        NAME_MAX,
        "a long name is cut, not refused"
    );
}

#[test]
fn a_frame_of_speech_reads_back_as_it_was_sent() {
    let p = audio("kitchen", "geir", 77, &[9, 8, 7]);
    match parse(&p) {
        In::Speech { from, seq, opus } => {
            assert_eq!(from, "geir");
            assert_eq!(seq, 77);
            assert_eq!(opus, vec![9, 8, 7]);
        }
        _ => panic!("a frame of speech came back as something else"),
    }
}

#[test]
fn the_room_list_reads_back() {
    let mut who = vec![WHO];
    who.extend(fixed("geir", NAME_MAX));
    who.extend(fixed("alice", NAME_MAX));
    match parse(&who) {
        In::Who(names) => assert_eq!(names, vec!["geir", "alice"]),
        _ => panic!("the room list came back as something else"),
    }
}

#[test]
fn rubbish_is_ignored_rather_than_believed() {
    assert!(matches!(parse(&[]), In::Other));
    assert!(matches!(parse(&[AUDIO]), In::Other), "a packet too short to hold a frame");
    assert!(matches!(parse(&[200, 1, 2]), In::Other), "a kind nobody sends");
}

#[test]
fn a_field_holds_the_text_and_then_zeros() {
    assert_eq!(fixed("abc", 5), vec![97, 98, 99, 0, 0]);
    assert_eq!(fixed("abcdef", 3), vec![97, 98, 99]);
    assert_eq!(fixed("", 2), vec![0, 0]);
    assert_eq!(fixed("abc", 0), Vec::<u8>::new());
    assert_eq!(fixed("é", 4), vec![0xc3, 0xa9, 0, 0]);
}

#[test]
fn zeros_at_the_end_are_no_part_of_a_text() {
    assert_eq!(unfixed(&[0, 0, 0]), "");
    assert_eq!(unfixed(&[]), "");
    assert_eq!(unfixed(&[97, 0, 98, 0, 0]), "a\0b");
    assert_eq!(unfixed(&[0, 97]), "\0a");
}

#[test]
fn bytes_that_are_no_text_are_patched() {
    assert_eq!(unfixed(&[97, 0xff, 98, 0]), "a\u{FFFD}b");
    // A cut in the middle of a letter.
    assert_eq!(unfixed(&fixed("aé", 2)), "a\u{FFFD}");
}

#[test]
fn a_text_is_cut_between_letters_without_a_patch() {
    assert_eq!(unfixed(&fixed("éa", 2)), "é");
    assert_eq!(unfixed(&fixed("kitchen-table", ROOM_LEN)), "kitchen-tabl");
}

#[test]
fn wherever_a_text_is_cut_something_is_left() {
    for text in ["a", "é", "€uro", "😀", "a\0"] {
        for n in 1..8 {
            assert!(!unfixed(&fixed(text, n)).is_empty(), "{text} in {n}");
        }
    }
    assert_eq!(unfixed(&fixed("\0", 3)), "");
}

#[test]
fn the_three_short_packets_differ_in_their_kind_alone() {
    let packets = [join("kitchen", "geir"), leave("kitchen", "geir"), ping("kitchen", "geir")];
    let kinds = [JOIN, LEAVE, PING];
    for (p, kind) in packets.iter().zip(kinds) {
        assert_eq!(p.len(), HEAD);
        assert_eq!(p[0], kind);
        assert_eq!(&p[1..1 + ROOM_LEN], &fixed("kitchen", ROOM_LEN)[..]);
        assert_eq!(&p[1 + ROOM_LEN..], &fixed("geir", NAME_MAX)[..]);
        assert!(matches!(parse(p), In::Other));
    }
    assert_eq!([JOIN, LEAVE, AUDIO, PING, WHO], [1, 2, 3, 4, 5]);
    assert_eq!(ping("kitchen", "geir").len(), 33);
}

#[test]
fn speech_is_a_header_a_count_and_the_sound() {
    let p = audio("r", "n", 0x0403_0201, &[5, 6]);
    let mut want = vec![AUDIO];
    want.extend(fixed("r", ROOM_LEN));
    want.extend(fixed("n", NAME_MAX));
    want.extend([1, 2, 3, 4, 5, 6]);
    assert_eq!(p, want);
}

#[test]
fn the_greatest_count_reads_back() {
    match parse(&audio("r", "n", u32::MAX, &[1])) {
        In::Speech { seq, .. } => assert_eq!(seq, u32::MAX),
        _ => panic!("a frame of speech came back as something else"),
    }
}

#[test]
fn a_frame_without_sound_is_ignored() {
    let p = audio("kitchen", "geir", 1, &[]);
    assert_eq!(p.len(), AUDIO_HEAD);
    assert!(matches!(parse(&p), In::Other));
}

#[test]
fn empty_names_and_half_fields_are_left_out_of_a_room_list() {
    let mut who = vec![WHO];
    who.extend(fixed("geir", NAME_MAX));
    who.extend(fixed("", NAME_MAX));
    who.extend(fixed("alice", NAME_MAX));
    who.extend(fixed("half", NAME_MAX - 1));
    match parse(&who) {
        In::Who(names) => assert_eq!(names, vec!["geir", "alice"]),
        _ => panic!("the room list came back as something else"),
    }
    match parse(&[WHO]) {
        In::Who(names) => assert!(names.is_empty()),
        _ => panic!("the room list came back as something else"),
    }
}
