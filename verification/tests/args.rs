use hush::args::{command, port, relay_command, Command, Options, RelayCommand, PORT};

fn asked(line: &str) -> Command {
    let args: Vec<String> = line.split_whitespace().map(String::from).collect();
    command(&args, "home:1".to_string(), "me".to_string())
}

fn call(line: &str) -> Options {
    match asked(line) {
        Command::Call(o) => o,
        _ => panic!("no call: {line}"),
    }
}

#[test]
fn a_room_is_all_a_call_needs() {
    let o = call("kitchen");
    assert_eq!(o.room, "kitchen");
    assert_eq!(o.server, "home:1");
    assert_eq!(o.name, "me");
    assert_eq!(o.mic, "default");
    assert_eq!(o.out, "default");
    assert_eq!(o.relay_port, 0);
    assert!(o.want_aec);
}

#[test]
fn a_name_and_a_relay_can_be_given() {
    let o = call("kitchen -n Geir -s host:2");
    assert_eq!((o.name.as_str(), o.server.as_str()), ("Geir", "host:2"));
    let o = call("--server host:3 --name Bob kitchen");
    assert_eq!((o.name.as_str(), o.server.as_str()), ("Bob", "host:3"));
    // With nothing after it an option changes nothing.
    let o = call("kitchen -n");
    assert_eq!(o.name, "me");
    let o = call("kitchen -s");
    assert_eq!(o.server, "home:1");
    // The last room counts.
    assert_eq!(call("kitchen office").room, "office");
}

#[test]
fn naming_a_device_leaves_the_echo_canceller_out() {
    let o = call("kitchen --mic hw:1");
    assert_eq!((o.mic.as_str(), o.want_aec), ("hw:1", false));
    let o = call("kitchen --out hw:2");
    assert_eq!((o.out.as_str(), o.want_aec), ("hw:2", false));
    let o = call("kitchen --mic");
    assert_eq!((o.mic.as_str(), o.want_aec), ("default", false));
    let o = call("kitchen --no-aec");
    assert_eq!((o.mic.as_str(), o.out.as_str(), o.want_aec), ("default", "default", false));
}

#[test]
fn a_picture_comes_from_a_camera() {
    assert_eq!(call("kitchen").video, None);
    assert_eq!(call("kitchen --video").video.as_deref(), Some("/dev/video0"));
    assert_eq!(call("kitchen --video /dev/video2").video.as_deref(), Some("/dev/video2"));
    assert_eq!(call("kitchen --video test").video.as_deref(), Some("test"));
    let o = call("--video kitchen -n Geir");
    assert_eq!((o.room.as_str(), o.video.as_deref()), ("kitchen", Some("/dev/video0")));
    assert_eq!(call("--video --no-aec kitchen").want_aec, false);
}

#[test]
fn a_relay_can_be_asked_for() {
    assert!(matches!(asked("--relay"), Command::Relay(7777)));
    assert!(matches!(asked("--relay 9000"), Command::Relay(9000)));
    assert!(matches!(asked("--relay kitchen"), Command::Relay(7777)));
    assert!(matches!(asked("kitchen --relay 65536"), Command::Relay(7777)));
    // Nought is not to be one.
    assert!(matches!(asked("--relay 0"), Command::NoRoom));
    assert!(matches!(asked("kitchen --relay 0"), Command::Call(_)));
}

#[test]
fn help_and_the_version_come_first() {
    for line in ["-h", "--help", "kitchen -h", "--relay 1 --help"] {
        assert!(matches!(asked(line), Command::Help));
    }
    for line in ["-v", "--version", "kitchen -v -h"] {
        assert!(matches!(asked(line), Command::Version));
    }
    // What follows an option is its own.
    assert_eq!(call("kitchen -n -h").name, "-h");
}

#[test]
fn a_call_needs_a_room_and_a_relay() {
    assert!(matches!(asked(""), Command::NoRoom));
    assert!(matches!(asked("-n geir"), Command::NoRoom));
    let room = vec!["kitchen".to_string()];
    let c = command(&room, String::new(), "me".to_string());
    assert!(matches!(c, Command::NoServer));
    let c = command(&Vec::new(), String::new(), "me".to_string());
    assert!(matches!(c, Command::NoRoom));
}

#[test]
fn a_port_is_what_std_takes_for_one() {
    for text in [
        "0", "7777", "65535", "65536", "99999999999999999999", "+1", "+", "-1", "", " 1", "1 ",
        "00080", "0x10", "1_000", "++1", "٣", "1a", "+65535", "+65536",
    ] {
        assert_eq!(port(text), text.parse::<u16>().ok(), "{text}");
    }
    for n in 0..=70_000u32 {
        let text = n.to_string();
        assert_eq!(port(&text), text.parse::<u16>().ok());
    }
}

#[test]
fn the_relay_is_asked_for_a_port() {
    let serve = |line: &str| {
        let args: Vec<String> = line.split_whitespace().map(String::from).collect();
        relay_command(&args)
    };
    assert!(matches!(serve("hush-relay"), RelayCommand::Serve(PORT)));
    assert!(matches!(serve("hush-relay 9000"), RelayCommand::Serve(9000)));
    assert!(matches!(serve("hush-relay 9000 x 9001"), RelayCommand::Serve(9001)));
    assert!(matches!(serve("9000"), RelayCommand::Serve(PORT)));
    assert!(matches!(serve("hush-relay 9000 -h"), RelayCommand::Help));
    assert!(matches!(serve("hush-relay --help -v"), RelayCommand::Help));
    assert!(matches!(serve("hush-relay -v"), RelayCommand::Version));
    assert!(matches!(serve("hush-relay --version 1"), RelayCommand::Version));
    assert!(matches!(serve(""), RelayCommand::Serve(7777)));
}
