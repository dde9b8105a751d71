//! What the command line asks for.

use vstd::prelude::*;
use vstd::string::*;

use crate::text::chars_of;

verus! {

/// The port a relay listens on when it is not told another.
pub const PORT: u16 = 7777;

// ---------------------------------------------------------------------
// A port number
// ---------------------------------------------------------------------
/// The value of a row of figures.
pub open spec fn value_of(figures: Seq<char>) -> nat
    decreases figures.len(),
{
    if figures.len() == 0 {
        0
    } else {
        10 * value_of(figures.drop_last()) + (figures.last() as nat - 48) as nat
    }
}

/// Whether a text is a row of figures.
pub open spec fn all_figures(t: Seq<char>) -> bool {
    t.len() > 0 && forall|i: int| 0 <= i < t.len() ==> '0' <= #[trigger] t[i] <= '9'
}

/// A text without the plus sign it may start with.
pub open spec fn unsigned(t: Seq<char>) -> Seq<char> {
    if t.len() > 0 && t[0] == '+' {
        t.drop_first()
    } else {
        t
    }
}

/// The port that a text names: figures, perhaps after a plus sign, of a value
/// that a port can have.
pub open spec fn port_of(t: Seq<char>) -> Option<u16> {
    let figures = unsigned(t);
    if all_figures(figures) && value_of(figures) <= u16::MAX {
        Some(value_of(figures) as u16)
    } else {
        None
    }
}

/// The port that a text names, if it names one.
pub fn port(text: &str) -> (p: Option<u16>)
    ensures
        p == port_of(text@),
{
    let chars = chars_of(text);
    let ghost figures = unsigned(text@);
    let start: usize = if chars.len() > 0 && chars[0] == '+' {
        1
    } else {
        0
    };
    assert(figures == text@.skip(start as int));
    if start == chars.len() {
        return None;
    }
    // Past the greatest port the value only has to stay too great.
    let mut value: u32 = 0;
    let mut i: usize = start;
    while i < chars.len()
        invariant
            chars@ == text@,
            start <= i <= chars@.len(),
            figures == unsigned(text@),
            figures == text@.skip(start as int),
            forall|k: int| 0 <= k < i - start ==> '0' <= #[trigger] figures[k] <= '9',
            value <= 65536,
            value < 65536 ==> value == value_of(figures.take(i - start)),
            value == 65536 ==> value_of(figures.take(i - start)) >= 65536,
        decreases chars@.len() - i,
    {
        let c = chars[i];
        assert(figures[i - start] == c);
        if c < '0' || c > '9' {
            return None;
        }
        proof {
            assert(figures.take(i + 1 - start).drop_last() == figures.take(i - start));
            assert(figures.take(i + 1 - start).last() == c);
        }
        let more: u32 = value * 10 + (c as u32 - 48);
        value = if more < 65536 {
            more
        } else {
            65536
        };
        i = i + 1;
    }
    assert(figures.take(i - start) == figures);
    if value < 65536 {
        Some(value as u16)
    } else {
        None
    }
}

/// A number written in figures stands for that number: nothing but figures,
/// and no nought in front but for nought itself.
pub proof fn law_figures_stand_for_their_number(n: nat)
    ensures
        all_figures(crate::text::decimal_text(n)),
        value_of(crate::text::decimal_text(n)) == n,
        n > 0 ==> crate::text::decimal_text(n)[0] != '0',
        n == 0 ==> crate::text::decimal_text(n).len() == 1,
    decreases n,
{
    let t = crate::text::decimal_text(n);
    if n < 10 {
        assert(t.drop_last() == Seq::<char>::empty());
        assert(value_of(t.drop_last()) == 0);
    } else {
        let front = crate::text::decimal_text(n / 10);
        law_figures_stand_for_their_number(n / 10);
        assert(t.drop_last() == front);
        assert(t[0] == front[0]);
        assert forall|i: int| 0 <= i < t.len() implies '0' <= #[trigger] t[i] <= '9' by {
            if i < front.len() {
                assert(t[i] == front[i]);
            }
        }
    }
}

// ---------------------------------------------------------------------
// The caller
// ---------------------------------------------------------------------
/// How a call is to be made.
pub struct Options {
    /// The port to be a relay on. Nought is not to be one.
    pub relay_port: u16,
    /// Whose relay to go through.
    pub server: String,
    pub room: String,
    pub name: String,
    pub mic: String,
    pub out: String,
    /// The echo canceller is wanted unless a device is named by hand, since
    /// naming one says which microphone to use, and the canceller's is a
    /// different one.
    pub want_aec: bool,
    /// Where the picture comes from, if there is to be one.
    pub video: Option<String>,
}

/// What some [`Options`] say.
pub struct Wishes {
    pub relay_port: u16,
    pub server: Seq<char>,
    pub room: Seq<char>,
    pub name: Seq<char>,
    pub mic: Seq<char>,
    pub out: Seq<char>,
    pub want_aec: bool,
    pub video: Option<Seq<char>>,
}

impl View for Options {
    type V = Wishes;

    open spec fn view(&self) -> Wishes {
        Wishes {
            relay_port: self.relay_port,
            server: self.server@,
            room: self.room@,
            name: self.name@,
            mic: self.mic@,
            out: self.out@,
            want_aec: self.want_aec,
            video: match self.video {
                Some(source) => Some(source@),
                None => None,
            },
        }
    }
}

/// What to do.
pub enum Command {
    Help,
    Version,
    /// Be the relay on this port.
    Relay(u16),
    /// There is no room to join.
    NoRoom,
    /// There is no relay to go through.
    NoServer,
    Call(Options),
}

/// What a [`Command`] means.
pub enum Plan {
    Help,
    Version,
    Relay(u16),
    NoRoom,
    NoServer,
    Call(Wishes),
}

impl View for Command {
    type V = Plan;

    open spec fn view(&self) -> Plan {
        match self {
            Command::Help => Plan::Help,
            Command::Version => Plan::Version,
            Command::Relay(port) => Plan::Relay(*port),
            Command::NoRoom => Plan::NoRoom,
            Command::NoServer => Plan::NoServer,
            Command::Call(options) => Plan::Call(options@),
        }
    }
}

/// The word at `i`, or what there is without one.
pub open spec fn word_or(words: Seq<Seq<char>>, i: int, without: Seq<char>) -> Seq<char> {
    if i < words.len() {
        words[i]
    } else {
        without
    }
}

/// The port at `i`, or the usual one.
pub open spec fn port_or_usual(words: Seq<Seq<char>>, i: int) -> u16 {
    if i < words.len() {
        match port_of(words[i]) {
            Some(port) => port,
            None => PORT,
        }
    } else {
        PORT
    }
}

/// Whether a word is one of two.
pub open spec fn either(word: Seq<char>, short: Seq<char>, long: Seq<char>) -> bool {
    word == short || word == long
}

/// What to do about some wishes. Being a relay comes before any call.
pub open spec fn settled(w: Wishes) -> Plan {
    if w.relay_port != 0 {
        Plan::Relay(w.relay_port)
    } else if w.room.len() == 0 {
        Plan::NoRoom
    } else if w.server.len() == 0 {
        Plan::NoServer
    } else {
        Plan::Call(w)
    }
}

/// Whether a word says where a picture comes from: a device path, or the word
/// for a made-up one.
pub open spec fn is_source(word: Seq<char>) -> bool {
    word == "test"@ || (word.len() > 0 && word[0] == '/')
}

/// What the word at `i` asks for, on top of what was asked before it, and
/// where the next one is. A word that takes another has it whatever it is,
/// but for the one that asks for a picture, which need not be told where from.
/// A word that means nothing else names the room.
pub open spec fn asked(words: Seq<Seq<char>>, i: int, w: Wishes) -> (int, Wishes) {
    if words[i] == "--relay"@ {
        (i + 2, Wishes { relay_port: port_or_usual(words, i + 1), ..w })
    } else if either(words[i], "-s"@, "--server"@) {
        (i + 2, Wishes { server: word_or(words, i + 1, w.server), ..w })
    } else if either(words[i], "-n"@, "--name"@) {
        (i + 2, Wishes { name: word_or(words, i + 1, w.name), ..w })
    } else if words[i] == "--mic"@ {
        (i + 2, Wishes { mic: word_or(words, i + 1, w.mic), want_aec: false, ..w })
    } else if words[i] == "--out"@ {
        (i + 2, Wishes { out: word_or(words, i + 1, w.out), want_aec: false, ..w })
    } else if words[i] == "--no-aec"@ {
        (i + 1, Wishes { want_aec: false, ..w })
    } else if words[i] == "--video"@ {
        if i + 1 < words.len() && is_source(words[i + 1]) {
            (i + 2, Wishes { video: Some(words[i + 1]), ..w })
        } else {
            (i + 1, Wishes { video: Some("/dev/video0"@), ..w })
        }
    } else {
        (i + 1, Wishes { room: words[i], ..w })
    }
}

/// What the words from `i` on ask for, on top of what was asked before them.
/// The last word for a thing counts, but help and the version come first.
pub open spec fn heeded(words: Seq<Seq<char>>, i: int, w: Wishes) -> Plan
    decreases
        if i < words.len() {
            words.len() - i
        } else {
            0
        },
{
    if i >= words.len() {
        settled(w)
    } else if either(words[i], "-v"@, "--version"@) {
        Plan::Version
    } else if either(words[i], "-h"@, "--help"@) {
        Plan::Help
    } else {
        heeded(words, asked(words, i, w).0, asked(words, i, w).1)
    }
}

/// What is asked for before any word is read.
pub open spec fn unasked(server: Seq<char>, name: Seq<char>) -> Wishes {
    Wishes {
        relay_port: 0,
        server,
        room: Seq::empty(),
        name,
        mic: "default"@,
        out: "default"@,
        want_aec: true,
        video: None,
    }
}

fn names_source(word: &String) -> (b: bool)
    ensures
        b == is_source(word@),
{
    let chars = chars_of(word.as_str());
    is(word, "test") || (chars.len() > 0 && chars[0] == '/')
}

fn is(word: &String, this: &str) -> (b: bool)
    ensures
        b == (word@ == this@),
{
    *word == this.to_string()
}

/// What the words after the program's own name ask for, with the relay that
/// the settings file names and the name of whoever is logged in.
pub fn command(args: &Vec<String>, server: String, name: String) -> (c: Command)
    ensures
        c@ == heeded(crate::text::texts(args@), 0, unasked(server@, name@)),
{
    let ghost words = crate::text::texts(args@);
    let ghost start = unasked(server@, name@);
    let mut o = Options {
        relay_port: 0,
        server,
        room: String::new(),
        name,
        mic: "default".to_string(),
        out: "default".to_string(),
        want_aec: true,
        video: None,
    };
    assert(o@.room =~= start.room);
    let mut i: usize = 0;
    while i < args.len()
        invariant
            words == crate::text::texts(args@),
            start == unasked(server@, name@),
            i <= args@.len(),
            heeded(words, i as int, o@) == heeded(words, 0, start),
        decreases args.len() - i,
    {
        let word = &args[i];
        let has_value = i + 1 < args.len();
        let after: usize = if has_value {
            i + 2
        } else {
            i + 1
        };
        let ghost w = o@;
        let ghost at = i as int;
        assert(words[i as int] == word@);
        proof {
            if has_value {
                assert(words[i + 1] == args@[i + 1]@);
            }
        }
        if is(word, "-v") || is(word, "--version") {
            return Command::Version;
        }
        if is(word, "-h") || is(word, "--help") {
            return Command::Help;
        }
        if is(word, "--relay") {
            o.relay_port = if has_value {
                match port(args[i + 1].as_str()) {
                    Some(port) => port,
                    None => PORT,
                }
            } else {
                PORT
            };
            i = after;
        } else if is(word, "-s") || is(word, "--server") {
            if has_value {
                o.server = args[i + 1].clone();
            }
            i = after;
        } else if is(word, "-n") || is(word, "--name") {
            if has_value {
                o.name = args[i + 1].clone();
            }
            i = after;
        } else if is(word, "--mic") {
            if has_value {
                o.mic = args[i + 1].clone();
            }
            o.want_aec = false;
            i = after;
        } else if is(word, "--out") {
            if has_value {
                o.out = args[i + 1].clone();
            }
            o.want_aec = false;
            i = after;
        } else if is(word, "--no-aec") {
            o.want_aec = false;
            i = i + 1;
        } else if is(word, "--video") {
            if has_value && names_source(&args[i + 1]) {
                o.video = Some(args[i + 1].clone());
                i = i + 2;
            } else {
                o.video = Some("/dev/video0".to_string());
                i = i + 1;
            }
        } else {
            o.room = word.clone();
            i = i + 1;
        }
        proof {
            let next = asked(words, at, w);
            assert(o@ == next.1);
            assert(i == next.0 || (i == words.len() && next.0 > i));
            assert(heeded(words, i as int, o@) == heeded(words, next.0, next.1));
        }
    }
    if o.relay_port != 0 {
        Command::Relay(o.relay_port)
    } else if o.room.as_str().is_empty() {
        Command::NoRoom
    } else if o.server.as_str().is_empty() {
        Command::NoServer
    } else {
        Command::Call(o)
    }
}

/// Whatever is asked for, a call has a room to join and a relay to go
/// through.
pub proof fn law_a_call_has_a_room_and_a_relay(words: Seq<Seq<char>>, i: int, w: Wishes)
    requires
        0 <= i,
    ensures
        heeded(words, i, w) matches Plan::Call(wishes) ==> wishes.room.len() > 0
            && wishes.server.len() > 0 && wishes.relay_port == 0,
    decreases
        if i < words.len() {
            words.len() - i
        } else {
            0
        },
{
    if i < words.len() {
        let next = asked(words, i, w);
        law_a_call_has_a_room_and_a_relay(words, next.0, next.1);
    }
}

proof fn lemma_left_out_for_good(words: Seq<Seq<char>>, i: int, w: Wishes)
    requires
        0 <= i,
        !w.want_aec,
    ensures
        heeded(words, i, w) matches Plan::Call(wishes) ==> !wishes.want_aec,
    decreases
        if i < words.len() {
            words.len() - i
        } else {
            0
        },
{
    if i < words.len() {
        let next = asked(words, i, w);
        lemma_left_out_for_good(words, next.0, next.1);
    }
}

/// The echo canceller is left out when a word says so, and when a device is
/// named by hand, whatever comes after.
pub proof fn law_naming_a_device_leaves_the_canceller_out(
    words: Seq<Seq<char>>,
    i: int,
    w: Wishes,
)
    requires
        0 <= i < words.len(),
        words[i] == "--no-aec"@ || words[i] == "--mic"@ || words[i] == "--out"@,
    ensures
        heeded(words, i, w) matches Plan::Call(wishes) ==> !wishes.want_aec,
{
    law_each_word_changes_one_thing(words, i, w);
    let next = asked(words, i, w);
    assert(!next.1.want_aec);
    lemma_left_out_for_good(words, next.0, next.1);
}

/// Each word changes only what it is about. The word that names a thing sets it
/// to the word after it, where there is one, and no other word does; a picture
/// comes from the word after its own only if that says where from; and a word
/// that is no option names the room.
pub proof fn law_each_word_changes_one_thing(words: Seq<Seq<char>>, i: int, w: Wishes)
    requires
        0 <= i < words.len(),
    ensures
        ({
            let word = words[i];
            let has = i + 1 < words.len();
            let next = asked(words, i, w).1;
            let server = word == "-s"@ || word == "--server"@;
            let name = word == "-n"@ || word == "--name"@;
            &&& next.mic == if word == "--mic"@ && has {
                words[i + 1]
            } else {
                w.mic
            }
            &&& next.out == if word == "--out"@ && has {
                words[i + 1]
            } else {
                w.out
            }
            &&& next.server == if server && has {
                words[i + 1]
            } else {
                w.server
            }
            &&& next.name == if name && has {
                words[i + 1]
            } else {
                w.name
            }
            &&& next.want_aec == (w.want_aec && word != "--mic"@ && word != "--out"@ && word
                != "--no-aec"@)
            &&& next.relay_port == if word == "--relay"@ {
                if has && port_of(words[i + 1]) is Some {
                    port_of(words[i + 1])->0
                } else {
                    7777
                }
            } else {
                w.relay_port
            }
            &&& next.video == if word == "--video"@ {
                if has && (words[i + 1] == "test"@ || (words[i + 1].len() > 0 && words[i + 1][0]
                    == '/')) {
                    Some(words[i + 1])
                } else {
                    Some("/dev/video0"@)
                }
            } else {
                w.video
            }
            &&& next.room == if server || name || word == "--mic"@ || word == "--out"@ || word
                == "--no-aec"@ || word == "--relay"@ || word == "--video"@ {
                w.room
            } else {
                word
            }
        }),
{
    lemma_options_differ();
}

/// No option is another.
proof fn lemma_options_differ()
    ensures
        "--relay"@ != "-s"@,
        "--relay"@ != "--server"@,
        "--relay"@ != "-n"@,
        "--relay"@ != "--name"@,
        "--relay"@ != "--mic"@,
        "--relay"@ != "--out"@,
        "--relay"@ != "--no-aec"@,
        "--relay"@ != "--video"@,
        "-s"@ != "-n"@,
        "-s"@ != "--name"@,
        "-s"@ != "--mic"@,
        "-s"@ != "--out"@,
        "-s"@ != "--no-aec"@,
        "-s"@ != "--video"@,
        "--server"@ != "-n"@,
        "--server"@ != "--name"@,
        "--server"@ != "--mic"@,
        "--server"@ != "--out"@,
        "--server"@ != "--no-aec"@,
        "--server"@ != "--video"@,
        "-n"@ != "--mic"@,
        "-n"@ != "--out"@,
        "-n"@ != "--no-aec"@,
        "-n"@ != "--video"@,
        "--name"@ != "--mic"@,
        "--name"@ != "--out"@,
        "--name"@ != "--no-aec"@,
        "--name"@ != "--video"@,
        "--mic"@ != "--out"@,
        "--mic"@ != "--no-aec"@,
        "--mic"@ != "--video"@,
        "--out"@ != "--no-aec"@,
        "--out"@ != "--video"@,
        "--no-aec"@ != "--video"@,
{
    reveal_strlit("--relay");
    reveal_strlit("-s");
    reveal_strlit("--server");
    reveal_strlit("-n");
    reveal_strlit("--name");
    reveal_strlit("--mic");
    reveal_strlit("--out");
    reveal_strlit("--no-aec");
    reveal_strlit("--video");
    assert("--relay"@.len() == 7 && "--video"@.len() == 7 && "--relay"@[2] != "--video"@[2]);
    assert("--server"@.len() == 8 && "--no-aec"@.len() == 8 && "--server"@[2] != "--no-aec"@[2]);
    assert("-s"@.len() == 2 && "-n"@.len() == 2 && "-s"@[1] != "-n"@[1]);
    assert("--mic"@.len() == 5 && "--out"@.len() == 5 && "--mic"@[2] != "--out"@[2]);
    assert("--name"@.len() == 6);
}

/// Where the word after the one at `i` is, that is not its own: two on from
/// one that takes another.
pub open spec fn next_word(words: Seq<Seq<char>>, i: int) -> int {
    let word = words[i];
    let takes = word == "--relay"@ || word == "-s"@ || word == "--server"@ || word == "-n"@ || word
        == "--name"@ || word == "--mic"@ || word == "--out"@;
    let shown = word == "--video"@ && i + 1 < words.len() && (words[i + 1] == "test"@ || (
    words[i + 1].len() > 0 && words[i + 1][0] == '/'));
    if takes || shown {
        i + 2
    } else {
        i + 1
    }
}

/// What was told last of a thing that two words can name, by the words from
/// `i` on.
pub open spec fn told(
    words: Seq<Seq<char>>,
    i: int,
    short: Seq<char>,
    long: Seq<char>,
    before: Seq<char>,
) -> Seq<char>
    decreases
        if i < words.len() {
            words.len() - i
        } else {
            0
        },
{
    if i >= words.len() {
        before
    } else if (words[i] == short || words[i] == long) && i + 1 < words.len() {
        told(words, next_word(words, i), short, long, words[i + 1])
    } else {
        told(words, next_word(words, i), short, long, before)
    }
}

/// What a call uses is what was told last of it: the microphone is the word
/// after the last that names one, whatever other words come before and after,
/// and so are the speaker, the name and the relay.
pub proof fn law_what_was_told_last_counts(words: Seq<Seq<char>>, i: int, w: Wishes)
    requires
        0 <= i,
    ensures
        heeded(words, i, w) matches Plan::Call(call) ==> {
            &&& call.mic == told(words, i, "--mic"@, "--mic"@, w.mic)
            &&& call.out == told(words, i, "--out"@, "--out"@, w.out)
            &&& call.name == told(words, i, "-n"@, "--name"@, w.name)
            &&& call.server == told(words, i, "-s"@, "--server"@, w.server)
        },
    decreases
        if i < words.len() {
            words.len() - i
        } else {
            0
        },
{
    if i < words.len() {
        let next = asked(words, i, w);
        law_each_word_changes_one_thing(words, i, w);
        lemma_options_differ();
        law_what_was_told_last_counts(words, next.0, next.1);
        assert(next.0 == next_word(words, i));
    }
}

/// Every word is heeded in its turn: help and the version are given as soon as
/// they are asked for, and any other word only adds its wish to those before.
pub proof fn law_every_word_is_heeded(words: Seq<Seq<char>>, i: int, w: Wishes)
    requires
        0 <= i < words.len(),
    ensures
        words[i] == "-h"@ || words[i] == "--help"@ ==> heeded(words, i, w) == Plan::Help,
        words[i] == "-v"@ || words[i] == "--version"@ ==> heeded(words, i, w) == Plan::Version,
        words[i] != "-h"@ && words[i] != "--help"@ && words[i] != "-v"@ && words[i] != "--version"@
            ==> heeded(words, i, w) == heeded(words, next_word(words, i), asked(words, i, w).1),
        asked(words, i, w).0 == next_word(words, i),
{
    lemma_options_differ();
    reveal_strlit("-h");
    reveal_strlit("--help");
    reveal_strlit("-v");
    reveal_strlit("--version");
    assert("-h"@.len() == 2 && "-v"@.len() == 2 && "-h"@[1] != "-v"@[1]);
    assert("--help"@.len() == 6 && "--version"@.len() == 9);
}

/// Once every word is read, a port makes a relay. Otherwise a call needs a room
/// first and a relay to go through second, and is made as it was wished.
pub proof fn law_what_is_done_about_wishes(words: Seq<Seq<char>>, w: Wishes)
    ensures
        ({
            let plan = heeded(words, words.len() as int, w);
            &&& w.relay_port != 0 ==> plan == Plan::Relay(w.relay_port)
            &&& w.relay_port == 0 && w.room.len() == 0 ==> plan == Plan::NoRoom
            &&& w.relay_port == 0 && w.room.len() > 0 && w.server.len() == 0 ==> plan
                == Plan::NoServer
            &&& w.relay_port == 0 && w.room.len() > 0 && w.server.len() > 0 ==> plan == Plan::Call(
                w,
            )
            &&& heeded(words, words.len() as int + 1, w) == plan
        }),
{
}

/// Before any word is read, the relay is the one in the settings, the name
/// that of whoever is logged in, both devices the usual ones, the echo
/// canceller is wanted, and no room, picture or port is.
pub proof fn law_what_goes_without_saying(server: Seq<char>, name: Seq<char>)
    ensures
        ({
            let w = unasked(server, name);
            &&& w.server == server && w.name == name
            &&& w.mic == "default"@ && w.out == "default"@
            &&& w.want_aec
            &&& w.room.len() == 0 && w.video is None && w.relay_port == 0
        }),
{
}

// ---------------------------------------------------------------------
// The relay
// ---------------------------------------------------------------------
/// What the relay is to do.
pub enum RelayCommand {
    Help,
    Version,
    /// Listen on this port.
    Serve(u16),
}

/// What the words from `i` on ask of the relay, with the port asked for
/// before them. The first word is the program's own name and no port. The
/// last word that is a port counts, and other words count for nothing.
pub open spec fn relay_heeded(words: Seq<Seq<char>>, i: int, port: u16) -> RelayCommand
    decreases words.len() - i,
{
    if i >= words.len() {
        RelayCommand::Serve(port)
    } else if either(words[i], "-h"@, "--help"@) {
        RelayCommand::Help
    } else if either(words[i], "-v"@, "--version"@) {
        RelayCommand::Version
    } else {
        relay_heeded(
            words,
            i + 1,
            match port_of(words[i]) {
                Some(p) => if i > 0 {
                    p
                } else {
                    port
                },
                None => port,
            },
        )
    }
}

/// What the words of the command line ask of the relay, the program's own
/// name among them.
pub fn relay_command(args: &Vec<String>) -> (c: RelayCommand)
    ensures
        c == relay_heeded(crate::text::texts(args@), 0, PORT),
{
    let ghost words = crate::text::texts(args@);
    let mut chosen: u16 = PORT;
    let mut i: usize = 0;
    while i < args.len()
        invariant
            words == crate::text::texts(args@),
            i <= args@.len(),
            relay_heeded(words, i as int, chosen) == relay_heeded(words, 0, PORT),
        decreases args.len() - i,
    {
        let word = &args[i];
        assert(words[i as int] == word@);
        if is(word, "-h") || is(word, "--help") {
            return RelayCommand::Help;
        }
        if is(word, "-v") || is(word, "--version") {
            return RelayCommand::Version;
        }
        if i > 0 {
            if let Some(p) = port(word.as_str()) {
                chosen = p;
            }
        }
        i = i + 1;
    }
    RelayCommand::Serve(chosen)
}

/// One more word for the relay is heeded on top of those before it: a port
/// takes the place of any other, help or the version is given unless one of
/// them was asked for already, and anything else changes nothing.
pub proof fn law_the_last_port_counts(words: Seq<Seq<char>>, word: Seq<char>)
    requires
        words.len() > 0,
    ensures
        ({
            let before = relay_heeded(words, 0, PORT);
            let after = relay_heeded(words.push(word), 0, PORT);
            match before {
                RelayCommand::Serve(port) => {
                    &&& word == "-h"@ || word == "--help"@ ==> after == RelayCommand::Help
                    &&& word == "-v"@ || word == "--version"@ ==> after == RelayCommand::Version
                    &&& word != "-h"@ && word != "--help"@ && word != "-v"@ && word != "--version"@
                        ==> after == RelayCommand::Serve(
                        match port_of(word) {
                            Some(p) => p,
                            None => port,
                        },
                    )
                },
                _ => after == before,
            }
        }),
{
    let more = words.push(word);
    let n = words.len() as int;
    lemma_one_more_word(words, word, 0, PORT);
    assert(more[n] == word);
    reveal_strlit("-h");
    reveal_strlit("--help");
    reveal_strlit("-v");
    reveal_strlit("--version");
    assert("-h"@.len() == 2 && "-v"@.len() == 2 && "-h"@[1] != "-v"@[1]);
    assert("--help"@.len() == 6 && "--version"@.len() == 9);
    if let RelayCommand::Serve(port) = relay_heeded(words, 0, PORT) {
        let next = match port_of(word) {
            Some(p) => p,
            None => port,
        };
        assert(relay_heeded(more, 0, PORT) == relay_heeded(more, n, port));
        assert(relay_heeded(more, n + 1, next) == RelayCommand::Serve(next));
    }
}

/// With nothing but the program's own name the relay is on the usual port,
/// whatever that name is, unless it asks for help or the version.
pub proof fn law_the_programs_name_is_no_port(name: Seq<char>)
    requires
        name != "-h"@,
        name != "--help"@,
        name != "-v"@,
        name != "--version"@,
    ensures
        relay_heeded(seq![name], 0, PORT) == RelayCommand::Serve(7777),
        relay_heeded(Seq::empty(), 0, PORT) == RelayCommand::Serve(7777),
{
    reveal_with_fuel(relay_heeded, 2);
}

proof fn lemma_one_more_word(words: Seq<Seq<char>>, word: Seq<char>, i: int, port: u16)
    requires
        0 <= i <= words.len(),
        words.len() > 0,
    ensures
        ({
            let before = relay_heeded(words, i, port);
            let after = relay_heeded(words.push(word), i, port);
            match before {
                RelayCommand::Serve(p) => after == relay_heeded(
                    words.push(word),
                    words.len() as int,
                    p,
                ),
                _ => after == before,
            }
        }),
    decreases words.len() - i,
{
    let more = words.push(word);
    if i < words.len() {
        assert(more[i] == words[i]);
        let next = match port_of(words[i]) {
            Some(p) => if i > 0 {
                p
            } else {
                port
            },
            None => port,
        };
        lemma_one_more_word(words, word, i + 1, next);
    }
}

/// A text names a port when it is the figures of one, and then it is that one.
/// A plus sign in front of figures, or noughts, change nothing.
pub proof fn law_a_port_is_its_figures(n: nat, t: Seq<char>)
    ensures
        n <= 65535 ==> port_of(crate::text::decimal_text(n)) == Some(n as u16),
        n > 65535 ==> port_of(crate::text::decimal_text(n)) is None,
        all_figures(t) ==> port_of(seq!['+'] + t) == port_of(t) && port_of(seq!['0'] + t)
            == port_of(t),
        port_of(t) is Some ==> all_figures(t) || (t.len() > 1 && t[0] == '+' && all_figures(
            t.drop_first(),
        )),
{
    let d = crate::text::decimal_text(n);
    law_figures_stand_for_their_number(n);
    assert('0' <= d[0] <= '9');
    if all_figures(t) {
        assert('0' <= t[0] <= '9');
        assert((seq!['+'] + t).drop_first() == t);
        lemma_nought_in_front(t);
        let longer = seq!['0'] + t;
        assert forall|i: int| 0 <= i < longer.len() implies '0' <= #[trigger] longer[i] <= '9' by {
            if i > 0 {
                assert(longer[i] == t[i - 1]);
            }
        }
    }
}

proof fn lemma_nought_in_front(t: Seq<char>)
    ensures
        value_of(seq!['0'] + t) == value_of(t),
    decreases t.len(),
{
    let longer = seq!['0'] + t;
    if t.len() == 0 {
        assert(longer.drop_last() == Seq::<char>::empty());
        assert(longer.last() == '0');
        assert(value_of(longer.drop_last()) == 0);
    } else {
        lemma_nought_in_front(t.drop_last());
        assert(longer.drop_last() == seq!['0'] + t.drop_last());
    }
}

/// What is asked for is carried out as it was asked: each option stands for
/// itself, and each command for what it says.
pub proof fn law_each_option_stands_for_itself(o: Options, c: Command)
    ensures
        o@.relay_port == o.relay_port,
        o@.server == o.server@ && o@.room == o.room@ && o@.name == o.name@,
        o@.mic == o.mic@ && o@.out == o.out@,
        o@.want_aec == o.want_aec,
        o.video is None ==> o@.video is None,
        o.video matches Some(source) ==> o@.video == Some(source@),
        c is Help <==> c@ is Help,
        c is Version <==> c@ is Version,
        c is NoRoom <==> c@ is NoRoom,
        c is NoServer <==> c@ is NoServer,
        c matches Command::Relay(port) ==> c@ == Plan::Relay(port),
        c matches Command::Call(call) ==> c@ == Plan::Call(call@),
{
}

} // verus!
