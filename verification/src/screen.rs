//! What the screen says: what each end is doing and how much has gone each
//! way. How it is drawn is for the terminal.

use vstd::prelude::*;
use vstd::string::*;

use crate::hear::Listener;
use crate::text::decimal;
use crate::text::fmt_time;
use crate::text::total;

verus! {

// ---------------------------------------------------------------------
// The meter
// ---------------------------------------------------------------------
/// One place of a level meter.
#[derive(Clone, Copy, Debug, PartialEq, Eq, Structural)]
pub enum Cell {
    /// The sound gate's own threshold.
    Mark,
    /// Lit, while sound goes out.
    Live,
    /// Lit, while none does.
    Idle,
    Dark,
}

/// A bar that shows a level, with the sound gate's own threshold marked on it.
pub open spec fn bar(lit: nat, mark: nat, open: bool, width: nat) -> Seq<Cell> {
    Seq::new(
        width,
        |i: int|
            if i == mark {
                Cell::Mark
            } else if i < lit {
                if open {
                    Cell::Live
                } else {
                    Cell::Idle
                }
            } else {
                Cell::Dark
            },
    )
}

/// A bar of `width` places that lights as far as `lit`, with the threshold at
/// `mark`.
pub fn meter(lit: usize, mark: usize, open: bool, width: usize) -> (cells: Vec<Cell>)
    ensures
        cells@ == bar(lit as nat, mark as nat, open, width as nat),
{
    let mut cells: Vec<Cell> = Vec::new();
    while cells.len() < width
        invariant
            cells@.len() <= width,
            cells@ == bar(lit as nat, mark as nat, open, width as nat).take(cells@.len() as int),
        decreases width - cells.len(),
    {
        let i: usize = cells.len();
        if i == mark {
            cells.push(Cell::Mark);
        } else if i < lit {
            cells.push(
                if open {
                    Cell::Live
                } else {
                    Cell::Idle
                },
            );
        } else {
            cells.push(Cell::Dark);
        }
    }
    cells
}

/// Whether a place is lit.
pub open spec fn lit(cell: Cell) -> bool {
    cell == Cell::Live || cell == Cell::Idle
}

/// How many places of a bar are lit.
pub open spec fn count_lit(cells: Seq<Cell>) -> nat
    decreases cells.len(),
{
    if cells.len() == 0 {
        0
    } else {
        count_lit(cells.drop_last()) + if lit(cells.last()) {
            1nat
        } else {
            0nat
        }
    }
}

/// The meter is as wide as it is asked to be, and shows the threshold once
/// where it fits, in the same place whatever the level is.
pub proof fn law_the_meter_is_as_wide_as_asked(lit: nat, mark: nat, open: bool, width: nat)
    ensures
        bar(lit, mark, open, width).len() == width,
        forall|i: int|
            0 <= i < width ==> (#[trigger] bar(lit, mark, open, width)[i] == Cell::Mark <==> i
                == mark),
{
}

/// A louder voice lights all that a softer one does, and no fewer places.
pub proof fn law_a_louder_voice_lights_more(
    soft: nat,
    loud: nat,
    mark: nat,
    open: bool,
    width: nat,
)
    requires
        soft <= loud,
    ensures
        forall|i: int|
            0 <= i < width && lit(#[trigger] bar(soft, mark, open, width)[i]) ==> bar(
                loud,
                mark,
                open,
                width,
            )[i] == bar(soft, mark, open, width)[i],
        count_lit(bar(soft, mark, open, width)) <= count_lit(bar(loud, mark, open, width)),
    decreases width,
{
    if width > 0 {
        let less = (width - 1) as nat;
        law_a_louder_voice_lights_more(soft, loud, mark, open, less);
        assert(bar(soft, mark, open, width).drop_last() == bar(soft, mark, open, less));
        assert(bar(loud, mark, open, width).drop_last() == bar(loud, mark, open, less));
    }
}

/// How wide the meters are on a screen this wide: what is left of the names
/// and words, within reason.
pub open spec fn bar_width(cols: int) -> int {
    if cols < 44 {
        10
    } else if cols > 94 {
        60
    } else {
        cols - 34
    }
}

pub fn meter_width(cols: u16) -> (w: usize)
    ensures
        w == bar_width(cols as int),
{
    let w: usize = (cols as usize).saturating_sub(34);
    if w < 10 {
        10
    } else if w > 60 {
        60
    } else {
        w
    }
}

/// How many blanks there are between the two ends of the top line, which are
/// this wide.
pub fn gap_width(cols: u16, head: usize, right: usize) -> (pad: usize)
    ensures
        pad == if head + right <= cols {
            cols - head - right
        } else {
            0
        },
{
    (cols as usize).saturating_sub(head).saturating_sub(right)
}

// ---------------------------------------------------------------------
// Who is doing what
// ---------------------------------------------------------------------
/// What one end is doing.
#[derive(Clone, Copy, Debug, PartialEq, Eq, Structural)]
pub enum Mood {
    Muted,
    Sending,
    Speaking,
    Quiet,
}

impl Mood {
    pub open spec fn text(self) -> Seq<char> {
        match self {
            Mood::Muted => "muted"@,
            Mood::Sending => "sending"@,
            Mood::Speaking => "speaking"@,
            Mood::Quiet => "quiet"@,
        }
    }

    /// The word for it.
    pub fn word(self) -> (s: &'static str)
        ensures
            s@ == self.text(),
    {
        match self {
            Mood::Muted => "muted",
            Mood::Sending => "sending",
            Mood::Speaking => "speaking",
            Mood::Quiet => "quiet",
        }
    }
}

/// What you are doing. A microphone that is held shut sends nothing, whatever
/// the sound gate says.
pub fn mine(muted: bool, open: bool) -> (mood: Mood)
    ensures
        mood == if muted {
            Mood::Muted
        } else if open {
            Mood::Sending
        } else {
            Mood::Quiet
        },
{
    if muted {
        Mood::Muted
    } else if open {
        Mood::Sending
    } else {
        Mood::Quiet
    }
}

/// How long after the last sound the far end still counts as speaking, in
/// nanoseconds.
pub const LIVE_FOR: u64 = 250_000_000;

/// What the far end is doing, by when sound was last heard.
pub open spec fn far_mood(last_in: Option<u64>, now: u64) -> Mood {
    match last_in {
        Some(then) => if crate::relay::age(now, then) < LIVE_FOR {
            Mood::Speaking
        } else {
            Mood::Quiet
        },
        None => Mood::Quiet,
    }
}

/// What the far end is doing, by when sound was last heard.
pub fn theirs(last_in: Option<u64>, now: u64) -> (mood: Mood)
    ensures
        mood == far_mood(last_in, now),
{
    match last_in {
        Some(then) => {
            if now.saturating_sub(then) < LIVE_FOR {
                Mood::Speaking
            } else {
                Mood::Quiet
            }
        },
        None => Mood::Quiet,
    }
}

/// Everyone here but you, in order.
pub open spec fn all_but(here: Seq<Seq<char>>, name: Seq<char>) -> Seq<Seq<char>> {
    here.filter(|other: Seq<char>| other != name)
}

/// Everyone here but you, in order.
pub fn others(here: &Vec<String>, name: &str) -> (found: Vec<String>)
    ensures
        crate::text::texts(found@) == all_but(crate::text::texts(here@), name@),
{
    let you = name.to_string();
    let ghost all = crate::text::texts(here@);
    let mut found: Vec<String> = Vec::new();
    proof {
        reveal(Seq::filter);
        assert(crate::text::texts(found@) =~= all_but(all.take(0), name@));
    }
    let mut i: usize = 0;
    while i < here.len()
        invariant
            i <= here@.len(),
            you@ == name@,
            all == crate::text::texts(here@),
            crate::text::texts(found@) == all_but(all.take(i as int), name@),
        decreases here.len() - i,
    {
        let ghost before = found@;
        proof {
            reveal(Seq::filter);
            assert(all.take(i + 1).drop_last() == all.take(i as int));
            assert(all.take(i + 1).last() == here@[i as int]@);
        }
        if here[i] != you {
            found.push(here[i].clone());
            assert(crate::text::texts(found@) =~= crate::text::texts(before).push(
                here@[i as int]@,
            ));
        }
        i = i + 1;
    }
    assert(all.take(i as int) == all);
    found
}

// ---------------------------------------------------------------------
// Where things stand
// ---------------------------------------------------------------------
/// The rows of the screen, counted from the top.
pub struct Rows {
    /// Your own meter.
    pub you: u16,
    /// The first of the others, or the word that there are none.
    pub others: u16,
    /// How much has gone each way.
    pub tally: u16,
    /// What share of the call carried your voice.
    pub share: u16,
}

/// The rows of a screen with so many others on it.
pub fn rows(others: usize) -> (r: Rows)
    requires
        others <= u16::MAX - 7,
    ensures
        r.you == 3,
        r.others == 5,
        r.tally == 6 + if others == 0 {
            1int
        } else {
            others as int
        },
        r.share == r.tally + 1,
{
    let taken: u16 = if others == 0 {
        1
    } else {
        others as u16
    };
    Rows { you: 3, others: 5, tally: 6 + taken, share: 7 + taken }
}

/// One of the others, as they stand on the screen.
pub struct Line {
    pub row: u16,
    pub name: String,
    /// How much sound their meter shows.
    pub energy: u128,
    pub mood: Mood,
}

/// The others, one to a row. A meter falls back when nobody has been heard
/// for a moment.
pub fn far_ends(ears: &Listener, name: &str, now: u64) -> (lines: Vec<Line>)
    requires
        ears.wf(),
        all_but(ears.room(), name@).len() <= u16::MAX - 7,
    ensures
        lines@.len() == all_but(ears.room(), name@).len(),
        forall|i: int|
            0 <= i < lines@.len() ==> {
                let line = #[trigger] lines@[i];
                &&& line.row == 5 + i
                &&& line.name@ == all_but(ears.room(), name@)[i]
                &&& line.mood == far_mood(ears.heard_at(), now)
                &&& line.energy == if line.mood == Mood::Speaking {
                    ears.last_energy(line.name@)
                } else {
                    0
                }
            },
{
    let found = others(ears.here(), name);
    let mood = theirs(ears.last_in(), now);
    let ghost far = all_but(ears.room(), name@);
    let mut lines: Vec<Line> = Vec::new();
    while lines.len() < found.len()
        invariant
            ears.wf(),
            far == crate::text::texts(found@),
            far.len() <= u16::MAX - 7,
            lines@.len() <= found@.len(),
            mood == far_mood(ears.heard_at(), now),
            forall|i: int|
                0 <= i < lines@.len() ==> {
                    let line = #[trigger] lines@[i];
                    &&& line.row == 5 + i
                    &&& line.name@ == far[i]
                    &&& line.mood == mood
                    &&& line.energy == if mood == Mood::Speaking {
                        ears.last_energy(line.name@)
                    } else {
                        0
                    }
                },
        decreases found.len() - lines.len(),
    {
        let i: usize = lines.len();
        assert(far[i as int] == found@[i as int]@);
        let energy: u128 = if mood == Mood::Speaking {
            ears.energy_of(&found[i])
        } else {
            0
        };
        lines.push(Line { row: 5 + i as u16, name: found[i].clone(), energy, mood });
    }
    lines
}

// ---------------------------------------------------------------------
// The words
// ---------------------------------------------------------------------
/// How much has gone each way and at what rate, and what went missing.
pub open spec fn tally_text(
    sent: nat,
    sent_rate: Seq<char>,
    recv: nat,
    recv_rate: Seq<char>,
    lost: nat,
    got: nat,
) -> Seq<char> {
    let flow = "sent "@ + crate::text::total_text(sent) + "  ("@ + sent_rate + ")      received "@
        + crate::text::total_text(recv) + "  ("@ + recv_rate + ")"@;
    if lost == 0 {
        flow
    } else {
        flow + "      "@ + crate::text::decimal_text(lost) + " frames lost of "@
            + crate::text::decimal_text(got + lost)
    }
}

pub fn tally_line(
    sent: u64,
    sent_rate: &str,
    recv: u64,
    recv_rate: &str,
    lost: u64,
    got: u64,
) -> (s: String)
    requires
        got + lost <= u64::MAX,
    ensures
        s@ == tally_text(
            sent as nat,
            sent_rate@,
            recv as nat,
            recv_rate@,
            lost as nat,
            got as nat,
        ),
{
    let flow = "sent ".to_string().concat(total(sent).as_str()).concat("  (").concat(
        sent_rate,
    ).concat(")      received ").concat(total(recv).as_str()).concat("  (").concat(
        recv_rate,
    ).concat(")");
    if lost == 0 {
        flow
    } else {
        flow.concat("      ").concat(decimal(lost).as_str()).concat(" frames lost of ").concat(
            decimal(got + lost).as_str(),
        )
    }
}

/// What share of the call carried your voice.
pub fn share_line(percent: &str) -> (s: String)
    ensures
        s@ == "the line carried your voice "@ + percent@ + "% of the time"@,
{
    "the line carried your voice ".to_string().concat(percent).concat("% of the time")
}

/// The right end of the top line: who you are and how long the call has been.
pub fn right_end(name: &str, secs: u64) -> (s: String)
    ensures
        s@ == name@ + "  "@ + crate::text::clock_text(secs as nat) + " "@,
{
    name.to_string().concat("  ").concat(fmt_time(secs).as_str()).concat(" ")
}

/// Which relay the call goes through.
pub fn through(server: &str) -> (s: String)
    ensures
        s@ == "through "@ + server@,
{
    "through ".to_string().concat(server)
}

/// Whether the echo is taken care of.
pub fn echo_note(aec: bool) -> (s: &'static str)
    ensures
        s@ == if aec {
            "echo cancelled"@
        } else {
            "no echo cancelling · wear headphones"@
        },
{
    if aec {
        "echo cancelled"
    } else {
        "no echo cancelling · wear headphones"
    }
}

// ---------------------------------------------------------------------
// The keys
// ---------------------------------------------------------------------
/// What a key asks for.
#[derive(Clone, Copy, Debug, PartialEq, Eq, Structural)]
pub enum Key {
    HangUp,
    Mute,
    /// Stop the camera, or start it again.
    Camera,
    Nothing,
}

/// What a key asks for.
pub fn key(name: &str) -> (k: Key)
    ensures
        k == if name@ == "q"@ || name@ == "ESC"@ {
            Key::HangUp
        } else if name@ == "m"@ {
            Key::Mute
        } else if name@ == "v"@ {
            Key::Camera
        } else {
            Key::Nothing
        },
{
    let name = name.to_string();
    if name == "q".to_string() || name == "ESC".to_string() {
        Key::HangUp
    } else if name == "m".to_string() {
        Key::Mute
    } else if name == "v".to_string() {
        Key::Camera
    } else {
        Key::Nothing
    }
}

/// Whether the microphone is held shut once a key has been pressed, and
/// whether the call is over.
pub fn pressed(k: Key, muted: bool) -> (r: (bool, bool))
    ensures
        r.0 == (if k == Key::Mute {
            !muted
        } else {
            muted
        }),
        r.1 == (k == Key::HangUp),
{
    (
        if k == Key::Mute {
            !muted
        } else {
            muted
        },
        k == Key::HangUp,
    )
}

/// Whether the camera runs once a key has been pressed. A call that asked for
/// no picture has no camera to start.
pub fn camera_runs(k: Key, asked: bool, runs: bool) -> (r: bool)
    ensures
        r == (asked && (if k == Key::Camera {
            !runs
        } else {
            runs
        })),
{
    asked && (if k == Key::Camera {
        !runs
    } else {
        runs
    })
}

// ---------------------------------------------------------------------
// What holds of the screen
// ---------------------------------------------------------------------
/// A place is lit when the level reaches past it and the threshold is not
/// there, live while sound goes out and idle while none does.
pub proof fn law_the_meter_lights_as_far_as_the_level(
    level: nat,
    mark: nat,
    open: bool,
    width: nat,
    i: int,
)
    requires
        0 <= i < width,
    ensures
        bar(level, mark, open, width)[i] == Cell::Live <==> i < level && i != mark && open,
        bar(level, mark, open, width)[i] == Cell::Idle <==> i < level && i != mark && !open,
        bar(level, mark, open, width)[i] == Cell::Dark <==> i >= level && i != mark,
        bar(level, mark, open, width)[i] == Cell::Mark <==> i == mark,
{
}

/// The meters take what the names leave of a screen, but no fewer than ten
/// places and no more than sixty.
pub proof fn law_the_meters_take_what_is_left(cols: int)
    ensures
        10 <= bar_width(cols) <= 60,
        10 < bar_width(cols) ==> bar_width(cols) + 34 <= cols,
        bar_width(cols) < 60 ==> bar_width(cols) + 34 >= cols,
{
}

/// The far end is speaking while sound was heard within a quarter of a second,
/// and quiet otherwise.
pub proof fn law_a_quarter_of_a_second_is_speaking(last_in: Option<u64>, now: u64)
    ensures
        far_mood(last_in, now) == Mood::Speaking <==> (last_in matches Some(then) && now < then
            + 250_000_000),
        far_mood(last_in, now) == Mood::Speaking || far_mood(last_in, now) == Mood::Quiet,
{
}

proof fn lemma_all_but_one(one: Seq<char>, name: Seq<char>)
    ensures
        all_but(seq![one], name) == if one != name {
            seq![one]
        } else {
            Seq::empty()
        },
{
    let alone = seq![one];
    reveal_with_fuel(Seq::filter, 2);
    assert(alone.drop_last() == Seq::<Seq<char>>::empty());
    assert(alone.last() == one);
    assert(all_but(alone.drop_last(), name) =~= Seq::empty());
    assert(Seq::<Seq<char>>::empty().push(one) == alone);
}

/// The others are all who are here and are not you, in order: who they are is
/// settled one by one.
pub proof fn law_the_others_are_all_but_you(
    here: Seq<Seq<char>>,
    more: Seq<Seq<char>>,
    one: Seq<char>,
    name: Seq<char>,
)
    ensures
        all_but(here + more, name) == all_but(here, name) + all_but(more, name),
        all_but(seq![one], name) == if one != name {
            seq![one]
        } else {
            Seq::empty()
        },
        all_but(Seq::empty(), name).len() == 0,
{
    let is_other = |other: Seq<char>| other != name;
    Seq::filter_distributes_over_add(here, more, is_other);
    lemma_all_but_one(one, name);
    Seq::<Seq<char>>::empty().lemma_filter_len(is_other);
}

/// What has gone each way is said with its own total and its own rate, what
/// went out first. With frames lost it says the same and how many there were,
/// of all that were sent.
pub proof fn law_each_way_has_its_own_total(
    sent: nat,
    sent_rate: Seq<char>,
    recv: nat,
    recv_rate: Seq<char>,
    lost: nat,
    got: nat,
)
    ensures
        ({
            let flow = tally_text(sent, sent_rate, recv, recv_rate, 0, got);
            let out = "sent "@ + crate::text::total_text(sent) + "  ("@ + sent_rate + ")"@;
            let back = "received "@ + crate::text::total_text(recv) + "  ("@ + recv_rate + ")"@;
            &&& flow == out + "      "@ + back
            &&& lost > 0 ==> exists|l: Seq<char>, n: Seq<char>|
                #![trigger crate::args::value_of(l), crate::args::value_of(n)]
                {
                    &&& crate::args::all_figures(l) && crate::args::value_of(l) == lost
                    &&& crate::args::all_figures(n) && crate::args::value_of(n) == got + lost
                    &&& tally_text(sent, sent_rate, recv, recv_rate, lost, got) == flow
                        + "      "@ + l + " frames lost of "@ + n
                }
        }),
{
    let flow = tally_text(sent, sent_rate, recv, recv_rate, 0, got);
    let out = "sent "@ + crate::text::total_text(sent) + "  ("@ + sent_rate + ")"@;
    let back = "received "@ + crate::text::total_text(recv) + "  ("@ + recv_rate + ")"@;
    reveal_strlit(")");
    reveal_strlit("      ");
    reveal_strlit("received ");
    reveal_strlit(")      received ");
    assert(")"@ + "      "@ + "received "@ =~= ")      received "@);
    assert(flow =~= out + "      "@ + back);
    crate::args::law_figures_stand_for_their_number(lost);
    crate::args::law_figures_stand_for_their_number(got + lost);
    let l = crate::text::decimal_text(lost);
    let n = crate::text::decimal_text(got + lost);
    assert(crate::args::value_of(l) == lost && crate::args::value_of(n) == got + lost);
}

} // verus!
