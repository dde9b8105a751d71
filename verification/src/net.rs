//! The wire: what a packet is, and how it is written and read.
//!
//! Every packet is small and stands alone. There is no session to set up
//! and nothing to tear down, so a call survives a change of network
//! without noticing.

use vstd::prelude::*;
use vstd::slice::slice_subrange;
use vstd::slice::slice_to_vec;
use vstd::string::*;
use vstd::utf8::*;

verus! {

/// What a packet is. The first byte of every packet.
pub const JOIN: u8 = 1;

pub const LEAVE: u8 = 2;

pub const AUDIO: u8 = 3;

pub const PING: u8 = 4;

pub const WHO: u8 = 5;

/// The longest name anyone can take.
pub const NAME_MAX: usize = 20;

/// A room name is padded to this, so every header is the same length.
pub const ROOM_LEN: usize = 12;

/// Enough for one 20 ms frame of Opus with room to spare.
pub const PACKET_MAX: usize = 1200;

/// Where the count starts in an AUDIO packet: after the kind, the room and
/// the name. Any shorter packet names nobody.
pub const HEAD: usize = 1 + ROOM_LEN + NAME_MAX;

/// Where the sound starts in an AUDIO packet.
pub const AUDIO_HEAD: usize = 1 + ROOM_LEN + NAME_MAX + 4;

// ---------------------------------------------------------------------
// Padded fields
// ---------------------------------------------------------------------
/// A text in a field of `n` bytes: its UTF-8, cut to length and padded
/// with zeros.
pub open spec fn field(text: Seq<char>, n: nat) -> Seq<u8> {
    let bytes = encode_utf8(text);
    Seq::new(
        n,
        |i: int|
            if i < bytes.len() {
                bytes[i]
            } else {
                0u8
            },
    )
}

/// What `String::from_utf8_lossy` makes of bytes that are not UTF-8.
pub uninterp spec fn patched_text(bytes: Seq<u8>) -> Seq<char>;

/// The text that bytes stand for. Bytes that are not UTF-8 have each bad
/// stretch replaced.
pub open spec fn lossy_text(bytes: Seq<u8>) -> Seq<char> {
    if valid_utf8(bytes) {
        decode_utf8(bytes)
    } else {
        patched_text(bytes)
    }
}

/// A text without the NULs at its end.
pub open spec fn stripped(text: Seq<char>) -> Seq<char>
    decreases text.len(),
{
    if text.len() > 0 && text.last() == '\0' {
        stripped(text.drop_last())
    } else {
        text
    }
}

/// The text back out of a padded field.
pub open spec fn field_text(bytes: Seq<u8>) -> Seq<char> {
    stripped(lossy_text(bytes))
}

/// Whether a field holds nothing but padding.
pub open spec fn blank(bytes: Seq<u8>) -> bool {
    forall|i: int| 0 <= i < bytes.len() ==> #[trigger] bytes[i] == 0
}

/// `String::from_utf8_lossy`: bytes that are UTF-8 come back as the text
/// they encode. Of other bytes it is claimed only that the text depends on
/// the bytes alone, and has a replacement character in it.
#[verifier::external_body]
fn from_utf8_lossy(bytes: &[u8]) -> (text: String)
    ensures
        text@ == (if valid_utf8(bytes@) {
            decode_utf8(bytes@)
        } else {
            patched_text(bytes@)
        }),
        !valid_utf8(bytes@) ==> text@.contains('\u{FFFD}'),
{
    String::from_utf8_lossy(bytes).into_owned()
}

/// A name or room, cut to length and padded, so the header never moves.
pub fn fixed(s: &str, n: usize) -> (v: Vec<u8>)
    ensures
        v@ == field(s@, n as nat),
{
    let bytes = s.as_bytes();
    let mut v: Vec<u8> = Vec::new();
    while v.len() < n
        invariant
            bytes@ == encode_utf8(s@),
            v@.len() <= n,
            v@ == field(s@, n as nat).take(v@.len() as int),
        decreases n - v.len(),
    {
        let i: usize = v.len();
        if i < bytes.len() {
            v.push(bytes[i]);
        } else {
            v.push(0);
        }
    }
    v
}

/// The text back out of a padded field.
pub fn unfixed(b: &[u8]) -> (s: String)
    ensures
        s@ == field_text(b@),
        s@.len() == 0 <==> blank(b@),
{
    let text = from_utf8_lossy(b);
    proof {
        lemma_blank(b@, text@);
    }
    let whole = text.as_str();
    let mut seen: usize = 0;
    let mut end: usize = 0;
    let len: usize = whole.unicode_len();
    for c in it: whole.chars()
        invariant
            it.seq() == text@,
            seen == it.index(),
            len == text@.len(),
            end <= seen <= len,
            stripped(text@.take(seen as int)) == text@.take(end as int),
    {
        assert(text@.take(seen + 1).drop_last() == text@.take(seen as int));
        assert(c == text@[seen as int]);
        seen = seen + 1;
        if c != '\0' {
            end = seen;
        }
    }
    assert(text@.take(seen as int) == text@);
    whole.substring_char(0, end).to_string()
}

// ---------------------------------------------------------------------
// Packets going out
// ---------------------------------------------------------------------
/// What every packet from a client starts with.
pub open spec fn header(kind: u8, room: Seq<char>, name: Seq<char>) -> Seq<u8> {
    seq![kind] + field(room, ROOM_LEN as nat) + field(name, NAME_MAX as nat)
}

/// A number as four bytes, the lowest first.
pub open spec fn le32(n: u32) -> Seq<u8> {
    seq![
        (n % 256) as u8,
        (n / 256 % 256) as u8,
        (n / 65536 % 256) as u8,
        (n / 16777216) as u8,
    ]
}

/// The number in four bytes, the lowest first.
pub open spec fn from_le32(b: Seq<u8>) -> int {
    b[0] + 256 * b[1] + 65536 * b[2] + 16777216 * b[3]
}

/// A frame of speech as it goes out.
pub open spec fn speech(room: Seq<char>, name: Seq<char>, seq: u32, opus: Seq<u8>) -> Seq<u8> {
    header(AUDIO, room, name) + le32(seq) + opus
}

/// The names of a room, one padded field after another.
pub open spec fn fields(names: Seq<Seq<char>>) -> Seq<u8>
    decreases names.len(),
{
    if names.len() == 0 {
        Seq::empty()
    } else {
        fields(names.drop_last()) + field(names.last(), NAME_MAX as nat)
    }
}

/// The list of who is in a room as it goes out.
pub open spec fn roll(names: Seq<Seq<char>>) -> Seq<u8> {
    seq![WHO] + fields(names)
}

fn head(kind: u8, room: &str, name: &str) -> (p: Vec<u8>)
    ensures
        p@ == header(kind, room@, name@),
{
    let mut p: Vec<u8> = Vec::new();
    p.push(kind);
    p.append(&mut fixed(room, ROOM_LEN));
    p.append(&mut fixed(name, NAME_MAX));
    p
}

/// A packet on its way out.
pub fn join(room: &str, name: &str) -> (p: Vec<u8>)
    ensures
        p@ == header(JOIN, room@, name@),
{
    head(JOIN, room, name)
}

pub fn leave(room: &str, name: &str) -> (p: Vec<u8>)
    ensures
        p@ == header(LEAVE, room@, name@),
{
    head(LEAVE, room, name)
}

pub fn ping(room: &str, name: &str) -> (p: Vec<u8>)
    ensures
        p@ == header(PING, room@, name@),
{
    head(PING, room, name)
}

/// A frame of speech: the room, who is speaking, a count so the far end
/// can tell a late packet from a lost one, and the encoded sound.
pub fn audio(room: &str, name: &str, seq: u32, opus: &[u8]) -> (p: Vec<u8>)
    ensures
        p@ == speech(room@, name@, seq, opus@),
{
    let mut p = head(AUDIO, room, name);
    p.push((seq % 256) as u8);
    p.push((seq / 256 % 256) as u8);
    p.push((seq / 65536 % 256) as u8);
    p.push((seq / 16777216) as u8);
    assert(p@ == header(AUDIO, room@, name@) + le32(seq));
    p.append(&mut slice_to_vec(opus));
    p
}

// ---------------------------------------------------------------------
// Packets coming in
// ---------------------------------------------------------------------
/// What a client made of a packet that arrived.
pub enum In {
    Speech { from: String, seq: u32, opus: Vec<u8> },
    Who(Vec<String>),
    Other,
}

/// What a packet says: the meaning of an [`In`].
pub enum Reading {
    Speech { from: Seq<char>, seq: u32, opus: Seq<u8> },
    Who(Seq<Seq<char>>),
    Other,
}

impl View for In {
    type V = Reading;

    open spec fn view(&self) -> Reading {
        match self {
            In::Speech { from, seq, opus } => Reading::Speech {
                from: from@,
                seq: *seq,
                opus: opus@,
            },
            In::Who(names) => Reading::Who(crate::text::texts(names@)),
            In::Other => Reading::Other,
        }
    }
}

/// The texts of the padded fields that fit whole into `b`, one after
/// another.
pub open spec fn field_texts(b: Seq<u8>) -> Seq<Seq<char>> {
    Seq::new(
        b.len() / NAME_MAX as nat,
        |i: int| field_text(b.subrange(i * NAME_MAX, (i + 1) * NAME_MAX)),
    )
}

/// The names that are not empty.
pub open spec fn named(names: Seq<Seq<char>>) -> Seq<Seq<char>> {
    names.filter(|name: Seq<char>| name.len() > 0)
}

/// What a packet says to a client.
pub open spec fn reading(buf: Seq<u8>) -> Reading {
    if buf.len() > AUDIO_HEAD && buf[0] == AUDIO {
        Reading::Speech {
            from: field_text(buf.subrange(1 + ROOM_LEN, HEAD as int)),
            seq: from_le32(buf.subrange(HEAD as int, AUDIO_HEAD as int)) as u32,
            opus: buf.skip(AUDIO_HEAD as int),
        }
    } else if buf.len() > 0 && buf[0] == WHO {
        Reading::Who(named(field_texts(buf.skip(1))))
    } else {
        Reading::Other
    }
}

/// The names in a list that arrived.
fn names(list: &[u8]) -> (found: Vec<String>)
    ensures
        crate::text::texts(found@) == named(field_texts(list@)),
{
    let mut found: Vec<String> = Vec::new();
    let count: usize = list.len() / NAME_MAX;
    let ghost all = field_texts(list@);
    proof {
        reveal(Seq::filter);
        assert(crate::text::texts(found@) =~= named(all.take(0)));
    }
    let mut i: usize = 0;
    while i < count
        invariant
            i <= count,
            count == list@.len() / NAME_MAX as nat,
            count * NAME_MAX <= list.len() == list@.len(),
            all == field_texts(list@),
            crate::text::texts(found@) == named(all.take(i as int)),
        decreases count - i,
    {
        let name = unfixed(slice_subrange(list, i * NAME_MAX, (i + 1) * NAME_MAX));
        let ghost before = found@;
        proof {
            reveal(Seq::filter);
            assert(all.take(i + 1).drop_last() == all.take(i as int));
            assert(all.take(i + 1).last() == name@);
        }
        if !name.as_str().is_empty() {
            found.push(name);
            assert(crate::text::texts(found@) == crate::text::texts(before).push(name@));
        }
        i = i + 1;
    }
    assert(all.take(count as int) == all);
    found
}

/// Read a packet a client received.
pub fn parse(buf: &[u8]) -> (r: In)
    ensures
        r@ == reading(buf@),
{
    if buf.len() == 0 {
        return In::Other;
    }
    let kind: u8 = buf[0];
    if kind == AUDIO && buf.len() > AUDIO_HEAD {
        let from = unfixed(slice_subrange(buf, 1 + ROOM_LEN, HEAD));
        let seq: u32 = buf[HEAD] as u32 + 256 * buf[HEAD + 1] as u32 + 65536 * buf[HEAD + 2] as u32
            + 16777216 * buf[HEAD + 3] as u32;
        let opus = slice_to_vec(slice_subrange(buf, AUDIO_HEAD, buf.len()));
        In::Speech { from, seq, opus }
    } else if kind == WHO {
        In::Who(names(slice_subrange(buf, 1, buf.len())))
    } else {
        In::Other
    }
}

// ---------------------------------------------------------------------
// What holds of the wire
// ---------------------------------------------------------------------
/// A run of NULs.
pub open spec fn nuls(n: nat) -> Seq<char> {
    Seq::new(n, |i: int| '\0')
}

/// Encoding goes character by character.
proof fn lemma_encode_concat(a: Seq<char>, b: Seq<char>)
    ensures
        encode_utf8(a + b) == encode_utf8(a) + encode_utf8(b),
    decreases a.len(),
{
    if a.len() == 0 {
        assert(a + b == b);
        assert(encode_utf8(a) + encode_utf8(b) == encode_utf8(b));
    } else {
        lemma_encode_concat(a.drop_first(), b);
        assert((a + b).drop_first() == a.drop_first() + b);
        assert((a + b)[0] == a[0]);
        assert(encode_scalar(a[0] as u32) + (encode_utf8(a.drop_first()) + encode_utf8(b))
            == encode_utf8(a) + encode_utf8(b));
    }
}

/// NULs at the end do not count.
proof fn lemma_stripped_nuls(text: Seq<char>, n: nat)
    ensures
        stripped(text + nuls(n)) == stripped(text),
    decreases n,
{
    let padded = text + nuls(n);
    if n == 0 {
        assert(padded == text);
    } else {
        lemma_stripped_nuls(text, (n - 1) as nat);
        assert(padded.drop_last() == text + nuls((n - 1) as nat));
        assert(padded.last() == '\0');
    }
}

/// A text that fits is padded with what NULs encode to.
proof fn lemma_field_fits(text: Seq<char>, n: nat)
    requires
        encode_utf8(text).len() <= n,
    ensures
        field(text, n) == encode_utf8(text + nuls((n - encode_utf8(text).len()) as nat)),
{
    let pad = nuls((n - encode_utf8(text).len()) as nat);
    lemma_encode_concat(text, pad);
    is_ascii_chars_encode_utf8(pad);
    assert(field(text, n) == encode_utf8(text) + encode_utf8(pad));
}

/// Nothing is left of a text only if it is all NULs.
proof fn lemma_all_nuls(text: Seq<char>)
    requires
        stripped(text).len() == 0,
    ensures
        text == nuls(text.len()),
    decreases text.len(),
{
    if text.len() > 0 {
        lemma_all_nuls(text.drop_last());
        assert(text == text.drop_last().push(text.last()));
        assert(text =~= nuls(text.len()));
    }
}

/// Only a field of zeros reads as nothing, however a bad stretch is
/// replaced.
proof fn lemma_blank(bytes: Seq<u8>, text: Seq<char>)
    requires
        valid_utf8(bytes) ==> text == decode_utf8(bytes),
        !valid_utf8(bytes) ==> text.contains('\u{FFFD}'),
    ensures
        stripped(text).len() == 0 <==> blank(bytes),
{
    if blank(bytes) {
        let all = nuls(bytes.len());
        is_ascii_chars_encode_utf8(all);
        assert(encode_utf8(all) =~= bytes);
        encode_utf8_valid_utf8(all);
        encode_utf8_decode_utf8(all);
        lemma_stripped_nuls(Seq::empty(), bytes.len());
        assert(Seq::<char>::empty() + all == all);
    }
    if stripped(text).len() == 0 {
        lemma_all_nuls(text);
        if valid_utf8(bytes) {
            decode_utf8_encode_utf8(bytes);
            is_ascii_chars_encode_utf8(text);
        } else {
            let k = text.index_of('\u{FFFD}');
            assert(text[k] == '\0');
        }
    }
}

/// A text without NULs at its end is the same with them taken off.
pub open spec fn tidy(text: Seq<char>) -> bool {
    text.len() > 0 ==> text.last() != '\0'
}

/// A text that fits its field comes back out as it went in, less any NULs
/// at its end.
pub proof fn law_text_survives(text: Seq<char>, n: nat)
    requires
        encode_utf8(text).len() <= n,
    ensures
        field_text(field(text, n)) == stripped(text),
        tidy(text) ==> field_text(field(text, n)) == text,
{
    let k = (n - encode_utf8(text).len()) as nat;
    lemma_field_fits(text, n);
    encode_utf8_valid_utf8(text + nuls(k));
    encode_utf8_decode_utf8(text + nuls(k));
    lemma_stripped_nuls(text, k);
}

/// A text too long for its field is cut, not refused: where the cut falls
/// between two characters, what was before it comes back.
pub proof fn law_long_text_is_cut(kept: Seq<char>, rest: Seq<char>)
    ensures
        field(kept + rest, encode_utf8(kept).len()) == encode_utf8(kept),
        field_text(field(kept + rest, encode_utf8(kept).len())) == stripped(kept),
{
    lemma_encode_concat(kept, rest);
    assert(field(kept + rest, encode_utf8(kept).len()) == encode_utf8(kept));
    encode_utf8_valid_utf8(kept);
    encode_utf8_decode_utf8(kept);
}

/// A text too long for its field is cut, not refused: wherever the cut falls,
/// something of a text is in its field unless it begins with a NUL. Such a
/// field never reads as nothing.
pub proof fn law_something_is_left(text: Seq<char>, n: nat)
    requires
        text.len() > 0,
        text[0] != '\0',
        n > 0,
    ensures
        !blank(field(text, n)),
{
    let first: char = text[0];
    let c = first as u32;
    if c == 0 {
        char_u32_cast(first, 0);
    }
    if c <= 0x7f {
        assert(leading_byte_width_1(c) != 0) by (bit_vector)
            requires
                0 < c <= 0x7f,
        ;
    } else {
        assert(leading_byte_width_2(c) != 0) by (bit_vector);
        assert(leading_byte_width_3(c) != 0) by (bit_vector);
        assert(leading_byte_width_4(c) != 0) by (bit_vector);
    }
    assert(field(text, n)[0] == encode_scalar(c)[0]);
}

/// The header never moves: the kind, the room and the name of every packet
/// stand where they always stand, whatever they are.
pub proof fn law_header_never_moves(kind: u8, room: Seq<char>, name: Seq<char>)
    ensures
        header(kind, room, name).len() == HEAD,
        header(kind, room, name)[0] == kind,
        header(kind, room, name).subrange(1, 1 + ROOM_LEN) == field(room, ROOM_LEN as nat),
        header(kind, room, name).subrange(1 + ROOM_LEN, HEAD as int) == field(
            name,
            NAME_MAX as nat,
        ),
{
}

/// A count survives the trip through its four bytes.
pub proof fn law_count_survives(n: u32)
    ensures
        le32(n).len() == 4,
        from_le32(le32(n)) == n,
{
}

/// A frame of speech reads back as it was sent: the same count and the same
/// sound, from the name in its field. An empty frame is not speech at all.
pub proof fn law_speech_reads_back(room: Seq<char>, name: Seq<char>, seq: u32, opus: Seq<u8>)
    ensures
        opus.len() > 0 ==> reading(speech(room, name, seq, opus)) == (Reading::Speech {
            from: field_text(field(name, NAME_MAX as nat)),
            seq,
            opus,
        }),
        opus.len() == 0 ==> reading(speech(room, name, seq, opus)) == Reading::Other,
{
    law_header_never_moves(AUDIO, room, name);
    law_count_survives(seq);
    let p = speech(room, name, seq, opus);
    assert(p.subrange(1 + ROOM_LEN, HEAD as int) == header(AUDIO, room, name).subrange(
        1 + ROOM_LEN,
        HEAD as int,
    ));
    assert(p.subrange(HEAD as int, AUDIO_HEAD as int) == le32(seq));
    assert(p.skip(AUDIO_HEAD as int) == opus);
}

/// A frame of speech under a name that fits reads back under that name.
pub proof fn law_speaker_reads_back(room: Seq<char>, name: Seq<char>, seq: u32, opus: Seq<u8>)
    requires
        encode_utf8(name).len() <= NAME_MAX,
        tidy(name),
        opus.len() > 0,
    ensures
        reading(speech(room, name, seq, opus)) == (Reading::Speech { from: name, seq, opus }),
{
    law_speech_reads_back(room, name, seq, opus);
    law_text_survives(name, NAME_MAX as nat);
}

/// Where each name of a list stands.
proof fn lemma_fields_at(names: Seq<Seq<char>>, i: int)
    requires
        0 <= i < names.len(),
    ensures
        fields(names).len() == names.len() * NAME_MAX,
        fields(names).subrange(i * NAME_MAX, (i + 1) * NAME_MAX) == field(
            names[i],
            NAME_MAX as nat,
        ),
    decreases names.len(),
{
    reveal_with_fuel(fields, 2);
    let front = names.drop_last();
    if front.len() > 0 {
        lemma_fields_at(front, if i < front.len() { i } else { 0 });
    }
    assert(fields(names).len() == names.len() * NAME_MAX);
    if i < front.len() {
        assert(fields(names).subrange(i * NAME_MAX, (i + 1) * NAME_MAX) == fields(front).subrange(
            i * NAME_MAX,
            (i + 1) * NAME_MAX,
        ));
    }
}

/// The room list reads back, in order: each name as its field holds it, and
/// no empty ones.
pub proof fn law_roll_reads_back(names: Seq<Seq<char>>)
    ensures
        reading(roll(names)) == Reading::Who(
            named(names.map_values(|name: Seq<char>| field_text(field(name, NAME_MAX as nat)))),
        ),
{
    let shown = names.map_values(|name: Seq<char>| field_text(field(name, NAME_MAX as nat)));
    assert(roll(names).skip(1) == fields(names));
    if names.len() > 0 {
        lemma_fields_at(names, 0);
    }
    assert(field_texts(fields(names)) =~= shown) by {
        assert forall|i: int| 0 <= i < names.len() implies field_texts(fields(names))[i]
            == shown[i] by {
            lemma_fields_at(names, i);
        }
    }
}

/// A list of names that fit reads back without the empty ones, and what comes
/// after them is ignored while it is too short to hold a name.
pub proof fn law_empty_names_and_a_half_field_are_left_out(names: Seq<Seq<char>>, rest: Seq<u8>)
    requires
        forall|i: int|
            0 <= i < names.len() ==> encode_utf8(#[trigger] names[i]).len() <= NAME_MAX && tidy(
                names[i],
            ),
        rest.len() < NAME_MAX,
    ensures
        reading(roll(names) + rest) == Reading::Who(named(names)),
{
    let list = fields(names) + rest;
    assert((roll(names) + rest).skip(1) == list);
    if names.len() > 0 {
        lemma_fields_at(names, 0);
    }
    assert(fields(names).len() == names.len() * NAME_MAX);
    assert(list.len() / NAME_MAX as nat == names.len());
    assert(field_texts(list) =~= names) by {
        assert forall|i: int| 0 <= i < names.len() implies #[trigger] field_texts(list)[i]
            == names[i] by {
            lemma_fields_at(names, i);
            assert((i + 1) * NAME_MAX <= fields(names).len());
            assert(list.subrange(i * NAME_MAX, (i + 1) * NAME_MAX) == fields(names).subrange(
                i * NAME_MAX,
                (i + 1) * NAME_MAX,
            ));
            law_text_survives(names[i], NAME_MAX as nat);
        }
    }
}

/// A list of names that fit reads back as it was sent.
pub proof fn law_names_read_back(names: Seq<Seq<char>>)
    requires
        forall|i: int|
            0 <= i < names.len() ==> encode_utf8(#[trigger] names[i]).len() <= NAME_MAX && tidy(
                names[i],
            ) && names[i].len() > 0,
    ensures
        reading(roll(names)) == Reading::Who(names),
{
    let shown = names.map_values(|name: Seq<char>| field_text(field(name, NAME_MAX as nat)));
    law_roll_reads_back(names);
    assert(shown =~= names) by {
        assert forall|i: int| 0 <= i < names.len() implies shown[i] == names[i] by {
            law_text_survives(names[i], NAME_MAX as nat);
        }
    }
    lemma_named_all(names);
}

proof fn lemma_named_all(names: Seq<Seq<char>>)
    requires
        forall|i: int| 0 <= i < names.len() ==> (#[trigger] names[i]).len() > 0,
    ensures
        named(names) == names,
    decreases names.len(),
{
    reveal(Seq::filter);
    if names.len() > 0 {
        let front = names.drop_last();
        assert forall|i: int| 0 <= i < front.len() implies (#[trigger] front[i]).len() > 0 by {
            assert(front[i] == names[i]);
        }
        lemma_named_all(front);
        assert(front.push(names.last()) == names);
    }
}

/// What a client sends to say where it is tells another client nothing, and
/// neither does a packet too short to hold a frame.
pub proof fn law_rubbish_is_ignored(buf: Seq<u8>)
    requires
        buf.len() == 0 || (buf[0] != WHO && (buf[0] != AUDIO || buf.len() <= AUDIO_HEAD)),
    ensures
        reading(buf) == Reading::Other,
{
}

/// A field is as long as it is asked to be: the text's own bytes as far as
/// they fit, and zeros from there on.
pub proof fn law_a_field_is_cut_or_padded(text: Seq<char>, n: nat)
    ensures
        field(text, n).len() == n,
        encode_utf8(text).len() >= n ==> field(text, n) == encode_utf8(text).take(n as int),
        encode_utf8(text).len() <= n ==> field(text, n).take(encode_utf8(text).len() as int)
            == encode_utf8(text),
        forall|i: int|
            encode_utf8(text).len() <= i < n ==> #[trigger] field(text, n)[i] == 0,
{
}

/// Only NULs at the end of a text are dropped, and all of them.
pub proof fn law_only_nuls_are_dropped(text: Seq<char>)
    ensures
        stripped(text).len() <= text.len(),
        stripped(text) == text.take(stripped(text).len() as int),
        forall|i: int| stripped(text).len() <= i < text.len() ==> #[trigger] text[i] == '\0',
        stripped(text).len() > 0 ==> stripped(text).last() != '\0',
    decreases text.len(),
{
    if text.len() > 0 && text.last() == '\0' {
        let front = text.drop_last();
        law_only_nuls_are_dropped(front);
        assert(front.take(stripped(text).len() as int) == text.take(stripped(text).len() as int));
        assert forall|i: int| stripped(text).len() <= i < text.len() implies #[trigger] text[i]
            == '\0' by {
            if i < front.len() {
                assert(front[i] == '\0');
            }
        }
    } else {
        assert(text.take(text.len() as int) == text);
    }
}

/// Bytes that are a text read as that text, and bytes that are none read as
/// the text they are patched into, each without the NULs at its end.
pub proof fn law_bytes_read_as_their_text(text: Seq<char>, bytes: Seq<u8>)
    ensures
        field_text(encode_utf8(text)) == stripped(text),
        !valid_utf8(bytes) ==> field_text(bytes) == stripped(patched_text(bytes)),
{
    encode_utf8_valid_utf8(text);
    encode_utf8_decode_utf8(text);
}

/// A frame of speech is a header, then the count with its lowest byte first,
/// then the sound as it is.
pub proof fn law_speech_is_laid_out(room: Seq<char>, name: Seq<char>, seq: u32, opus: Seq<u8>)
    ensures
        ({
            let p = speech(room, name, seq, opus);
            &&& p.len() == 37 + opus.len()
            &&& p[0] == AUDIO
            &&& p.subrange(1, 13) == field(room, 12)
            &&& p.subrange(13, 33) == field(name, 20)
            &&& p[33] + 256 * p[34] + 65536 * p[35] + 16777216 * p[36] == seq
            &&& p.skip(37) == opus
        }),
{
    let p = speech(room, name, seq, opus);
    assert(p[33] == le32(seq)[0] && p[34] == le32(seq)[1] && p[35] == le32(seq)[2] && p[36]
        == le32(seq)[3]);
}

/// What is read of a packet is what stands in it: a frame of speech is who
/// sent it, the count and all the bytes after that, whoever made the packet.
pub proof fn law_what_is_read_stands_there(buf: Seq<u8>)
    ensures
        reading(buf) is Speech <==> buf.len() > 37 && buf[0] == AUDIO,
        reading(buf) is Who <==> buf.len() > 0 && buf[0] == WHO,
        reading(buf) matches Reading::Speech { from, seq, opus } ==> {
            &&& from == field_text(buf.subrange(13, 33))
            &&& seq == buf[33] + 256 * buf[34] + 65536 * buf[35] + 16777216 * buf[36]
            &&& opus == buf.skip(37)
        },
{
    if buf.len() > 37 {
        let b = buf.subrange(33, 37);
        assert(b[0] == buf[33] && b[1] == buf[34] && b[2] == buf[35] && b[3] == buf[36]);
    }
}

/// A list is read name by name, in order: the first twenty bytes are a name,
/// unless they hold none, and the rest is read as if it came alone. What is
/// too short for a name holds none.
pub proof fn law_a_list_is_read_name_by_name(first: Seq<u8>, rest: Seq<u8>)
    requires
        first.len() == 20,
    ensures
        reading(seq![WHO] + (first + rest)) is Who,
        reading(seq![WHO] + rest) is Who,
        reading(seq![WHO] + (first + rest))->Who_0 == (if field_text(first).len() > 0 {
            seq![field_text(first)]
        } else {
            Seq::empty()
        }) + reading(seq![WHO] + rest)->Who_0,
        rest.len() < 20 ==> reading(seq![WHO] + rest)->Who_0.len() == 0,
{
    let list = first + rest;
    let head = seq![field_text(first)];
    let full = |name: Seq<char>| name.len() > 0;
    assert((seq![WHO] + list).skip(1) == list);
    assert((seq![WHO] + rest).skip(1) == rest);
    assert(field_texts(list) =~= head + field_texts(rest)) by {
        assert(list.subrange(0, 20) == first);
        assert forall|i: int| 0 <= i < field_texts(rest).len() implies #[trigger] field_texts(
            rest,
        )[i] == field_texts(list)[i + 1] by {
            assert(list.subrange((i + 1) * NAME_MAX, (i + 2) * NAME_MAX) == rest.subrange(
                i * NAME_MAX,
                (i + 1) * NAME_MAX,
            ));
        }
    }
    Seq::filter_distributes_over_add(head, field_texts(rest), full);
    crate::relay::lemma_filter_one(field_text(first), full);
}

/// A list is written name by name, in order, each in a field of its own.
pub proof fn law_a_list_is_written_name_by_name(names: Seq<Seq<char>>, name: Seq<char>)
    ensures
        roll(Seq::empty()) == seq![WHO],
        roll(names.push(name)) == roll(names) + field(name, 20),
{
    assert(names.push(name).drop_last() == names);
    assert(seq![WHO] + fields(Seq::empty()) =~= seq![WHO]);
}

/// What a packet says to a client is said in full: who spoke, the count and the
/// sound, or each name in its place.
pub proof fn law_what_arrives_is_said_in_full(r: In)
    ensures
        r matches In::Speech { from, seq, opus } ==> r@ == (Reading::Speech {
            from: from@,
            seq,
            opus: opus@,
        }),
        r matches In::Who(names) ==> r@ is Who && r@->Who_0.len() == names@.len() && forall|i: int|
            0 <= i < names@.len() ==> #[trigger] r@->Who_0[i] == names@[i]@,
        r is Other ==> r@ is Other,
{
}

/// A packet has room for a whole frame: what Opus makes of one at twenty
/// kilobits a second fits twenty times over.
pub proof fn law_a_frame_fits_a_packet()
    ensures
        PACKET_MAX == 1200,
        AUDIO_HEAD + 20 * 50 <= PACKET_MAX,
        HEAD == 33 && AUDIO_HEAD == 37,
{
}

} // verus!
