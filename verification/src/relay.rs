//! The relay that stands in the middle.
//!
//! Two people at home are both behind a router that will not accept a call
//! from outside. So neither dials the other: both send to a relay on a
//! machine with a real address, and the relay passes packets on. It keeps no
//! recording and reads nothing but the room and the name.
//!
//! Time is counted in nanoseconds from any fixed moment.

use vstd::prelude::*;
use vstd::slice::slice_subrange;
use vstd::slice::slice_to_vec;
use vstd::string::*;

use crate::net::fixed;
use crate::net::unfixed;
use crate::net::AUDIO;
use crate::net::HEAD;
use crate::net::LEAVE;
use crate::net::NAME_MAX;
use crate::net::ROOM_LEN;
use crate::net::WHO;
use crate::text::decimal;

verus! {

/// Anyone who has not been heard from for this long has gone.
pub const GONE_AFTER: u64 = 30_000_000_000;

/// Where a packet comes from and where one goes.
#[derive(Clone, Copy, Debug, PartialEq, Eq, Structural)]
pub struct Addr {
    pub ip: u32,
    pub port: u16,
}

struct Member {
    addr: Addr,
    name: String,
    seen: u64,
}

struct Room {
    name: String,
    members: Vec<Member>,
}

/// Someone in a room: where they are, the name they gave and when they were
/// last heard from.
pub struct Presence {
    pub addr: Addr,
    pub name: Seq<char>,
    pub seen: u64,
}

/// How long ago `then` was.
pub open spec fn age(now: u64, then: u64) -> int {
    if now > then {
        now - then
    } else {
        0
    }
}

/// When someone has been silent for half a minute, as far as time is counted.
pub open spec fn gone_at(m: Presence) -> int {
    if m.seen + GONE_AFTER <= u64::MAX {
        m.seen + GONE_AFTER
    } else {
        u64::MAX as int
    }
}

/// Whether there is a time no later than when someone is gone.
spec fn by_then(time: Option<u64>, m: Presence) -> bool {
    match time {
        Some(t) => t <= gone_at(m),
        None => false,
    }
}

/// Whether an address is among those here.
pub open spec fn is_here(here: Seq<Presence>, addr: Addr) -> bool {
    exists|i: int| 0 <= i < here.len() && (#[trigger] here[i]).addr == addr
}

/// No address is here twice.
pub open spec fn apart(here: Seq<Presence>) -> bool {
    forall|i: int, j: int|
        0 <= i < j < here.len() ==> (#[trigger] here[i]).addr != (#[trigger] here[j]).addr
}

/// A room once `from` has been heard from under `name`: known people stay
/// where they stand, a new one comes last.
pub open spec fn arrive(here: Seq<Presence>, from: Addr, name: Seq<char>, now: u64) -> Seq<
    Presence,
> {
    let new = Presence { addr: from, name, seen: now };
    if is_here(here, from) {
        here.map_values(
            |m: Presence|
                if m.addr == from {
                    new
                } else {
                    m
                },
        )
    } else {
        here.push(new)
    }
}

/// A room without `from`.
pub open spec fn depart(here: Seq<Presence>, from: Addr) -> Seq<Presence> {
    here.filter(|m: Presence| m.addr != from)
}

/// Those of a room who have been heard from lately.
pub open spec fn fresh(here: Seq<Presence>, now: u64) -> Seq<Presence> {
    here.filter(|m: Presence| age(now, m.seen) < GONE_AFTER)
}

/// The addresses of a room, in order.
pub open spec fn addresses(here: Seq<Presence>) -> Seq<Addr> {
    here.map_values(|m: Presence| m.addr)
}

/// The names of a room, in order.
pub open spec fn names(here: Seq<Presence>) -> Seq<Seq<char>> {
    here.map_values(|m: Presence| m.name)
}

impl View for Member {
    type V = Presence;

    closed spec fn view(&self) -> Presence {
        Presence { addr: self.addr, name: self.name@, seen: self.seen }
    }
}

/// What the members of a room amount to.
spec fn present(members: Seq<Member>) -> Seq<Presence> {
    members.map_values(|m: Member| m@)
}

/// Where an address stands in a room.
fn find(members: &Vec<Member>, from: Addr) -> (at: Option<usize>)
    ensures
        at matches Some(i) ==> i < members@.len() && members@[i as int].addr == from,
        at is Some == is_here(present(members@), from),
{
    let mut i: usize = 0;
    while i < members.len()
        invariant
            i <= members@.len(),
            forall|j: int| 0 <= j < i ==> (#[trigger] present(members@)[j]).addr != from,
        decreases members.len() - i,
    {
        if members[i].addr == from {
            assert(present(members@)[i as int].addr == from);
            return Some(i);
        }
        i = i + 1;
    }
    None
}

/// A packet from `from` counts as being here, so a talker never has to
/// announce itself twice. Says whether they are new.
fn touch(members: &mut Vec<Member>, from: Addr, name: &String, now: u64) -> (new: bool)
    requires
        apart(present(old(members)@)),
    ensures
        present(final(members)@) == arrive(present(old(members)@), from, name@, now),
        new == !is_here(present(old(members)@), from),
        apart(present(final(members)@)),
{
    let ghost before = present(members@);
    match find(members, from) {
        Some(i) => {
            members[i].name = name.clone();
            members[i].seen = now;
            proof {
                let after = arrive(before, from, name@, now);
                assert forall|j: int| 0 <= j < before.len() implies after[j] == present(
                    members@,
                )[j] by {
                    assert(before[i as int].addr == from);
                    assert(j != i ==> before[j].addr != from);
                }
                assert(present(members@) =~= after);
            }
            false
        },
        None => {
            members.push(Member { addr: from, name: name.clone(), seen: now });
            assert(present(members@) =~= arrive(before, from, name@, now));
            true
        },
    }
}

/// One more step of a filter.
proof fn lemma_filter_step<A>(s: Seq<A>, pred: spec_fn(A) -> bool, k: int)
    requires
        0 <= k < s.len(),
    ensures
        s.take(k + 1).filter(pred) == if pred(s[k]) {
            s.take(k).filter(pred).push(s[k])
        } else {
            s.take(k).filter(pred)
        },
{
    reveal(Seq::filter);
    assert(s.take(k + 1).drop_last() == s.take(k));
}

/// Whoever is left of a room still stands once.
proof fn lemma_apart_filter(here: Seq<Presence>, pred: spec_fn(Presence) -> bool)
    requires
        apart(here),
    ensures
        apart(here.filter(pred)),
        forall|i: int|
            0 <= i < here.filter(pred).len() ==> here.contains(#[trigger] here.filter(pred)[i]),
    decreases here.len(),
{
    reveal(Seq::filter);
    if here.len() > 0 {
        let front = here.drop_last();
        assert(apart(front)) by {
            assert forall|i: int, j: int| 0 <= i < j < front.len() implies (
            #[trigger] front[i]).addr != (#[trigger] front[j]).addr by {
                assert(front[i] == here[i] && front[j] == here[j]);
            }
        }
        lemma_apart_filter(front, pred);
        let kept = front.filter(pred);
        assert forall|i: int| 0 <= i < kept.len() implies here.contains(#[trigger] kept[i])
            && kept[i].addr != here.last().addr by {
            assert(front.contains(kept[i]));
            let k = front.index_of(kept[i]);
            assert(front[k] == here[k]);
            assert(here[k].addr != here[here.len() - 1].addr);
        }
        assert(here.contains(here[here.len() - 1]));
    }
}

/// Take `from` out of a room.
fn remove(members: &mut Vec<Member>, from: Addr)
    requires
        apart(present(old(members)@)),
    ensures
        present(final(members)@) == depart(present(old(members)@), from),
        apart(present(final(members)@)),
{
    let ghost before = present(members@);
    let ghost stays = |m: Presence| m.addr != from;
    let ghost mut k: int = 0;
    let mut i: usize = 0;
    proof {
        reveal(Seq::filter);
        lemma_apart_filter(before, stays);
        assert(before.take(0).filter(stays) + before.skip(0) == before);
    }
    while i < members.len()
        invariant
            0 <= k <= before.len(),
            i == before.take(k).filter(stays).len(),
            present(members@) == before.take(k).filter(stays) + before.skip(k),
            stays == (|m: Presence| m.addr != from),
        decreases members.len() - i,
    {
        proof {
            lemma_filter_step(before, stays, k);
            assert(present(members@)[i as int] == before[k]);
            assert(before[k].addr == members@[i as int].addr);
            assert(before.skip(k).drop_first() == before.skip(k + 1));
        }
        let ghost held = present(members@);
        if members[i].addr == from {
            members.remove(i);
            assert(present(members@) =~= held.remove(i as int));
        } else {
            i = i + 1;
        }
        proof {
            k = k + 1;
            assert(present(members@) =~= before.take(k).filter(stays) + before.skip(k));
        }
    }
    assert(k == before.len());
    assert(before.take(k) == before);
}

/// How long ago `then` was.
fn since(now: u64, then: u64) -> (gap: u64)
    ensures
        gap == age(now, then),
{
    if now > then {
        now - then
    } else {
        0
    }
}

/// Take out of a room everyone who has gone quiet.
fn drop_stale(members: &mut Vec<Member>, now: u64)
    requires
        apart(present(old(members)@)),
    ensures
        present(final(members)@) == fresh(present(old(members)@), now),
        apart(present(final(members)@)),
{
    let ghost before = present(members@);
    let ghost stays = |m: Presence| age(now, m.seen) < GONE_AFTER;
    let ghost mut k: int = 0;
    let mut i: usize = 0;
    proof {
        reveal(Seq::filter);
        lemma_apart_filter(before, stays);
        assert(before.take(0).filter(stays) + before.skip(0) == before);
    }
    while i < members.len()
        invariant
            0 <= k <= before.len(),
            i == before.take(k).filter(stays).len(),
            present(members@) == before.take(k).filter(stays) + before.skip(k),
            stays == (|m: Presence| age(now, m.seen) < GONE_AFTER),
        decreases members.len() - i,
    {
        proof {
            lemma_filter_step(before, stays, k);
            assert(present(members@)[i as int] == before[k]);
            assert(before[k].seen == members@[i as int].seen);
            assert(before.skip(k).drop_first() == before.skip(k + 1));
        }
        let ghost held = present(members@);
        if since(now, members[i].seen) < GONE_AFTER {
            i = i + 1;
        } else {
            members.remove(i);
            assert(present(members@) =~= held.remove(i as int));
        }
        proof {
            k = k + 1;
            assert(present(members@) =~= before.take(k).filter(stays) + before.skip(k));
        }
    }
    assert(k == before.len());
    assert(before.take(k) == before);
}

/// The list of who is in a room, to send to everyone in it.
fn roll_call(members: &Vec<Member>) -> (list: Vec<u8>)
    ensures
        list@ == crate::net::roll(names(present(members@))),
{
    let mut list: Vec<u8> = Vec::new();
    list.push(WHO);
    let ghost all = names(present(members@));
    assert(list@ == crate::net::roll(all.take(0)));
    let mut i: usize = 0;
    while i < members.len()
        invariant
            i <= members@.len(),
            all == names(present(members@)),
            list@ == crate::net::roll(all.take(i as int)),
        decreases members.len() - i,
    {
        proof {
            assert(all.take(i + 1).drop_last() == all.take(i as int));
            assert(all.take(i + 1).last() == members@[i as int].name@);
        }
        list.append(&mut fixed(members[i].name.as_str(), NAME_MAX));
        i = i + 1;
        assert(list@ =~= crate::net::roll(all.take(i as int)));
    }
    assert(all.take(i as int) == all);
    list
}

/// The addresses of everyone in a room, or of everyone but one.
fn recipients(members: &Vec<Member>, but: Option<Addr>) -> (to: Vec<Addr>)
    ensures
        but is None ==> to@ == addresses(present(members@)),
        but matches Some(from) ==> to@ == addresses(depart(present(members@), from)),
{
    let ghost all = present(members@);
    let ghost stays = |m: Presence| but != Some(m.addr);
    let mut to: Vec<Addr> = Vec::new();
    let mut i: usize = 0;
    proof {
        reveal(Seq::filter);
        assert(to@ =~= addresses(all.take(0).filter(stays)));
    }
    while i < members.len()
        invariant
            i <= members@.len(),
            all == present(members@),
            stays == (|m: Presence| but != Some(m.addr)),
            to@ == addresses(all.take(i as int).filter(stays)),
        decreases members.len() - i,
    {
        let addr = members[i].addr;
        proof {
            lemma_filter_step(all, stays, i as int);
            assert(all[i as int].addr == addr);
        }
        let skip = match but {
            Some(from) => addr == from,
            None => false,
        };
        if !skip {
            to.push(addr);
        }
        i = i + 1;
        assert(to@ =~= addresses(all.take(i as int).filter(stays)));
    }
    proof {
        assert(all.take(i as int) == all);
        match but {
            None => {
                lemma_filter_all(all, stays);
            },
            Some(from) => {
                assert(stays =~= (|m: Presence| m.addr != from));
            },
        }
    }
    to
}

/// A filter of one thing keeps it or does not.
pub(crate) proof fn lemma_filter_one<A>(a: A, pred: spec_fn(A) -> bool)
    ensures
        seq![a].filter(pred) == if pred(a) {
            seq![a]
        } else {
            Seq::empty()
        },
{
    reveal_with_fuel(Seq::filter, 2);
    assert(seq![a].drop_last() == Seq::<A>::empty());
    assert(Seq::<A>::empty().push(a) == seq![a]);
}

/// A filter that lets everything through changes nothing.
pub(crate) proof fn lemma_filter_all<A>(s: Seq<A>, pred: spec_fn(A) -> bool)
    requires
        forall|i: int| 0 <= i < s.len() ==> pred(#[trigger] s[i]),
    ensures
        s.filter(pred) == s,
    decreases s.len(),
{
    reveal(Seq::filter);
    if s.len() > 0 {
        let front = s.drop_last();
        assert forall|i: int| 0 <= i < front.len() implies pred(#[trigger] front[i]) by {
            assert(front[i] == s[i]);
        }
        lemma_filter_all(front, pred);
        assert(front.push(s.last()) == s);
    }
}

// ---------------------------------------------------------------------
// The rooms
// ---------------------------------------------------------------------
/// Every room has a name of its own.
spec fn distinct(rooms: Seq<Room>) -> bool {
    forall|i: int, j: int|
        0 <= i < j < rooms.len() ==> (#[trigger] rooms[i]).name@ != (#[trigger] rooms[j]).name@
}

/// Whether there is a room of that name.
spec fn is_open(rooms: Seq<Room>, room: Seq<char>) -> bool {
    exists|i: int| 0 <= i < rooms.len() && (#[trigger] rooms[i]).name@ == room
}

/// Whether anyone is in a room.
spec fn occupied(room: Room) -> bool {
    room.members@.len() > 0
}

/// Who is in the room of that name.
spec fn lookup(rooms: Seq<Room>, room: Seq<char>) -> Seq<Presence> {
    if is_open(rooms, room) {
        let i = choose|i: int| 0 <= i < rooms.len() && (#[trigger] rooms[i]).name@ == room;
        present(rooms[i].members@)
    } else {
        Seq::empty()
    }
}

proof fn lemma_lookup(rooms: Seq<Room>, i: int)
    requires
        distinct(rooms),
        0 <= i < rooms.len(),
    ensures
        lookup(rooms, rooms[i].name@) == present(rooms[i].members@),
{
    let room = rooms[i].name@;
    let k = choose|k: int| 0 <= k < rooms.len() && (#[trigger] rooms[k]).name@ == room;
    assert(0 <= k < rooms.len() && rooms[k].name@ == room);
    if k < i {
        assert(rooms[k].name@ != rooms[i].name@);
    } else if i < k {
        assert(rooms[i].name@ != rooms[k].name@);
    }
}

/// A change to one room is a change to nothing else.
proof fn lemma_lookup_update(old_rooms: Seq<Room>, new_rooms: Seq<Room>, at: int)
    requires
        distinct(old_rooms),
        0 <= at < old_rooms.len(),
        new_rooms.len() == old_rooms.len(),
        new_rooms[at].name@ == old_rooms[at].name@,
        forall|i: int|
            0 <= i < old_rooms.len() && i != at ==> #[trigger] new_rooms[i] == old_rooms[i],
    ensures
        distinct(new_rooms),
        forall|r: Seq<char>|
            #![trigger lookup(new_rooms, r)]
            lookup(new_rooms, r) == if r == old_rooms[at].name@ {
                present(new_rooms[at].members@)
            } else {
                lookup(old_rooms, r)
            },
{
    assert forall|i: int, j: int| 0 <= i < j < new_rooms.len() implies (
    #[trigger] new_rooms[i]).name@ != (#[trigger] new_rooms[j]).name@ by {
        assert(old_rooms[i].name@ != old_rooms[j].name@);
    }
    assert forall|r: Seq<char>|
        #![trigger lookup(new_rooms, r)]
        lookup(new_rooms, r) == if r == old_rooms[at].name@ {
            present(new_rooms[at].members@)
        } else {
            lookup(old_rooms, r)
        } by {
        if r == old_rooms[at].name@ {
            lemma_lookup(new_rooms, at);
        } else if is_open(old_rooms, r) {
            let k = choose|k: int| 0 <= k < old_rooms.len() && (#[trigger] old_rooms[k]).name@ == r;
            lemma_lookup(old_rooms, k);
            assert(new_rooms[k] == old_rooms[k]);
            lemma_lookup(new_rooms, k);
        } else if is_open(new_rooms, r) {
            let k = choose|k: int| 0 <= k < new_rooms.len() && (#[trigger] new_rooms[k]).name@ == r;
            assert(new_rooms[k].name@ == old_rooms[k].name@);
        }
    }
}

/// Something worth telling whoever runs the relay.
pub enum Note {
    /// Someone new is in a room, which now holds this many.
    Joined { room: String, name: String, here: usize },
    /// This many have gone from a room, and this many are left.
    Left { room: String, gone: usize, here: usize },
}

/// What a [`Note`] tells.
pub enum Remark {
    Joined { room: Seq<char>, name: Seq<char>, here: nat },
    Left { room: Seq<char>, gone: nat, here: nat },
}

impl View for Note {
    type V = Remark;

    open spec fn view(&self) -> Remark {
        match self {
            Note::Joined { room, name, here } => Remark::Joined {
                room: room@,
                name: name@,
                here: *here as nat,
            },
            Note::Left { room, gone, here } => Remark::Left {
                room: room@,
                gone: *gone as nat,
                here: *here as nat,
            },
        }
    }
}

/// What is told, as a line to print.
pub open spec fn remark_text(remark: Remark) -> Seq<char> {
    match remark {
        Remark::Joined { room, name, here } => room + ": "@ + name + " joined ("@ + crate::text::decimal_text(
            here,
        ) + " here)"@,
        Remark::Left { room, gone, here } => room + ": "@ + crate::text::decimal_text(gone) + " left ("@
            + crate::text::decimal_text(here) + " here)"@,
    }
}

impl Note {
    /// A line to print.
    pub fn line(&self) -> (s: String)
        ensures
            s@ == remark_text(self@),
    {
        match self {
            Note::Joined { room, name, here } => room.clone().concat(": ").concat(
                name.as_str(),
            ).concat(" joined (").concat(decimal(*here as u64).as_str()).concat(" here)"),
            Note::Left { room, gone, here } => room.clone().concat(": ").concat(
                decimal(*gone as u64).as_str(),
            ).concat(" left (").concat(decimal(*here as u64).as_str()).concat(" here)"),
        }
    }
}

/// What some notes tell, in order.
pub open spec fn remarks(notes: Seq<Note>) -> Seq<Remark> {
    notes.map_values(|note: Note| note@)
}

/// What is told of a room when it is swept.
pub open spec fn departure(room: Seq<char>, here: Seq<Presence>, now: u64) -> Remark {
    Remark::Left {
        room,
        gone: (here.len() - fresh(here, now).len()) as nat,
        here: fresh(here, now).len(),
    }
}

/// Whether sweeping a room takes anyone out of it.
pub open spec fn has_stale(here: Seq<Presence>, now: u64) -> bool {
    fresh(here, now).len() != here.len()
}

/// A sweep tells of every room that someone went from, once, and of no
/// other. Which room comes first is left open.
pub open spec fn tells_departures(
    told: Seq<Remark>,
    rooms: spec_fn(Seq<char>) -> Seq<Presence>,
    now: u64,
) -> bool {
    &&& told.no_duplicates()
    &&& forall|i: int|
        0 <= i < told.len() ==> exists|room: Seq<char>|
            has_stale(#[trigger] rooms(room), now) && #[trigger] told[i] == departure(
                room,
                rooms(room),
                now,
            )
    &&& forall|room: Seq<char>|
        has_stale(#[trigger] rooms(room), now) ==> told.contains(
            departure(room, rooms(room), now),
        )
}

/// The relay: who is in which room. A packet comes in, goes out to the
/// others in the same room, and is forgotten.
pub struct Relay {
    rooms: Vec<Room>,
}

impl Relay {
    /// Who is in a room. A room that nobody has opened is empty.
    pub closed spec fn here(&self, room: Seq<char>) -> Seq<Presence> {
        lookup(self.rooms@, room)
    }

    /// Whether the relay has a room by that name in mind, with or without
    /// anyone in it.
    pub closed spec fn holds(&self, room: Seq<char>) -> bool {
        is_open(self.rooms@, room)
    }

    /// Rooms are told apart by name, and the people in one by address.
    pub closed spec fn wf(&self) -> bool {
        &&& distinct(self.rooms@)
        &&& forall|i: int|
            0 <= i < self.rooms@.len() ==> apart(present((#[trigger] self.rooms@[i]).members@))
    }

    /// Nobody is here who has been silent for half a minute.
    pub open spec fn nobody_stale(&self, now: u64) -> bool {
        forall|room: Seq<char>, i: int|
            0 <= i < self.here(room).len() ==> age(now, (#[trigger] self.here(room)[i]).seen)
                < GONE_AFTER
    }

    /// A relay that nobody has called yet.
    pub fn new() -> (relay: Relay)
        ensures
            relay.wf(),
            forall|room: Seq<char>| (#[trigger] relay.here(room)).len() == 0,
            forall|room: Seq<char>| !#[trigger] relay.holds(room),
    {
        Relay { rooms: Vec::new() }
    }

    /// The place of a room, which is opened if it is not there.
    fn place(&mut self, room: &String) -> (at: usize)
        requires
            old(self).wf(),
        ensures
            final(self).wf(),
            forall|r: Seq<char>| #[trigger] final(self).here(r) == old(self).here(r),
            forall|r: Seq<char>| #[trigger]
                final(self).holds(r) == (old(self).holds(r) || r == room@),
            at < final(self).rooms@.len(),
            final(self).rooms@[at as int].name@ == room@,
    {
        let mut i: usize = 0;
        while i < self.rooms.len()
            invariant
                *self == *old(self),
                self.wf(),
                i <= self.rooms@.len(),
                forall|j: int| 0 <= j < i ==> (#[trigger] self.rooms@[j]).name@ != room@,
            decreases self.rooms.len() - i,
        {
            if self.rooms[i].name == *room {
                assert(self.holds(room@));
                return i;
            }
            i = i + 1;
        }
        let ghost before = self.rooms@;
        self.rooms.push(Room { name: room.clone(), members: Vec::new() });
        proof {
            assert forall|r: Seq<char>| #[trigger] self.here(r) == lookup(before, r) by {
                if is_open(before, r) {
                    let k = choose|k: int| 0 <= k < before.len() && (#[trigger] before[k]).name@ == r;
                    lemma_lookup(before, k);
                    assert(self.rooms@[k] == before[k]);
                    lemma_lookup(self.rooms@, k);
                } else if r == room@ {
                    lemma_lookup(self.rooms@, i as int);
                    assert(present(self.rooms@[i as int].members@) =~= Seq::empty());
                } else if is_open(self.rooms@, r) {
                    let k = choose|k: int|
                        0 <= k < self.rooms@.len() && (#[trigger] self.rooms@[k]).name@ == r;
                    assert(self.rooms@[k] == before[k]);
                }
            }
            assert forall|r: Seq<char>| #[trigger] self.holds(r) == (is_open(before, r) || r
                == room@) by {
                if is_open(before, r) {
                    let k = choose|k: int| 0 <= k < before.len() && (#[trigger] before[k]).name@ == r;
                    assert(self.rooms@[k] == before[k]);
                } else if r == room@ {
                    assert(self.rooms@[i as int].name@ == r);
                } else if self.holds(r) {
                    let k = choose|k: int|
                        0 <= k < self.rooms@.len() && (#[trigger] self.rooms@[k]).name@ == r;
                    assert(self.rooms@[k] == before[k]);
                }
            }
        }
        i
    }

    /// Take everyone who has gone quiet out of their room. The rooms stay, with
    /// or without anyone in them.
    fn clear_stale(&mut self, now: u64) -> (notes: Vec<Note>)
        requires
            old(self).wf(),
        ensures
            final(self).wf(),
            final(self).rooms@.len() == old(self).rooms@.len(),
            forall|i: int|
                0 <= i < old(self).rooms@.len() ==> (#[trigger] final(self).rooms@[i]).name@
                    == old(self).rooms@[i].name@,
            forall|r: Seq<char>| #[trigger] final(self).here(r) == fresh(old(self).here(r), now),
            tells_departures(remarks(notes@), |r: Seq<char>| old(self).here(r), now),
    {
        let ghost start = self.rooms@;
        let mut notes: Vec<Note> = Vec::new();
        let mut i: usize = 0;
        while i < self.rooms.len()
            invariant
                self.wf(),
                distinct(start),
                i <= self.rooms@.len() == start.len(),
                forall|j: int|
                    0 <= j < start.len() ==> (#[trigger] self.rooms@[j]).name@ == start[j].name@,
                forall|j: int|
                    0 <= j < i ==> present((#[trigger] self.rooms@[j]).members@) == fresh(
                        present(start[j].members@),
                        now,
                    ),
                forall|j: int| i <= j < start.len() ==> #[trigger] self.rooms@[j] == start[j],
                remarks(notes@).no_duplicates(),
                forall|k: int|
                    0 <= k < notes@.len() ==> exists|j: int|
                        0 <= j < i && has_stale(present((#[trigger] start[j]).members@), now)
                            && (#[trigger] notes@[k])@ == departure(
                            start[j].name@,
                            present(start[j].members@),
                            now,
                        ),
                forall|j: int|
                    0 <= j < i && has_stale(present((#[trigger] start[j]).members@), now)
                        ==> remarks(notes@).contains(
                        departure(start[j].name@, present(start[j].members@), now),
                    ),
            decreases self.rooms.len() - i,
        {
            let ghost held = self.rooms@;
            let ghost told = notes@;
            let before: usize = self.rooms[i].members.len();
            drop_stale(&mut self.rooms[i].members, now);
            let after: usize = self.rooms[i].members.len();
            proof {
                lemma_lookup_update(held, self.rooms@, i as int);
                present(start[i as int].members@).lemma_filter_len(
                    |m: Presence| age(now, m.seen) < GONE_AFTER,
                );
            }
            if after != before {
                notes.push(
                    Note::Left {
                        room: self.rooms[i].name.clone(),
                        gone: before - after,
                        here: after,
                    },
                );
                proof {
                    let d = departure(start[i as int].name@, present(start[i as int].members@), now);
                    assert(notes@.last()@ == d);
                    assert(remarks(notes@) =~= remarks(told).push(d));
                    assert(!remarks(told).contains(d)) by {
                        if remarks(told).contains(d) {
                            let k = remarks(told).index_of(d);
                            assert(told[k]@ == d);
                            let j = choose|j: int|
                                0 <= j < i && has_stale(
                                    present((#[trigger] start[j]).members@),
                                    now,
                                ) && told[k]@ == departure(
                                    start[j].name@,
                                    present(start[j].members@),
                                    now,
                                );
                            assert(start[j].name@ != start[i as int].name@);
                        }
                    }
                    assert(remarks(notes@).last() == d);
                    assert forall|j: int|
                        0 <= j < i && has_stale(
                            present((#[trigger] start[j]).members@),
                            now,
                        ) implies remarks(notes@).contains(
                        departure(start[j].name@, present(start[j].members@), now),
                    ) by {
                        let e = departure(start[j].name@, present(start[j].members@), now);
                        let k = remarks(told).index_of(e);
                        assert(remarks(notes@)[k] == e);
                    }
                    assert(remarks(notes@)[told.len() as int] == d);
                }
            }
            i = i + 1;
        }
        proof {
            lemma_cleared(start, self.rooms@, now);
            assert forall|k: int| 0 <= k < notes@.len() implies exists|j: int|
                0 <= j < start.len() && has_stale(present((#[trigger] start[j]).members@), now) && (
                #[trigger] notes@[k])@ == departure(
                    start[j].name@,
                    present(start[j].members@),
                    now,
                ) by {
                let j = choose|j: int|
                    0 <= j < i && has_stale(present((#[trigger] start[j]).members@), now)
                        && notes@[k]@ == departure(
                        start[j].name@,
                        present(start[j].members@),
                        now,
                    );
                assert(has_stale(present(start[j].members@), now));
            }
            lemma_told(start, notes@, now);
            assert((|r: Seq<char>| old(self).here(r)) =~= (|r: Seq<char>| lookup(start, r)));
        }
        notes
    }

    /// Forget everyone who has been silent for half a minute, and every room
    /// that nobody is left in.
    pub fn sweep(&mut self, now: u64) -> (notes: Vec<Note>)
        requires
            old(self).wf(),
        ensures
            final(self).wf(),
            forall|r: Seq<char>| #[trigger] final(self).here(r) == fresh(old(self).here(r), now),
            forall|r: Seq<char>| #[trigger] final(self).holds(r) == (final(self).here(r).len() > 0),
            final(self).nobody_stale(now),
            tells_departures(remarks(notes@), |r: Seq<char>| old(self).here(r), now),
    {
        let notes = self.clear_stale(now);
        let ghost cleared = *self;
        self.close_empty();
        proof {
            assert forall|r: Seq<char>| #[trigger] self.here(r) == fresh(old(self).here(r), now) by {
                assert(cleared.here(r) == fresh(old(self).here(r), now));
            }
            lemma_nobody_stale(self, |r: Seq<char>| old(self).here(r), now);
        }
        notes
    }

    /// When the next one here has been silent for half a minute, if they are
    /// not heard from before that.
    pub fn next_gone(&self) -> (at: Option<u64>)
        requires
            self.wf(),
        ensures
            match at {
                Some(t) => {
                    &&& exists|room: Seq<char>, i: int|
                        0 <= i < self.here(room).len() && t == gone_at(
                            #[trigger] self.here(room)[i],
                        )
                    &&& forall|room: Seq<char>, i: int|
                        0 <= i < self.here(room).len() ==> t <= gone_at(
                            #[trigger] self.here(room)[i],
                        )
                },
                None => forall|room: Seq<char>| (#[trigger] self.here(room)).len() == 0,
            },
    {
        let mut soonest: Option<u64> = None;
        let ghost mut by: (Seq<char>, int) = (Seq::empty(), 0);
        let mut i: usize = 0;
        while i < self.rooms.len()
            invariant
                self.wf(),
                i <= self.rooms@.len(),
                soonest matches Some(t) ==> 0 <= by.1 < self.here(by.0).len() && t == gone_at(
                    self.here(by.0)[by.1],
                ),
                forall|k: int, j: int|
                    0 <= k < i && 0 <= j < self.rooms@[k].members@.len() ==> by_then(
                        soonest,
                        (#[trigger] self.rooms@[k].members@[j])@,
                    ),
            decreases self.rooms.len() - i,
        {
            let room = &self.rooms[i];
            let mut m: usize = 0;
            proof {
                lemma_lookup(self.rooms@, i as int);
            }
            while m < room.members.len()
                invariant
                    self.wf(),
                    i < self.rooms@.len(),
                    *room == self.rooms@[i as int],
                    self.here(room.name@) == present(room.members@),
                    m <= room.members@.len(),
                    soonest matches Some(t) ==> 0 <= by.1 < self.here(by.0).len() && t == gone_at(
                        self.here(by.0)[by.1],
                    ),
                    forall|k: int, j: int|
                        0 <= k < i && 0 <= j < self.rooms@[k].members@.len()
                            ==> by_then(soonest, (#[trigger] self.rooms@[k].members@[j])@),
                    forall|j: int|
                        0 <= j < m ==> by_then(soonest, (#[trigger] room.members@[j])@),
                decreases room.members.len() - m,
            {
                let at: u64 = room.members[m].seen.saturating_add(GONE_AFTER);
                assert(at == gone_at(room.members@[m as int]@));
                assert(self.here(room.name@)[m as int] == room.members@[m as int]@);
                let sooner = match soonest {
                    Some(t) => at < t,
                    None => true,
                };
                if sooner {
                    soonest = Some(at);
                    proof {
                        by = (room.name@, m as int);
                    }
                }
                m = m + 1;
            }
            i = i + 1;
        }
        proof {
            assert forall|room: Seq<char>, j: int| 0 <= j < self.here(room).len() implies by_then(
                soonest,
                #[trigger] self.here(room)[j],
            ) by {
                let k = choose|k: int|
                    0 <= k < self.rooms@.len() && (#[trigger] self.rooms@[k]).name@ == room;
                lemma_lookup(self.rooms@, k);
                assert(self.here(room)[j] == self.rooms@[k].members@[j]@);
            }
            if soonest is None {
                assert forall|room: Seq<char>| (#[trigger] self.here(room)).len() == 0 by {
                    if self.here(room).len() > 0 {
                        assert(by_then(soonest, self.here(room)[0]));
                    }
                }
            } else {
                assert(soonest->0 == gone_at(self.here(by.0)[by.1]));
            }
        }
        soonest
    }

    /// Forget the rooms that nobody is in. The others stay as they are, in
    /// the order they were opened in.
    fn close_empty(&mut self)
        requires
            old(self).wf(),
        ensures
            final(self).wf(),
            final(self).rooms@ == old(self).rooms@.filter(|room: Room| occupied(room)),
            forall|r: Seq<char>| #[trigger] final(self).here(r) == old(self).here(r),
            forall|r: Seq<char>| #[trigger] final(self).holds(r) == (final(self).here(r).len() > 0),
    {
        let ghost before = self.rooms@;
        let ghost stays = |room: Room| occupied(room);
        let ghost mut k: int = 0;
        let mut i: usize = 0;
        proof {
            reveal(Seq::filter);
            assert(before.take(0).filter(stays) + before.skip(0) == before);
        }
        while i < self.rooms.len()
            invariant
                self.wf(),
                stays == (|room: Room| occupied(room)),
                0 <= k <= before.len(),
                i == before.take(k).filter(stays).len(),
                self.rooms@ == before.take(k).filter(stays) + before.skip(k),
                forall|r: Seq<char>| #[trigger] self.here(r) == old(self).here(r),
            decreases self.rooms.len() - i,
        {
            proof {
                lemma_filter_step(before, stays, k);
                assert(self.rooms@[i as int] == before[k]);
                assert(before.skip(k).drop_first() == before.skip(k + 1));
            }
            if self.rooms[i].members.is_empty() {
                let ghost prior = *self;
                let ghost held = self.rooms@;
                self.rooms.remove(i);
                proof {
                    lemma_close(held, i as int);
                    assert(self.rooms@ == held.remove(i as int));
                    assert forall|r: Seq<char>| #[trigger] self.here(r) == old(self).here(r) by {
                        assert(self.here(r) == prior.here(r));
                    }
                    assert forall|j: int| 0 <= j < self.rooms@.len() implies apart(
                        present((#[trigger] self.rooms@[j]).members@),
                    ) by {
                        let j2 = if j < i { j } else { j + 1 };
                        assert(self.rooms@[j] == held[j2]);
                    }
                }
            } else {
                i = i + 1;
            }
            proof {
                k = k + 1;
                assert(self.rooms@ =~= before.take(k).filter(stays) + before.skip(k));
            }
        }
        assert(before.take(k) == before);
        proof {
            assert forall|r: Seq<char>| #[trigger] self.holds(r) == (self.here(r).len() > 0) by {
                if self.holds(r) {
                    let n = choose|n: int|
                        0 <= n < self.rooms@.len() && (#[trigger] self.rooms@[n]).name@ == r;
                    lemma_lookup(self.rooms@, n);
                    lemma_filter_from(before, stays, n);
                }
            }
        }
    }
}

/// The room that a packet names.
pub open spec fn room_of(buf: Seq<u8>) -> Seq<char> {
    crate::net::field_text(buf.subrange(1, 1 + ROOM_LEN))
}

/// The name that a packet gives.
pub open spec fn name_of(buf: Seq<u8>) -> Seq<char> {
    crate::net::field_text(buf.subrange(1 + ROOM_LEN, HEAD as int))
}

/// Whether the relay takes any notice of a packet: it has a whole header
/// and names a room.
pub open spec fn counts(buf: Seq<u8>) -> bool {
    buf.len() >= HEAD && room_of(buf).len() > 0
}

/// The room that a packet names, once the packet has come.
pub open spec fn settle(here: Seq<Presence>, buf: Seq<u8>, from: Addr, now: u64) -> Seq<Presence> {
    if buf[0] == LEAVE {
        depart(here, from)
    } else {
        arrive(here, from, name_of(buf), now)
    }
}

/// Who a packet is answered or passed on to: sound goes to the others in the
/// room, anything else is answered to everyone in it.
pub open spec fn hearers(here: Seq<Presence>, buf: Seq<u8>, from: Addr) -> Seq<Addr> {
    if buf[0] == AUDIO {
        addresses(depart(here, from))
    } else {
        addresses(here)
    }
}

/// What they are sent: sound goes on as it came, and anything else brings
/// the list of who is in the room.
pub open spec fn answer(here: Seq<Presence>, buf: Seq<u8>) -> Seq<u8> {
    if buf[0] == AUDIO {
        buf
    } else {
        crate::net::roll(names(here))
    }
}

/// What is told of a packet when it comes: that someone new is here.
pub open spec fn greeting(here: Seq<Presence>, buf: Seq<u8>, from: Addr, now: u64) -> Seq<Remark> {
    if buf[0] != LEAVE && !is_here(here, from) {
        seq![
            Remark::Joined {
                room: room_of(buf),
                name: name_of(buf),
                here: fresh(settle(here, buf, from, now), now).len(),
            },
        ]
    } else {
        Seq::empty()
    }
}

/// What the relay does about a packet: the same bytes to each of some
/// addresses, and something to tell.
pub struct Outcome {
    pub bytes: Vec<u8>,
    pub to: Vec<Addr>,
    pub notes: Vec<Note>,
}

impl Relay {
    /// Who is in each room once a packet has come, the silent among them.
    pub open spec fn settled(&self, buf: Seq<u8>, from: Addr, now: u64) -> spec_fn(
        Seq<char>,
    ) -> Seq<Presence> {
        |room: Seq<char>|
            if room == room_of(buf) {
                settle(self.here(room), buf, from, now)
            } else {
                self.here(room)
            }
    }

    /// A packet has come from `from`. A packet without a whole header, or
    /// that names no room, is as if it had never come. With any other, whoever
    /// has been silent for half a minute is forgotten, in every room, before
    /// anyone is sent to or named.
    pub fn packet(&mut self, buf: &[u8], from: Addr, now: u64) -> (out: Outcome)
        requires
            old(self).wf(),
        ensures
            final(self).wf(),
            !counts(buf@) ==> {
                &&& out.bytes@.len() == 0 && out.to@.len() == 0 && out.notes@.len() == 0
                &&& forall|room: Seq<char>| #[trigger]
                    final(self).here(room) == old(self).here(room)
                &&& forall|room: Seq<char>| #[trigger]
                    final(self).holds(room) == old(self).holds(room)
            },
            counts(buf@) ==> {
                let room = room_of(buf@);
                let before = old(self).here(room);
                let rooms = old(self).settled(buf@, from, now);
                &&& out.bytes@ == answer(fresh(rooms(room), now), buf@)
                &&& out.to@ == hearers(fresh(rooms(room), now), buf@, from)
                &&& exists|left: Seq<Remark>|
                    #![trigger greeting(before, buf@, from, now) + left]
                    {
                        &&& remarks(out.notes@) == greeting(before, buf@, from, now) + left
                        &&& tells_departures(left, rooms, now)
                    }
                &&& forall|r: Seq<char>| #[trigger] final(self).here(r) == fresh(rooms(r), now)
                &&& forall|r: Seq<char>| #[trigger]
                    final(self).holds(r) == (final(self).here(r).len() > 0)
                &&& final(self).nobody_stale(now)
            },
    {
        let mut notes: Vec<Note> = Vec::new();
        if buf.len() < HEAD {
            return Outcome { bytes: Vec::new(), to: Vec::new(), notes };
        }
        let kind: u8 = buf[0];
        let room = unfixed(slice_subrange(buf, 1, 1 + ROOM_LEN));
        let name = unfixed(slice_subrange(buf, 1 + ROOM_LEN, HEAD));
        if room.as_str().is_empty() {
            return Outcome { bytes: Vec::new(), to: Vec::new(), notes };
        }
        let ghost rooms = self.settled(buf@, from, now);
        let ghost before = self.here(room@);
        let ghost called = room@;
        let at: usize = self.place(&room);
        let ghost placed = *self;
        let ghost held = self.rooms@;
        proof {
            lemma_lookup(held, at as int);
            assert(self.here(room@) == before);
        }
        let mut new = false;
        if kind == LEAVE {
            remove(&mut self.rooms[at].members, from);
        } else {
            new = touch(&mut self.rooms[at].members, from, &name, now);
        }
        proof {
            lemma_lookup_update(held, self.rooms@, at as int);
            assert forall|r: Seq<char>| #[trigger] self.here(r) == rooms(r) by {
                if r != room@ {
                    assert(placed.here(r) == old(self).here(r));
                }
            }
        }
        let ghost due = *self;
        let mut gone = self.clear_stale(now);
        let ghost cleared = *self;
        proof {
            assert((|r: Seq<char>| due.here(r)) =~= rooms);
            lemma_lookup(self.rooms@, at as int);
            assert(self.rooms@[at as int].name@ == called);
            assert(self.here(called) == fresh(rooms(called), now));
        }
        if new {
            let here: usize = self.rooms[at].members.len();
            notes.push(Note::Joined { room, name, here });
            assert(remarks(notes@)[0] == notes@[0]@);
        }
        assert(remarks(notes@) =~= greeting(before, buf@, from, now));
        let to = recipients(
            &self.rooms[at].members,
            if kind == AUDIO {
                Some(from)
            } else {
                None
            },
        );
        let bytes = if kind == AUDIO {
            slice_to_vec(buf)
        } else {
            roll_call(&self.rooms[at].members)
        };
        let ghost met = remarks(notes@);
        let ghost left = remarks(gone@);
        notes.append(&mut gone);
        assert(remarks(notes@) =~= met + left);
        self.close_empty();
        proof {
            assert forall|r: Seq<char>| #[trigger] self.here(r) == fresh(rooms(r), now) by {
                assert(cleared.here(r) == fresh(due.here(r), now));
            }
            lemma_nobody_stale(self, rooms, now);
        }
        Outcome { bytes, to, notes }
    }
}

/// Whoever is left of a room was in it before.
pub(crate) proof fn lemma_filter_from<A>(s: Seq<A>, pred: spec_fn(A) -> bool, i: int)
    requires
        0 <= i < s.filter(pred).len(),
    ensures
        s.contains(s.filter(pred)[i]),
        pred(s.filter(pred)[i]),
    decreases s.len(),
{
    reveal(Seq::filter);
    if s.len() > 0 {
        let front = s.drop_last();
        if i < front.filter(pred).len() {
            lemma_filter_from(front, pred, i);
            let k = front.index_of(front.filter(pred)[i]);
            assert(s[k] == front[k]);
        } else {
            assert(s[s.len() - 1] == s.last());
        }
    }
}

/// Nobody is left who has gone quiet.
proof fn lemma_nobody_stale(relay: &Relay, rooms: spec_fn(Seq<char>) -> Seq<Presence>, now: u64)
    requires
        forall|r: Seq<char>| #[trigger] relay.here(r) == fresh(rooms(r), now),
    ensures
        relay.nobody_stale(now),
{
    assert forall|room: Seq<char>, i: int| 0 <= i < relay.here(room).len() implies age(
        now,
        (#[trigger] relay.here(room)[i]).seen,
    ) < GONE_AFTER by {
        assert(relay.here(room) == fresh(rooms(room), now));
        lemma_filter_from(rooms(room), |m: Presence| age(now, m.seen) < GONE_AFTER, i);
    }
}

proof fn lemma_told(start: Seq<Room>, notes: Seq<Note>, now: u64)
    requires
        distinct(start),
        remarks(notes).no_duplicates(),
        forall|k: int|
            0 <= k < notes.len() ==> exists|j: int|
                0 <= j < start.len() && has_stale(present((#[trigger] start[j]).members@), now) && (
                #[trigger] notes[k])@ == departure(
                    start[j].name@,
                    present(start[j].members@),
                    now,
                ),
        forall|j: int|
            0 <= j < start.len() && has_stale(present((#[trigger] start[j]).members@), now)
                ==> remarks(notes).contains(
                departure(start[j].name@, present(start[j].members@), now),
            ),
    ensures
        tells_departures(remarks(notes), |r: Seq<char>| lookup(start, r), now),
{
    let rooms = |r: Seq<char>| lookup(start, r);
    let told = remarks(notes);
    assert forall|i: int| 0 <= i < told.len() implies exists|room: Seq<char>|
        has_stale(#[trigger] rooms(room), now) && #[trigger] told[i] == departure(
            room,
            rooms(room),
            now,
        ) by {
        assert(told[i] == notes[i]@);
        let j = choose|j: int|
            0 <= j < start.len() && has_stale(present((#[trigger] start[j]).members@), now)
                && notes[i]@ == departure(start[j].name@, present(start[j].members@), now);
        lemma_lookup(start, j);
        assert(rooms(start[j].name@) == present(start[j].members@));
    }
    assert forall|room: Seq<char>| has_stale(#[trigger] rooms(room), now) implies told.contains(
        departure(room, rooms(room), now),
    ) by {
        if is_open(start, room) {
            let k = choose|k: int| 0 <= k < start.len() && (#[trigger] start[k]).name@ == room;
            lemma_lookup(start, k);
        } else {
            reveal(Seq::filter);
        }
    }
}

proof fn lemma_cleared(start: Seq<Room>, end: Seq<Room>, now: u64)
    requires
        distinct(start),
        distinct(end),
        end.len() == start.len(),
        forall|j: int| 0 <= j < start.len() ==> (#[trigger] end[j]).name@ == start[j].name@,
        forall|j: int|
            0 <= j < start.len() ==> present((#[trigger] end[j]).members@) == fresh(
                present(start[j].members@),
                now,
            ),
    ensures
        forall|r: Seq<char>| #[trigger] lookup(end, r) == fresh(lookup(start, r), now),
{
    assert forall|r: Seq<char>| #[trigger] lookup(end, r) == fresh(lookup(start, r), now) by {
        if is_open(start, r) {
            let k = choose|k: int| 0 <= k < start.len() && (#[trigger] start[k]).name@ == r;
            lemma_lookup(start, k);
            assert(end[k].name@ == r);
            lemma_lookup(end, k);
        } else {
            if is_open(end, r) {
                let k = choose|k: int| 0 <= k < end.len() && (#[trigger] end[k]).name@ == r;
                assert(start[k].name@ == r);
            }
            reveal(Seq::filter);
        }
    }
}

proof fn lemma_close(rooms: Seq<Room>, at: int)
    requires
        distinct(rooms),
        0 <= at < rooms.len(),
        rooms[at].members@.len() == 0,
    ensures
        distinct(rooms.remove(at)),
        forall|r: Seq<char>| #[trigger] lookup(rooms.remove(at), r) == lookup(rooms, r),
{
    let rest = rooms.remove(at);
    assert(distinct(rest)) by {
        assert forall|i: int, j: int| 0 <= i < j < rest.len() implies (#[trigger] rest[i]).name@
            != (#[trigger] rest[j]).name@ by {
            let i2 = if i < at { i } else { i + 1 };
            let j2 = if j < at { j } else { j + 1 };
            assert(rest[i] == rooms[i2] && rest[j] == rooms[j2]);
            assert(rooms[i2].name@ != rooms[j2].name@);
        }
    }
    assert forall|r: Seq<char>| #[trigger] lookup(rest, r) == lookup(rooms, r) by {
        if is_open(rest, r) {
            let k = choose|k: int| 0 <= k < rest.len() && (#[trigger] rest[k]).name@ == r;
            let k2 = if k < at { k } else { k + 1 };
            assert(rest[k] == rooms[k2]);
            lemma_lookup(rest, k);
            lemma_lookup(rooms, k2);
        } else if is_open(rooms, r) {
            let k = choose|k: int| 0 <= k < rooms.len() && (#[trigger] rooms[k]).name@ == r;
            lemma_lookup(rooms, k);
            if k != at {
                let k2 = if k < at { k } else { k - 1 };
                assert(rest[k2] == rooms[k]);
            }
            assert(present(rooms[at].members@) =~= Seq::empty());
        }
    }
}

// ---------------------------------------------------------------------
// What holds of the relay
// ---------------------------------------------------------------------
/// Nobody is in a room twice.
pub proof fn law_nobody_is_here_twice(relay: &Relay, room: Seq<char>)
    requires
        relay.wf(),
    ensures
        apart(relay.here(room)),
{
    if is_open(relay.rooms@, room) {
        let k = choose|k: int|
            0 <= k < relay.rooms@.len() && (#[trigger] relay.rooms@[k]).name@ == room;
        lemma_lookup(relay.rooms@, k);
    }
}

/// Whether an address is in a room that some have been taken out of.
proof fn lemma_is_here_filter(here: Seq<Presence>, pred: spec_fn(Presence) -> bool, addr: Addr)
    requires
        forall|m: Presence| m.addr == addr ==> #[trigger] pred(m),
    ensures
        is_here(here.filter(pred), addr) == is_here(here, addr),
{
    if is_here(here, addr) {
        let k = choose|k: int| 0 <= k < here.len() && (#[trigger] here[k]).addr == addr;
        here.lemma_filter_contains(pred, k);
        let j = here.filter(pred).index_of(here[k]);
        assert(here.filter(pred)[j].addr == addr);
    }
    if is_here(here.filter(pred), addr) {
        let k = choose|k: int|
            0 <= k < here.filter(pred).len() && (#[trigger] here.filter(pred)[k]).addr == addr;
        lemma_filter_from(here, pred, k);
        let j = here.index_of(here.filter(pred)[k]);
        assert(here[j].addr == addr);
    }
}

/// Nobody is in a room that they have been taken out of.
proof fn lemma_depart(here: Seq<Presence>, from: Addr)
    ensures
        !is_here(depart(here, from), from),
        forall|addr: Addr|
            addr != from ==> #[trigger] is_here(depart(here, from), addr) == is_here(here, addr),
{
    let stays = |m: Presence| m.addr != from;
    if is_here(depart(here, from), from) {
        let k = choose|k: int|
            0 <= k < depart(here, from).len() && (#[trigger] depart(here, from)[k]).addr == from;
        lemma_filter_from(here, stays, k);
    }
    assert forall|addr: Addr| addr != from implies #[trigger] is_here(depart(here, from), addr)
        == is_here(here, addr) by {
        lemma_is_here_filter(here, stays, addr);
    }
}

/// Any packet at all counts as being here, except the one that says
/// goodbye. Nobody else comes or goes by it.
pub proof fn law_any_packet_counts_as_being_here(
    here: Seq<Presence>,
    buf: Seq<u8>,
    from: Addr,
    now: u64,
)
    ensures
        is_here(settle(here, buf, from, now), from) == (buf[0] != LEAVE),
        forall|addr: Addr|
            addr != from ==> #[trigger] is_here(settle(here, buf, from, now), addr) == is_here(
                here,
                addr,
            ),
{
    let after = settle(here, buf, from, now);
    lemma_depart(here, from);
    if buf[0] != LEAVE {
        if is_here(here, from) {
            let k = choose|k: int| 0 <= k < here.len() && (#[trigger] here[k]).addr == from;
            assert(after[k].addr == from);
        } else {
            assert(after[here.len() as int].addr == from);
        }
        assert forall|addr: Addr| addr != from implies #[trigger] is_here(after, addr) == is_here(
            here,
            addr,
        ) by {
            if is_here(here, addr) {
                let k = choose|k: int| 0 <= k < here.len() && (#[trigger] here[k]).addr == addr;
                assert(after[k].addr == addr);
            }
            if is_here(after, addr) {
                let k = choose|k: int| 0 <= k < after.len() && (#[trigger] after[k]).addr == addr;
                assert(k < here.len());
                assert(here[k].addr == addr);
            }
        }
    }
}

/// A name and an address are held for thirty seconds at a time, and no
/// longer: whoever else has been silent that long is not in the room once a
/// packet has come, and is not sent to.
pub proof fn law_the_silent_are_forgotten(
    here: Seq<Presence>,
    buf: Seq<u8>,
    from: Addr,
    now: u64,
    i: int,
)
    requires
        apart(here),
        0 <= i < here.len(),
        here[i].addr != from,
        age(now, here[i].seen) >= GONE_AFTER,
    ensures
        ({
            let left = fresh(settle(here, buf, from, now), now);
            &&& !is_here(left, here[i].addr)
            &&& !hearers(left, buf, from).contains(here[i].addr)
        }),
{
    let addr = here[i].addr;
    let after = settle(here, buf, from, now);
    let stays = |m: Presence| age(now, m.seen) < GONE_AFTER;
    let left = fresh(after, now);
    if is_here(left, addr) {
        let k = choose|k: int| 0 <= k < left.len() && (#[trigger] left[k]).addr == addr;
        lemma_filter_from(after, stays, k);
        let j = after.index_of(left[k]);
        let m = after[j];
        assert(here.contains(m)) by {
            if buf[0] == LEAVE {
                lemma_filter_from(here, |m: Presence| m.addr != from, j);
            } else {
                assert(m == here[j]);
            }
        }
        let n = here.index_of(m);
        assert(here[n].addr == here[i].addr);
        assert(n == i);
    }
    lemma_depart(left, from);
    lemma_addresses(left);
    lemma_addresses(depart(left, from));
}

/// Sound goes on as it came, to everyone in the room but the one it came
/// from, and to each of them once.
pub proof fn law_sound_reaches_the_others(here: Seq<Presence>, buf: Seq<u8>, from: Addr)
    requires
        buf[0] == AUDIO,
        apart(here),
    ensures
        answer(here, buf) == buf,
        forall|addr: Addr| #[trigger]
            hearers(here, buf, from).contains(addr) == (is_here(here, addr) && addr != from),
        hearers(here, buf, from).no_duplicates(),
{
    let rest = depart(here, from);
    let to = hearers(here, buf, from);
    lemma_depart(here, from);
    lemma_apart_filter(here, |m: Presence| m.addr != from);
    lemma_addresses(rest);
    assert forall|addr: Addr| #[trigger] to.contains(addr) == (is_here(here, addr) && addr
        != from) by {
        assert(to.contains(addr) == is_here(rest, addr));
    }
}

proof fn lemma_addresses(here: Seq<Presence>)
    ensures
        forall|addr: Addr| #[trigger] addresses(here).contains(addr) == is_here(here, addr),
        apart(here) ==> addresses(here).no_duplicates(),
{
    assert forall|addr: Addr| #[trigger] addresses(here).contains(addr) == is_here(here, addr) by {
        if is_here(here, addr) {
            let k = choose|k: int| 0 <= k < here.len() && (#[trigger] here[k]).addr == addr;
            assert(addresses(here)[k] == addr);
        }
        if addresses(here).contains(addr) {
            let k = addresses(here).index_of(addr);
            assert(here[k].addr == addr);
        }
    }
    if apart(here) {
        assert forall|i: int, j: int|
            0 <= i < addresses(here).len() && 0 <= j < addresses(here).len() && i != j implies
            addresses(here)[i] != addresses(here)[j] by {
            if i < j {
                assert(here[i].addr != here[j].addr);
            } else {
                assert(here[j].addr != here[i].addr);
            }
        }
    }
}

/// Anything but sound is answered: everyone in the room is told, once each,
/// who is in it, and reads the names that are there.
pub proof fn law_everyone_is_told_who_is_here(here: Seq<Presence>, buf: Seq<u8>, from: Addr)
    requires
        buf[0] != AUDIO,
        apart(here),
    ensures
        crate::net::reading(answer(here, buf)) == crate::net::Reading::Who(
            crate::net::named(
                names(here).map_values(
                    |name: Seq<char>|
                        crate::net::field_text(crate::net::field(name, NAME_MAX as nat)),
                ),
            ),
        ),
        forall|addr: Addr| #[trigger]
            hearers(here, buf, from).contains(addr) == is_here(here, addr),
        hearers(here, buf, from).no_duplicates(),
{
    crate::net::law_roll_reads_back(names(here));
    lemma_addresses(here);
}

/// Anyone using the same word is on the call: a packet lands in the room that
/// its sender named, under the name they gave, whatever comes after those.
pub proof fn law_a_packet_lands_in_its_room(
    kind: u8,
    room: Seq<char>,
    name: Seq<char>,
    rest: Seq<u8>,
)
    ensures
        room_of(crate::net::header(kind, room, name) + rest) == crate::net::field_text(
            crate::net::field(room, ROOM_LEN as nat),
        ),
        name_of(crate::net::header(kind, room, name) + rest) == crate::net::field_text(
            crate::net::field(name, NAME_MAX as nat),
        ),
        vstd::utf8::encode_utf8(room).len() <= ROOM_LEN && crate::net::tidy(room) ==> room_of(
            crate::net::header(kind, room, name) + rest,
        ) == room,
        vstd::utf8::encode_utf8(name).len() <= NAME_MAX && crate::net::tidy(name) ==> name_of(
            crate::net::header(kind, room, name) + rest,
        ) == name,
{
    let head = crate::net::header(kind, room, name);
    crate::net::law_header_never_moves(kind, room, name);
    assert((head + rest).subrange(1, 1 + ROOM_LEN) == head.subrange(1, 1 + ROOM_LEN));
    assert((head + rest).subrange(1 + ROOM_LEN, HEAD as int) == head.subrange(
        1 + ROOM_LEN,
        HEAD as int,
    ));
    if vstd::utf8::encode_utf8(room).len() <= ROOM_LEN {
        crate::net::law_text_survives(room, ROOM_LEN as nat);
    }
    if vstd::utf8::encode_utf8(name).len() <= NAME_MAX {
        crate::net::law_text_survives(name, NAME_MAX as nat);
    }
}

/// The relay keeps nothing of what is said: two packets with the same header
/// leave the same people in the same room, whatever sound they carry.
pub proof fn law_nothing_said_is_kept(
    relay: &Relay,
    one: Seq<u8>,
    other: Seq<u8>,
    from: Addr,
    now: u64,
)
    requires
        one.len() >= HEAD,
        other.len() >= HEAD,
        one.take(HEAD as int) == other.take(HEAD as int),
    ensures
        counts(one) == counts(other),
        forall|room: Seq<char>| #[trigger]
            relay.settled(one, from, now)(room) == relay.settled(other, from, now)(room),
        forall|room: Seq<char>| #[trigger]
            greeting(relay.here(room), one, from, now) == greeting(
                relay.here(room),
                other,
                from,
                now,
            ),
{
    let head = one.take(HEAD as int);
    assert(one[0] == head[0] && other[0] == head[0]);
    assert(one.subrange(1, 1 + ROOM_LEN) == head.subrange(1, 1 + ROOM_LEN));
    assert(other.subrange(1, 1 + ROOM_LEN) == head.subrange(1, 1 + ROOM_LEN));
    assert(one.subrange(1 + ROOM_LEN, HEAD as int) == head.subrange(1 + ROOM_LEN, HEAD as int));
    assert(other.subrange(1 + ROOM_LEN, HEAD as int) == head.subrange(
        1 + ROOM_LEN,
        HEAD as int,
    ));
}

/// What is said in one room stays in it: no other room is changed.
pub proof fn law_rooms_are_apart(
    relay: &Relay,
    buf: Seq<u8>,
    from: Addr,
    now: u64,
    room: Seq<char>,
)
    requires
        room != room_of(buf),
    ensures
        relay.settled(buf, from, now)(room) == relay.here(room),
{
}

// ---------------------------------------------------------------------
// What a packet does, member by member
// ---------------------------------------------------------------------
/// What a filter keeps.
pub(crate) proof fn lemma_filter_has<A>(s: Seq<A>, pred: spec_fn(A) -> bool, a: A)
    ensures
        s.filter(pred).contains(a) == (s.contains(a) && pred(a)),
{
    if s.contains(a) && pred(a) {
        s.lemma_filter_contains(pred, s.index_of(a));
    }
    if s.filter(pred).contains(a) {
        lemma_filter_from(s, pred, s.filter(pred).index_of(a));
    }
}

/// Two filters that agree wherever they are asked keep the same.
proof fn lemma_filter_same<A>(
    s: Seq<A>,
    t: Seq<A>,
    one: spec_fn(A) -> bool,
    other: spec_fn(A) -> bool,
)
    requires
        s.len() == t.len(),
        forall|i: int|
            0 <= i < s.len() ==> one(#[trigger] s[i]) == other(t[i]) && (one(s[i]) ==> s[i]
                == t[i]),
    ensures
        s.filter(one) == t.filter(other),
    decreases s.len(),
{
    reveal(Seq::filter);
    if s.len() > 0 {
        let (a, b) = (s.drop_last(), t.drop_last());
        assert forall|i: int| 0 <= i < a.len() implies one(#[trigger] a[i]) == other(b[i]) && (one(
            a[i],
        ) ==> a[i] == b[i]) by {
            assert(a[i] == s[i] && b[i] == t[i]);
        }
        lemma_filter_same(a, b, one, other);
        assert(s[s.len() - 1] == s.last() && t[t.len() - 1] == t.last());
        assert(one(s[s.len() - 1]) == other(t[t.len() - 1]));
    }
}

/// One filter after another is one filter.
proof fn lemma_filter_twice<A>(s: Seq<A>, one: spec_fn(A) -> bool, other: spec_fn(A) -> bool)
    ensures
        s.filter(one).filter(other) == s.filter(|a: A| one(a) && other(a)),
    decreases s.len(),
{
    reveal(Seq::filter);
    if s.len() > 0 {
        let front = s.drop_last();
        let both = |a: A| one(a) && other(a);
        lemma_filter_twice(front, one, other);
        if one(s.last()) {
            let kept = front.filter(one).push(s.last());
            assert(kept.drop_last() == front.filter(one));
            assert(kept.last() == s.last());
        }
        assert(both(s.last()) == (one(s.last()) && other(s.last())));
    }
}

/// What a filter keeps and what it does not are all there is.
proof fn lemma_filter_parts<A>(s: Seq<A>, one: spec_fn(A) -> bool, other: spec_fn(A) -> bool)
    requires
        forall|a: A| #[trigger] one(a) == !other(a),
    ensures
        s.filter(one).len() + s.filter(other).len() == s.len(),
    decreases s.len(),
{
    reveal(Seq::filter);
    if s.len() > 0 {
        lemma_filter_parts(s.drop_last(), one, other);
        assert(one(s.last()) == !other(s.last()));
    }
}

/// A packet changes nobody but its sender. Everyone else keeps their name and
/// the time they were last heard from, in every room, and stays until half a
/// minute after that time. In the room that the packet names they keep their
/// order too.
pub proof fn law_a_packet_changes_nobody_else(
    relay: &Relay,
    buf: Seq<u8>,
    from: Addr,
    now: u64,
    room: Seq<char>,
)
    ensures
        ({
            let before = relay.here(room);
            let after = fresh(relay.settled(buf, from, now)(room), now);
            &&& forall|m: Presence|
                m.addr != from || room != room_of(buf) ==> #[trigger] after.contains(m) == (
                before.contains(m) && now < m.seen + 30_000_000_000)
            &&& after.filter(|m: Presence| m.addr != from) == before.filter(
                |m: Presence| m.addr != from && now < m.seen + 30_000_000_000,
            )
        }),
{
    let before = relay.here(room);
    let settled = relay.settled(buf, from, now)(room);
    let lately = |m: Presence| age(now, m.seen) < GONE_AFTER;
    let others = |m: Presence| m.addr != from;
    let after = fresh(settled, now);
    assert forall|m: Presence|
        m.addr != from || room != room_of(buf) implies #[trigger] after.contains(m) == (
    before.contains(m) && now < m.seen + 30_000_000_000) by {
        lemma_filter_has(settled, lately, m);
        assert(settled.contains(m) == before.contains(m)) by {
            if room == room_of(buf) {
                lemma_settle_others(before, buf, from, now, m);
            }
        }
    }
    let both = |m: Presence| lately(m) && others(m);
    let wanted = |m: Presence| m.addr != from && now < m.seen + 30_000_000_000;
    lemma_filter_twice(settled, lately, others);
    if room != room_of(buf) {
        lemma_filter_same(before, before, both, wanted);
    } else if buf[0] == LEAVE {
        let late = |m: Presence| others(m) && both(m);
        lemma_filter_twice(before, others, both);
        lemma_filter_same(before, before, late, wanted);
    } else if is_here(before, from) {
        lemma_filter_same(settled, before, both, wanted);
    } else {
        let new = Presence { addr: from, name: name_of(buf), seen: now };
        assert(settled == before + seq![new]);
        Seq::filter_distributes_over_add(before, seq![new], both);
        lemma_filter_one(new, both);
        lemma_filter_same(before, before, both, wanted);
        assert(before.filter(both) + Seq::empty() == before.filter(both));
    }
}

/// Nobody but the sender of a packet comes, goes or is changed by it.
proof fn lemma_settle_others(
    here: Seq<Presence>,
    buf: Seq<u8>,
    from: Addr,
    now: u64,
    m: Presence,
)
    requires
        m.addr != from,
    ensures
        settle(here, buf, from, now).contains(m) == here.contains(m),
{
    let after = settle(here, buf, from, now);
    if buf[0] == LEAVE {
        lemma_filter_has(here, |m: Presence| m.addr != from, m);
    } else {
        if here.contains(m) {
            let k = here.index_of(m);
            assert(after[k] == m);
        }
        if after.contains(m) {
            let k = after.index_of(m);
            assert(k < here.len());
            assert(here[k] == m);
        }
    }
}

/// Whoever sends a packet is in the room it names once it has come, under the
/// name they gave and heard from at that moment, and the silent are gone by
/// then. Only a goodbye takes them out.
pub proof fn law_the_sender_has_just_been_heard(
    relay: &Relay,
    buf: Seq<u8>,
    from: Addr,
    now: u64,
)
    ensures
        ({
            let after = fresh(relay.settled(buf, from, now)(room_of(buf)), now);
            &&& buf[0] != LEAVE ==> after.contains(
                Presence { addr: from, name: name_of(buf), seen: now },
            )
            &&& forall|m: Presence| #[trigger]
                after.contains(m) && m.addr == from ==> buf[0] != LEAVE && m.name == name_of(buf)
                    && m.seen == now
        }),
{
    let here = relay.here(room_of(buf));
    let settled = settle(here, buf, from, now);
    let lately = |m: Presence| age(now, m.seen) < GONE_AFTER;
    let new = Presence { addr: from, name: name_of(buf), seen: now };
    lemma_filter_has(settled, lately, new);
    if buf[0] != LEAVE {
        if is_here(here, from) {
            let k = choose|k: int| 0 <= k < here.len() && (#[trigger] here[k]).addr == from;
            assert(settled[k] == new);
        } else {
            assert(settled[here.len() as int] == new);
        }
    }
    assert forall|m: Presence| #[trigger]
        fresh(settled, now).contains(m) && m.addr == from implies buf[0] != LEAVE && m.name
        == name_of(buf) && m.seen == now by {
        lemma_filter_has(settled, lately, m);
        if buf[0] == LEAVE {
            lemma_filter_has(here, |m: Presence| m.addr != from, m);
        } else {
            let k = settled.index_of(m);
            if k < here.len() {
                assert(settled[k] == if here[k].addr == from && is_here(here, from) {
                    new
                } else {
                    here[k]
                });
            }
        }
    }
}

/// People keep their places: whoever is known stays where they stand, and
/// whoever is new comes last.
pub proof fn law_people_keep_their_places(
    here: Seq<Presence>,
    buf: Seq<u8>,
    from: Addr,
    now: u64,
)
    requires
        buf[0] != LEAVE,
    ensures
        ({
            let after = settle(here, buf, from, now);
            let new = forall|i: int| 0 <= i < here.len() ==> (#[trigger] here[i]).addr != from;
            &&& forall|i: int| 0 <= i < here.len() ==> (#[trigger] after[i]).addr == here[i].addr
            &&& new ==> after.len() == here.len() + 1 && after.last().addr == from
            &&& !new ==> after.len() == here.len()
        }),
{
}

/// Whoever was heard from in the last half minute hears what another says, and
/// nobody else does: the sound goes, as it came, to each of the others once.
pub proof fn law_who_was_heard_lately_hears(
    relay: &Relay,
    buf: Seq<u8>,
    from: Addr,
    now: u64,
    to: Addr,
)
    requires
        relay.wf(),
        buf[0] == AUDIO,
    ensures
        ({
            let before = relay.here(room_of(buf));
            let after = fresh(relay.settled(buf, from, now)(room_of(buf)), now);
            &&& answer(after, buf) == buf
            &&& hearers(after, buf, from).no_duplicates()
            &&& hearers(after, buf, from).contains(to) <==> to != from && exists|i: int|
                0 <= i < before.len() && (#[trigger] before[i]).addr == to && now < before[i].seen
                    + 30_000_000_000
        }),
{
    let before = relay.here(room_of(buf));
    let after = fresh(relay.settled(buf, from, now)(room_of(buf)), now);
    law_a_packet_changes_nobody_else(relay, buf, from, now, room_of(buf));
    law_nobody_is_here_twice(relay, room_of(buf));
    lemma_settle_apart(before, buf, from, now);
    lemma_apart_filter(
        relay.settled(buf, from, now)(room_of(buf)),
        |m: Presence| age(now, m.seen) < GONE_AFTER,
    );
    law_sound_reaches_the_others(after, buf, from);
    if hearers(after, buf, from).contains(to) {
        let k = choose|k: int| 0 <= k < after.len() && (#[trigger] after[k]).addr == to;
        assert(after.contains(after[k]));
        assert(before.contains(after[k]));
        let n = before.index_of(after[k]);
        assert(before[n] == after[k]);
    }
    if to != from && exists|i: int|
        0 <= i < before.len() && (#[trigger] before[i]).addr == to && now < before[i].seen
            + 30_000_000_000 {
        let i = choose|i: int|
            0 <= i < before.len() && (#[trigger] before[i]).addr == to && now < before[i].seen
                + 30_000_000_000;
        assert(before.contains(before[i]));
        assert(after.contains(before[i]));
        let n = after.index_of(before[i]);
        assert(after[n].addr == to);
    }
}

/// A packet puts nobody in a room twice.
proof fn lemma_settle_apart(here: Seq<Presence>, buf: Seq<u8>, from: Addr, now: u64)
    requires
        apart(here),
    ensures
        apart(settle(here, buf, from, now)),
{
    if buf[0] == LEAVE {
        lemma_apart_filter(here, |m: Presence| m.addr != from);
    } else {
        let after = settle(here, buf, from, now);
        law_people_keep_their_places(here, buf, from, now);
        assert forall|i: int, j: int| 0 <= i < j < after.len() implies (#[trigger] after[i]).addr
            != (#[trigger] after[j]).addr by {
            assert(after[i].addr == here[i].addr);
            if j < here.len() {
                assert(here[i].addr != here[j].addr);
            }
        }
    }
}

/// Those who are sent to are sent to in the order in which they stand.
pub proof fn law_hearers_are_in_order(here: Seq<Presence>, buf: Seq<u8>, from: Addr)
    ensures
        buf[0] != AUDIO ==> hearers(here, buf, from).len() == here.len(),
        buf[0] == AUDIO ==> hearers(here, buf, from).len() == here.filter(
            |m: Presence| m.addr != from,
        ).len(),
        forall|i: int|
            0 <= i < hearers(here, buf, from).len() ==> #[trigger] hearers(here, buf, from)[i]
                == if buf[0] == AUDIO {
                here.filter(|m: Presence| m.addr != from)[i].addr
            } else {
                here[i].addr
            },
{
}

/// Someone new is told of, once, with the room, their name and how many are
/// there with them. Nobody else is, and a goodbye is not told.
pub proof fn law_someone_new_is_told_of(here: Seq<Presence>, buf: Seq<u8>, from: Addr, now: u64)
    ensures
        ({
            let new = forall|i: int| 0 <= i < here.len() ==> (#[trigger] here[i]).addr != from;
            let others = here.filter(|m: Presence| now < m.seen + 30_000_000_000);
            &&& buf[0] == LEAVE || !new ==> greeting(here, buf, from, now).len() == 0
            &&& buf[0] != LEAVE && new ==> greeting(here, buf, from, now) == seq![
                Remark::Joined {
                    room: room_of(buf),
                    name: name_of(buf),
                    here: others.len() + 1,
                },
            ]
        }),
{
    if buf[0] != LEAVE && !is_here(here, from) {
        let lately = |m: Presence| age(now, m.seen) < GONE_AFTER;
        let new = Presence { addr: from, name: name_of(buf), seen: now };
        assert(settle(here, buf, from, now) == here + seq![new]);
        Seq::filter_distributes_over_add(here, seq![new], lately);
        lemma_filter_one(new, lately);
        lemma_filter_same(
            here,
            here,
            lately,
            |m: Presence| now < m.seen + 30_000_000_000,
        );
    }
}

/// A room that someone has been silent in for half a minute is told of, once,
/// with how many of them there were and how many are left, and no other room.
pub proof fn law_every_departure_is_told(
    told: Seq<Remark>,
    rooms: spec_fn(Seq<char>) -> Seq<Presence>,
    now: u64,
    room: Seq<char>,
    gone: nat,
    left: nat,
)
    requires
        tells_departures(told, rooms, now),
    ensures
        told.no_duplicates(),
        told.contains(Remark::Left { room, gone, here: left }) <==> {
            &&& gone > 0
            &&& gone == rooms(room).filter(
                |m: Presence| now >= m.seen + 30_000_000_000,
            ).len()
            &&& left == rooms(room).filter(|m: Presence| now < m.seen + 30_000_000_000).len()
        },
        forall|i: int| 0 <= i < told.len() ==> (#[trigger] told[i]) is Left,
{
    lemma_departure(rooms(room), now);
    let remark = Remark::Left { room, gone, here: left };
    if told.contains(remark) {
        let i = told.index_of(remark);
        let r = choose|r: Seq<char>|
            has_stale(#[trigger] rooms(r), now) && told[i] == departure(r, rooms(r), now);
        assert(r == room);
    }
    assert forall|i: int| 0 <= i < told.len() implies (#[trigger] told[i]) is Left by {
        let r = choose|r: Seq<char>|
            has_stale(#[trigger] rooms(r), now) && told[i] == departure(r, rooms(r), now);
    }
}

proof fn lemma_departure(here: Seq<Presence>, now: u64)
    ensures
        ({
            let silent = here.filter(|m: Presence| now >= m.seen + 30_000_000_000).len();
            let left = here.filter(|m: Presence| now < m.seen + 30_000_000_000).len();
            &&& fresh(here, now).len() == left
            &&& here.len() - fresh(here, now).len() == silent
            &&& has_stale(here, now) == (silent > 0)
        }),
{
    let silent = |m: Presence| now >= m.seen + 30_000_000_000;
    let lately = |m: Presence| now < m.seen + 30_000_000_000;
    lemma_filter_parts(here, silent, lately);
    lemma_filter_same(here, here, |m: Presence| age(now, m.seen) < GONE_AFTER, lately);
}

/// A packet counts when it has a whole header and names a room, whatever comes
/// after that. One that is too short, or names none, does not.
pub proof fn law_a_packet_that_names_a_room_counts(
    kind: u8,
    room: Seq<char>,
    name: Seq<char>,
    rest: Seq<u8>,
    buf: Seq<u8>,
)
    ensures
        vstd::utf8::encode_utf8(room).len() <= 12 && room.len() > 0 && room.last() != '\0'
            ==> counts(crate::net::header(kind, room, name) + rest),
        buf.len() < 33 ==> !counts(buf),
        buf.len() >= 33 ==> counts(buf) == (crate::net::field_text(buf.subrange(1, 13)).len() > 0),
        buf.len() >= 33 && (forall|i: int| 1 <= i < 13 ==> #[trigger] buf[i] == 0) ==> !counts(buf),
{
    law_a_packet_lands_in_its_room(kind, room, name, rest);
    if buf.len() >= 33 && (forall|i: int| 1 <= i < 13 ==> #[trigger] buf[i] == 0) {
        let none: Seq<char> = Seq::empty();
        assert(buf.subrange(1, 13) =~= crate::net::field(none, 12));
        crate::net::law_text_survives(none, 12);
    }
}

/// The room and the name of a packet are in the first bytes of it, wherever
/// those came from, and nothing else says them.
pub proof fn law_a_header_says_who_and_where(buf: Seq<u8>)
    requires
        buf.len() >= 33,
    ensures
        room_of(buf) == crate::net::field_text(buf.subrange(1, 13)),
        name_of(buf) == crate::net::field_text(buf.subrange(13, 33)),
{
}

/// Someone is gone at the very moment from which they are left out.
pub proof fn law_gone_at_that_moment(m: Presence, now: u64)
    requires
        m.seen + 30_000_000_000 <= u64::MAX,
    ensures
        fresh(seq![m], now) == if now < gone_at(m) {
            seq![m]
        } else {
            Seq::empty()
        },
        gone_at(m) == m.seen + 30_000_000_000,
{
    lemma_filter_one(m, |m: Presence| age(now, m.seen) < GONE_AFTER);
}

/// What is told is the room, then who came or how many went, then how many are
/// there, in figures that stand for those numbers.
pub proof fn law_a_line_says_what_happened(
    room: Seq<char>,
    name: Seq<char>,
    gone: nat,
    here: nat,
)
    ensures
        exists|n: Seq<char>|
            #![trigger crate::args::value_of(n)]
            {
                &&& crate::args::all_figures(n)
                &&& crate::args::value_of(n) == here
                &&& remark_text(Remark::Joined { room, name, here }) == room + ": "@ + name
                    + " joined ("@ + n + " here)"@
            },
        exists|k: Seq<char>, n: Seq<char>|
            #![trigger crate::args::value_of(k), crate::args::value_of(n)]
            {
                &&& crate::args::all_figures(n) && crate::args::all_figures(k)
                &&& crate::args::value_of(n) == here
                &&& crate::args::value_of(k) == gone
                &&& remark_text(Remark::Left { room, gone, here }) == room + ": "@ + k + " left ("@
                    + n + " here)"@
            },
{
    crate::args::law_figures_stand_for_their_number(here);
    crate::args::law_figures_stand_for_their_number(gone);
    let n = crate::text::decimal_text(here);
    let k = crate::text::decimal_text(gone);
    assert(crate::args::value_of(n) == here && crate::args::value_of(k) == gone);
}

/// A note tells what it holds, each thing as itself.
pub proof fn law_a_note_tells_what_it_holds(note: Note)
    ensures
        note matches Note::Joined { room, name, here } ==> note@ == (Remark::Joined {
            room: room@,
            name: name@,
            here: here as nat,
        }),
        note matches Note::Left { room, gone, here } ==> note@ == (Remark::Left {
            room: room@,
            gone: gone as nat,
            here: here as nat,
        }),
{
}

} // verus!
