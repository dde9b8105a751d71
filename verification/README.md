# hush

A voice call that sends nothing while you are quiet.

Two people join a room by name and talk. Each end sends twenty milliseconds of
Opus whenever someone is actually speaking, and not one byte when nobody is.
Neither end can reach the other through a home router, so both send to a relay,
which passes each packet on to the others in the room and forgets it.

## Layout

`src/` is the library: the rules of the call, verified with Verus.

| Module | Holds |
|---|---|
| `net` | the shape of a packet, written and read |
| `relay` | who is in which room, and where a packet goes on to |
| `audio` | samples and bytes, the energy of a frame, the sound gate |
| `speak` | which frames go out, and in what packets |
| `hear` | what a packet says, what was lost, what waits to be played |
| `pace` | when the speaker is fed |
| `video` | pictures out of a stream, and out of pieces |
| `screen` | what the screen says, and what the keys do |
| `text` | numbers and times in words, and the settings file |
| `args` | the command line |

Proof functions whose names begin with `law_` state what holds of the library
as a whole: that what is said is heard, that silence sends nothing, that rooms
are apart, that no byte of a picture is lost.

`app/` is the program around it: sockets, `arecord`, `aplay` and `ffmpeg`, the
Opus codec, the terminal, and the arithmetic on levels that is in floating
point. Run under the name `hush-relay` it is the relay alone.

## Files

- `~/.hush`: the relay to go through, one line of `host:port`.
