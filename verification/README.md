# brtt

The logic of a terminal for RTT channels, verified with Verus. A host program
attaches to a target through a debug probe, shows what the target's up channels
say, sends what is typed to a down channel and keeps a log.

`src/` is the library. Every executable function states what it returns or
changes, and Verus proves it:

- `terminal`, `stream`: the line that a terminal shows of a channel's output, and
  the bytes of the line as they came.
- `render`, `output`: the screen of a session with time stamps, channel labels,
  colours and the unfinished line.
- `lines`, `logger`, `channels`, `clock`: raw and decoded logs, merged or one for
  each channel.
- `elf`, `decode`, `filter`, `reader`: defmt tables, frames, filters and channels.
- `scan`: the search for the control block in the memory of a target, as a machine
  that names the next read or the next address to try.
- `cli`, `parse`, `probe`, `session`, `text`: options, probes, channels and texts.
- `keys`, `down`, `control`: keys, commands, the bytes that wait to be sent, and
  the course of a session as a machine that names the next action and is told
  what came of it.

Functions named `law_..` are theorems about several of these at once.

`app/` is the program around the library: it parses the command line, talks to
the probe, the keyboard, the screen and the file system, and performs the actions
that the library asks for.

`tests/` runs the library with the crates that it calls.
