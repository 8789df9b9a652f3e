# gnome-foreground-booster

Raises device-memory protection (`dmem.low`) for the focused application in GNOME, and
gives every limit back when the focus is lost or the service stops.

## Layout

- `src/` is the library, verified with Verus. It touches nothing: every operation of the
  policy is a conversation, in which the library asks for one thing after another and its
  caller answers.
- `src/laws/` holds what the service promises, as proved theorems: no original limit is
  ever lost, whatever fails and wherever an operation is cut short; limits that other
  programs have written are left alone; unclear focus raises no limit; the boost follows
  the focus; a shutdown restores everything; after any run of operations every record that
  was stored is accounted for, and a shutdown leaves nothing of it behind.
- `app/` is the service around the library: files, extended attributes, watches, the bus
  and the main loop.
- `tests/` runs the library against a simulated system.

## What is assumed

The proofs in `src/laws/` speak of a system that nobody else changes while an operation
runs, and in which a request that is refused has no effect. Those on whole runs
(`laws::run`) let anything happen between operations, but that somebody else writes a
record; what they say of a cgroup's limits holds as long as nobody else changes those.

Three functions of the library call code that is not verified: decoding UTF-8
(`text::utf8`), and testing the bits of watch events (`watch::mask_contains`,
`watch::mask_intersects`).
