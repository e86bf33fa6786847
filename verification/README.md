# try_drain

Drains and cursors over a `Vec` that decide element by element what to do,
with their contracts proved by Verus.

- `src/flag.rs`: the decisions (`Flag`, `MoveFlag`).
- `src/_try_drain.rs`: the abstract drain state (`DrainState`), its step
  functions, and the state every drain shares (`_TryDrain`).
- `src/drain_refmut_flag.rs`, `src/drain_filter.rs`,
  `src/drain_element_flag.rs`, `src/drain_element_move_flag.rs`,
  `src/drain_element_streaming.rs`: the drains.
- `src/cursor.rs`: the cursor and its iterator.
- `src/exhausting.rs`: an iterator wrapper that consumes what is left.
- `src/laws.rs`: properties that hold over several steps.
- `src/lib.rs`: `DrainBuilder` and the `VecExtend` trait.
- `app/main.rs`: a small program using the library.

A drain holds a mutable borrow of the vector, which at every point holds
the elements kept so far followed by those not looked at yet; `finish`
ends a drain and states what the vector holds then (a filtering drain's
`finish` first filters the elements it has not looked at yet).

The vector is never emptied while a drain or cursor borrows it: an
element leaves it only when it is yielded or dropped, so a drain that is
leaked or dropped without `finish` leaves every other element in place, in
order. Verus runs no destructor, so the work a destructor would do (the
rest of a filtering drain's filtering, an `Exhausting` iterator's
consumption of what is left) is done by an explicit `finish`.
