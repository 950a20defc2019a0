# gc_gamepad

Gamepads through Apple's GameController framework, with the decisions verified in Verus.

- `src/`: the library. Which pads are there and under which index, what counts as a
  pressed button and as a moved axis, the events that makes and their order, and when to
  turn the run loop. It takes and gives plain values.
- `tests/`: tests of the library.
- `app/`: the side that talks to the framework: it lists controllers, reads their
  controls and turns the run loop. It builds for Apple platforms only.

Readings cross the border as the bits of 32-bit floats. `src/binary32.rs` states what
scaling and thresholding do to them over integers, and the tests hold that against the
machine's own float arithmetic.

The one thing taken on trust is that the nil UUID of the `uuid` crate is all zeros.
