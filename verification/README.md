# adaptuner

Adaptive just intonation for MIDI keyboards: the notes that are played are tuned as stacks of pure
octaves, fifths and major thirds (possibly tempered), and sent to a synthesizer that only knows
twelve-tone equal temperament, using pitch bends.

The library under `src/` is written in Verus; its public functions carry contracts that state
what they do, and Verus proves them. The calls into `num_rational`, `midi_msg` and std
(`Instant::now`, `String::push`) stand in a few small trusted wrappers, whose contracts say what
those functions do and are not proved.

- `rational`: exact rational numbers (the arithmetic is `num_rational`'s), with a proof that the
  model is exact: lowest terms are unique, and sums, differences and products are those of the
  numbers.
- `interval`: stacks of intervals, their target and actual (tempered) coefficients, stack types
  and temperaments, and the "fundamental" of two notes.
- `neighbourhood`: tunings of the notes relative to a reference, repeating after a period; what is
  stored is given back.
- `notename`: Johnston note names.
- `keystate`: which channels a key sounds on, pressed or held by the sustain pedal.
- `strategy`: chord patterns and how the sounding keys fit them; a static tuning strategy.
- `process`: parsing of incoming MIDI (by `midi_msg`) and tracking of keys and pedals; the
  bookkeeping for tuning by springs and rods: collecting the connections between the notes,
  merging the rods into an equivalent system in which every note hangs on at most one rod,
  counting through the combinations of candidate lengths, completing the intended intervals
  triangle by triangle, and telling whether a solution leaves every spring at its length.
- `backend`: the two pitch bend backends as state machines from events to MIDI messages, and the
  encoding of those messages (by `midi_msg`).
- `gui`: the state behind the windows that does not draw (latency), and what the staff shows:
  staff positions, the glyphs of accidentals, ledger lines, and the order in which the notes of a
  chord get their accidentals.

`app/` is the program around it: MIDI ports (`midir`), threads and channels, the floating point
conversions between semitones, frequencies and pitch bends, and a terminal interface.

`tests/` exercises the library on concrete values.
