# glicol_synth

Building blocks of the glicol audio graph, verified with Verus.

- `src/` is the verified library. Samples travel through it as the bit
  patterns of IEEE-754 floats (`u32`): the library routes blocks between
  nodes, runs delay lines (on `dasp_ring_buffer`), schedules note events and
  held values, keeps the list of sounding voices, steps the envelope and
  clock state machines, and cuts pattern and code texts into pieces. Each
  public function states its result exactly; the laws that relate several
  calls (delays and schedules that compose over blocks, one impulse per
  period, routing messages) are public proof functions.
- `app/` is the audio nodes themselves: it converts blocks of floats to and
  from bit patterns, calls the library, and does the floating-point signal
  arithmetic (oscillators, filters, interpolation, the expression engines).
- `tests/` runs the library on concrete blocks.
