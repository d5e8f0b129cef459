# circles

A simulation of thousands of moving circles that light up while they touch.

- `src/` is the verified library (Verus):
  - `collision`: the uniform spatial grid (`SpatialGrid`), its broad-phase
    query `find_candidate_pairs`, and in `collision::contacts` the
    bookkeeping that turns narrow-phase results into per-circle flags;
    `collision::pairs` states and proves what the broad phase reports, and
    `collision::laws` what it reports after a whole frame of inserts.
  - `engine`: the movement-engine kinds and the random choice among them.
  - `palette`: base and highlight colours.
  - `rng`: the random-number source, behind one trusted wrapper.
- `app/` is the window, the floating-point movement engines and geometry,
  and the frame loop, built on `raylib`.
