# cubegroup

Positions of the 3x3x3 cube as a group, verified with Verus.

A position is the code of the piece in each slot: eight corner codes (slot
in the low three bits, twist above) and twelve edge codes (slot in the low
four bits, flip in bit four). Every operation is specified over these codes
as sequences, and the library proves its laws over the same sequences.

- `src/corners.rs`, `src/edges.rs`: the model of the pieces (composition,
  inverse, net twist and flip, parity, cycles, Speffz letters) and the laws
  of composition: identity, associativity, inverse, net twist and flip.
- `src/corners/`, `src/edges/`: two representations of each, an array of
  pieces and byte lanes worked on lane-wise.
- `src/turns.rs`: the eighteen outer turns, canonical move sequences, and
  the notation of turns and of sequences of turns.
- `src/group.rs`: how turns combine (inverse turns, turns of one face, turns
  of one axis) and what turns keep.
- `src/parity.rs`: the parity that the cycle walk computes is the parity of
  the number of inversions, so each quarter turn changes it and every
  position that turns reach permutes corners and edges alike; the parity
  of a product is the exclusive or of the parities, and an inverse keeps
  it.
- `src/cycles.rs`: what the cycle walk finds on a permutation: cycles that
  follow the permutation, hold every moved slot exactly once, and come in
  the order of their lowest slots.
- `src/dr.rs`: the orientation coordinates and their turn tables.
- `src/speffz.rs`: reading and writing positions in Speffz letters.
- `src/perm.rs`, `src/lanes.rs`, `src/text.rs`: cycle walks, packing, and
  the calls into the standard library.
- `app/`: a demonstration program that prints positions and times turning
  and a depth-first search.
