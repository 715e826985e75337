# stoffbuch_gate

The checks that guard a register of material parameters, the canonical form
its records are stored in, and the report a run of the checks writes, with
each function held to a contract and each contract proved by Verus.

## Layout

- `src/` is the verified library. Every check takes the listing of what git
  tracks (each path with the bytes of its working copy, or the reason they
  could not be read) and returns its verdict; nothing in it touches the
  machine.
  - `json`, `scan`, `form`, `canonical`: the grammar a record is read by, the
    reader held to it, the form a value is written in, and the check that
    refuses a record out of its form.
  - `sorting`, `fixed_point`: the order member names sort in, and the proof
    that the form of a form is itself, so that what the formatter writes is
    never refused.
  - `endings`, `guards`, `headless`, `invariants`, `surface`, `findings`,
    `provenance`: the other checks over the tree.
  - `parts`, `report`: the parts of a run, in order, the state a run keeps
    (it stops at the first failure), each line of the report, the tail that
    counts every part, and the verdict with its exit code.
  - `text`, `unicode`, `paths`, `tree`, `workspace`, `neighbours`: the byte
    and text operations the rest are written with.
- `app/` is the command: it finds the workspace, asks git what it tracks,
  reads the working copy, starts the commands a part runs, times them, and
  writes the bytes the library returns.
- `tests/` runs the library on fixed listings and byte strings.
