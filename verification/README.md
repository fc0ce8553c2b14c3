# pkrs

Picross puzzle logic with machine-checked contracts.

- `src/binmat.rs`: the binary matrix holding a solution, its text format `w,h:bits`
  (reading, writing, and the proof that writing then reading gives the matrix back).
- `src/board.rs`: the board being played: toggling marks and picks, and when it is solved.
- `src/clues.rs`: the clues of each row and column (lengths of the runs of valid tiles).
- `src/text.rs`: decimal numbers, searching and splitting character sequences.
- `src/utils.rs`: range checks.
- `app/lib.rs`: reading a matrix from a file and writing one to a file.
