/*!
# A safe and robust picross library

Pkrs (pronounced "Picross") provides the core types and tools to create a picross game:
it handles the puzzle logic and state, and leaves the user experience to its users.

* `binmat`: the binary matrix that holds a puzzle's solution, and its text format `w,h:bits`;
* `board`: the puzzle being played, its tile states and whether it is solved;
* `clues`: the clues of each row and column of a solution.

A puzzle is made from a matrix: `BinMat::from_string` reads it, then `Board::from_mat`
builds the board to play and `PuzzleClues::from_mat` its clues.
*/
pub mod binmat;
pub mod board;
pub mod clues;
pub mod text;
pub mod utils;
