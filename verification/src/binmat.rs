//! Binary matrix type
use vstd::prelude::*;
use crate::text::{
    all_digits, chars_of, decimal, find_char, first_index, is_digit,
    lemma_decimal, lemma_decimal_writes_n, lemma_digits_avoid,
    lemma_digits_value_reads_left_to_right, lemma_first_index, lemma_first_index_bounds,
    lemma_parse_decimal, lemma_split_shape, lemma_split_two, numeral_value, parse_u8,
    push_decimal, split_on,
};
use crate::utils::in_range;

verus! {

/// What can go wrong when using a binary matrix.
#[derive(Debug, PartialEq, Eq, Structural)]
pub enum BinMatError {
    OutOfBounds,
    InvalidFileFormat,
    FileNotFound,
    FileWriteError,
}

impl BinMatError {
    /// The human readable message of an error.
    pub open spec fn message(&self) -> Seq<char> {
        match self {
            BinMatError::OutOfBounds => "Coordinates are out of bounds"@,
            BinMatError::InvalidFileFormat => "Binary matrix format is invalid"@,
            BinMatError::FileNotFound => "Binary matrix file was not found"@,
            BinMatError::FileWriteError => "Binary matrix could not be written to file"@,
        }
    }

    /// Returns the human readable message of an error.
    pub fn to_string(&self) -> (r: String)
        ensures
            r@ == self.message(),
    {
        match self {
            BinMatError::OutOfBounds => String::from_str("Coordinates are out of bounds"),
            BinMatError::InvalidFileFormat => String::from_str("Binary matrix format is invalid"),
            BinMatError::FileNotFound => String::from_str("Binary matrix file was not found"),
            BinMatError::FileWriteError => String::from_str(
                "Binary matrix could not be written to file",
            ),
        }
    }
}

/**
A matrix of bool values

Carries `w` * `h` bool values, `w` being the amount of columns and `h` the amount of rows.
The value at column `x` and row `y` is stored at index `x + y * w`.

Its purpose is to initialize puzzles and their clues. That means this structure typically
contains the solution pattern.
*/
pub struct BinMat {
    /// The number of columns of a matrix
    pub width: u8,
    /// The number of rows of a matrix
    pub height: u8,
    /// The values of a matrix, row after row
    pub values: Vec<bool>,
}

/// The index of the cell at column `x` and row `y` in a matrix of width `w`.
pub open spec fn cell_index(x: int, y: int, w: int) -> int {
    x + y * w
}

/// `values` padded with `false` or cut so that it holds exactly `size` values.
pub open spec fn fit(values: Seq<bool>, size: nat) -> Seq<bool> {
    if values.len() < size {
        values + Seq::new((size - values.len()) as nat, |i: int| false)
    } else {
        values.take(size as int)
    }
}

/// The product of two byte values stays far below the smallest `usize` bound.
pub proof fn lemma_byte_product(a: int, b: int)
    requires
        0 <= a <= 255,
        0 <= b <= 255,
    ensures
        0 <= a * b <= 65025,
{
    assert(0 <= a * b <= 65025) by (nonlinear_arith)
        requires
            0 <= a <= 255,
            0 <= b <= 255,
    ;
}

/// Every cell of a `w` by `h` grid lies inside the grid's storage.
pub proof fn lemma_cell_in_grid(x: int, y: int, w: int, h: int)
    requires
        0 <= x < w,
        0 <= y < h,
    ensures
        0 <= cell_index(x, y, w) < w * h,
        cell_index(x, y, w) <= w * h - 1,
{
    assert(y * w <= (h - 1) * w) by (nonlinear_arith)
        requires
            0 <= y <= h - 1,
            0 <= w,
    ;
    assert((h - 1) * w == h * w - w) by (nonlinear_arith);
    assert(w * h == h * w) by (nonlinear_arith);
    assert(0 <= y * w) by (nonlinear_arith)
        requires
            0 <= y,
            0 <= w,
    ;
}

/// What the text `w,h:bits` stands for. The header before the first `:` must split
/// on `,` into exactly two pieces, each a `u8` numeral: the width, then the height.
/// Every character after that `:` is a value, `true` where it is `1`.
pub open spec fn parse_text(s: Seq<char>) -> Option<(u8, u8, Seq<bool>)> {
    let colon = first_index(s, ':');
    if colon < s.len() {
        let pieces = split_on(s.take(colon), ',');
        if pieces.len() == 2 && numeral_value(pieces[0]) is Some && numeral_value(
            pieces[1],
        ) is Some {
            Some(
                (
                    numeral_value(pieces[0]).unwrap(),
                    numeral_value(pieces[1]).unwrap(),
                    s.skip(colon + 1).map_values(|c: char| c == '1'),
                ),
            )
        } else {
            None
        }
    } else {
        None
    }
}

/// Every text that is read as a matrix has the shape `w,h:bits`: a first `:` at some
/// position `i`, a single `,` at some position `k` before it, and only decimal digits
/// elsewhere before `i`, at least one on each side of the `,`. The width and height
/// are the numbers those digits make, read from left to right, and the values are the
/// characters after the `:`, `true` exactly where a character is `1`.
pub proof fn lemma_parse_text_shape(s: Seq<char>) -> (ik: (int, int))
    ensures
        parse_text(s) matches Some((w, h, bits)) ==> {
            let (i, k) = ik;
            &&& 0 < k && k + 1 < i < s.len()
            &&& s[i] == ':'
            &&& s[k] == ','
            &&& forall|j: int| 0 <= j < i && j != k ==> '0' <= #[trigger] s[j] <= '9'
            &&& s.subrange(0, k).fold_left(0int, |acc: int, c: char| acc * 10 + (c as int - '0' as int)) == w
            &&& s.subrange(k + 1, i).fold_left(0int, |acc: int, c: char| acc * 10 + (c as int - '0' as int)) == h
            &&& bits.len() == s.len() - i - 1
            &&& forall|j: int| 0 <= j < bits.len() ==> #[trigger] bits[j] == (s[i + 1 + j] == '1')
        },
{
    let i = first_index(s, ':');
    lemma_first_index_bounds(s, ':');
    if i < s.len() {
        let header = s.take(i);
        lemma_split_shape(header, ',');
        lemma_first_index_bounds(header, ',');
        let k = first_index(header, ',');
        if parse_text(s) is Some {
            let a = header.take(k);
            let rest = header.skip(k + 1);
            assert(split_on(header, ',') == seq![a, rest]);
            assert(a =~= s.subrange(0, k));
            assert(rest =~= s.subrange(k + 1, i));
            lemma_digits_value_reads_left_to_right(a);
            lemma_digits_value_reads_left_to_right(rest);
            assert forall|j: int| 0 <= j < i && j != k implies '0' <= #[trigger] s[j] <= '9' by {
                if j < k {
                    assert(is_digit(a[j]));
                } else {
                    assert(is_digit(rest[j - k - 1]));
                }
            }
            return (i, k);
        }
    }
    (0, 0)
}

/// Conversely, every text of the shape `w,h:bits`, with numbers of at most 255
/// written in decimal digits (leading zeros allowed), is read as the matrix of width
/// `w`, height `h` and values `true` exactly where a character after the `:` is `1`.
pub proof fn lemma_parse_text_accepts(s: Seq<char>, i: int, k: int)
    requires
        0 < k && k + 1 < i < s.len(),
        s[i] == ':',
        s[k] == ',',
        forall|j: int| 0 <= j < i && j != k ==> '0' <= #[trigger] s[j] <= '9',
        s.subrange(0, k).fold_left(0int, |acc: int, c: char| acc * 10 + (c as int - '0' as int)) <= 255,
        s.subrange(k + 1, i).fold_left(0int, |acc: int, c: char| acc * 10 + (c as int - '0' as int)) <= 255,
    ensures
        parse_text(s) == Some(
            (
                s.subrange(0, k).fold_left(0int, |acc: int, c: char| acc * 10 + (c as int - '0' as int)) as u8,
                s.subrange(k + 1, i).fold_left(0int, |acc: int, c: char| acc * 10 + (c as int - '0' as int)) as u8,
                s.skip(i + 1).map_values(|c: char| c == '1'),
            ),
        ),
{
    lemma_first_index(s, ':', i);
    let header = s.take(i);
    assert forall|j: int| 0 <= j < k implies header[j] != ',' by {
        assert('0' <= s[j] <= '9');
    }
    lemma_first_index(header, ',', k);
    let a = header.take(k);
    let rest = header.skip(k + 1);
    assert(a =~= s.subrange(0, k));
    assert(rest =~= s.subrange(k + 1, i));
    assert(all_digits(a)) by {
        assert forall|j: int| 0 <= j < a.len() implies is_digit(#[trigger] a[j]) by {
            assert('0' <= s[j] <= '9');
        }
    }
    assert(all_digits(rest)) by {
        assert forall|j: int| 0 <= j < rest.len() implies is_digit(#[trigger] rest[j]) by {
            assert('0' <= s[k + 1 + j] <= '9');
        }
    }
    lemma_digits_avoid(rest, ',');
    lemma_split_shape(header, ',');
    assert(split_on(header, ',') == seq![a, rest]);
    lemma_digits_value_reads_left_to_right(a);
    lemma_digits_value_reads_left_to_right(rest);
}

/// The text `w,h:` followed by any characters, with `w` and `h` written in decimal,
/// is read as width `w` and height `h`, in that order.
pub proof fn lemma_parse_text_canonical(w: u8, h: u8, data: Seq<char>)
    ensures
        parse_text(decimal(w as nat) + seq![','] + decimal(h as nat) + seq![':'] + data)
            == Some((w, h, data.map_values(|c: char| c == '1'))),
{
    let dw = decimal(w as nat);
    let dh = decimal(h as nat);
    let s = dw + seq![','] + dh + seq![':'] + data;
    lemma_decimal_writes_n(w as nat);
    lemma_decimal_writes_n(h as nat);
    let k = dw.len() as int;
    let i = k + 1 + dh.len();
    assert forall|j: int| 0 <= j < i && j != k implies '0' <= #[trigger] s[j] <= '9' by {
        if j < k {
            assert(s[j] == dw[j]);
        } else {
            assert(s[j] == dh[j - k - 1]);
        }
    }
    assert(s.subrange(0, k) =~= dw);
    assert(s.subrange(k + 1, i) =~= dh);
    assert(s.skip(i + 1) =~= data);
    lemma_parse_text_accepts(s, i, k);
}

/// The characters `0` and `1` that stand for the values, in order.
pub open spec fn bits_text(values: Seq<bool>) -> Seq<char> {
    values.map_values(|b: bool| if b { '1' } else { '0' })
}

/// The text of a matrix: `w,h:` followed by one `0` or `1` per value.
pub open spec fn format_spec(w: u8, h: u8, values: Seq<bool>) -> Seq<char> {
    decimal(w as nat) + seq![','] + decimal(h as nat) + seq![':'] + bits_text(values)
}

/// The values once the one at index `i` is inverted.
pub open spec fn toggled(values: Seq<bool>, i: int) -> Seq<bool> {
    values.update(i, !values[i])
}

/// Toggling the same cell twice gives back the matrix's values.
pub proof fn lemma_toggle_twice(values: Seq<bool>, i: int)
    requires
        0 <= i < values.len(),
    ensures
        toggled(toggled(values, i), i) == values,
{
    assert(toggled(toggled(values, i), i) =~= values);
}

/// Two cells of a grid share an index only if they are the same cell.
pub proof fn lemma_cell_index_injective(x1: int, y1: int, x2: int, y2: int, w: int)
    requires
        0 <= x1 < w,
        0 <= x2 < w,
        0 <= y1,
        0 <= y2,
        cell_index(x1, y1, w) == cell_index(x2, y2, w),
    ensures
        x1 == x2,
        y1 == y2,
{
    if y1 < y2 {
        assert(y1 * w + w <= y2 * w) by (nonlinear_arith)
            requires
                y1 + 1 <= y2,
                0 <= w,
        ;
    } else if y2 < y1 {
        assert(y2 * w + w <= y1 * w) by (nonlinear_arith)
            requires
                y2 + 1 <= y1,
                0 <= w,
        ;
    }
}

/// Toggling cell `(x, y)` inverts that cell and leaves every other cell of the
/// matrix as it was.
pub proof fn lemma_toggle_only_that_cell(m: BinMat, x: int, y: int, x2: int, y2: int)
    requires
        m.wf(),
        m.in_bounds(x, y),
        m.in_bounds(x2, y2),
    ensures
        toggled(m.values@, cell_index(x, y, m.width as int))[cell_index(x2, y2, m.width as int)]
            == if x == x2 && y == y2 {
            !m.cell(x, y)
        } else {
            m.cell(x2, y2)
        },
{
    lemma_cell_in_grid(x, y, m.width as int, m.height as int);
    lemma_cell_in_grid(x2, y2, m.width as int, m.height as int);
    if cell_index(x, y, m.width as int) == cell_index(x2, y2, m.width as int) {
        lemma_cell_index_injective(x, y, x2, y2, m.width as int);
    }
}

/// Reading back the text of a well-formed matrix gives the same width, height and
/// values: `from_string(m.format())` rebuilds `m`.
pub proof fn lemma_format_roundtrip(w: u8, h: u8, values: Seq<bool>)
    requires
        values.len() == w * h,
    ensures
        parse_text(format_spec(w, h, values)) == Some((w, h, values)),
        fit(values, (w * h) as nat) == values,
{
    let dw = decimal(w as nat);
    let dh = decimal(h as nat);
    let header = dw + seq![','] + dh;
    let s = format_spec(w, h, values);
    lemma_decimal(w as nat);
    lemma_decimal(h as nat);
    assert(s =~= header + seq![':'] + bits_text(values));
    assert forall|j: int| 0 <= j < header.len() implies s[j] != ':' by {
        assert(s[j] == header[j]);
        if j < dw.len() {
            assert(header[j] == dw[j]);
        } else if j > dw.len() {
            assert(header[j] == dh[j - dw.len() - 1]);
        }
    }
    lemma_first_index(s, ':', header.len() as int);
    assert(s.take(header.len() as int) =~= header);
    lemma_split_two(dw, dh, ',');
    lemma_parse_decimal(w);
    lemma_parse_decimal(h);
    assert(s.skip(header.len() as int + 1) =~= bits_text(values));
    assert(bits_text(values).map_values(|c: char| c == '1') =~= values);
    assert(values.take(values.len() as int) =~= values);
}

/// The values kept from a text of `values.len()` values for a matrix of `size`
/// cells: exactly `size` of them, the first ones read, in order, and `false` for
/// the cells the text does not reach.
pub proof fn lemma_fit_keeps_first_values(values: Seq<bool>, size: nat)
    ensures
        fit(values, size).len() == size,
        forall|i: int|
            0 <= i < size ==> #[trigger] fit(values, size)[i] == (i < values.len() && values[i]),
{
}

/// The text of a matrix starts with its width written in decimal, then `,`, then
/// its height written in decimal, then `:`, and then holds one character per value,
/// in order: `1` for `true`, `0` for `false`.
pub proof fn lemma_format_text_layout(w: u8, h: u8, values: Seq<bool>)
    ensures
        ({
            let t = format_spec(w, h, values);
            let a = decimal(w as nat).len() as int;
            let b = decimal(h as nat).len() as int;
            &&& t.len() == a + b + 2 + values.len()
            &&& t.take(a) == decimal(w as nat)
            &&& t[a] == ','
            &&& t.subrange(a + 1, a + 1 + b) == decimal(h as nat)
            &&& t[a + 1 + b] == ':'
            &&& forall|j: int|
                0 <= j < values.len() ==> #[trigger] t[a + b + 2 + j] == if values[j] {
                    '1'
                } else {
                    '0'
                }
        }),
{
    let t = format_spec(w, h, values);
    let a = decimal(w as nat).len() as int;
    let b = decimal(h as nat).len() as int;
    assert(t.take(a) =~= decimal(w as nat));
    assert(t.subrange(a + 1, a + 1 + b) =~= decimal(h as nat));
}

/// Where the cells of a matrix are: cell `(x, y)` is the value at index
/// `x + y * width`; row `r` holds, left to right, the values at `c + r * width` for
/// each column `c`; column `c` holds, top to bottom, the values at `c + r * width`
/// for each row `r`; a cell is in bounds when `x < width` and `y < height`.
pub proof fn lemma_cell_layout(m: BinMat)
    ensures
        forall|x: int, y: int| #[trigger] m.cell(x, y) == m.values@[x + y * m.width],
        forall|x: int, y: int|
            #[trigger] m.in_bounds(x, y) <==> 0 <= x < m.width && 0 <= y < m.height,
        forall|r: int| #[trigger] m.row_spec(r).len() == m.width,
        forall|r: int, c: int|
            0 <= c < m.width ==> #[trigger] m.row_spec(r)[c] == m.values@[c + r * m.width],
        forall|c: int| #[trigger] m.col_spec(c).len() == m.height,
        forall|c: int, r: int|
            0 <= r < m.height ==> #[trigger] m.col_spec(c)[r] == m.values@[c + r * m.width],
        forall|x: int, y: int, w: int| #[trigger] cell_index(x, y, w) == x + y * w,
{
}

/// Toggling the value at index `i` inverts it and keeps every other value.
pub proof fn lemma_toggled_values(values: Seq<bool>, i: int)
    requires
        0 <= i < values.len(),
    ensures
        toggled(values, i).len() == values.len(),
        toggled(values, i)[i] == !values[i],
        forall|j: int|
            0 <= j < values.len() && j != i ==> #[trigger] toggled(values, i)[j] == values[j],
{
}

impl BinMat {
    /// Well-formedness: the matrix holds exactly `width * height` values.
    pub open spec fn wf(&self) -> bool {
        self.values@.len() == self.width * self.height
    }

    /// The value at column `x` and row `y`.
    pub open spec fn cell(&self, x: int, y: int) -> bool {
        self.values@[cell_index(x, y, self.width as int)]
    }

    /// Whether `(x, y)` designates a cell of the matrix.
    pub open spec fn in_bounds(&self, x: int, y: int) -> bool {
        0 <= x < self.width && 0 <= y < self.height
    }

    /// The values of row `row`, from left to right.
    pub open spec fn row_spec(&self, row: int) -> Seq<bool> {
        Seq::new(self.width as nat, |c: int| self.cell(c, row))
    }

    /// The values of column `col`, from top to bottom.
    pub open spec fn col_spec(&self, col: int) -> Seq<bool> {
        Seq::new(self.height as nat, |r: int| self.cell(col, r))
    }

    /// Returns the matrix's width
    pub fn get_width(&self) -> (r: u8)
        ensures
            r == self.width,
    {
        self.width
    }

    /// Returns the matrix's height
    pub fn get_height(&self) -> (r: u8)
        ensures
            r == self.height,
    {
        self.height
    }

    /// Returns a clone of the matrix's values
    pub fn get_mat(&self) -> (r: Vec<bool>)
        ensures
            r@ == self.values@,
    {
        let r = self.values.clone();
        assert(r@ =~= self.values@);
        r
    }

    /// Creates a new binary matrix, every value of which is `false`
    pub fn new(w: u8, h: u8) -> (r: Self)
        ensures
            r.wf(),
            r.width == w,
            r.height == h,
            r.values@ == Seq::new((w * h) as nat, |i: int| false),
    {
        proof {
            lemma_byte_product(w as int, h as int);
        }
        let size: usize = (w as usize) * (h as usize);
        let values = vec![false; size];
        assert(values@ =~= Seq::new((w * h) as nat, |i: int| false));
        BinMat { width: w, height: h, values }
    }

    /// Returns a binary matrix with initialized values: missing values are
    /// `false`, excess values are dropped.
    fn new_internal(w: u8, h: u8, values: Vec<bool>) -> (r: Self)
        ensures
            r.wf(),
            r.width == w,
            r.height == h,
            r.values@ == fit(values@, (w * h) as nat),
    {
        let mut values = values;
        proof {
            lemma_byte_product(w as int, h as int);
        }
        let size: usize = (w as usize) * (h as usize);
        let len = values.len();
        if len < size {
            let missing = size - len;
            let mut pad = vec![false; missing];
            assert(pad@ =~= Seq::new(missing as nat, |i: int| false));
            values.append(&mut pad);
        } else if len > size {
            values.truncate(size);
        }
        BinMat { width: w, height: h, values }
    }

    /// Inverse a value located at the x and y coordinates of the matrix
    /// May return an error if the given coordinates are out of range.
    pub fn toggle_val(&mut self, x: u8, y: u8) -> (r: Result<(), BinMatError>)
        requires
            old(self).wf(),
        ensures
            final(self).wf(),
            final(self).width == old(self).width,
            final(self).height == old(self).height,
            old(self).in_bounds(x as int, y as int) ==> r == Ok::<(), BinMatError>(())
                && final(self).values@ == toggled(
                old(self).values@,
                cell_index(x as int, y as int, old(self).width as int),
            ),
            !old(self).in_bounds(x as int, y as int) ==> r == Err::<(), BinMatError>(
                BinMatError::OutOfBounds,
            ) && final(self).values@ == old(self).values@,
    {
        if !in_range(&x, 0, self.width) || !in_range(&y, 0, self.height) {
            return Err(BinMatError::OutOfBounds);
        }
        proof {
            lemma_cell_in_grid(x as int, y as int, self.width as int, self.height as int);
            lemma_byte_product(y as int, self.width as int);
            lemma_byte_product(self.width as int, self.height as int);
        }
        let i: usize = x as usize + (y as usize) * (self.width as usize);
        let v = self.values[i];
        self.values.set(i, !v);
        Ok(())
    }

    /// Returns a value located at the x and y coordinates of the matrix
    /// May return an error if the given coordinates are out of range.
    pub fn get_val(&self, x: u8, y: u8) -> (r: Result<bool, BinMatError>)
        requires
            self.wf(),
        ensures
            self.in_bounds(x as int, y as int) ==> r == Ok::<bool, BinMatError>(
                self.cell(x as int, y as int),
            ),
            !self.in_bounds(x as int, y as int) ==> r == Err::<bool, BinMatError>(
                BinMatError::OutOfBounds,
            ),
    {
        if !in_range(&x, 0, self.width) || !in_range(&y, 0, self.height) {
            return Err(BinMatError::OutOfBounds);
        }
        proof {
            lemma_cell_in_grid(x as int, y as int, self.width as int, self.height as int);
            lemma_byte_product(y as int, self.width as int);
            lemma_byte_product(self.width as int, self.height as int);
        }
        Ok(self.values[x as usize + (y as usize) * (self.width as usize)])
    }

    /// Extracts the values of one of the matrix's rows, from left to right
    /// May return an error if the given row is out of range.
    pub fn row_iter(&self, row: u8) -> (r: Result<Vec<bool>, BinMatError>)
        requires
            self.wf(),
        ensures
            row < self.height ==> (r matches Ok(v) && v@ == self.row_spec(row as int)),
            row >= self.height ==> r == Err::<Vec<bool>, BinMatError>(BinMatError::OutOfBounds),
    {
        if !in_range(&row, 0, self.height) {
            return Err(BinMatError::OutOfBounds);
        }
        let mut out: Vec<bool> = Vec::new();
        let mut col: u8 = 0;
        while col < self.width
            invariant
                self.wf(),
                row < self.height,
                col <= self.width,
                out@ == self.row_spec(row as int).take(col as int),
            decreases self.width - col,
        {
            proof {
                lemma_cell_in_grid(col as int, row as int, self.width as int, self.height as int);
                lemma_byte_product(row as int, self.width as int);
                lemma_byte_product(self.width as int, self.height as int);
            }
            out.push(self.values[(row as usize) * (self.width as usize) + col as usize]);
            col = col + 1;
            assert(out@ =~= self.row_spec(row as int).take(col as int));
        }
        assert(out@ =~= self.row_spec(row as int));
        Ok(out)
    }

    /// Extracts the values of one of the matrix's columns, from top to bottom
    /// May return an error if the given col is out of range.
    pub fn col_iter(&self, col: u8) -> (r: Result<Vec<bool>, BinMatError>)
        requires
            self.wf(),
        ensures
            col < self.width ==> (r matches Ok(v) && v@ == self.col_spec(col as int)),
            col >= self.width ==> r == Err::<Vec<bool>, BinMatError>(BinMatError::OutOfBounds),
    {
        if !in_range(&col, 0, self.width) {
            return Err(BinMatError::OutOfBounds);
        }
        let mut out: Vec<bool> = Vec::new();
        let mut row: u8 = 0;
        while row < self.height
            invariant
                self.wf(),
                col < self.width,
                row <= self.height,
                out@ == self.col_spec(col as int).take(row as int),
            decreases self.height - row,
        {
            proof {
                lemma_cell_in_grid(col as int, row as int, self.width as int, self.height as int);
                lemma_byte_product(row as int, self.width as int);
                lemma_byte_product(self.width as int, self.height as int);
            }
            out.push(self.values[(row as usize) * (self.width as usize) + col as usize]);
            row = row + 1;
            assert(out@ =~= self.col_spec(col as int).take(row as int));
        }
        assert(out@ =~= self.col_spec(col as int));
        Ok(out)
    }
    /// Reads the text format `w,h:[0|1]*` into its width, height and values,
    /// without adjusting the number of values.
    /// Returns an error if there is no `:`, or if the header before it is not two
    /// `u8` numerals joined by a single `,`.
    pub fn parse_format(content: &String) -> (r: Result<(u8, u8, Vec<bool>), BinMatError>)
        ensures
            match r {
                Ok((w, h, v)) => parse_text(content@) == Some((w, h, v@)),
                Err(e) => e == BinMatError::InvalidFileFormat && parse_text(content@) is None,
            },
    {
        let v = chars_of(content.as_str());
        let n = v.len();
        let colon = find_char(&v, 0, n, ':');
        assert(v@.subrange(0, n as int) =~= v@);
        if colon == n {
            return Err(BinMatError::InvalidFileFormat);
        }
        let ghost header = v@.take(colon as int);
        assert(v@.subrange(0, colon as int) =~= header);
        let comma = find_char(&v, 0, colon, ',');
        let second = if comma < colon {
            find_char(&v, comma + 1, colon, ',')
        } else {
            colon
        };
        proof {
            lemma_split_shape(header, ',');
            if comma < colon {
                assert(header.skip(comma + 1) =~= v@.subrange(comma + 1, colon as int));
                assert(header.take(comma as int) =~= v@.subrange(0, comma as int));
            }
        }
        if comma == colon || second < colon {
            return Err(BinMatError::InvalidFileFormat);
        }
        let w = parse_u8(&v, 0, comma);
        let h = parse_u8(&v, comma + 1, colon);
        let mut bits: Vec<bool> = Vec::new();
        let mut k: usize = colon + 1;
        while k < n
            invariant
                colon < k <= n == v.len(),
                bits@ == v@.subrange(colon + 1, k as int).map_values(|c: char| c == '1'),
            decreases n - k,
        {
            bits.push(v[k] == '1');
            k = k + 1;
            assert(bits@ =~= v@.subrange(colon + 1, k as int).map_values(|c: char| c == '1'));
        }
        assert(v@.subrange(colon + 1, n as int) =~= v@.skip(colon + 1));
        match (w, h) {
            (Some(w), Some(h)) => Ok((w, h, bits)),
            _ => Err(BinMatError::InvalidFileFormat),
        }
    }

    /**
    Builds a binary matrix from its text format `w,h:[0|1]*`, for instance `2,2:0110`.

    Values are read in order, `1` standing for `true`; missing values are `false`
    and excess values are dropped. Returns an error if the format is not respected.
    */
    pub fn from_string(content: String) -> (r: Result<Self, BinMatError>)
        ensures
            match parse_text(content@) {
                Some((w, h, bits)) => r matches Ok(m) && m.wf() && m.width == w && m.height == h
                    && m.values@ == fit(bits, (w * h) as nat),
                None => r == Err::<Self, BinMatError>(BinMatError::InvalidFileFormat),
            },
    {
        match Self::parse_format(&content) {
            Ok((w, h, bits)) => Ok(Self::new_internal(w, h, bits)),
            Err(e) => Err(e),
        }
    }

    /// Formats a binary matrix to store it into a file: `w,h:` followed by one
    /// `0` or `1` per value.
    pub fn format(&self) -> (r: String)
        ensures
            r@ == format_spec(self.width, self.height, self.values@),
    {
        proof {
            reveal_strlit(",");
            reveal_strlit(":");
            reveal_strlit("0");
            reveal_strlit("1");
        }
        let mut out = String::new();
        push_decimal(&mut out, self.width as u64);
        out.append(",");
        push_decimal(&mut out, self.height as u64);
        out.append(":");
        let ghost head = out@;
        let mut i: usize = 0;
        while i < self.values.len()
            invariant
                i <= self.values.len(),
                head == decimal(self.width as nat) + seq![','] + decimal(self.height as nat)
                    + seq![':'],
                out@ == head + bits_text(self.values@.take(i as int)),
            decreases self.values.len() - i,
        {
            let ghost before = out@;
            proof {
                reveal_strlit("0");
                reveal_strlit("1");
            }
            if self.values[i] {
                out.append("1");
            } else {
                out.append("0");
            }
            let ghost ch = if self.values@[i as int] { '1' } else { '0' };
            assert(out@ == before + seq![ch]);
            i = i + 1;
            assert(bits_text(self.values@.take(i as int)) =~= bits_text(
                self.values@.take(i - 1),
            ).push(ch));
            assert(out@ =~= head + bits_text(self.values@.take(i as int)));
        }
        assert(self.values@.take(i as int) =~= self.values@);
        out
    }

    /// The text format of the matrix, as `format` gives it.
    pub fn to_string(&self) -> (r: String)
        ensures
            r@ == format_spec(self.width, self.height, self.values@),
    {
        self.format()
    }
}

} // verus!
