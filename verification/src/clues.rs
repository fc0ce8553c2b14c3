/*!
Types and systems to check puzzle constraints

A clue is an int `n` which indicate that there is `n` consecutive tiles
that are part of the solution.
*/
use vstd::prelude::*;
use crate::binmat::BinMat;

verus! {

/**
Clue vector type alias

A `ClueSet` is an array of clues related to one row or column of the puzzle.
Clues next to each other indicates that there is a certain number of tiles between
the two groups that are not part of the solution.

For instance `vec![1, 3, 2]` says that the line holds a group of 1 valid tile,
then a group of 3, then a group of 2, each separated by at least 1 non valid tile.
*/
pub type ClueSet = Vec<u8>;

/// The number of `true` values at the end of `s`.
pub open spec fn trail_trues(s: Seq<bool>) -> nat
    decreases s.len(),
{
    if s.len() > 0 && s.last() {
        1 + trail_trues(s.drop_last())
    } else {
        0
    }
}

/// The trailing run of `true` values is no longer than the line.
pub proof fn lemma_trail_trues_le_len(s: Seq<bool>)
    ensures
        trail_trues(s) <= s.len(),
    decreases s.len(),
{
    if s.len() > 0 && s.last() {
        lemma_trail_trues_le_len(s.drop_last());
    }
}

/// The lengths of the maximal runs of `true` values in `s`, from first to last.
pub open spec fn blocks(s: Seq<bool>) -> Seq<nat>
    decreases s.len(),
{
    if s.len() == 0 {
        Seq::empty()
    } else if !s.last() {
        blocks(s.drop_last())
    } else {
        proof {
            lemma_trail_trues_le_len(s);
        }
        blocks(s.take(s.len() - trail_trues(s))).push(trail_trues(s))
    }
}

/// The clues of a line: the lengths of its runs of valid tiles, or the single
/// clue `0` when the line has none.
pub open spec fn clues_spec(s: Seq<bool>) -> Seq<nat> {
    if blocks(s).len() == 0 {
        seq![0]
    } else {
        blocks(s)
    }
}

/// The number of `true` values in `s`.
pub open spec fn count_true(s: Seq<bool>) -> nat
    decreases s.len(),
{
    if s.len() == 0 {
        0
    } else {
        count_true(s.drop_last()) + if s.last() {
            1nat
        } else {
            0nat
        }
    }
}

/// The sum of the numbers of `s`.
pub open spec fn sum(s: Seq<nat>) -> nat
    decreases s.len(),
{
    if s.len() == 0 {
        0
    } else {
        sum(s.drop_last()) + s.last()
    }
}

/// The trailing run of `true` values is counted once in the line's `true` values.
proof fn lemma_count_trailing_run(s: Seq<bool>)
    ensures
        trail_trues(s) <= s.len(),
        count_true(s) == count_true(s.take(s.len() - trail_trues(s))) + trail_trues(s),
    decreases s.len(),
{
    lemma_trail_trues_le_len(s);
    if s.len() > 0 && s.last() {
        let d = s.drop_last();
        lemma_count_trailing_run(d);
        assert(d.take(d.len() - trail_trues(d)) =~= s.take(s.len() - trail_trues(s)));
    } else {
        assert(s.take(s.len() as int) =~= s);
    }
}

/// Clues describe the valid tiles exactly: every clue counts at least one tile,
/// and together they count every valid tile of the line once.
pub proof fn lemma_clues_count_valid_tiles(s: Seq<bool>)
    ensures
        sum(blocks(s)) == count_true(s),
        forall|k: int| 0 <= k < blocks(s).len() ==> #[trigger] blocks(s)[k] > 0,
    decreases s.len(),
{
    if s.len() > 0 {
        if !s.last() {
            lemma_clues_count_valid_tiles(s.drop_last());
        } else {
            lemma_count_trailing_run(s);
            let p = s.take(s.len() - trail_trues(s));
            lemma_clues_count_valid_tiles(p);
            let b = blocks(s);
            assert(b.drop_last() =~= blocks(p));
            assert forall|k: int| 0 <= k < b.len() implies #[trigger] b[k] > 0 by {
                if k < b.len() - 1 {
                    assert(b[k] == blocks(p)[k]);
                }
            }
        }
    }
}

/// A line made only of valid tiles has a trailing run as long as itself.
proof fn lemma_all_true_trail(s: Seq<bool>)
    requires
        forall|i: int| 0 <= i < s.len() ==> #[trigger] s[i],
    ensures
        trail_trues(s) == s.len(),
    decreases s.len(),
{
    if s.len() > 0 {
        lemma_all_true_trail(s.drop_last());
    }
}

/// A non-valid tile stops the trailing run of whatever follows it.
proof fn lemma_trail_after_false(a: Seq<bool>, b: Seq<bool>)
    ensures
        trail_trues(a + seq![false] + b) == trail_trues(b),
    decreases b.len(),
{
    let s = a + seq![false] + b;
    if b.len() == 0 {
        assert(s.last() == false);
    } else {
        assert(s.drop_last() =~= a + seq![false] + b.drop_last());
        assert(s.last() == b.last());
        lemma_trail_after_false(a, b.drop_last());
    }
}

/// The runs on either side of a non-valid tile are the runs of the whole line.
proof fn lemma_blocks_split(a: Seq<bool>, b: Seq<bool>)
    ensures
        blocks(a + seq![false] + b) == blocks(a) + blocks(b),
    decreases b.len(),
{
    let s = a + seq![false] + b;
    if b.len() == 0 {
        assert(s.drop_last() =~= a);
        assert(blocks(b) =~= Seq::<nat>::empty());
        assert(blocks(a) + blocks(b) =~= blocks(a));
    } else if !b.last() {
        assert(s.drop_last() =~= a + seq![false] + b.drop_last());
        lemma_blocks_split(a, b.drop_last());
    } else {
        lemma_trail_after_false(a, b);
        lemma_trail_trues_le_len(b);
        let k = trail_trues(b);
        let b2 = b.take(b.len() - k);
        assert(s.take(s.len() - k) =~= a + seq![false] + b2);
        lemma_blocks_split(a, b2);
        assert(blocks(a) + blocks(b2).push(k) =~= (blocks(a) + blocks(b2)).push(k));
    }
}

/// Reading a line backwards reads its runs backwards.
pub proof fn lemma_blocks_reverse(s: Seq<bool>)
    ensures
        blocks(s.reverse()) == blocks(s).reverse(),
    decreases s.len(),
{
    if exists|i: int| 0 <= i < s.len() && !s[i] {
        let i = choose|i: int| 0 <= i < s.len() && !s[i];
        let a = s.take(i);
        let b = s.skip(i + 1);
        assert(s =~= a + seq![false] + b);
        assert(s.reverse() =~= b.reverse() + seq![false] + a.reverse());
        lemma_blocks_split(a, b);
        lemma_blocks_split(b.reverse(), a.reverse());
        lemma_blocks_reverse(a);
        lemma_blocks_reverse(b);
        assert((blocks(a) + blocks(b)).reverse() =~= blocks(b).reverse() + blocks(a).reverse());
    } else {
        let r = s.reverse();
        assert forall|i: int| 0 <= i < s.len() implies #[trigger] s[i] by {}
        assert forall|i: int| 0 <= i < r.len() implies #[trigger] r[i] by {
            assert(r[i] == s[s.len() - 1 - i]);
        }
        lemma_all_true_trail(s);
        lemma_all_true_trail(r);
        if s.len() == 0 {
            assert(r =~= s);
            assert(blocks(s).reverse() =~= blocks(s));
        } else {
            assert(s.take(0) =~= Seq::<bool>::empty());
            assert(r.take(0) =~= Seq::<bool>::empty());
            assert(s.last());
            assert(r.last());
            assert(blocks(Seq::<bool>::empty()) =~= Seq::<nat>::empty());
            assert(blocks(s) == blocks(s.take(s.len() - trail_trues(s))).push(trail_trues(s)));
            assert(blocks(r) == blocks(r.take(r.len() - trail_trues(r))).push(trail_trues(r)));
            assert(blocks(s) =~= seq![s.len()]);
            assert(blocks(r) =~= seq![s.len()]);
            assert(blocks(s).reverse() =~= seq![s.len()]);
        }
    }
}

/// The clues of a line read backwards are the line's clues, backwards.
pub proof fn lemma_clues_reverse(s: Seq<bool>)
    ensures
        clues_spec(s.reverse()) == clues_spec(s).reverse(),
{
    lemma_blocks_reverse(s);
    if blocks(s).len() == 0 {
        assert(seq![0nat].reverse() =~= seq![0nat]);
    }
}

/// The trailing run of `true` values is made of `true` values and, unless it is the
/// whole line, is preceded by a `false`.
proof fn lemma_trail_trues_run(s: Seq<bool>)
    ensures
        trail_trues(s) <= s.len(),
        forall|j: int| s.len() - trail_trues(s) <= j < s.len() ==> #[trigger] s[j],
        trail_trues(s) < s.len() ==> !s[s.len() - 1 - trail_trues(s)],
    decreases s.len(),
{
    if s.len() > 0 && s.last() {
        let d = s.drop_last();
        lemma_trail_trues_run(d);
        assert forall|j: int| s.len() - trail_trues(s) <= j < s.len() implies #[trigger] s[j] by {
            if j < s.len() - 1 {
                assert(s[j] == d[j]);
            }
        }
        if trail_trues(s) < s.len() {
            assert(s[s.len() - 1 - trail_trues(s)] == d[d.len() - 1 - trail_trues(d)]);
        }
    }
}

/// `blocks(s)` lists the maximal runs of `true` values of `s`, from left to right:
/// the runs start at the returned positions, hold only `true` values, are bounded by
/// `false` values or the ends of the line, come in order without touching, and
/// together cover every `true` value.
pub proof fn lemma_blocks_are_runs(s: Seq<bool>) -> (starts: Seq<int>)
    ensures
        starts.len() == blocks(s).len(),
        forall|q: int|
            #![trigger starts[q]]
            #![trigger blocks(s)[q]]
            0 <= q < starts.len() ==> {
                &&& blocks(s)[q] > 0
                &&& 0 <= starts[q]
                &&& starts[q] + blocks(s)[q] <= s.len()
            },
        forall|q: int, j: int|
            #![trigger starts[q], s[j]]
            0 <= q < starts.len() && starts[q] <= j < starts[q] + blocks(s)[q] ==> s[j],
        forall|q: int| 0 <= q < starts.len() && #[trigger] starts[q] > 0 ==> !s[starts[q] - 1],
        forall|q: int|
            0 <= q < starts.len() && #[trigger] starts[q] + blocks(s)[q] < s.len() ==> !s[starts[q]
                + blocks(s)[q]],
        forall|q: int|
            0 <= q < starts.len() - 1 ==> #[trigger] starts[q] + blocks(s)[q] < starts[q + 1],
        forall|j: int|
            0 <= j < s.len() && #[trigger] s[j] ==> exists|q: int|
                #![trigger starts[q]] 0 <= q < starts.len() && starts[q] <= j < starts[q] + blocks(s)[q],
    decreases s.len(),
{
    if s.len() == 0 {
        return Seq::empty();
    }
    if !s.last() {
        let d = s.drop_last();
        let st = lemma_blocks_are_runs(d);
        assert(blocks(s) == blocks(d));
        assert forall|q: int|
            0 <= q < st.len() implies blocks(s)[q] > 0 && 0 <= #[trigger] st[q] && st[q]
                + blocks(s)[q] <= s.len() by {
            assert(blocks(d)[q] > 0 && st[q] + blocks(d)[q] <= d.len());
        }
        assert forall|q: int, j: int|
            #![trigger st[q], s[j]]
            0 <= q < st.len() && st[q] <= j < st[q] + blocks(s)[q] implies s[j] by {
            assert(d[j]);
        }
        assert forall|q: int| 0 <= q < st.len() && #[trigger] st[q] > 0 implies !s[st[q] - 1] by {
            assert(!d[st[q] - 1]);
        }
        assert forall|q: int|
            0 <= q < st.len() && #[trigger] st[q] + blocks(s)[q] < s.len() implies !s[st[q]
                + blocks(s)[q]] by {
            if st[q] + blocks(s)[q] < d.len() {
                assert(!d[st[q] + blocks(s)[q]]);
            }
        }
        assert forall|j: int| 0 <= j < s.len() && #[trigger] s[j] implies exists|q: int|
            #![trigger st[q]] 0 <= q < st.len() && st[q] <= j < st[q] + blocks(s)[q] by {
            assert(j < d.len());
            assert(d[j]);
        }
        return st;
    }
    lemma_trail_trues_run(s);
    let k = trail_trues(s);
    let n = s.len() as int;
    let p = s.take(n - k);
    let sp = lemma_blocks_are_runs(p);
    let bp = blocks(p);
    let b = blocks(s);
    assert(k >= 1);
    assert(b == bp.push(k));
    let st = sp.push(n - k);
    // the last run of `p` ends before `p` does, since `p` ends with a `false`
    assert forall|q: int| 0 <= q < sp.len() implies #[trigger] sp[q] + bp[q] < p.len() by {
        if sp[q] + bp[q] == p.len() {
            assert(p[p.len() - 1]);
            assert(!s[n - 1 - k]);
        }
    }
    assert forall|q: int|
        0 <= q < st.len() implies b[q] > 0 && 0 <= #[trigger] st[q] && st[q] + b[q] <= s.len() by {
        if q < sp.len() {
            assert(st[q] == sp[q] && b[q] == bp[q]);
            assert(bp[q] > 0 && sp[q] + bp[q] <= p.len());
        } else {
            assert(st[q] == n - k && b[q] == k);
        }
    }
    assert forall|q: int, j: int|
        #![trigger st[q], s[j]]
        0 <= q < st.len() && st[q] <= j < st[q] + b[q] implies s[j] by {
        if q < sp.len() {
            assert(st[q] == sp[q] && b[q] == bp[q]);
            assert(p[j]);
        }
    }
    assert forall|q: int| 0 <= q < st.len() && #[trigger] st[q] > 0 implies !s[st[q] - 1] by {
        if q < sp.len() {
            assert(st[q] == sp[q]);
            assert(!p[sp[q] - 1]);
        }
    }
    assert forall|q: int|
        0 <= q < st.len() && #[trigger] st[q] + b[q] < s.len() implies !s[st[q] + b[q]] by {
        if q < sp.len() {
            assert(st[q] == sp[q] && b[q] == bp[q]);
            assert(!p[sp[q] + bp[q]]);
        }
    }
    assert forall|q: int| 0 <= q < st.len() - 1 implies #[trigger] st[q] + b[q] < st[q + 1] by {
        assert(st[q] == sp[q] && b[q] == bp[q]);
        if q + 1 < sp.len() {
            assert(st[q + 1] == sp[q + 1]);
        }
    }
    assert forall|j: int| 0 <= j < s.len() && #[trigger] s[j] implies exists|q: int|
        #![trigger st[q]] 0 <= q < st.len() && st[q] <= j < st[q] + b[q] by {
        if j < n - k {
            assert(p[j]);
            let q = choose|q: int| #![trigger sp[q]] 0 <= q < sp.len() && sp[q] <= j < sp[q] + bp[q];
            assert(st[q] == sp[q] && b[q] == bp[q]);
        } else {
            assert(st[sp.len() as int] == n - k && b[sp.len() as int] == k);
        }
    }
    st
}

/// The clues of a line are the lengths of its maximal runs of valid tiles, one per
/// run, from left to right; a line without a valid tile has the single clue 0.
pub proof fn lemma_clues_are_runs(s: Seq<bool>) -> (starts: Seq<int>)
    ensures
        (forall|j: int| 0 <= j < s.len() ==> !#[trigger] s[j]) ==> clues_spec(s) == seq![0nat],
        (exists|j: int| 0 <= j < s.len() && #[trigger] s[j]) ==> {
            let c = clues_spec(s);
            &&& starts.len() == c.len()
            &&& forall|q: int|
                #![trigger starts[q]]
                #![trigger c[q]]
                0 <= q < c.len() ==> {
                    &&& c[q] > 0
                    &&& 0 <= starts[q]
                    &&& starts[q] + c[q] <= s.len()
                }
            &&& forall|q: int, j: int|
                #![trigger starts[q], s[j]]
                0 <= q < c.len() && starts[q] <= j < starts[q] + c[q] ==> s[j]
            &&& forall|q: int| 0 <= q < c.len() && #[trigger] starts[q] > 0 ==> !s[starts[q] - 1]
            &&& forall|q: int|
                0 <= q < c.len() && #[trigger] starts[q] + c[q] < s.len() ==> !s[starts[q] + c[q]]
            &&& forall|q: int| 0 <= q < c.len() - 1 ==> #[trigger] starts[q] + c[q] < starts[q + 1]
            &&& forall|j: int|
                0 <= j < s.len() && #[trigger] s[j] ==> exists|q: int|
                    #![trigger starts[q]] 0 <= q < c.len() && starts[q] <= j < starts[q] + c[q]
        },
{
    let starts = lemma_blocks_are_runs(s);
    let b = blocks(s);
    if exists|j: int| 0 <= j < s.len() && #[trigger] s[j] {
        let j = choose|j: int| 0 <= j < s.len() && #[trigger] s[j];
        let q = choose|q: int|
            #![trigger starts[q]]
            0 <= q < starts.len() && starts[q] <= j < starts[q] + b[q];
        assert(b.len() > 0);
        assert(clues_spec(s) == b);
    } else {
        if b.len() > 0 {
            assert(0 <= starts[0] && starts[0] + b[0] <= s.len() && b[0] > 0);
            assert(s[starts[0]]);
        }
    }
    starts
}

/// Clue values are the clues, in order, as natural numbers.
pub proof fn lemma_clue_values(v: Seq<u8>)
    ensures
        clue_values(v).len() == v.len(),
        forall|i: int| 0 <= i < v.len() ==> #[trigger] clue_values(v)[i] == v[i] as nat,
{
}

/// Clue values as natural numbers.
pub open spec fn clue_values(v: Seq<u8>) -> Seq<nat> {
    v.map_values(|c: u8| c as nat)
}

/// Whether no run of `true` values in `s` is longer than 255, so that each run's
/// length fits in a `u8`.
pub open spec fn runs_fit_u8(s: Seq<bool>) -> bool {
    forall|i: int| 0 <= i <= s.len() ==> #[trigger] trail_trues(s.take(i)) <= 255
}

/// A line of at most 255 tiles has no run longer than 255.
pub proof fn lemma_short_line_fits(s: Seq<bool>)
    requires
        s.len() <= 255,
    ensures
        runs_fit_u8(s),
{
    assert forall|i: int| 0 <= i <= s.len() implies #[trigger] trail_trues(s.take(i)) <= 255 by {
        lemma_trail_trues_le_len(s.take(i));
    }
}

/// Computes the clues of one line of tiles
fn clueset_new(data: &Vec<bool>) -> (r: ClueSet)
    requires
        runs_fit_u8(data@),
    ensures
        clue_values(r@) == clues_spec(data@),
{
    let mut clues: ClueSet = Vec::new();
    let mut count: u8 = 0;
    let mut i: usize = 0;
    while i < data.len()
        invariant
            i <= data.len(),
            runs_fit_u8(data@),
            count as nat == trail_trues(data@.take(i as int)),
            blocks(data@.take(i as int)) == if count > 0 {
                clue_values(clues@).push(count as nat)
            } else {
                clue_values(clues@)
            },
        decreases data.len() - i,
    {
        let ghost pre = data@.take(i as int);
        let ghost post = data@.take(i + 1);
        assert(post.drop_last() =~= pre);
        if data[i] {
            assert(trail_trues(post) == count + 1);
            assert(trail_trues(data@.take(i + 1)) <= 255);
            proof {
                lemma_trail_trues_le_len(pre);
                assert(post.take(post.len() - (count + 1)) =~= data@.take(i - count));
                if count > 0 {
                    assert(pre.take(pre.len() - count) =~= data@.take(i - count));
                    let b = blocks(data@.take(i - count));
                    assert(b.push(count as nat).drop_last() =~= b);
                    assert(clue_values(clues@).push(count as nat).drop_last() =~= clue_values(
                        clues@,
                    ));
                } else {
                    assert(data@.take(i - count) =~= pre);
                }
            }
            count = count + 1;
        } else {
            if count > 0 {
                clues.push(count);
                count = 0;
                assert(clue_values(clues@) =~= clue_values(clues@.drop_last()).push(
                    clues@.last() as nat,
                ));
            }
        }
        i = i + 1;
    }
    if count > 0 {
        clues.push(count);
        assert(clue_values(clues@) =~= clue_values(clues@.drop_last()).push(
            clues@.last() as nat,
        ));
    }
    assert(data@.take(data@.len() as int) =~= data@);
    if clues.len() == 0 {
        let r = vec![0u8];
        assert(clue_values(r@) =~= seq![0nat]);
        r
    } else {
        clues
    }
}

/**
Manages set of clues related to a puzzle
*/
#[derive(Debug, Clone)]
pub struct PuzzleClues {
    /// Clue set for each row
    pub row_clues: Vec<ClueSet>,
    /// Clue set for each columns
    pub col_clues: Vec<ClueSet>,
}

impl PuzzleClues {
    /// Returns clues from a binary matrix: one clue set per row, from top to
    /// bottom, and one per column, from left to right.
    pub fn from_mat(mat: &BinMat) -> (r: Self)
        requires
            mat.wf(),
        ensures
            r.row_clues@.len() == mat.height,
            r.col_clues@.len() == mat.width,
            forall|k: int|
                0 <= k < mat.height ==> clue_values(#[trigger] r.row_clues@[k]@) == clues_spec(
                    mat.row_spec(k),
                ),
            forall|k: int|
                0 <= k < mat.width ==> clue_values(#[trigger] r.col_clues@[k]@) == clues_spec(
                    mat.col_spec(k),
                ),
    {
        let w = mat.get_width();
        let h = mat.get_height();
        let mut row_clues: Vec<ClueSet> = Vec::new();
        let mut row: u8 = 0;
        while row < h
            invariant
                mat.wf(),
                h == mat.height,
                row <= h,
                row_clues@.len() == row,
                forall|k: int|
                    0 <= k < row ==> clue_values(#[trigger] row_clues@[k]@) == clues_spec(
                        mat.row_spec(k),
                    ),
            decreases h - row,
        {
            let line = mat.row_iter(row);
            match line {
                Ok(line) => {
                    proof {
                        lemma_short_line_fits(line@);
                    }
                    row_clues.push(clueset_new(&line));
                },
                Err(_) => {
                    assert(false);
                },
            }
            row = row + 1;
        }
        let mut col_clues: Vec<ClueSet> = Vec::new();
        let mut col: u8 = 0;
        while col < w
            invariant
                mat.wf(),
                w == mat.width,
                col <= w,
                col_clues@.len() == col,
                forall|k: int|
                    0 <= k < col ==> clue_values(#[trigger] col_clues@[k]@) == clues_spec(
                        mat.col_spec(k),
                    ),
            decreases w - col,
        {
            let line = mat.col_iter(col);
            match line {
                Ok(line) => {
                    proof {
                        lemma_short_line_fits(line@);
                    }
                    col_clues.push(clueset_new(&line));
                },
                Err(_) => {
                    assert(false);
                },
            }
            col = col + 1;
        }
        PuzzleClues { row_clues, col_clues }
    }

    /// Returns a reference to the clues of a row
    pub fn get_row(&self, id: usize) -> (r: Option<&Vec<u8>>)
        ensures
            id < self.row_clues@.len() ==> r == Some(&self.row_clues@[id as int]),
            id >= self.row_clues@.len() ==> r is None,
    {
        if id < self.row_clues.len() {
            Some(&self.row_clues[id])
        } else {
            None
        }
    }

    /// Returns a reference to the clues of a col
    pub fn get_col(&self, id: usize) -> (r: Option<&Vec<u8>>)
        ensures
            id < self.col_clues@.len() ==> r == Some(&self.col_clues@[id as int]),
            id >= self.col_clues@.len() ==> r is None,
    {
        if id < self.col_clues.len() {
            Some(&self.col_clues[id])
        } else {
            None
        }
    }
}

} // verus!
