//! Character-level helpers used by the matrix text format: decimal numbers,
//! searching for a separator and splitting on it.
use vstd::prelude::*;

verus! {

/// The character of a decimal digit `d < 10`.
pub open spec fn digit_char(d: nat) -> char {
    if d == 0 { '0' }
    else if d == 1 { '1' }
    else if d == 2 { '2' }
    else if d == 3 { '3' }
    else if d == 4 { '4' }
    else if d == 5 { '5' }
    else if d == 6 { '6' }
    else if d == 7 { '7' }
    else if d == 8 { '8' }
    else { '9' }
}

/// Whether `c` is one of the ASCII digits `0` to `9`.
pub open spec fn is_digit(c: char) -> bool {
    '0' <= c && c <= '9'
}

/// The value of an ASCII digit character.
pub open spec fn digit_value(c: char) -> nat {
    ((c as u32) - ('0' as u32)) as nat
}

/// The shortest decimal writing of `n`, without sign or leading zeros.
pub open spec fn decimal(n: nat) -> Seq<char>
    decreases n,
{
    if n < 10 {
        seq![digit_char(n)]
    } else {
        decimal(n / 10).push(digit_char(n % 10))
    }
}

/// Whether every character of `s` is a decimal digit.
pub open spec fn all_digits(s: Seq<char>) -> bool {
    forall|i: int| 0 <= i < s.len() ==> is_digit(#[trigger] s[i])
}

/// The number that a sequence of decimal digits stands for (leading zeros allowed).
pub open spec fn digits_value(s: Seq<char>) -> nat
    decreases s.len(),
{
    if s.len() == 0 {
        0
    } else {
        digits_value(s.drop_last()) * 10 + digit_value(s.last())
    }
}

/// The value of a `u8` numeral: one or more decimal digits (leading zeros allowed)
/// whose value does not exceed 255; `None` for any other text.
pub open spec fn numeral_value(s: Seq<char>) -> Option<u8> {
    if s.len() > 0 && all_digits(s) && digits_value(s) <= 255 {
        Some(digits_value(s) as u8)
    } else {
        None
    }
}

/// The position of the first `c` in `s`, or `s.len()` when `s` holds no `c`.
pub open spec fn first_index(s: Seq<char>, c: char) -> int
    decreases s.len(),
{
    if s.len() == 0 {
        0
    } else if s[0] == c {
        0
    } else {
        1 + first_index(s.drop_first(), c)
    }
}

/// The pieces of `s` between the occurrences of `sep`, as `str::split` gives them.
pub open spec fn split_on(s: Seq<char>, sep: char) -> Seq<Seq<char>>
    decreases s.len(),
{
    let i = first_index(s, sep);
    if 0 <= i < s.len() {
        seq![s.take(i)] + split_on(s.skip(i + 1), sep)
    } else {
        seq![s]
    }
}

/// `first_index` is the position before which `c` does not occur and at which it does.
pub proof fn lemma_first_index(s: Seq<char>, c: char, i: int)
    requires
        0 <= i <= s.len(),
        forall|j: int| 0 <= j < i ==> s[j] != c,
        i < s.len() ==> s[i] == c,
    ensures
        first_index(s, c) == i,
    decreases i,
{
    if i > 0 {
        lemma_first_index(s.drop_first(), c, i - 1);
    }
}

/// `first_index` lies within `0..=s.len()`.
pub proof fn lemma_first_index_bounds(s: Seq<char>, c: char)
    ensures
        0 <= first_index(s, c) <= s.len(),
        first_index(s, c) < s.len() ==> s[first_index(s, c)] == c,
        forall|j: int| 0 <= j < first_index(s, c) ==> s[j] != c,
    decreases s.len(),
{
    if s.len() > 0 && s[0] != c {
        lemma_first_index_bounds(s.drop_first(), c);
        assert forall|j: int| 0 <= j < first_index(s, c) implies s[j] != c by {
            if j > 0 {
                assert(s[j] == s.drop_first()[j - 1]);
            }
        }
    }
}

/// A digit's character is a digit, and it reads back as the digit.
pub proof fn lemma_digit_char(d: nat)
    requires
        d < 10,
    ensures
        is_digit(digit_char(d)),
        digit_value(digit_char(d)) == d,
{
}

/// The decimal writing of `n` is a non-empty run of digits that reads back as `n`.
pub proof fn lemma_decimal(n: nat)
    ensures
        decimal(n).len() > 0,
        all_digits(decimal(n)),
        digits_value(decimal(n)) == n,
    decreases n,
{
    if n < 10 {
        lemma_digit_char(n);
        assert(decimal(n).drop_last() =~= Seq::<char>::empty());
        assert(digits_value(decimal(n)) == digits_value(Seq::<char>::empty()) * 10 + digit_value(
            digit_char(n),
        ));
    } else {
        lemma_decimal(n / 10);
        lemma_digit_char(n % 10);
        let s = decimal(n);
        assert(s.drop_last() =~= decimal(n / 10));
        assert(s.last() == digit_char(n % 10));
        assert(digits_value(s) == (n / 10) * 10 + n % 10);
        assert((n / 10) * 10 + n % 10 == n) by (nonlinear_arith);
        assert forall|i: int| 0 <= i < s.len() implies is_digit(#[trigger] s[i]) by {
            if i < s.len() - 1 {
                assert(s[i] == decimal(n / 10)[i]);
            }
        }
    }
}

/// Reading a run of digit characters from left to right, each step multiplying the
/// number read so far by ten and adding the digit, gives its `digits_value`.
pub proof fn lemma_digits_value_reads_left_to_right(s: Seq<char>)
    requires
        all_digits(s),
    ensures
        digits_value(s) == s.fold_left(0int, |acc: int, c: char| acc * 10 + (c as int - '0' as int)),
    decreases s.len(),
{
    if s.len() > 0 {
        let d = s.drop_last();
        assert forall|i: int| 0 <= i < d.len() implies is_digit(#[trigger] d[i]) by {
            assert(d[i] == s[i]);
        }
        lemma_digits_value_reads_left_to_right(d);
        assert(is_digit(s[s.len() - 1]));
    }
}

/// The decimal writing of `n` is a non-empty string of the characters `0` to `9`,
/// with no leading `0` unless `n` is zero, whose digits read from left to right
/// make `n`.
pub proof fn lemma_decimal_writes_n(n: nat)
    ensures
        decimal(n).len() >= 1,
        forall|i: int| 0 <= i < decimal(n).len() ==> '0' <= #[trigger] decimal(n)[i] <= '9',
        decimal(n).len() > 1 ==> decimal(n)[0] != '0',
        decimal(n).fold_left(0int, |acc: int, c: char| acc * 10 + (c as int - '0' as int)) == n,
    decreases n,
{
    lemma_decimal(n);
    lemma_digits_value_reads_left_to_right(decimal(n));
    assert forall|i: int| 0 <= i < decimal(n).len() implies '0' <= #[trigger] decimal(n)[i]
        <= '9' by {
        assert(is_digit(decimal(n)[i]));
    }
    if n >= 10 {
        lemma_decimal_writes_n(n / 10);
        assert(decimal(n)[0] == decimal(n / 10)[0]);
        if decimal(n / 10).len() == 1 {
            assert(n / 10 >= 10 ==> decimal(n / 10).len() > 1) by {
                if n / 10 >= 10 {
                    lemma_decimal(n / 10 / 10);
                }
            }
            lemma_digit_char(n / 10);
        }
    }
}

/// Reading the decimal writing of a number up to 255 gives the number back.
pub proof fn lemma_parse_decimal(n: u8)
    ensures
        numeral_value(decimal(n as nat)) == Some(n),
{
    lemma_decimal(n as nat);
}

/// A run of digits holds no `c` that is not a digit.
pub proof fn lemma_digits_avoid(s: Seq<char>, c: char)
    requires
        all_digits(s),
        !is_digit(c),
    ensures
        first_index(s, c) == s.len(),
        forall|j: int| 0 <= j < s.len() ==> s[j] != c,
{
    assert forall|j: int| 0 <= j < s.len() implies s[j] != c by {
        assert(is_digit(s[j]));
    }
    lemma_first_index(s, c, s.len() as int);
}

/// Two runs of digits joined by a `sep` split into those two runs.
pub proof fn lemma_split_two(a: Seq<char>, b: Seq<char>, sep: char)
    requires
        all_digits(a),
        all_digits(b),
        !is_digit(sep),
    ensures
        split_on(a + seq![sep] + b, sep) == seq![a, b],
{
    let s = a + seq![sep] + b;
    lemma_digits_avoid(a, sep);
    lemma_digits_avoid(b, sep);
    assert forall|j: int| 0 <= j < a.len() implies s[j] != sep by {
        assert(s[j] == a[j]);
    }
    lemma_first_index(s, sep, a.len() as int);
    assert(s.take(a.len() as int) =~= a);
    assert(s.skip(a.len() as int + 1) =~= b);
    assert(split_on(b, sep) == seq![b]);
    assert(split_on(s, sep) =~= seq![a, b]);
}

/// How a text splits on `sep`: into one piece when it holds no `sep`; into the
/// pieces before and after its only `sep`; into three or more pieces otherwise.
pub proof fn lemma_split_shape(s: Seq<char>, sep: char)
    ensures
        ({
            let i = first_index(s, sep);
            let rest = s.skip(i + 1);
            &&& split_on(s, sep).len() >= 1
            &&& i >= s.len() ==> split_on(s, sep) == seq![s]
            &&& i < s.len() && first_index(rest, sep) >= rest.len() ==> split_on(s, sep) == seq![
                s.take(i),
                rest,
            ]
            &&& i < s.len() && first_index(rest, sep) < rest.len() ==> split_on(s, sep).len()
                >= 3
        }),
{
    lemma_first_index_bounds(s, sep);
    let i = first_index(s, sep);
    if i < s.len() {
        let rest = s.skip(i + 1);
        lemma_first_index_bounds(rest, sep);
        let j = first_index(rest, sep);
        if j < rest.len() {
            assert(split_on(rest, sep) == seq![rest.take(j)] + split_on(rest.skip(j + 1), sep));
        } else {
            assert(split_on(rest, sep) == seq![rest]);
            assert(split_on(s, sep) =~= seq![s.take(i), rest]);
        }
    }
}

/// Collects the characters of a string, in order.
pub fn chars_of(s: &str) -> (r: Vec<char>)
    ensures
        r@ == s@,
{
    let mut out: Vec<char> = Vec::new();
    for c in it: s.chars()
        invariant
            out@ == it.seq().take(it.index() as int),
            it.seq() == s@,
    {
        out.push(c);
    }
    out
}

/// Finds the first `c` in `v[start..end]`; returns `end` when there is none.
pub fn find_char(v: &Vec<char>, start: usize, end: usize, c: char) -> (r: usize)
    requires
        start <= end <= v.len(),
    ensures
        start <= r <= end,
        r - start == first_index(v@.subrange(start as int, end as int), c),
{
    let mut i = start;
    while i < end && v[i] != c
        invariant
            start <= i <= end <= v.len(),
            forall|j: int| start <= j < i ==> v@[j] != c,
        decreases end - i,
    {
        i = i + 1;
    }
    proof {
        let s = v@.subrange(start as int, end as int);
        lemma_first_index(s, c, i - start);
    }
    i
}

/// Reads `v[start..end]` as a `u8` numeral.
pub fn parse_u8(v: &Vec<char>, start: usize, end: usize) -> (r: Option<u8>)
    requires
        start <= end <= v.len(),
    ensures
        r == numeral_value(v@.subrange(start as int, end as int)),
{
    let ghost digits = v@.subrange(start as int, end as int);
    if start == end {
        return None;
    }
    let mut i = start;
    let mut acc: u32 = 0;
    while i < end
        invariant
            start <= i <= end <= v.len(),
            start < end,
            digits == v@.subrange(start as int, end as int),
            all_digits(v@.subrange(start as int, i as int)),
            acc as nat == if digits_value(v@.subrange(start as int, i as int)) < 256 {
                digits_value(v@.subrange(start as int, i as int))
            } else {
                256
            },
        decreases end - i,
    {
        let c = v[i];
        if !('0' <= c && c <= '9') {
            assert(digits[i - start] == c);
            assert(!is_digit(digits[i - start]));
            return None;
        }
        let d: u32 = (c as u32) - ('0' as u32);
        let ghost pre = v@.subrange(start as int, i as int);
        let ghost post = v@.subrange(start as int, i + 1);
        assert(post.drop_last() =~= pre);
        assert(post.last() == c);
        let next: u32 = acc * 10 + d;
        acc = if next > 256 { 256 } else { next };
        i = i + 1;
        assert forall|j: int| 0 <= j < post.len() implies is_digit(#[trigger] post[j]) by {
            if j < pre.len() {
                assert(post[j] == pre[j]);
            }
        }
    }
    assert(v@.subrange(start as int, i as int) =~= digits);
    if acc <= 255 {
        Some(acc as u8)
    } else {
        None
    }
}

/// The literal string of one decimal digit.
fn digit_str(d: u64) -> (r: &'static str)
    requires
        d < 10,
    ensures
        r@ == seq![digit_char(d as nat)],
{
    proof {
        reveal_strlit("0");
        reveal_strlit("1");
        reveal_strlit("2");
        reveal_strlit("3");
        reveal_strlit("4");
        reveal_strlit("5");
        reveal_strlit("6");
        reveal_strlit("7");
        reveal_strlit("8");
        reveal_strlit("9");
    }
    match d {
        0 => "0",
        1 => "1",
        2 => "2",
        3 => "3",
        4 => "4",
        5 => "5",
        6 => "6",
        7 => "7",
        8 => "8",
        _ => "9",
    }
}

/// Appends the decimal writing of `n` to `out`.
pub fn push_decimal(out: &mut String, n: u64)
    ensures
        final(out)@ == old(out)@ + decimal(n as nat),
    decreases n,
{
    if n >= 10 {
        push_decimal(out, n / 10);
    }
    out.append(digit_str(n % 10));
    proof {
        if n >= 10 {
            assert(decimal(n as nat) == decimal((n / 10) as nat).push(digit_char((n % 10) as nat)));
        }
    }
}

} // verus!
