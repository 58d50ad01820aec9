//! The list of dataset names that the interface shows as a numbered table.
//!
//! Each row shows the number of the dataset, counted from 1, and its name.
//! The numbers are written in decimal and aligned to the right, so that they
//! all take the room that the largest of them needs.
use vstd::prelude::*;

verus! {

/// Where a table stands: the row from which it is shown, and the row and the
/// column that are selected in it, if any. Rows and columns count from 0.
#[derive(Debug, Clone, Copy)]
pub struct TableSelection {
    /// The first row that is shown.
    pub offset: usize,
    /// The selected row.
    pub selected: Option<usize>,
    /// The selected column.
    pub selected_column: Option<usize>,
}

/// What the list of names keeps between two drawings: where its table
/// stands.
#[derive(Debug)]
pub struct DataFrameNamesState {
    table: TableSelection,
}

impl Default for DataFrameNamesState {
    /// The state of a list that was not drawn yet: shown from its first row,
    /// which is selected, with no column selected.
    fn default() -> (state: Self)
        ensures
            state.selection() == (TableSelection {
                offset: 0,
                selected: Some(0usize),
                selected_column: None,
            }),
    {
        DataFrameNamesState {
            table: TableSelection { offset: 0, selected: Some(0), selected_column: None },
        }
    }
}

impl DataFrameNamesState {
    /// Where the table stands.
    pub closed spec fn selection(&self) -> TableSelection {
        self.table
    }

    /// Where the table stands.
    pub fn table(&self) -> (table: &TableSelection)
        ensures
            *table == self.selection(),
    {
        &self.table
    }

    /// Where the table stands, to be changed in place.
    pub fn table_mut(&mut self) -> (table: &mut TableSelection)
        ensures
            *table == old(self).selection(),
            final(self).selection() == *final(table),
    {
        &mut self.table
    }
}

/// The names to list, in the order in which they are shown.
pub struct DataFrameNames<I> {
    names: I,
}

impl<T> DataFrameNames<T> {
    /// The names that the list holds.
    pub closed spec fn names(&self) -> T {
        self.names
    }

    /// The list of `names`.
    pub fn new(names: T) -> (list: Self)
        ensures
            list.names() == names,
    {
        DataFrameNames { names }
    }

    /// Hands the names back.
    pub fn into_names(self) -> (names: T)
        ensures
            names == self.names(),
    {
        self.names
    }
}

/// The number of decimal digits of `n`.
pub open spec fn decimal_width(n: nat) -> nat
    decreases n,
{
    if n < 10 {
        1
    } else {
        decimal_width(n / 10) + 1
    }
}

/// The character that stands for the digit `d`.
pub open spec fn digit(d: nat) -> char {
    ('0' as nat + d) as char
}

/// `n` in decimal digits.
pub open spec fn decimal(n: nat) -> Seq<char>
    decreases n,
{
    if n < 10 {
        seq![digit(n)]
    } else {
        decimal(n / 10).push(digit(n % 10))
    }
}

/// `n` spaces.
pub open spec fn spaces(n: nat) -> Seq<char> {
    Seq::new(n, |i: int| ' ')
}

/// What a row shows for its number `position`: a space, then the number in
/// decimal, with spaces before it where it has fewer than `width` digits.
pub open spec fn row_label(position: nat, width: nat) -> Seq<char> {
    let padding = if decimal_width(position) < width {
        (width - decimal_width(position)) as nat
    } else {
        0
    };
    seq![' '] + spaces(padding) + decimal(position)
}

/// `n` has as many decimal digits as `decimal_width` says.
pub proof fn lemma_decimal_len(n: nat)
    ensures
        decimal(n).len() == decimal_width(n),
    decreases n,
{
    if n >= 10 {
        lemma_decimal_len(n / 10);
    }
}

/// A larger number has no fewer digits.
pub proof fn lemma_decimal_width_grows(a: nat, b: nat)
    requires
        a <= b,
    ensures
        decimal_width(a) <= decimal_width(b),
    decreases b,
{
    if a >= 10 {
        lemma_decimal_width_grows(a / 10, b / 10);
    }
}

/// The labels of a list of `count` rows all have the same length: one more
/// than the number of digits of `count`.
pub proof fn lemma_labels_align(position: nat, count: nat)
    requires
        position <= count,
    ensures
        row_label(position, decimal_width(count)).len() == decimal_width(count) + 1,
{
    lemma_decimal_len(position);
    lemma_decimal_width_grows(position, count);
}

/// Ten to the power of `k`.
pub open spec fn pow10(k: nat) -> nat
    decreases k,
{
    if k == 0 {
        1
    } else {
        10 * pow10((k - 1) as nat)
    }
}

/// A number below ten to the power of `k` has `k` digits at most.
pub proof fn lemma_decimal_width_bound(n: nat, k: nat)
    requires
        k >= 1,
        n < pow10(k),
    ensures
        decimal_width(n) <= k,
    decreases k,
{
    if n >= 10 {
        assert(pow10(1) == 10) by {
            reveal_with_fuel(pow10, 2);
        }
        lemma_decimal_width_bound(n / 10, (k - 1) as nat);
    }
}

/// No `usize` has more than 20 digits.
pub proof fn lemma_decimal_width_of_usize(n: usize)
    ensures
        1 <= decimal_width(n as nat) <= 20,
{
    assert(pow10(20) == 100_000_000_000_000_000_000) by {
        reveal_with_fuel(pow10, 21);
    }
    lemma_decimal_width_bound(n as nat, 20);
}

/// The number of digits that the largest row number of a list of `count`
/// rows takes.
pub fn number_width(count: usize) -> (width: usize)
    ensures
        width == decimal_width(count as nat),
        1 <= width <= 20,
{
    let mut width: usize = 1;
    let mut rest: usize = count;
    proof {
        lemma_decimal_width_of_usize(count);
    }
    while rest >= 10
        invariant
            1 <= width,
            width + decimal_width(rest as nat) == decimal_width(count as nat) + 1,
            decimal_width(count as nat) <= 20,
        decreases rest,
    {
        rest = rest / 10;
        width += 1;
    }
    width
}

/// The room that the labels of a list of `count` rows take.
pub fn label_width(count: usize) -> (width: u16)
    ensures
        width == decimal_width(count as nat) + 1,
{
    let digits = number_width(count);
    digits as u16 + 1
}

/// The character of the digit `d`.
fn digit_char(d: u8) -> (c: char)
    requires
        d < 10,
    ensures
        c == digit(d as nat),
{
    ('0' as u8 + d) as char
}

/// The label of the row of number `position`, for numbers of `width` digits
/// at most.
pub fn number_label(position: usize, width: usize) -> (label: String)
    ensures
        label@ == row_label(position as nat, width as nat),
{
    let mut digits: Vec<char> = Vec::new();
    let mut rest: usize = position;
    while rest >= 10
        invariant
            decimal(position as nat) == decimal(rest as nat) + digits@.reverse(),
        decreases rest,
    {
        let c = digit_char((rest % 10) as u8);
        proof {
            assert(decimal((rest / 10) as nat).push(c) + digits@.reverse() =~= decimal(
                (rest / 10) as nat,
            ) + digits@.push(c).reverse());
        }
        digits.push(c);
        rest = rest / 10;
    }
    digits.push(digit_char(rest as u8));
    proof {
        lemma_decimal_len(position as nat);
        assert(decimal(position as nat) =~= digits@.reverse());
    }
    let mut label = String::new();
    label.push(' ');
    let mut pad: usize = digits.len();
    while pad < width
        invariant
            digits.len() == decimal_width(position as nat),
            digits.len() <= pad,
            pad <= width || pad == digits.len(),
            label@ == seq![' '] + spaces((pad - digits.len()) as nat),
        decreases width - pad,
    {
        label.push(' ');
        pad += 1;
        proof {
            assert(seq![' '] + spaces((pad - digits.len()) as nat) =~= (seq![' '] + spaces(
                (pad - 1 - digits.len()) as nat,
            )).push(' '));
        }
    }
    let ghost padded = label@;
    let mut i: usize = digits.len();
    while i > 0
        invariant
            i <= digits.len(),
            label@ == padded + digits@.reverse().take(digits.len() - i),
        decreases i,
    {
        i -= 1;
        label.push(digits[i]);
        proof {
            assert(padded + digits@.reverse().take(digits.len() - i) =~= (padded
                + digits@.reverse().take(digits.len() - i - 1)).push(digits@[i as int]));
        }
    }
    proof {
        assert(digits@.reverse().take(digits.len() as int) =~= digits@.reverse());
    }
    label
}

} // verus!
