//! Rows and grids of data values, and a grid together with its range.
use crate::extremes::largest;
use crate::extremes::lemma_extremes_push;
use crate::extremes::order_is_specified;
use crate::extremes::smallest;
use crate::extremes::widen_range;
use core::ops::Sub;
use vstd::prelude::*;
use vstd::std_specs::ops::SubSpec;

verus! {

/// One row of values.
#[derive(Clone)]
pub struct Data1d<T> {
    pub columns: Vec<T>,
}

/// A grid of values, stored row by row.
#[derive(Clone)]
pub struct Data2d<T> {
    pub rows: Vec<Data1d<T>>,
}

impl<T> View for Data1d<T> {
    type V = Seq<T>;

    /// The values of the row, left to right.
    open spec fn view(&self) -> Seq<T> {
        self.columns@
    }
}

impl<T> View for Data2d<T> {
    type V = Seq<Seq<T>>;

    /// The rows of the grid, each as the sequence of its values.
    open spec fn view(&self) -> Seq<Seq<T>> {
        Seq::new(self.rows@.len(), |row: int| self.rows@[row]@)
    }
}

/// `value` is a value that `T::default()` returns.
pub open spec fn is_default<T: Default>(value: T) -> bool {
    call_ensures(T::default, (), value)
}

impl<T: Default> Data1d<T> {
    /// A row of `size` default values.
    pub fn new(size: usize) -> (row: Data1d<T>)
        ensures
            row@.len() == size,
            forall|column: int| 0 <= column < size ==> is_default(#[trigger] row@[column]),
    {
        let mut columns: Vec<T> = Vec::with_capacity(size);
        while columns.len() < size
            invariant
                columns@.len() <= size,
                forall|column: int|
                    0 <= column < columns@.len() ==> is_default(#[trigger] columns@[column]),
            decreases size - columns@.len(),
        {
            columns.push(T::default());
        }
        Data1d { columns }
    }
}

impl<T> Data1d<T> {
    /// The number of values in the row.
    pub fn width(&self) -> (width: usize)
        ensures
            width == self@.len(),
    {
        self.columns.len()
    }
}

impl<T: Default> Data2d<T> {
    /// A grid of `height` rows of `width` default values each.
    pub fn new(width: usize, height: usize) -> (grid: Data2d<T>)
        ensures
            grid@.len() == height,
            forall|row: int| 0 <= row < height ==> (#[trigger] grid@[row]).len() == width,
            forall|row: int, column: int|
                0 <= row < height && 0 <= column < width ==> is_default(
                    #[trigger] grid@[row][column],
                ),
    {
        let mut rows: Vec<Data1d<T>> = Vec::with_capacity(height);
        while rows.len() < height
            invariant
                rows@.len() <= height,
                forall|row: int| 0 <= row < rows@.len() ==> (#[trigger] rows@[row])@.len() == width,
                forall|row: int, column: int|
                    0 <= row < rows@.len() && 0 <= column < width ==> is_default(
                        #[trigger] rows@[row]@[column],
                    ),
            decreases height - rows@.len(),
        {
            rows.push(Data1d::new(width));
        }
        Data2d { rows }
    }
}

impl<T> Data2d<T> {
    /// The width of the grid: the length of its first row, 0 without rows.
    pub open spec fn spec_width(&self) -> nat {
        if self@.len() == 0 {
            0
        } else {
            self@[0].len()
        }
    }

    /// The width of the grid: the length of its first row, 0 without rows.
    pub fn width(&self) -> (width: usize)
        ensures
            width == self.spec_width(),
    {
        if self.rows.len() == 0 {
            return 0;
        }
        self.rows[0].width()
    }

    /// The number of rows.
    pub fn height(&self) -> (height: usize)
        ensures
            height == self@.len(),
    {
        self.rows.len()
    }
}

/// A named grid of values with the smallest and the largest value in it.
#[derive(Clone)]
pub struct Data2dStatistics<T> {
    pub name: String,
    pub data: Data2d<T>,
    pub min: Option<T>,
    pub max: Option<T>,
}

/// The values of `rows`, row after row.
pub open spec fn row_major<T>(rows: Seq<Seq<T>>) -> Seq<T>
    decreases rows.len(),
{
    if rows.len() == 0 {
        Seq::empty()
    } else {
        row_major(rows.drop_last()) + rows.last()
    }
}

/// The smaller of two lengths.
pub open spec fn shorter(a: nat, b: nat) -> nat {
    if a <= b {
        a
    } else {
        b
    }
}

/// The differences `after - before`, value by value, as far as both rows reach.
pub open spec fn row_differences<T: Sub<Output = T>>(before: Seq<T>, after: Seq<T>) -> Seq<T> {
    Seq::new(
        shorter(before.len(), after.len()),
        |column: int| after[column].sub_spec(before[column]),
    )
}

/// The differences `after - before`, row by row, as far as both grids reach.
pub open spec fn differences<T: Sub<Output = T>>(
    before: Seq<Seq<T>>,
    after: Seq<Seq<T>>,
) -> Seq<Seq<T>> {
    Seq::new(
        shorter(before.len(), after.len()),
        |row: int| row_differences(before[row], after[row]),
    )
}

/// Every difference that [`differences`] takes can be computed.
pub open spec fn subtractable<T: Sub<Output = T>>(before: Seq<Seq<T>>, after: Seq<Seq<T>>) -> bool {
    forall|row: int, column: int|
        0 <= row < shorter(before.len(), after.len()) && 0 <= column < shorter(
            before[row].len(),
            after[row].len(),
        ) ==> (#[trigger] after[row][column]).sub_req(#[trigger] before[row][column])
}

/// Calls `String::push_str`: `tail` is appended to `text`.
#[verifier::external_body]
fn push_str(text: &mut String, tail: &str)
    ensures
        final(text)@ == old(text)@ + tail@,
{
    text.push_str(tail)
}

proof fn lemma_row_major_push<T>(rows: Seq<Seq<T>>, row: Seq<T>)
    ensures
        row_major(rows.push(row)) == row_major(rows) + row,
{
    assert(rows.push(row).drop_last() =~= rows);
}

impl<T: Copy + Default + PartialOrd + Sub<Output = T>> Data2dStatistics<T> {
    /// The change from `self` to `rhs`: the grid of the differences
    /// `rhs - self`, with their range.
    ///
    /// The result has the height and the width of `self`. A cell that both
    /// grids have holds the difference of the two values; every other cell
    /// holds a default value. The range is taken over the differences, row
    /// after row; it is empty when the grids share no cell. No row of
    /// `self` may share more cells with `rhs` than `self` is wide.
    pub fn sub(&self, rhs: &Data2dStatistics<T>) -> (difference: Data2dStatistics<T>)
        requires
            subtractable(self.data@, rhs.data@),
            forall|row: int|
                0 <= row < differences(self.data@, rhs.data@).len() ==> (#[trigger] differences(
                    self.data@,
                    rhs.data@,
                )[row]).len() <= self.data.spec_width(),
        ensures
            difference.name@ == self.name@ + " - "@ + rhs.name@,
            difference.data@.len() == self.data@.len(),
            forall|row: int|
                0 <= row < self.data@.len() ==> (#[trigger] difference.data@[row]).len()
                    == self.data.spec_width(),
            T::obeys_sub_spec() ==> forall|row: int, column: int|
                0 <= row < differences(self.data@, rhs.data@).len() && 0 <= column < differences(
                    self.data@,
                    rhs.data@,
                )[row].len() ==> #[trigger] difference.data@[row][column] == differences(
                    self.data@,
                    rhs.data@,
                )[row][column],
            forall|row: int, column: int|
                0 <= row < self.data@.len() && 0 <= column < self.data.spec_width() && !(row
                    < differences(self.data@, rhs.data@).len() && column < differences(
                    self.data@,
                    rhs.data@,
                )[row].len()) ==> is_default(#[trigger] difference.data@[row][column]),
            T::obeys_sub_spec() && order_is_specified::<T>() ==> {
                &&& difference.min == smallest(row_major(differences(self.data@, rhs.data@)))
                &&& difference.max == largest(row_major(differences(self.data@, rhs.data@)))
            },
    {
        let width = self.data.width();
        let height = self.data.height();
        let ghost expected = differences(self.data@, rhs.data@);
        let mut rows: Vec<Data1d<T>> = Vec::with_capacity(height);
        let mut min: Option<T> = None;
        let mut max: Option<T> = None;
        let mut row: usize = 0;
        while row < height
            invariant
                row <= height,
                height == self.data@.len(),
                width == self.data.spec_width(),
                expected == differences(self.data@, rhs.data@),
                subtractable(self.data@, rhs.data@),
                forall|r: int| 0 <= r < expected.len() ==> (#[trigger] expected[r]).len() <= width,
                rows@.len() == row,
                forall|r: int| 0 <= r < row ==> (#[trigger] rows@[r])@.len() == width,
                T::obeys_sub_spec() ==> forall|r: int, c: int|
                    0 <= r < row && r < expected.len() && 0 <= c < expected[r].len()
                        ==> #[trigger] rows@[r]@[c] == expected[r][c],
                forall|r: int, c: int|
                    0 <= r < row && 0 <= c < width && !(r < expected.len() && c
                        < expected[r].len()) ==> is_default(#[trigger] rows@[r]@[c]),
                T::obeys_sub_spec() && order_is_specified::<T>() ==> {
                    let done = expected.take(shorter(row as nat, expected.len()) as int);
                    &&& min == smallest(row_major(done))
                    &&& max == largest(row_major(done))
                },
            decreases height - row,
        {
            let shared = row < rhs.data.rows.len();
            let ghost seen = row_major(expected.take(shorter(row as nat, expected.len()) as int));
            let mut columns: Vec<T> = Vec::with_capacity(width);
            let mut column: usize = 0;
            while column < width
                invariant
                    column <= width,
                    row < height,
                    height == self.data@.len(),
                    shared == (row < rhs.data@.len()),
                    shared == (row < expected.len()),
                    expected == differences(self.data@, rhs.data@),
                    subtractable(self.data@, rhs.data@),
                    shared ==> expected[row as int].len() <= width,
                    columns@.len() == column,
                    T::obeys_sub_spec() && shared ==> forall|c: int|
                        0 <= c < column && c < expected[row as int].len() ==> #[trigger] columns@[c]
                            == expected[row as int][c],
                    forall|c: int|
                        0 <= c < column && !(shared && c < expected[row as int].len())
                            ==> is_default(#[trigger] columns@[c]),
                    T::obeys_sub_spec() && order_is_specified::<T>() ==> {
                        let part = if shared {
                            expected[row as int].take(
                                shorter(column as nat, expected[row as int].len()) as int,
                            )
                        } else {
                            Seq::empty()
                        };
                        &&& min == smallest(seen + part)
                        &&& max == largest(seen + part)
                    },
                decreases width - column,
            {
                if shared && column < self.data.rows[row].columns.len() && column
                    < rhs.data.rows[row].columns.len() {
                    let before = self.data.rows[row].columns[column];
                    let after = rhs.data.rows[row].columns[column];
                    assert(self.data@[row as int][column as int] == before);
                    assert(rhs.data@[row as int][column as int] == after);
                    let value = after - before;
                    let range = widen_range(value, min, max);
                    proof {
                        if T::obeys_sub_spec() {
                            let line = expected[row as int];
                            assert(value == line[column as int]);
                            assert(line.take(column as int + 1) =~= line.take(column as int).push(
                                value,
                            ));
                            assert(seen + line.take(column as int + 1) =~= (seen + line.take(
                                column as int,
                            )).push(value));
                            lemma_extremes_push(seen + line.take(column as int), value);
                        }
                    }
                    min = range.0;
                    max = range.1;
                    columns.push(value);
                } else {
                    columns.push(T::default());
                }
                column = column + 1;
            }
            proof {
                if shared {
                    let line = expected[row as int];
                    assert(line.take(line.len() as int) =~= line);
                    assert(expected.take(row as int + 1) =~= expected.take(row as int).push(line));
                    lemma_row_major_push(expected.take(row as int), line);
                } else {
                    assert(seen + Seq::<T>::empty() =~= seen);
                    assert(expected.take(expected.len() as int) =~= expected);
                }
            }
            rows.push(Data1d { columns });
            row = row + 1;
        }
        assert(expected.take(expected.len() as int) =~= expected);
        let mut name = self.name.clone();
        push_str(&mut name, " - ");
        push_str(&mut name, rhs.name.as_str());
        Data2dStatistics { name, data: Data2d { rows }, min, max }
    }
}

} // verus!
