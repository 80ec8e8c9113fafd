//! The byte layout of raster images.
//!
//! An image buffer holds the rows of a grid from the last row up to the
//! first, each row pixel by pixel, each pixel with one byte per channel.
use crate::data_2d_statistics::Data2d;
use vstd::prelude::*;

verus! {

/// The number of channels of the images that [`set_pixel`] writes to.
pub const NUM_CHANNELS: usize = 1;

/// The number of columns that the first `count` channels all have in row `row`.
pub open spec fn shared_width(channels: Seq<Data2d<u8>>, row: int, count: nat) -> nat
    decreases count,
{
    if count == 0 {
        0
    } else if count == 1 {
        channels[0]@[row].len()
    } else {
        let earlier = shared_width(channels, row, (count - 1) as nat);
        let last = channels[count - 1]@[row].len();
        if last < earlier {
            last
        } else {
            earlier
        }
    }
}

/// The pixel at `row`, `column`: one byte from each channel, in channel order.
pub open spec fn pixel(channels: Seq<Data2d<u8>>, row: int, column: int) -> Seq<u8> {
    Seq::new(channels.len(), |channel: int| channels[channel]@[row][column])
}

/// The first `count` pixels of row `row`, left to right.
pub open spec fn pixels(channels: Seq<Data2d<u8>>, row: int, count: nat) -> Seq<u8>
    decreases count,
{
    if count == 0 {
        Seq::empty()
    } else {
        pixels(channels, row, (count - 1) as nat) + pixel(channels, row, count - 1)
    }
}

/// The pixels of row `row`, as far as every channel reaches.
pub open spec fn pixel_row(channels: Seq<Data2d<u8>>, row: int) -> Seq<u8> {
    pixels(channels, row, shared_width(channels, row, channels.len()))
}

/// The rows `from..height`, the last one first.
pub open spec fn rows_upward(channels: Seq<Data2d<u8>>, from: int, height: int) -> Seq<u8>
    decreases height - from,
{
    if from >= height {
        Seq::empty()
    } else {
        rows_upward(channels, from + 1, height) + pixel_row(channels, from)
    }
}

/// All channels have `height` rows.
pub open spec fn same_height(channels: Seq<Data2d<u8>>, height: int) -> bool {
    forall|channel: int|
        0 <= channel < channels.len() ==> (#[trigger] channels[channel])@.len() == height
}

/// All channels have `height` rows of `width` columns.
pub open spec fn same_shape(channels: Seq<Data2d<u8>>, width: int, height: int) -> bool {
    forall|channel: int, row: int|
        0 <= channel < channels.len() && 0 <= row < height ==> channels[channel]@.len() == height
            && (#[trigger] channels[channel]@[row]).len() == width
}

/// The image buffer of `channels`: the rows from the last to the first,
/// every pixel with one byte of each channel.
pub fn interleave(channels: &Vec<Data2d<u8>>) -> (buffer: Vec<u8>)
    requires
        channels@.len() > 0,
        same_height(channels@, channels@[0]@.len() as int),
    ensures
        buffer@ == rows_upward(channels@, 0, channels@[0]@.len() as int),
{
    let count = channels.len();
    let height = channels[0].height();
    let mut buffer: Vec<u8> = Vec::new();
    let mut row = height;
    while row > 0
        invariant
            row <= height,
            count == channels@.len(),
            count > 0,
            height == channels@[0]@.len(),
            same_height(channels@, height as int),
            buffer@ == rows_upward(channels@, row as int, height as int),
        decreases row,
    {
        row = row - 1;
        let ghost above = buffer@;
        let mut width = channels[0].rows[row].columns.len();
        let mut channel: usize = 1;
        assert(channels@[0]@[row as int] == channels@[0].rows@[row as int]@);
        while channel < count
            invariant
                1 <= channel <= count,
                count == channels@.len(),
                row < height,
                same_height(channels@, height as int),
                width == shared_width(channels@, row as int, channel as nat),
            decreases count - channel,
        {
            assert(channels@[channel as int]@.len() == height);
            let reach = channels[channel].rows[row].columns.len();
            assert(channels@[channel as int]@[row as int]
                == channels@[channel as int].rows@[row as int]@);
            if reach < width {
                width = reach;
            }
            channel = channel + 1;
        }
        let mut column: usize = 0;
        while column < width
            invariant
                column <= width,
                count == channels@.len(),
                count > 0,
                row < height,
                same_height(channels@, height as int),
                width == shared_width(channels@, row as int, count as nat),
                buffer@ == above + pixels(channels@, row as int, column as nat),
            decreases width - column,
        {
            let ghost left = buffer@;
            let mut channel: usize = 0;
            while channel < count
                invariant
                    channel <= count,
                    count == channels@.len(),
                    row < height,
                    column < width,
                    same_height(channels@, height as int),
                    width == shared_width(channels@, row as int, count as nat),
                    buffer@ == left + pixel(channels@, row as int, column as int).take(
                        channel as int,
                    ),
                decreases count - channel,
            {
                proof {
                    lemma_shared_width_bounds(channels@, row as int, count as nat, channel as int);
                }
                assert(channels@[channel as int]@.len() == height);
                assert(channels@[channel as int]@[row as int]
                    == channels@[channel as int].rows@[row as int]@);
                let value = channels[channel].rows[row].columns[column];
                buffer.push(value);
                assert(buffer@ =~= left + pixel(channels@, row as int, column as int).take(
                    channel as int + 1,
                ));
                channel = channel + 1;
            }
            assert(pixel(channels@, row as int, column as int).take(count as int) =~= pixel(
                channels@,
                row as int,
                column as int,
            ));
            assert(buffer@ =~= above + pixels(channels@, row as int, (column + 1) as nat));
            column = column + 1;
        }
    }
    buffer
}

/// No channel is narrower in a row than the width that all channels share there.
pub proof fn lemma_shared_width_bounds(
    channels: Seq<Data2d<u8>>,
    row: int,
    count: nat,
    channel: int,
)
    requires
        0 <= channel < count,
    ensures
        shared_width(channels, row, count) <= channels[channel]@[row].len(),
    decreases count,
{
    if count > 1 && channel < count - 1 {
        lemma_shared_width_bounds(channels, row, (count - 1) as nat, channel);
    }
}

/// Channels of one width share that width in every row.
pub proof fn lemma_shared_width_of_same_shape(
    channels: Seq<Data2d<u8>>,
    width: int,
    height: int,
    row: int,
    count: nat,
)
    requires
        0 < count <= channels.len(),
        0 <= row < height,
        same_shape(channels, width, height),
    ensures
        shared_width(channels, row, count) == width,
    decreases count,
{
    if count > 1 {
        lemma_shared_width_of_same_shape(channels, width, height, row, (count - 1) as nat);
        assert(channels[count - 1]@[row].len() == width);
    } else {
        assert(channels[0]@[row].len() == width);
    }
}

/// The bytes of a row are its pixels, one after another.
pub proof fn lemma_pixels_layout(channels: Seq<Data2d<u8>>, row: int, count: nat)
    ensures
        pixels(channels, row, count).len() == count * channels.len(),
        forall|column: int, channel: int|
            0 <= column < count && 0 <= channel < channels.len() ==> #[trigger] pixels(
                channels,
                row,
                count,
            )[column * channels.len() + channel] == channels[channel]@[row][column],
    decreases count,
{
    let depth = channels.len() as int;
    if count > 0 {
        let earlier = pixels(channels, row, (count - 1) as nat);
        lemma_pixels_layout(channels, row, (count - 1) as nat);
        assert(count * depth == (count - 1) * depth + depth) by (nonlinear_arith);
        assert forall|column: int, channel: int|
            0 <= column < count && 0 <= channel < depth implies #[trigger] pixels(
            channels,
            row,
            count,
        )[column * depth + channel] == channels[channel]@[row][column] by {
            if column < count - 1 {
                assert(column * depth + channel < (count - 1) * depth) by (nonlinear_arith)
                    requires
                        0 <= column < count - 1,
                        0 <= channel < depth,
                ;
                assert(0 <= column * depth + channel) by (nonlinear_arith)
                    requires
                        0 <= column,
                        0 <= channel,
                        0 <= depth,
                ;
                assert(earlier[column * depth + channel] == channels[channel]@[row][column]);
            } else {
                assert(column * depth + channel == earlier.len() + channel);
                assert(pixel(channels, row, count - 1)[channel] == channels[channel]@[row][column]);
            }
        }
    } else {
        assert(count * depth == 0) by (nonlinear_arith)
            requires
                count == 0,
        ;
    }
}

/// Where a value of a rectangular image lies in its buffer.
///
/// For channels of `height` rows of `width` columns, the buffer holds
/// `width * height` pixels; the value of `channel` at `row`, `column` is the
/// byte `channel` of the pixel `column` of the line `height - 1 - row`.
pub proof fn lemma_rectangular_layout(
    channels: Seq<Data2d<u8>>,
    width: int,
    height: int,
    row: int,
    column: int,
    channel: int,
)
    requires
        channels.len() > 0,
        same_shape(channels, width, height),
        0 <= row < height,
        0 <= column < width,
        0 <= channel < channels.len(),
    ensures
        rows_upward(channels, 0, height).len() == width * height * channels.len(),
        0 <= ((height - 1 - row) * width + column) * channels.len() + channel < width * height
            * channels.len(),
        rows_upward(channels, 0, height)[((height - 1 - row) * width + column) * channels.len()
            + channel] == channels[channel]@[row][column],
{
    let depth = channels.len() as int;
    lemma_rows_upward_layout(channels, width, height, 0);
    lemma_rows_upward_layout(channels, width, height, row);
    lemma_rows_upward_layout(channels, width, height, row + 1);
    lemma_rows_upward_split(channels, 0, row, height);
    lemma_shared_width_of_same_shape(channels, width, height, row, channels.len());
    lemma_pixels_layout(channels, row, width as nat);
    let above = rows_upward(channels, row + 1, height);
    let line = pixel_row(channels, row);
    let below = rows_upward(channels, 0, row);
    assert(rows_upward(channels, row, height) == above + line);
    assert(rows_upward(channels, 0, height) == above + line + below);
    assert(above.len() == (height - 1 - row) * width * depth) by (nonlinear_arith)
        requires
            above.len() == width * (height - (row + 1)) * depth,
    ;
    assert(line[column * depth + channel] == channels[channel]@[row][column]);
    assert(((height - 1 - row) * width + column) * depth + channel == above.len() + (column * depth
        + channel)) by (nonlinear_arith)
        requires
            above.len() == (height - 1 - row) * width * depth,
    ;
    assert(0 <= column * depth + channel < line.len()) by (nonlinear_arith)
        requires
            0 <= column < width,
            0 <= channel < depth,
            line.len() == width * depth,
    ;
    assert(width * height * depth == width * (height - 0) * depth);
    assert(above.len() + line.len() <= width * height * depth) by (nonlinear_arith)
        requires
            above.len() == (height - 1 - row) * width * depth,
            line.len() == width * depth,
            0 <= row < height,
            0 <= width,
            0 <= depth,
    ;
}

/// The rows `from..height` of a rectangular image take `width` pixels each.
proof fn lemma_rows_upward_layout(channels: Seq<Data2d<u8>>, width: int, height: int, from: int)
    requires
        channels.len() > 0,
        same_shape(channels, width, height),
        0 <= from <= height,
        0 <= width,
    ensures
        rows_upward(channels, from, height).len() == width * (height - from) * channels.len(),
    decreases height - from,
{
    let depth = channels.len() as int;
    if from < height {
        lemma_rows_upward_layout(channels, width, height, from + 1);
        lemma_shared_width_of_same_shape(channels, width, height, from, channels.len());
        lemma_pixels_layout(channels, from, width as nat);
        assert(width * (height - from) * depth == width * (height - (from + 1)) * depth + width
            * depth) by (nonlinear_arith);
    } else {
        assert(width * (height - from) * depth == 0) by (nonlinear_arith)
            requires
                height - from == 0,
        ;
    }
}

/// The rows `from..height` are the rows `middle..height` followed by the rows `from..middle`.
proof fn lemma_rows_upward_split(channels: Seq<Data2d<u8>>, from: int, middle: int, height: int)
    requires
        from <= middle <= height,
    ensures
        rows_upward(channels, from, height) == rows_upward(channels, middle, height) + rows_upward(
            channels,
            from,
            middle,
        ),
    decreases middle - from,
{
    if from < middle {
        lemma_rows_upward_split(channels, from + 1, middle, height);
        assert(rows_upward(channels, from, height) =~= rows_upward(channels, middle, height) + (
        rows_upward(channels, from + 1, middle) + pixel_row(channels, from)));
    } else {
        assert(rows_upward(channels, from, middle) =~= Seq::<u8>::empty());
        assert(rows_upward(channels, middle, height) + Seq::<u8>::empty() =~= rows_upward(
            channels,
            middle,
            height,
        ));
    }
}

/// The position in a buffer of rows of `width` pixels at which the byte of
/// `channel` of the pixel at `x`, `y` lies.
pub open spec fn pixel_offset(width: int, x: int, y: int, channel: int) -> int {
    (y * width + x) * NUM_CHANNELS as int + channel
}

/// Writes `value` to `channel` of the pixel at `x`, `y` of an image whose
/// rows are `width` pixels long. The pixel must lie inside the buffer.
pub fn set_pixel(buffer: &mut Vec<u8>, width: usize, value: u8, x: usize, y: usize, channel: usize)
    requires
        0 <= pixel_offset(width as int, x as int, y as int, channel as int) < old(buffer)@.len(),
    ensures
        final(buffer)@ == old(buffer)@.update(
            pixel_offset(width as int, x as int, y as int, channel as int),
            value,
        ),
{
    let ghost offset = pixel_offset(width as int, x as int, y as int, channel as int);
    assert(offset == y * width + x + channel && 0 <= y * width) by (nonlinear_arith)
        requires
            offset == (y * width + x) * 1 + channel,
            0 <= y,
            0 <= width,
    ;
    assert(buffer.len() == buffer@.len());
    let one_channel_coords = y * width + x;
    let multi_channel_coords = one_channel_coords * NUM_CHANNELS;
    let this_channel_coords = multi_channel_coords + channel;
    buffer[this_channel_coords] = value;
}

} // verus!
