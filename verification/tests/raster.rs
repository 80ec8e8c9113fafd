use ghg::data_2d_statistics::Data1d;
use ghg::data_2d_statistics::Data2d;
use ghg::raster::interleave;
use ghg::raster::set_pixel;

fn grid(rows: &[&[u8]]) -> Data2d<u8> {
    Data2d { rows: rows.iter().map(|row| Data1d { columns: row.to_vec() }).collect() }
}

#[test]
fn test_single_channel_rows_come_last_row_first() {
    let gray = grid(&[&[1, 2, 3], &[4, 5, 6]]);
    assert_eq!(interleave(&vec![gray]), vec![4, 5, 6, 1, 2, 3]);
}

#[test]
fn test_two_channels_alternate_within_a_pixel() {
    let luma = grid(&[&[1, 2], &[3, 4]]);
    let alpha = grid(&[&[10, 20], &[30, 40]]);
    assert_eq!(interleave(&vec![luma, alpha]), vec![3, 30, 4, 40, 1, 10, 2, 20]);
}

#[test]
fn test_three_channels() {
    let red = grid(&[&[1, 2]]);
    let green = grid(&[&[3, 4]]);
    let blue = grid(&[&[5, 6]]);
    assert_eq!(interleave(&vec![red, green, blue]), vec![1, 3, 5, 2, 4, 6]);
}

#[test]
fn test_four_channels_lie_where_the_layout_says() {
    let width = 3;
    let height = 2;
    let depth = 4;
    let mut channels = Vec::new();
    for channel in 0..depth {
        let mut rows = Vec::new();
        for row in 0..height {
            let columns = (0..width).map(|column| (100 * channel + 10 * row + column) as u8);
            rows.push(Data1d { columns: columns.collect() });
        }
        channels.push(Data2d { rows });
    }
    let buffer = interleave(&channels);
    assert_eq!(buffer.len(), width * height * depth);
    for channel in 0..depth {
        for row in 0..height {
            for column in 0..width {
                let offset = ((height - 1 - row) * width + column) * depth + channel;
                assert_eq!(buffer[offset], (100 * channel + 10 * row + column) as u8);
            }
        }
    }
}

#[test]
fn test_rows_reach_as_far_as_the_shortest_channel() {
    let long = grid(&[&[1, 2, 3], &[4, 5, 6]]);
    let short = grid(&[&[7], &[8, 9]]);
    assert_eq!(interleave(&vec![long, short]), vec![4, 8, 5, 9, 1, 7]);
}

#[test]
fn test_channels_without_rows_give_an_empty_buffer() {
    assert_eq!(interleave(&vec![grid(&[]), grid(&[])]), Vec::<u8>::new());
}

#[test]
fn test_set_pixel_writes_one_byte() {
    let width = 4;
    let mut buffer = vec![0u8; 12];
    set_pixel(&mut buffer, width, 255, 1, 2, 0);
    set_pixel(&mut buffer, width, 7, 0, 0, 0);
    set_pixel(&mut buffer, width, 9, 3, 2, 0);
    assert_eq!(buffer, vec![7, 0, 0, 0, 0, 0, 0, 0, 0, 255, 0, 9]);
}
