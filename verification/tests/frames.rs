use diorama::frame::{frame_file_name, pixel_coords};

#[test]
fn pixel_index_to_screen_position() {
    assert_eq!(pixel_coords(0, 800), (0, 0));
    assert_eq!(pixel_coords(799, 800), (799, 0));
    assert_eq!(pixel_coords(800, 800), (0, 1));
    assert_eq!(pixel_coords(1603, 800), (3, 2));
    assert_eq!(pixel_coords(479_999, 800), (799, 599));
    assert_eq!(pixel_coords(5, 1), (0, 5));
}

#[test]
fn frame_names_are_zero_padded() {
    assert_eq!(frame_file_name(0), b"frames/frame_000.ppm".to_vec());
    assert_eq!(frame_file_name(7), b"frames/frame_007.ppm".to_vec());
    assert_eq!(frame_file_name(42), b"frames/frame_042.ppm".to_vec());
    assert_eq!(frame_file_name(119), b"frames/frame_119.ppm".to_vec());
    assert_eq!(frame_file_name(1234), b"frames/frame_1234.ppm".to_vec());
}

#[test]
fn frame_names_are_distinct() {
    let names: Vec<Vec<u8>> = (0..1200).map(frame_file_name).collect();
    for i in 0..names.len() {
        for j in (i + 1)..names.len() {
            assert_ne!(names[i], names[j]);
        }
    }
}
