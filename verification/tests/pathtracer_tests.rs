use pathtracer::pathtracer::{chunk_ranges, marker_index, pixel_count, pixel_of_index};

#[test]
fn chunk_ranges_tile_the_buffer() {
    assert_eq!(chunk_ranges(10, 4), vec![(0, 4), (4, 8), (8, 10)]);
    assert_eq!(chunk_ranges(8, 4), vec![(0, 4), (4, 8)]);
    assert_eq!(chunk_ranges(0, 4), vec![]);
    assert_eq!(chunk_ranges(3, 16), vec![(0, 3)]);
}

#[test]
fn every_pixel_lies_in_exactly_one_chunk() {
    let len = 37;
    let cs = 5;
    let chunks = chunk_ranges(len, cs);
    for idx in 0..len {
        let owners: Vec<usize> =
            (0..chunks.len()).filter(|&k| chunks[k].0 <= idx && idx < chunks[k].1).collect();
        assert_eq!(owners, vec![idx / cs]);
    }
}

#[test]
fn pixel_of_index_is_row_major() {
    assert_eq!(pixel_of_index(0, 512), (0, 0));
    assert_eq!(pixel_of_index(513, 512), (1, 1));
    assert_eq!(pixel_of_index(1279, 1280), (1279, 0));
    for idx in 0..100 {
        let (x, y) = pixel_of_index(idx, 7);
        assert_eq!(y * 7 + x, idx);
    }
}

#[test]
fn pixel_count_of_image() {
    assert_eq!(pixel_count(1280, 1280), 1638400);
    assert_eq!(pixel_count(0, 5), 0);
    assert_eq!(pixel_count(-1, -1), 1);
    assert_eq!(pixel_count(-3, -4), 12);
}

#[test]
fn marker_lies_in_the_middle() {
    assert_eq!(marker_index(512, 512), 256 * 512 + 256);
    assert_eq!(marker_index(1, 1), 0);
    assert_eq!(marker_index(3, 4), 6);
    assert_eq!(marker_index(-1, -1), 0);
    assert_eq!(marker_index(-3, -3), 2);
}

#[test]
fn marker_is_always_inside_the_image() {
    for x in 1..20 {
        for y in 1..20 {
            assert!(marker_index(x, y) < pixel_count(x, y));
        }
    }
}
