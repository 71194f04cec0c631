use flood_fill::color::{distance_squared_rgba, is_similar_color};
use flood_fill::fill::{fill_region, flood_fill, similarity_mask_of};

const BLACK: [u8; 4] = [0, 0, 0, 255];
const WHITE: [u8; 4] = [255, 255, 255, 255];
const RED: [u8; 4] = [255, 0, 0, 255];

fn image(colors: &[[u8; 4]]) -> Vec<u8> {
    colors.iter().flat_map(|c| c.iter().copied()).collect()
}

fn pixel(buf: &[u8], i: usize) -> [u8; 4] {
    [buf[4 * i], buf[4 * i + 1], buf[4 * i + 2], buf[4 * i + 3]]
}

fn three_by_three_white_center() -> Vec<u8> {
    let mut colors = vec![BLACK; 9];
    colors[4] = WHITE;
    image(&colors)
}

#[test]
fn corner_fill_surrounds_white_center() {
    let pixels = three_by_three_white_center();
    let out = flood_fill(&pixels, 3, 3, 0, 0, &RED, 0);
    assert_eq!(out.len(), pixels.len());
    for i in 0..9 {
        if i == 4 {
            assert_eq!(pixel(&out, i), WHITE);
        } else {
            assert_eq!(pixel(&out, i), RED);
        }
    }
}

#[test]
fn max_tolerance_fills_both_pixels() {
    let pixels = image(&[[10, 10, 10, 255], [200, 200, 200, 255]]);
    let out = flood_fill(&pixels, 2, 1, 0, 0, &RED, 100);
    assert_eq!(out, image(&[RED, RED]));
}

#[test]
fn zero_tolerance_fills_only_seed() {
    let pixels = image(&[[10, 10, 10, 255], [200, 200, 200, 255]]);
    let out = flood_fill(&pixels, 2, 1, 0, 0, &RED, 0);
    assert_eq!(out, image(&[RED, [200, 200, 200, 255]]));
}

#[test]
fn same_color_fill_is_no_op() {
    let pixels = three_by_three_white_center();
    assert_eq!(flood_fill(&pixels, 3, 3, 1, 0, &BLACK, 50), pixels);
    assert_eq!(flood_fill(&pixels, 3, 3, 1, 1, &WHITE, 100), pixels);
}

#[test]
fn seed_outside_grid_is_no_op() {
    let pixels = three_by_three_white_center();
    assert_eq!(flood_fill(&pixels, 3, 3, 3, 0, &RED, 0), pixels);
    assert_eq!(flood_fill(&pixels, 3, 3, 0, 3, &RED, 0), pixels);
    assert_eq!(flood_fill(&pixels, 0, 0, 0, 0, &RED, 0), pixels);
    assert_eq!(flood_fill(&[], 0, 5, 0, 0, &RED, 0), Vec::<u8>::new());
}

#[test]
fn fill_color_of_wrong_length_is_no_op() {
    let pixels = three_by_three_white_center();
    assert_eq!(flood_fill(&pixels, 3, 3, 0, 0, &[255, 0, 0], 0), pixels);
    assert_eq!(flood_fill(&pixels, 3, 3, 0, 0, &[255, 0, 0, 255, 0], 0), pixels);
}

#[test]
fn buffer_of_wrong_length_is_no_op() {
    let mut pixels = three_by_three_white_center();
    pixels.pop();
    assert_eq!(flood_fill(&pixels, 3, 3, 0, 0, &RED, 0), pixels);
    assert_eq!(flood_fill(&pixels[..32], 3, 3, 0, 0, &RED, 0), pixels[..32].to_vec());
}

#[test]
fn filled_pixels_are_connected_to_seed() {
    // Two black areas split by a white column: only the seed's side is filled.
    let mut colors = vec![BLACK; 9];
    colors[1] = WHITE;
    colors[4] = WHITE;
    colors[7] = WHITE;
    let pixels = image(&colors);
    let out = flood_fill(&pixels, 3, 3, 0, 0, &RED, 0);
    for i in 0..9 {
        let expected = match i % 3 {
            0 => RED,
            1 => WHITE,
            _ => BLACK,
        };
        assert_eq!(pixel(&out, i), expected);
    }
}

#[test]
fn diagonal_pixels_are_not_connected() {
    let pixels = image(&[BLACK, WHITE, WHITE, BLACK]);
    let out = flood_fill(&pixels, 2, 2, 0, 0, &RED, 0);
    assert_eq!(out, image(&[RED, WHITE, WHITE, BLACK]));
}

#[test]
fn existing_fill_color_outside_region_is_kept() {
    let pixels = image(&[BLACK, WHITE, RED]);
    let out = flood_fill(&pixels, 3, 1, 0, 0, &RED, 0);
    assert_eq!(out, image(&[RED, WHITE, RED]));
}

#[test]
fn fill_twice_equals_fill_once() {
    let pixels = three_by_three_white_center();
    let once = flood_fill(&pixels, 3, 3, 2, 2, &RED, 10);
    let twice = flood_fill(&once, 3, 3, 2, 2, &RED, 10);
    assert_eq!(once, twice);
    let grey = image(&[[10, 10, 10, 255], [60, 60, 60, 255], [200, 200, 200, 255], [0, 0, 0, 0]]);
    let once = flood_fill(&grey, 2, 2, 1, 0, &BLACK, 40);
    assert_eq!(flood_fill(&once, 2, 2, 1, 0, &BLACK, 40), once);
}

fn count_color(buf: &[u8], color: [u8; 4]) -> usize {
    (0..buf.len() / 4).filter(|&i| pixel(buf, i) == color).count()
}

#[test]
fn higher_tolerance_never_fills_fewer() {
    let pixels = image(&[
        [0, 0, 0, 255],
        [20, 20, 20, 255],
        [60, 60, 60, 255],
        [120, 120, 120, 255],
        [250, 250, 250, 255],
    ]);
    let mut last = 0;
    for t in 0..=100u8 {
        let out = flood_fill(&pixels, 5, 1, 0, 0, &RED, t);
        let n = count_color(&out, RED);
        assert!(n >= last);
        last = n;
    }
    assert_eq!(last, 5);
    assert_eq!(count_color(&flood_fill(&pixels, 5, 1, 0, 0, &RED, 0), RED), 1);
    // 20 apart in each of three channels: distance about 34.6, within 441 * 8 / 100.
    assert_eq!(count_color(&flood_fill(&pixels, 5, 1, 0, 0, &RED, 8), RED), 2);
}

#[test]
fn corners_do_not_wrap_around() {
    // Two black columns at the sides of a 3 by 2 image, split by a white one.
    // In memory the end of the first row touches the start of the second, so a
    // step that wrapped around would leak into the other column.
    let pixels = image(&[BLACK, WHITE, BLACK, BLACK, WHITE, BLACK]);
    let out = flood_fill(&pixels, 3, 2, 0, 0, &RED, 0);
    assert_eq!(out, image(&[RED, WHITE, BLACK, RED, WHITE, BLACK]));
    let out = flood_fill(&pixels, 3, 2, 2, 1, &RED, 0);
    assert_eq!(out, image(&[BLACK, WHITE, RED, BLACK, WHITE, RED]));
}

#[test]
fn single_pixel_image() {
    let out = flood_fill(&BLACK, 1, 1, 0, 0, &RED, 0);
    assert_eq!(out, RED.to_vec());
}

#[test]
fn distance_counts_all_four_channels() {
    assert_eq!(distance_squared_rgba(&[0, 0, 0, 0], &[0, 0, 0, 0]), 0);
    assert_eq!(distance_squared_rgba(&[1, 2, 3, 4], &[4, 3, 2, 1]), 9 + 1 + 1 + 9);
    assert_eq!(distance_squared_rgba(&[0, 0, 0, 0], &[255, 255, 255, 255]), 4 * 65025);
}

#[test]
fn similarity_threshold_is_scaled_from_441() {
    // At tolerance 10 the bound is 44.1: a distance of 44 is within it, 45 is not.
    assert!(is_similar_color(&[0, 0, 0, 0], &[44, 0, 0, 0], 10));
    assert!(!is_similar_color(&[0, 0, 0, 0], &[45, 0, 0, 0], 10));
    assert!(is_similar_color(&[7, 7, 7, 7], &[7, 7, 7, 7], 0));
    assert!(!is_similar_color(&[7, 7, 7, 7], &[7, 7, 7, 8], 0));
    // 441 is a little under the distance from black to white, 255 * sqrt(3).
    assert!(is_similar_color(&[1, 1, 1, 255], &[255, 255, 255, 255], 100));
    assert!(!is_similar_color(&[0, 0, 0, 255], &[255, 255, 255, 255], 100));
    // Alpha takes part: colors that differ only in alpha can be far apart.
    assert!(!is_similar_color(&[0, 0, 0, 0], &[0, 0, 0, 255], 10));
    assert!(is_similar_color(&[0, 0, 0, 0], &[0, 0, 0, 255], 58));
}

#[test]
fn short_colors_are_never_similar() {
    assert!(!is_similar_color(&[1, 2, 3], &[1, 2, 3, 4], 100));
    assert!(!is_similar_color(&[1, 2, 3, 4], &[], 100));
}

#[test]
fn mask_flags_similar_pixels() {
    let pixels = image(&[BLACK, WHITE, [5, 0, 0, 255]]);
    assert_eq!(similarity_mask_of(&pixels, 3, &BLACK, 0), vec![true, false, false]);
    assert_eq!(similarity_mask_of(&pixels, 3, &BLACK, 2), vec![true, false, true]);
}

#[test]
fn region_fill_follows_mask() {
    let mut pixels = image(&[BLACK, WHITE, BLACK, BLACK]);
    fill_region(&mut pixels, 2, 2, 0, 0, &RED, &vec![true, true, false, true]);
    assert_eq!(pixels, image(&[RED, RED, BLACK, RED]));
}

#[test]
fn region_fill_needs_seed_in_mask() {
    let mut pixels = image(&[BLACK, BLACK]);
    fill_region(&mut pixels, 2, 1, 0, 0, &RED, &vec![false, true]);
    assert_eq!(pixels, image(&[BLACK, BLACK]));
    fill_region(&mut pixels, 2, 1, 0, 0, &RED, &vec![true]);
    assert_eq!(pixels, image(&[BLACK, BLACK]));
}
