use dwt_stegano::block::{Block, block_add, block_sub, zero_block};
use dwt_stegano::codec::{blocking_extract_one, rearrange_one_block};
use dwt_stegano::color::RGBColor;
use dwt_stegano::image::vec_to_u32;
use dwt_stegano::matching::{find_most_fit_block_index, root_mean_square_error};
use dwt_stegano::sqrt::isqrt;

fn rgb(r: i32, g: i32, b: i32) -> RGBColor {
    RGBColor::new(r, g, b)
}

fn gray_block(v: i32) -> Block {
    Block { p0: rgb(v, v, v), p1: rgb(v, v, v), p2: rgb(v, v, v), p3: rgb(v, v, v) }
}

#[test]
fn color_arithmetic() {
    let a = rgb(1, 2, 3);
    let b = rgb(10, 20, 30);
    assert_eq!(a.add(&b), rgb(11, 22, 33));
    assert_eq!(a.sub(&b), rgb(-9, -18, -27));
    assert_eq!(rgb(7, -7, 9).div_by(2), rgb(3, -3, 4));
    assert_eq!(rgb(-9, 9, -8).div_by(4), rgb(-2, 2, -2));
}

#[test]
fn block_arithmetic() {
    let a = Block { p0: rgb(1, 1, 1), p1: rgb(2, 2, 2), p2: rgb(3, 3, 3), p3: rgb(4, 4, 4) };
    let b = gray_block(1);
    let sum = block_add(&a, &b);
    assert_eq!(sum.p0, rgb(2, 2, 2));
    assert_eq!(sum.p3, rgb(5, 5, 5));
    let diff = block_sub(&a, &b);
    assert_eq!(diff.p0, rgb(0, 0, 0));
    assert_eq!(diff.p3, rgb(3, 3, 3));
    assert_eq!(zero_block().p2, rgb(0, 0, 0));
}

#[test]
fn integer_square_root() {
    assert_eq!(isqrt(0), 0);
    assert_eq!(isqrt(1), 1);
    assert_eq!(isqrt(3), 1);
    assert_eq!(isqrt(4), 2);
    assert_eq!(isqrt(9437184), 3072);
    assert_eq!(isqrt(u64::MAX), 4294967295);
}

#[test]
fn rmse_symmetric_and_zero_on_equal() {
    let a = Block { p0: rgb(5, 0, -3), p1: rgb(1, 2, 3), p2: rgb(0, 0, 0), p3: rgb(9, 9, 9) };
    let b = Block { p0: rgb(-5, 1, 3), p1: rgb(0, 0, 0), p2: rgb(4, 4, 4), p3: rgb(9, 8, 7) };
    assert_eq!(root_mean_square_error(&a, &b), root_mean_square_error(&b, &a));
    assert_eq!(root_mean_square_error(&a, &a), 0);
    assert_eq!(root_mean_square_error(&b, &b), 0);
}

#[test]
fn rmse_exact_value() {
    // One corner differs by 3 in the red channel only: the squared sum is
    // 9, and sqrt(9 * 2^20) = 3 * 2^10 is exact.
    let a = gray_block(0);
    let mut b = gray_block(0);
    b.p1 = rgb(3, 0, 0);
    assert_eq!(root_mean_square_error(&a, &b), 3072);
    // All four corners differ by 2 in every channel: per channel the
    // squared sum is 16, and sqrt(16 * 2^20) = 4 * 2^10, three channels.
    let c = gray_block(2);
    assert_eq!(root_mean_square_error(&a, &c), 3 * 4096);
}

#[test]
fn best_match_picks_minimum_not_first() {
    // If the candidate order were returned unsorted, index 0 would win;
    // the true best match sits at index 2.
    let target = gray_block(10);
    let candidates = vec![gray_block(0), gray_block(25), gray_block(11), gray_block(30)];
    assert_eq!(find_most_fit_block_index(&target, &candidates), 2);
}

#[test]
fn best_match_deterministic_and_lowest_index_on_tie() {
    let target = gray_block(7);
    let candidates = vec![gray_block(1), gray_block(7), gray_block(7)];
    let first = find_most_fit_block_index(&target, &candidates);
    let second = find_most_fit_block_index(&target, &candidates);
    assert_eq!(first, 1);
    assert_eq!(first, second);
}

#[test]
fn decompose_recompose_round_trip() {
    // A 4x2 coefficient grid (from a nominal 8x4 image), both dimensions
    // even: recomposing the blocks reproduces the grid exactly.
    let grid: Vec<RGBColor> = (0..8).map(|i| rgb(i, i * 2, -i)).collect();
    let blocks = blocking_extract_one(&grid, 8, 4);
    assert_eq!(blocks.len(), 2);
    let back = rearrange_one_block(&blocks, 4, 2);
    assert_eq!(back, grid);
}

#[test]
fn decompose_drops_trailing_cells() {
    // A 1x1 grid (from a nominal 2x2 image) holds no whole 2x2 window:
    // decomposition yields no block, and recomposition leaves the cell
    // zero.
    let grid = vec![rgb(40, 41, 42)];
    let blocks = blocking_extract_one(&grid, 2, 2);
    assert_eq!(blocks.len(), 0);
    let back = rearrange_one_block(&blocks, 1, 1);
    assert_eq!(back, vec![rgb(0, 0, 0)]);
}

#[test]
fn decompose_odd_grid_keeps_whole_windows() {
    // A 3x3 grid (from a nominal 6x6 image): one whole window; the
    // trailing odd row and column are dropped by decomposition and stay
    // zero after recomposition.
    let grid: Vec<RGBColor> = (0..9).map(|i| rgb(i + 1, 0, 0)).collect();
    let blocks = blocking_extract_one(&grid, 6, 6);
    assert_eq!(blocks.len(), 1);
    assert_eq!(blocks[0].p0, rgb(1, 0, 0));
    assert_eq!(blocks[0].p1, rgb(2, 0, 0));
    assert_eq!(blocks[0].p2, rgb(4, 0, 0));
    assert_eq!(blocks[0].p3, rgb(5, 0, 0));
    let back = rearrange_one_block(&blocks, 3, 3);
    let zero = rgb(0, 0, 0);
    assert_eq!(back, vec![
        rgb(1, 0, 0), rgb(2, 0, 0), zero,
        rgb(4, 0, 0), rgb(5, 0, 0), zero,
        zero, zero, zero,
    ]);
}

#[test]
fn vec_to_u32_parses_digits() {
    assert_eq!(vec_to_u32(&vec!['1', '2', '3']), Some(123));
    assert_eq!(vec_to_u32(&vec!['0']), Some(0));
    assert_eq!(vec_to_u32(&Vec::new()), Some(0));
    assert_eq!(vec_to_u32(&vec!['4', '2', 'x']), None);
    assert_eq!(vec_to_u32(&vec!['4', '2', '9', '4', '9', '6', '7', '2', '9', '5']),
        Some(4294967295));
    assert_eq!(vec_to_u32(&vec!['4', '2', '9', '4', '9', '6', '7', '2', '9', '6']), None);
}
