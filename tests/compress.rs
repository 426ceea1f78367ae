use img_compressor::image_processor::{ImageData, RGB};
use img_compressor::prefix_sum_matrix::PrefixSumMatrix;
use img_compressor::quad_tree::{Node, OrdNode, QuadTree, MAX_ALPHA};
use img_compressor::utils::{gif_frames, hex_to_rgb, record_frames, refine};
use img_compressor::CompressError;

fn px(r: u64, g: u64, b: u64) -> RGB<u64> {
    RGB::new(r, g, b)
}

fn grid_from(rows: &[&[(u64, u64, u64)]]) -> Vec<Vec<RGB<u64>>> {
    rows.iter()
        .map(|row| row.iter().map(|&(r, g, b)| px(r, g, b)).collect())
        .collect()
}

fn uniform(h: usize, w: usize, c: u64) -> Vec<Vec<RGB<u64>>> {
    vec![vec![px(c, c, c); w]; h]
}

/// 4x4 image: top-left 2x2 block black, the other 12 pixels white.
fn worked_example() -> Vec<Vec<RGB<u64>>> {
    let mut g = uniform(4, 4, 255);
    for r in 0..2 {
        for c in 0..2 {
            g[r][c] = px(0, 0, 0);
        }
    }
    g
}

fn sample_grid() -> Vec<Vec<RGB<u64>>> {
    let mut g = Vec::new();
    for r in 0..5u64 {
        let mut row = Vec::new();
        for c in 0..7u64 {
            row.push(px((r * 31 + c * 7) % 256, (r * 13 + c * 17 + 5) % 256, (r * c * 11) % 256));
        }
        g.push(row);
    }
    g
}

fn brute_sum(g: &Vec<Vec<RGB<u64>>>, tl: (usize, usize), br: (usize, usize)) -> RGB<u64> {
    let mut s = px(0, 0, 0);
    for r in tl.0..=br.0 {
        for c in tl.1..=br.1 {
            s.r += g[r][c].r;
            s.g += g[r][c].g;
            s.b += g[r][c].b;
        }
    }
    s
}

fn tree_of(g: &Vec<Vec<RGB<u64>>>) -> QuadTree {
    QuadTree::new(ImageData::new(g).unwrap())
}

fn pixel(buf: &Vec<RGB<u8>>, w: usize, r: usize, c: usize) -> RGB<u8> {
    buf[r * w + c]
}

#[test]
fn prefix_sum_matrix_cells_and_queries() {
    let g = grid_from(&[&[(1, 2, 3), (4, 5, 6)], &[(7, 8, 9), (10, 11, 12)]]);
    let m = PrefixSumMatrix::new(&g).unwrap();
    assert_eq!(m.height(), 2);
    assert_eq!(m.width(), 2);
    assert_eq!(m.get(0, 0), px(0, 0, 0));
    assert_eq!(m.get(1, 2), px(5, 7, 9));
    assert_eq!(m.get(2, 2), px(22, 26, 30));
    assert_eq!(m.query_sum((1, 1), (1, 1)), px(10, 11, 12));
    assert_eq!(m.query_sum((0, 1), (1, 1)), px(14, 16, 18));
}

#[test]
fn prefix_sum_matrix_rejects_bad_shapes() {
    let empty: Vec<Vec<RGB<u64>>> = Vec::new();
    assert!(matches!(PrefixSumMatrix::new(&empty), Err(CompressError::InvalidDimensions)));
    let no_cols: Vec<Vec<RGB<u64>>> = vec![Vec::new()];
    assert!(matches!(PrefixSumMatrix::new(&no_cols), Err(CompressError::InvalidDimensions)));
}

#[test]
fn image_data_rejects_empty_and_jagged_grids() {
    let empty: Vec<Vec<RGB<u64>>> = Vec::new();
    assert!(matches!(ImageData::new(&empty), Err(CompressError::InvalidDimensions)));
    let empty_row: Vec<Vec<RGB<u64>>> = vec![Vec::new(), Vec::new()];
    assert!(matches!(ImageData::new(&empty_row), Err(CompressError::InvalidDimensions)));
    let jagged = grid_from(&[&[(1, 1, 1), (2, 2, 2)], &[(3, 3, 3)]]);
    assert!(matches!(ImageData::new(&jagged), Err(CompressError::InvalidDimensions)));
    let longer = grid_from(&[&[(1, 1, 1)], &[(3, 3, 3), (4, 4, 4)]]);
    assert!(matches!(ImageData::new(&longer), Err(CompressError::InvalidDimensions)));
}

#[test]
fn full_extent_sum_matches_brute_force() {
    let g = sample_grid();
    let d = ImageData::new(&g).unwrap();
    assert_eq!(d.height(), 5);
    assert_eq!(d.width(), 7);
    assert_eq!(d.sum((0, 0), (4, 6)), brute_sum(&g, (0, 0), (4, 6)));
    let sq: Vec<Vec<RGB<u64>>> = g
        .iter()
        .map(|row| row.iter().map(|p| px(p.r * p.r, p.g * p.g, p.b * p.b)).collect())
        .collect();
    assert_eq!(d.square_sum((0, 0), (4, 6)), brute_sum(&sq, (0, 0), (4, 6)));
}

#[test]
fn every_rectangle_sum_matches_brute_force() {
    let g = sample_grid();
    let d = ImageData::new(&g).unwrap();
    for r0 in 0..5 {
        for r1 in r0..5 {
            for c0 in 0..7 {
                for c1 in c0..7 {
                    assert_eq!(d.sum((r0, c0), (r1, c1)), brute_sum(&g, (r0, c0), (r1, c1)));
                }
            }
        }
    }
}

#[test]
fn sums_are_additive_over_a_partition() {
    let g = sample_grid();
    let d = ImageData::new(&g).unwrap();
    let whole = d.sum((0, 0), (4, 6));
    let parts = [
        d.sum((0, 0), (1, 6)),
        d.sum((2, 0), (4, 2)),
        d.sum((2, 3), (3, 6)),
        d.sum((4, 3), (4, 6)),
    ];
    let mut total = px(0, 0, 0);
    for p in parts.iter() {
        total.r += p.r;
        total.g += p.g;
        total.b += p.b;
    }
    assert_eq!(total, whole);
}

#[test]
fn average_is_floor_of_mean() {
    let g = grid_from(&[&[(0, 1, 10), (1, 2, 20), (2, 2, 31)]]);
    let d = ImageData::new(&g).unwrap();
    assert_eq!(d.average((0, 0), (0, 2)), px(1, 1, 20));
}

#[test]
fn variance_of_uniform_rectangle_is_zero() {
    let d = ImageData::new(&uniform(3, 5, 77)).unwrap();
    assert_eq!(d.variance((0, 0), (2, 4)), 0);
    assert_eq!(d.variance((1, 1), (2, 3)), 0);
}

#[test]
fn variance_score_exact_values() {
    // one row: (0,0,0) and (2,2,2): E[X^2] = 2, E[X]^2 = 1 per channel; times area 2
    let g = grid_from(&[&[(0, 0, 0), (2, 2, 2)]]);
    let d = ImageData::new(&g).unwrap();
    assert_eq!(d.variance((0, 0), (0, 1)), 6);
    // 0, 0, 1 in one channel: E[X^2] = 1/3 -> 0, mean 0 -> spread 0
    let g = grid_from(&[&[(0, 0, 0), (0, 0, 0), (1, 0, 0)]]);
    let d = ImageData::new(&g).unwrap();
    assert_eq!(d.variance((0, 0), (0, 2)), 0);
    // 0 and 255: E[X^2] = 32512, mean 127, 127^2 = 16129 -> 16383 per channel, 3 channels, area 2
    let g = grid_from(&[&[(0, 0, 0), (255, 255, 255)]]);
    let d = ImageData::new(&g).unwrap();
    assert_eq!(d.variance((0, 0), (0, 1)), 16383 * 3 * 2);
}

#[test]
fn node_split_makes_floor_ceil_quadrants() {
    let n = Node::leaf((0, 0), (2, 4));
    assert!(n.can_split());
    let (a, b, c, d) = n.split().unwrap();
    assert_eq!((a.top_left, a.bottom_right), ((0, 0), (1, 2)));
    assert_eq!((b.top_left, b.bottom_right), ((0, 3), (1, 4)));
    assert_eq!((c.top_left, c.bottom_right), ((2, 0), (2, 2)));
    assert_eq!((d.top_left, d.bottom_right), ((2, 3), (2, 4)));
    assert!(a.children.is_none());
}

#[test]
fn two_by_two_splits_but_thin_rectangles_do_not() {
    assert!(Node::leaf((3, 3), (4, 4)).can_split());
    assert!(!Node::leaf((0, 0), (0, 5)).can_split());
    assert!(!Node::leaf((0, 0), (5, 0)).can_split());
    assert!(!Node::leaf((2, 2), (2, 2)).can_split());
    assert!(Node::leaf((0, 0), (0, 5)).split().is_none());
}

#[test]
fn ord_node_scores_its_rectangle() {
    let g = grid_from(&[&[(0, 0, 0), (2, 2, 2)]]);
    let d = ImageData::new(&g).unwrap();
    let nodes = vec![Node::leaf((0, 0), (0, 1)), Node::leaf((0, 1), (0, 1))];
    let e = OrdNode::new(&nodes, 0, &d);
    assert_eq!(e.node_idx, 0);
    assert_eq!(e.variance, 6);
    assert_eq!(OrdNode::new(&nodes, 1, &d).variance, 0);
}

#[test]
fn node_counts_after_k_steps() {
    let mut t = tree_of(&sample_grid());
    assert_eq!(t.node_count(), 1);
    for k in 1..=5usize {
        assert!(t.split_next().is_ok());
        assert_eq!(t.node_count(), 1 + 4 * k);
    }
}

#[test]
fn render_after_steps_covers_every_pixel() {
    let g = worked_example();
    let mut t = tree_of(&g);
    for _ in 0..5 {
        t.split_next().unwrap();
    }
    // every leaf is now a single pixel, so the render reproduces the image
    let out = t.render(None);
    assert_eq!(out.len(), 16);
    for r in 0..4 {
        for c in 0..4 {
            let p = g[r][c];
            assert_eq!(pixel(&out, 4, r, c), RGB::new(p.r as u8, p.g as u8, p.b as u8));
        }
    }
}

#[test]
fn step_fails_when_every_leaf_is_a_single_pixel() {
    let g = grid_from(&[&[(9, 8, 7)]]);
    let mut t = tree_of(&g);
    let before = t.render(None);
    assert_eq!(t.split_next(), Err(CompressError::NoMoreSplittableRegions));
    assert_eq!(t.node_count(), 1);
    assert_eq!(t.render(None), before);
}

#[test]
fn step_fails_on_a_single_row() {
    let g = grid_from(&[&[(0, 0, 0), (255, 255, 255), (0, 0, 0)]]);
    let mut t = tree_of(&g);
    assert_eq!(t.split_next(), Err(CompressError::NoMoreSplittableRegions));
    assert_eq!(t.node_count(), 1);
}

#[test]
fn initial_render_is_mean_color() {
    let g = sample_grid();
    let d = ImageData::new(&g).unwrap();
    let mean = d.average((0, 0), (4, 6));
    let t = QuadTree::new(d);
    let out = t.render(None);
    assert_eq!(out.len(), 35);
    for p in out.iter() {
        assert_eq!(*p, RGB::new(mean.r as u8, mean.g as u8, mean.b as u8));
    }
}

#[test]
fn worked_example_first_split_and_exhaustion() {
    let g = worked_example();
    let mut t = tree_of(&g);
    assert!(t.split_next().is_ok());
    assert_eq!(t.node_count(), 5);
    let out = t.render(None);
    for r in 0..4 {
        for c in 0..4 {
            let expect = if r < 2 && c < 2 { RGB::new(0, 0, 0) } else { RGB::new(255, 255, 255) };
            assert_eq!(pixel(&out, 4, r, c), expect);
        }
    }
    // four more steps take every 2x2 quadrant down to single pixels
    for _ in 0..4 {
        assert!(t.split_next().is_ok());
        assert_eq!(t.render(None), out);
    }
    assert_eq!(t.node_count(), 1 + 4 + 16);
    assert_eq!(t.split_next(), Err(CompressError::NoMoreSplittableRegions));
    assert_eq!(t.node_count(), 21);
}

#[test]
fn greedy_step_picks_highest_score() {
    // left half varied, right half uniform: the second step splits a left quadrant
    let mut g = uniform(4, 4, 200);
    g[0][0] = px(0, 0, 0);
    g[1][1] = px(0, 0, 0);
    let mut t = tree_of(&g);
    t.split_next().unwrap();
    t.split_next().unwrap();
    let out = t.render(None);
    assert_eq!(pixel(&out, 4, 0, 0), RGB::new(0, 0, 0));
    assert_eq!(pixel(&out, 4, 1, 1), RGB::new(0, 0, 0));
    assert_eq!(pixel(&out, 4, 0, 1), RGB::new(200, 200, 200));
}

#[test]
fn outline_paints_leaf_borders() {
    let g = uniform(3, 3, 50);
    let t = tree_of(&g);
    let o = RGB::new(1, 2, 3);
    let out = t.render(Some(o));
    for r in 0..3 {
        for c in 0..3 {
            let expect = if r == 1 && c == 1 { RGB::new(50, 50, 50) } else { o };
            assert_eq!(pixel(&out, 3, r, c), expect);
        }
    }
}

#[test]
fn rgb_and_rgba_bytes() {
    let g = grid_from(&[&[(10, 20, 30), (30, 40, 50)]]);
    let t = tree_of(&g);
    assert_eq!(t.height(), 1);
    assert_eq!(t.width(), 2);
    assert_eq!(t.render_rgb(None), vec![20, 30, 40, 20, 30, 40]);
    assert_eq!(t.render_rgba(None), vec![20, 30, 40, MAX_ALPHA, 20, 30, 40, MAX_ALPHA]);
    assert_eq!(MAX_ALPHA, 100);
}

#[test]
fn hex_colors_parse() {
    assert_eq!(hex_to_rgb("#ff0080"), Ok(RGB::new(255, 0, 128)));
    assert_eq!(hex_to_rgb("FF0080"), Ok(RGB::new(255, 0, 128)));
    assert_eq!(hex_to_rgb("##0a0B0c"), Ok(RGB::new(10, 11, 12)));
    assert_eq!(hex_to_rgb("+f0000"), Ok(RGB::new(15, 0, 0)));
}

#[test]
fn hex_colors_rejected() {
    assert_eq!(hex_to_rgb("#ff008"), Err(CompressError::InvalidColor));
    assert_eq!(hex_to_rgb("#ff00800"), Err(CompressError::InvalidColor));
    assert_eq!(hex_to_rgb("#gg0000"), Err(CompressError::InvalidColor));
    assert_eq!(hex_to_rgb(""), Err(CompressError::InvalidColor));
    assert_eq!(hex_to_rgb("-f0000"), Err(CompressError::InvalidColor));
}

#[test]
fn refine_runs_requested_steps() {
    let mut t = tree_of(&sample_grid());
    assert_eq!(refine(&mut t, 3), Ok(()));
    assert_eq!(t.node_count(), 13);
    let mut t = tree_of(&worked_example());
    assert_eq!(refine(&mut t, 9), Err(CompressError::NoMoreSplittableRegions));
    assert_eq!(t.node_count(), 21);
}

#[test]
fn recorder_takes_frames_at_interval() {
    let mut t = tree_of(&worked_example());
    let (frames, res) = record_frames(&mut t, 4, 2, None);
    assert_eq!(res, Ok(()));
    assert_eq!(frames.len(), 3);
    for f in frames.iter() {
        assert_eq!(f.len(), 4 * 4 * 4);
    }
    // before any step the whole image is one mean color: (12 * 255) / 16 = 191
    assert_eq!(&frames[0][0..4], &[191, 191, 191, 100]);
    assert_eq!(&frames[1][0..4], &[0, 0, 0, 100]);
}

#[test]
fn recorder_stops_early_and_keeps_frames() {
    let mut t = tree_of(&worked_example());
    let (frames, res) = record_frames(&mut t, 10, 2, Some(RGB::new(9, 9, 9)));
    assert_eq!(res, Err(CompressError::NoMoreSplittableRegions));
    // five steps succeed: frames before any step and after steps 2 and 4
    assert_eq!(frames.len(), 3);
    assert_eq!(t.node_count(), 21);
}

#[test]
fn gif_frames_index_each_pixel() {
    let raw = vec![vec![10, 20, 30, 100, 40, 50, 60, 100, 10, 20, 30, 100, 40, 50, 60, 100]];
    let frames = gif_frames(&raw, 2, 2);
    assert_eq!(frames.len(), 1);
    let f = &frames[0];
    assert_eq!((f.width, f.height), (2, 2));
    assert_eq!(f.buffer, vec![0, 1, 0, 1]);
    assert_eq!(f.palette, Some(vec![10, 20, 30, 40, 50, 60]));
    assert_eq!(f.transparent, None);
}

#[test]
fn recorded_frames_quantize_to_one_index_per_pixel() {
    let mut t = tree_of(&worked_example());
    let (raw, res) = record_frames(&mut t, 1, 1, None);
    assert_eq!(res, Ok(()));
    let frames = gif_frames(&raw, 4, 4);
    assert_eq!(frames.len(), 2);
    // before the step one color; after it black and white
    assert_eq!(frames[0].buffer, vec![0; 16]);
    assert_eq!(frames[0].palette, Some(vec![191, 191, 191]));
    assert_eq!(frames[1].palette, Some(vec![0, 0, 0, 255, 255, 255]));
    assert_eq!(frames[1].buffer[0], 0);
    assert_eq!(frames[1].buffer[15], 1);
}
