use apng_writer::canvas::{DRCYAN, DRGREEN, DRORANGE, DRPINK, DRPURPLE, DRRED, DRYELLOW};
use apng_writer::scenes::{
    borders, bouncy_circle_anim, circles, lines, mesh_points, random_palette, DRBG,
};
use apng_writer::sizes::{get_divs, get_same_res_divs};

const PALETTE: [u32; 7] = [DRRED, DRORANGE, DRYELLOW, DRGREEN, DRCYAN, DRPURPLE, DRPINK];

#[test]
fn divisors_largest_first() {
    assert_eq!(get_divs(12), vec![(6, 2), (4, 3), (3, 4), (2, 6), (1, 12)]);
    assert_eq!(get_divs(7), vec![(1, 7)]);
    assert_eq!(get_divs(1), vec![]);
    assert_eq!(get_divs(0), vec![]);
}

#[test]
fn same_resolution_squares() {
    // 8 by 4: squares of side 2 (4 columns, 2 rows) and 4 (2 columns, 1 row)
    assert_eq!(get_same_res_divs(8, 4), vec![(2, (4, 2)), (4, (2, 1))]);
    assert_eq!(get_same_res_divs(800, 600).first(), Some(&(2, (400, 300))));
    let all = get_same_res_divs(800, 600);
    assert!(all.windows(2).all(|p| p[0].0 < p[1].0));
    for &(side, (cols, rows)) in &all {
        assert_eq!(side * cols, 800);
        assert_eq!(side * rows, 600);
        assert!(side >= 2);
    }
}

#[test]
fn random_palette_colour() {
    for _ in 0..50 {
        assert!(PALETTE.contains(&random_palette()));
    }
}

#[test]
fn border_frame() {
    let c = borders(5, 4);
    for y in 0..4u32 {
        for x in 0..5u32 {
            let v = c.data[(y * 5 + x) as usize];
            if x == 0 || y == 0 || x == 4 || y == 3 {
                assert!(PALETTE.contains(&v));
            } else {
                assert_eq!(v, DRBG);
            }
        }
    }
}

#[test]
fn circles_in_a_grid() {
    let c = circles(40, 20, 4, 2, false, false);
    assert_eq!((c.w, c.h), (40, 20));
    assert!(c.data.iter().all(|v| *v == DRBG || PALETTE.contains(v)));
    // cells are 10 by 10, radius 5: the centre of the first cell is painted
    assert!(PALETTE.contains(&c.data[5 * 40 + 5]));
    assert_eq!(c.data[0], DRBG);
}

#[test]
fn bouncing_frames() {
    let frames = bouncy_circle_anim(20, 10, 2, 4);
    // two steps out of 8 pixels each, then one back
    assert_eq!(frames.len(), 4);
    let centre = |f: &Vec<u32>| (0..20).find(|&x| f[5 * 20 + x] == DRPINK).unwrap() + 1;
    assert_eq!(centre(&frames[0]), 2);
    assert_eq!(centre(&frames[1]), 10);
    assert_eq!(centre(&frames[2]), 18);
    assert_eq!(centre(&frames[3]), 10);
    assert_eq!(frames[1], frames[3]);
    assert_eq!(bouncy_circle_anim(20, 10, 2, 1).len(), 1);
}

#[test]
fn mesh_adds_last_column_and_row() {
    // steps of 3 across 8 columns and 2 down 5 rows
    let pts = mesh_points(8, 5, 2);
    let xs = [0, 4, 7];
    let ys = [0, 2, 4];
    let expected: Vec<(isize, isize)> = ys.iter().flat_map(|&y| xs.iter().map(move |&x| (x, y))).collect();
    assert_eq!(pts, expected);
    // exact multiples need no extra point
    assert_eq!(mesh_points(5, 3, 1), vec![(0, 0), (4, 0), (0, 2), (4, 2)]);
}

#[test]
fn lines_join_mesh_points() {
    let c = lines(5, 5, 1, 7);
    // the four corners are joined: the frame and both diagonals are drawn
    for i in 0..5u32 {
        assert_eq!(c.data[i as usize], 7);
        assert_eq!(c.data[(4 * 5 + i) as usize], 7);
        assert_eq!(c.data[(i * 5) as usize], 7);
        assert_eq!(c.data[(i * 5 + 4) as usize], 7);
        assert_eq!(c.data[(i * 5 + i) as usize], 7);
        assert_eq!(c.data[(i * 5 + 4 - i) as usize], 7);
    }
    assert_eq!(c.data[1 * 5 + 2], DRBG);
    assert!(c.data.iter().all(|&v| v == 7 || v == DRBG));
}
