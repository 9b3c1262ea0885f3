use apng_writer::canvas::{octant, octant_to_d, Canvas, DRGREEN, DRRED, DRYELLOW};

fn px(c: &Canvas, x: u32, y: u32) -> u32 {
    c.data[(y * c.w + x) as usize]
}

#[test]
fn new_canvas_is_one_colour() {
    let c = Canvas::new(0x282a36ff, 4, 3);
    assert_eq!((c.w, c.h, c.stride), (4, 3, 4));
    assert_eq!(c.data, vec![0x282a36ff; 12]);
}

#[test]
fn fill_repaints_everything() {
    let mut c = Canvas::new(1, 3, 3);
    c.set_pixel(1, 1, 7);
    c.fill(9);
    assert_eq!(c.data, vec![9; 9]);
}

#[test]
fn set_pixel_is_row_major() {
    let mut c = Canvas::new(0, 3, 2);
    c.set_pixel(2, 1, 5);
    assert_eq!(c.data, vec![0, 0, 0, 0, 0, 5]);
}

#[test]
fn rect_is_clipped_and_sorted() {
    let mut c = Canvas::new(0, 4, 4);
    c.set_rect((3, 5), (-1, 2), 8, false);
    for y in 0..4 {
        for x in 0..4 {
            let inside = x < 3 && y >= 2;
            assert_eq!(px(&c, x, y), if inside { 8 } else { 0 }, "pixel {x},{y}");
        }
    }
}

#[test]
fn flat_rect_takes_its_height_from_the_right_edge() {
    let mut c = Canvas::new(0, 4, 4);
    // no height: the bottom becomes the larger x, 2
    c.set_rect((0, 0), (2, 0), 3, false);
    assert_eq!(c.data, vec![3, 3, 0, 0, 3, 3, 0, 0, 0, 0, 0, 0, 0, 0, 0, 0]);
}

#[test]
fn random_rect_has_full_alpha_range() {
    let mut c = Canvas::new(0, 3, 3);
    c.set_rect((0, 0), (3, 3), 0, true);
    assert!(c.data.iter().all(|&v| v >= 0xFF));
}

#[test]
fn circle_paints_strictly_inside() {
    let mut c = Canvas::new(0, 5, 5);
    c.set_circle((2, 2), 2, 1, false, false);
    for y in 0..5i64 {
        for x in 0..5i64 {
            let inside = (x - 2) * (x - 2) + (y - 2) * (y - 2) < 4;
            assert_eq!(px(&c, x as u32, y as u32), inside as u32);
        }
    }
}

#[test]
fn circle_off_the_edge_is_clipped() {
    let mut c = Canvas::new(0, 3, 3);
    c.set_circle((-1, -1), 2, 4, false, false);
    assert_eq!(c.data, vec![4, 0, 0, 0, 0, 0, 0, 0, 0]);
    c.set_circle((1, 1), 0, 6, false, false);
    assert_eq!(c.data, vec![4, 0, 0, 0, 0, 0, 0, 0, 0]);
}

#[test]
fn random_radius_stays_within_bound() {
    let mut c = Canvas::new(0, 7, 7);
    c.set_circle((3, 3), 3, 2, false, true);
    assert_eq!(px(&c, 3, 3), 2);
    assert_eq!(px(&c, 0, 0), 0);
    assert_eq!(px(&c, 0, 3), 0);
}

#[test]
fn octants_of_directions() {
    assert_eq!(octant((0, 0), (5, 1)), 0);
    assert_eq!(octant((0, 0), (1, 5)), 1);
    assert_eq!(octant((0, 0), (-1, 5)), 2);
    assert_eq!(octant((0, 0), (-5, 1)), 3);
    assert_eq!(octant((0, 0), (-5, -1)), 4);
    assert_eq!(octant((0, 0), (-1, -5)), 5);
    assert_eq!(octant((0, 0), (1, -5)), 6);
    assert_eq!(octant((0, 0), (5, -1)), 7);
    assert_eq!(octant((10, 10), (10, 10)), 0);
}

#[test]
fn octant_steps() {
    assert_eq!(octant_to_d(0), (1, 1));
    assert_eq!(octant_to_d(3), (-1, 1));
    assert_eq!(octant_to_d(4), (-1, -1));
    assert_eq!(octant_to_d(7), (1, -1));
}

#[test]
fn octant_circle_colours() {
    let mut c = Canvas::new(0, 9, 9);
    c.octantcircle((4, 4), 4);
    assert_eq!(px(&c, 4, 4), 0xFF);
    assert_eq!(px(&c, 6, 4), 0xFF);
    assert_eq!(px(&c, 6, 6), 0xFF);
    assert_eq!(px(&c, 7, 5), DRRED);
    assert_eq!(px(&c, 5, 7), 0xFFB86CFF);
    assert_eq!(px(&c, 3, 7), DRYELLOW);
    assert_eq!(px(&c, 1, 5), DRGREEN);
    assert_eq!(px(&c, 0, 0), 0);
}

#[test]
fn manhattan_voronoi_last_tie_wins() {
    let mut c = Canvas::new(0, 3, 1);
    c.voronoi_manhattan(&[((0, 0), 10), ((2, 0), 20)]);
    assert_eq!(c.data, vec![10, 20, 20]);
    c.voronoi_manhattan(&[]);
    assert_eq!(c.data, vec![0xFF, 0xFF, 0xFF]);
}

#[test]
fn triangle_fills_its_inside() {
    let mut c = Canvas::new(0, 6, 6);
    c.set_triangle((0, 0), (5, 0), (0, 5), 1, false);
    let painted: Vec<(u32, u32)> = (0..6)
        .flat_map(|y| (0..6).map(move |x| (x, y)))
        .filter(|&(x, y)| px(&c, x, y) == 1)
        .collect();
    assert!(!painted.is_empty());
    for &(x, y) in &painted {
        assert!(x + y <= 5 && x < 5 && y < 5, "pixel {x},{y}");
    }
    assert_eq!(px(&c, 5, 5), 0);
}

#[test]
fn degenerate_triangle_paints_nothing() {
    let mut c = Canvas::new(0, 4, 4);
    c.set_triangle((1, 1), (1, 1), (1, 1), 9, false);
    assert_eq!(c.data, vec![0; 16]);
}

#[test]
fn horizontal_line() {
    let mut c = Canvas::new(0, 5, 2);
    c.set_line((0, 1), (4, 1), 3, false);
    assert_eq!(c.data, vec![0, 0, 0, 0, 0, 3, 3, 3, 3, 3]);
}

#[test]
fn diagonal_line_and_its_reverse() {
    let mut c = Canvas::new(0, 4, 4);
    c.set_line((3, 3), (0, 0), 1, false);
    for i in 0..4 {
        assert_eq!(px(&c, i, i), 1);
    }
    assert_eq!(c.data.iter().filter(|&&v| v == 1).count(), 4);
}

#[test]
fn shallow_line_visits_each_column_once() {
    let mut c = Canvas::new(0, 10, 4);
    c.set_line((0, 0), (9, 3), 1, false);
    for x in 0..10 {
        assert_eq!((0..4).filter(|&y| px(&c, x, y) == 1).count(), 1, "column {x}");
    }
    assert_eq!(px(&c, 0, 0), 1);
    assert_eq!(px(&c, 9, 3), 1);
}

#[test]
fn single_point_line() {
    let mut c = Canvas::new(0, 3, 3);
    c.set_line((1, 2), (1, 2), 5, false);
    assert_eq!(c.data, vec![0, 0, 0, 0, 0, 0, 0, 5, 0]);
}

#[test]
fn rainbow_columns() {
    let mut c = Canvas::new(0, 300, 2);
    c.set_rainbow();
    assert_eq!(px(&c, 0, 0), 0xFF0000FF);
    assert_eq!(px(&c, 0, 1), 0xFF0000FF);
    assert_eq!(px(&c, 1, 0), 0xFF0100FF);
    // green reaches 0xFF at column 255, then red starts to fall
    assert_eq!(px(&c, 255, 0), 0xFFFF00FF);
    assert_eq!(px(&c, 256, 0), 0xFEFF00FF);
    assert_eq!(px(&c, 299, 1), 0xD3FF00FF);
}
