use canny_edges::array::{AngleGrid, EdgeMask, LevelGrid};
use canny_edges::canny::{
    canny_edge_detector, check_channels, CannyBuilder, Error, DEFAULT_LOWER, DEFAULT_UPPER,
};
use canny_edges::link::{get_candidates, link_edges};
use canny_edges::suppress::{non_maxima_supression, normalize_angle, sample, HALF_TURN};

fn level(x: f64) -> u64 {
    x.to_bits()
}

fn levels(rows: &[&[f64]]) -> LevelGrid {
    let mut g = LevelGrid::new(rows.len(), rows[0].len(), 1, 0).unwrap();
    for (i, row) in rows.iter().enumerate() {
        for (j, v) in row.iter().enumerate() {
            assert!(g.set(i, j, 0, level(*v)));
        }
    }
    g
}

fn angles(rows: usize, cols: usize, millidegrees: i64) -> AngleGrid {
    AngleGrid::new(rows, cols, 1, millidegrees).unwrap()
}

fn flags(e: &EdgeMask) -> Vec<Vec<bool>> {
    let (rows, cols, _) = e.extent();
    (0..rows)
        .map(|i| (0..cols).map(|j| e.get(i, j, 0).unwrap()).collect())
        .collect()
}

fn count(e: &EdgeMask) -> usize {
    flags(e).iter().flatten().filter(|b| **b).count()
}

#[test]
fn default_thresholds() {
    let p = CannyBuilder::new().build();
    assert!((f64::from_bits(p.lower()) - 0.3).abs() < 1e-12);
    assert!((f64::from_bits(p.upper()) - 0.7).abs() < 1e-12);
    assert_eq!(p.lower(), DEFAULT_LOWER);
    assert_eq!(p.upper(), DEFAULT_UPPER);
}

#[test]
fn thresholds_are_ordered_in_either_order() {
    let a = level(0.8);
    let b = level(0.2);
    let p = CannyBuilder::new().lower_threshold(a).upper_threshold(b).build();
    assert_eq!((p.lower(), p.upper()), (b, a));
    let q = CannyBuilder::new().upper_threshold(b).lower_threshold(a).build();
    assert_eq!((q.lower(), q.upper()), (b, a));
    let r = CannyBuilder::new().lower_threshold(b).upper_threshold(a).build();
    assert_eq!((r.lower(), r.upper()), (b, a));
}

#[test]
fn one_threshold_set_meets_the_other_default() {
    let p = CannyBuilder::new().lower_threshold(level(0.9)).build();
    assert_eq!((p.lower(), p.upper()), (DEFAULT_UPPER, level(0.9)));
    let q = CannyBuilder::new().upper_threshold(level(0.5)).build();
    assert_eq!((q.lower(), q.upper()), (DEFAULT_LOWER, level(0.5)));
}

#[test]
fn three_channels_are_refused() {
    assert_eq!(check_channels(3), Err(Error::ChannelDimensionMismatch));
    assert_eq!(check_channels(1), Ok(()));
    let m = levels(&[&[1.0, 0.0], &[0.0, 1.0]]);
    let o = angles(2, 2, 0);
    let params = CannyBuilder::new().build();
    assert!(matches!(
        canny_edge_detector(3, &m, &o, params),
        Err(Error::ChannelDimensionMismatch)
    ));
    assert!(canny_edge_detector(1, &m, &o, params).is_ok());
}

#[test]
fn flat_field_is_left_unchanged() {
    let m = levels(&[&[0.5, 0.5, 0.5], &[0.5, 0.5, 0.5], &[0.5, 0.5, 0.5]]);
    for a in [0i64, 45000, 90000, 135000, -30000] {
        let s = non_maxima_supression(&m, &angles(3, 3, a));
        for i in 0..3 {
            for j in 0..3 {
                assert_eq!(s.get(i, j, 0), Some(level(0.5)));
            }
        }
    }
}

#[test]
fn suppression_keeps_only_the_ridge() {
    let m = levels(&[&[0.2, 0.9, 0.4], &[0.1, 0.8, 0.3], &[0.6, 0.7, 0.5]]);
    let s = non_maxima_supression(&m, &angles(3, 3, 0));
    let got: Vec<Vec<u64>> =
        (0..3).map(|i| (0..3).map(|j| s.get(i, j, 0).unwrap()).collect()).collect();
    assert_eq!(got[0], vec![0, level(0.9), 0]);
    assert_eq!(got[1], vec![0, level(0.8), 0]);
    assert_eq!(got[2], vec![0, level(0.7), 0]);
    // vertical comparison: the middle column peaks at the top row
    let v = non_maxima_supression(&m, &angles(3, 3, 90000));
    assert_eq!(v.get(0, 1, 0), Some(level(0.9)));
    assert_eq!(v.get(1, 1, 0), Some(0));
    assert_eq!(v.get(2, 0, 0), Some(level(0.6)));
}

#[test]
fn suppression_reads_the_unsuppressed_grid() {
    // the middle cell is zeroed; its right neighbour must still be compared
    // against the middle's unsuppressed 0.4, not against zero
    let m = levels(&[&[0.5, 0.4, 0.3]]);
    let s = non_maxima_supression(&m, &angles(1, 3, 0));
    assert_eq!(s.get(0, 0, 0), Some(level(0.5)));
    assert_eq!(s.get(0, 1, 0), Some(0));
    assert_eq!(s.get(0, 2, 0), Some(0));
}

#[test]
fn angles_are_brought_into_a_half_turn() {
    assert_eq!(normalize_angle(0), 0);
    assert_eq!(normalize_angle(179999), 179999);
    assert_eq!(normalize_angle(HALF_TURN), 0);
    assert_eq!(normalize_angle(200000), 20000);
    assert_eq!(normalize_angle(-1), 179999);
    assert_eq!(normalize_angle(-45000), 135000);
    assert_eq!(normalize_angle(-180000), 0);
    assert_eq!(normalize_angle(-400000), 140000);
}

#[test]
fn samples_off_the_grid_are_zero() {
    let m = levels(&[&[0.1, 0.2], &[0.3, 0.4]]);
    assert_eq!(sample(&m, 0, 0, -1, 0), 0);
    assert_eq!(sample(&m, 0, 0, 0, -1), 0);
    assert_eq!(sample(&m, 1, 1, 1, 1), 0);
    assert_eq!(sample(&m, 0, 0, 1, 1), level(0.4));
    assert_eq!(sample(&m, 1, 0, -1, 1), level(0.2));
}

#[test]
fn candidates_skip_visited_and_same_row_cells() {
    let mut visited = EdgeMask::new(3, 3, 1, false).unwrap();
    let mut c = get_candidates((1, 1), (3, 3), &visited);
    c.sort();
    assert_eq!(c, vec![(0, 0), (0, 1), (0, 2), (2, 0), (2, 1), (2, 2)]);
    assert!(visited.set(0, 0, 0, true));
    assert!(visited.set(2, 1, 0, true));
    let mut c = get_candidates((1, 1), (3, 3), &visited);
    c.sort();
    assert_eq!(c, vec![(0, 1), (0, 2), (2, 0), (2, 2)]);
    let mut corner = get_candidates((0, 0), (3, 3), &visited);
    corner.sort();
    assert_eq!(corner, vec![(1, 0), (1, 1)]);
}

#[test]
fn weak_cells_join_through_a_chain() {
    let m = levels(&[&[0.0, 0.9, 0.0], &[0.0, 0.4, 0.0], &[0.4, 0.0, 0.0], &[0.0, 0.0, 0.4]]);
    let e = link_edges(&m, level(0.3), level(0.7));
    assert_eq!(
        flags(&e),
        vec![
            vec![false, true, false],
            vec![false, true, false],
            vec![true, false, false],
            vec![false, false, false],
        ]
    );
}

#[test]
fn isolated_weak_cell_is_dropped() {
    let m = levels(&[&[0.9, 0.0, 0.0, 0.0], &[0.0, 0.0, 0.0, 0.0], &[0.0, 0.0, 0.5, 0.0]]);
    let e = link_edges(&m, level(0.3), level(0.7));
    assert_eq!(e.get(2, 2, 0), Some(false));
    assert_eq!(e.get(0, 0, 0), Some(true));
    assert_eq!(count(&e), 1);
}

#[test]
fn zero_lower_does_not_admit_zero_cells() {
    let m = levels(&[&[0.0, 0.9, 0.0], &[0.0, 0.0, 0.0]]);
    let e = link_edges(&m, 0, level(0.5));
    assert_eq!(count(&e), 1);
    assert_eq!(e.get(0, 1, 0), Some(true));
}

#[test]
fn raising_lower_never_adds_edges() {
    let m = levels(&[
        &[0.9, 0.0, 0.0, 0.0],
        &[0.0, 0.5, 0.0, 0.0],
        &[0.0, 0.0, 0.35, 0.0],
        &[0.0, 0.0, 0.0, 0.2],
    ]);
    let upper = level(0.7);
    let counts: Vec<usize> = [0.1, 0.3, 0.4, 0.6]
        .iter()
        .map(|l| count(&link_edges(&m, level(*l), upper)))
        .collect();
    assert_eq!(counts, vec![4, 3, 2, 1]);
}

#[test]
fn vertical_line_gives_a_one_pixel_edge() {
    // a blurred vertical ridge centred on column 2, gradients pointing across it
    let row: &[f64] = &[0.0, 0.5, 1.0, 0.5, 0.0];
    let m = levels(&[row, row, row, row, row]);
    let o = angles(5, 5, 0);
    let params = CannyBuilder::new().lower_threshold(level(0.1)).upper_threshold(level(0.5)).build();
    let e = canny_edge_detector(1, &m, &o, params).unwrap();
    for r in flags(&e) {
        assert_eq!(r, vec![false, false, true, false, false]);
    }
}

#[test]
fn grids_refuse_cells_outside() {
    let mut g = LevelGrid::new(2, 3, 1, 7).unwrap();
    assert_eq!(g.extent(), (2, 3, 1));
    assert_eq!(g.get(1, 2, 0), Some(7));
    assert_eq!(g.get(2, 0, 0), None);
    assert!(!g.set(0, 3, 0, 1));
    assert!(g.set(0, 2, 0, 1));
    assert_eq!(g.get(0, 2, 0), Some(1));
    assert!(LevelGrid::new(usize::MAX, 2, 1, 0).is_none());
    assert!(LevelGrid::new(0, usize::MAX, 1, 0).is_none());
    assert!(LevelGrid::new(0, 5, 1, 0).is_some());
}
