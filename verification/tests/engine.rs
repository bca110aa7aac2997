use brush::Brush;
use brush::BrushMode;
use brush::BrushState;
use brush::Point2;
use brush::Rgba8;
use brush::ViewCoords;
use brush::ViewExtent;

fn pts(v: &[(i32, i32)]) -> Vec<Point2> {
    let mut out = Vec::new();
    for &(x, y) in v {
        out.push(Point2::new(x, y));
    }
    out
}

#[test]
fn test_line_single_point() {
    let mut canvas = Vec::new();
    Brush::line(Point2::new(7, -3), Point2::new(7, -3), &mut canvas);
    assert_eq!(canvas, pts(&[(7, -3)]));
}

#[test]
fn test_line_shallow_segment() {
    let mut canvas = Vec::new();
    Brush::line(Point2::new(0, 0), Point2::new(4, 1), &mut canvas);
    assert_eq!(canvas, pts(&[(0, 0), (1, 0), (2, 0), (3, 1), (4, 1)]));
}

#[test]
fn test_line_shallow_segment_backward() {
    let mut canvas = Vec::new();
    Brush::line(Point2::new(4, 1), Point2::new(0, 0), &mut canvas);
    assert_eq!(canvas, pts(&[(4, 1), (3, 1), (2, 1), (1, 0), (0, 0)]));
}

#[test]
fn test_line_diagonal() {
    let mut canvas = Vec::new();
    Brush::line(Point2::new(0, 0), Point2::new(3, 3), &mut canvas);
    assert_eq!(canvas, pts(&[(0, 0), (1, 1), (2, 2), (3, 3)]));
}

#[test]
fn test_line_horizontal_reversed() {
    let mut forward = Vec::new();
    Brush::line(Point2::new(1, 2), Point2::new(5, 2), &mut forward);
    let mut backward = Vec::new();
    Brush::line(Point2::new(5, 2), Point2::new(1, 2), &mut backward);
    backward.reverse();
    assert_eq!(forward, backward);
    assert_eq!(forward, pts(&[(1, 2), (2, 2), (3, 2), (4, 2), (5, 2)]));
}

#[test]
fn test_line_endpoints_and_adjacency() {
    let a = Point2::new(-3, 11);
    let b = Point2::new(14, -2);
    let mut canvas = Vec::new();
    Brush::line(a, b, &mut canvas);
    assert_eq!(canvas[0], a);
    assert_eq!(canvas[canvas.len() - 1], b);
    for w in canvas.windows(2) {
        assert!((w[1].x - w[0].x).abs() <= 1);
        assert!((w[1].y - w[0].y).abs() <= 1);
    }
}

#[test]
fn test_filter_corner() {
    let stroke = pts(&[(0, 0), (1, 0), (1, 1)]);
    let filtered = Brush::filter(&stroke);
    assert_eq!(filtered, pts(&[(0, 0), (1, 1), (1, 1)]));
}

#[test]
fn test_filter_no_corner_unchanged() {
    let stroke = pts(&[(0, 0), (1, 1), (2, 2), (3, 3)]);
    let filtered = Brush::filter(&stroke);
    assert_eq!(filtered, stroke);
    let again = Brush::filter(&filtered);
    assert_eq!(again, filtered);
}

#[test]
fn test_filter_keeps_ends() {
    let stroke = pts(&[(0, 0), (1, 0), (1, 1), (2, 1), (2, 2)]);
    let filtered = Brush::filter(&stroke);
    assert_eq!(filtered[0], Point2::new(0, 0));
    assert_eq!(filtered[filtered.len() - 1], Point2::new(2, 2));
}

#[test]
fn test_mode_set_line_eviction() {
    let mut b = Brush::default();
    assert!(b.set(BrushMode::Line(Some(15))));
    assert!(b.is_set(BrushMode::Line(Some(15))));
    assert!(b.set(BrushMode::Line(None)));
    assert!(b.is_set(BrushMode::Line(None)));
    assert!(!b.is_set(BrushMode::Line(Some(15))));
    assert_eq!(b.modes.len(), 1);
}

#[test]
fn test_mode_unset_any_line_variant() {
    let mut b = Brush::default();
    b.set(BrushMode::Line(None));
    assert!(b.unset(BrushMode::Line(Some(99))));
    assert!(!b.is_set(BrushMode::Line(None)));
    assert_eq!(b.modes.len(), 0);
}

#[test]
fn test_mode_toggle_and_reset() {
    let mut b = Brush::default();
    b.toggle(BrushMode::Erase);
    assert!(b.is_set(BrushMode::Erase));
    b.toggle(BrushMode::Erase);
    assert!(!b.is_set(BrushMode::Erase));
    b.set(BrushMode::Multi);
    b.set(BrushMode::XRay);
    b.reset();
    assert!(!b.is_set(BrushMode::Multi));
    assert!(!b.is_set(BrushMode::XRay));
    assert_eq!(b.modes.len(), 0);
}

#[test]
fn test_state_machine_full_cycle() {
    let mut b = Brush::default();
    let extent = ViewExtent::new(10, 10, 1);
    assert!(!b.is_drawing());
    b.start_drawing(ViewCoords::new(1, 1), Rgba8::white(), extent);
    assert!(b.is_drawing());
    assert!(matches!(b.state, BrushState::Drawing(_)));
    b.draw(ViewCoords::new(2, 1));
    b.draw(ViewCoords::new(3, 2));
    b.stop_drawing();
    assert!(matches!(b.state, BrushState::DrawEnded(_)));
    assert!(b.is_drawing());
    b.update();
    assert!(matches!(b.state, BrushState::NotDrawing));
    assert!(!b.is_drawing());
    assert_eq!(b.stroke.len(), 0);
}

#[test]
fn test_update_is_noop_while_drawing() {
    let mut b = Brush::default();
    let extent = ViewExtent::new(10, 10, 1);
    b.start_drawing(ViewCoords::new(0, 0), Rgba8::white(), extent);
    b.update();
    assert!(matches!(b.state, BrushState::Drawing(_)));
    assert_eq!(b.stroke.len(), 1);
}

#[test]
fn test_draw_appends_segments() {
    let mut b = Brush::default();
    let extent = ViewExtent::new(32, 32, 1);
    b.start_drawing(ViewCoords::new(0, 0), Rgba8::white(), extent);
    assert_eq!(b.stroke, pts(&[(0, 0)]));
    b.draw(ViewCoords::new(2, 1));
    assert_eq!(b.stroke, pts(&[(0, 0), (1, 0), (2, 1)]));
    b.draw(ViewCoords::new(2, 3));
    assert_eq!(b.stroke, pts(&[(0, 0), (1, 0), (2, 1), (2, 2), (2, 3)]));
}

#[test]
fn test_perfect_mode_duplicates_single_point() {
    let mut b = Brush::default();
    b.set(BrushMode::Perfect);
    let extent = ViewExtent::new(32, 32, 1);
    b.start_drawing(ViewCoords::new(4, 4), Rgba8::white(), extent);
    assert_eq!(b.stroke, pts(&[(4, 4), (4, 4)]));
}

#[test]
fn test_line_mode_rebuilds_from_anchor() {
    let mut b = Brush::default();
    b.set(BrushMode::Line(None));
    let extent = ViewExtent::new(32, 32, 1);
    b.start_drawing(ViewCoords::new(0, 0), Rgba8::white(), extent);
    b.draw(ViewCoords::new(3, 0));
    assert_eq!(b.stroke, pts(&[(0, 0), (1, 0), (2, 0), (3, 0)]));
    b.draw(ViewCoords::new(0, 2));
    assert_eq!(b.stroke, pts(&[(0, 0), (0, 1), (0, 2)]));
}

#[test]
fn test_draw_snapped_uses_given_endpoint() {
    let mut b = Brush::default();
    b.set(BrushMode::Line(Some(45)));
    let extent = ViewExtent::new(32, 32, 1);
    b.start_drawing(ViewCoords::new(0, 0), Rgba8::white(), extent);
    b.draw_snapped(ViewCoords::new(5, 3), ViewCoords::new(4, 4));
    assert_eq!(b.stroke, pts(&[(0, 0), (1, 1), (2, 2), (3, 3), (4, 4)]));
}

fn views(v: &[(i32, i32)]) -> Vec<ViewCoords> {
    let mut out = Vec::new();
    for &(x, y) in v {
        out.push(ViewCoords::new(x, y));
    }
    out
}

#[test]
fn test_expand_xsym() {
    let mut b = Brush::default();
    b.set(BrushMode::XSym);
    let extent = ViewExtent::new(10, 10, 2);
    let r = b.expand(ViewCoords::new(2, 5), extent);
    assert_eq!(r, views(&[(2, 5), (7, 5)]));
}

#[test]
fn test_expand_multi() {
    let mut b = Brush::default();
    b.set(BrushMode::Multi);
    let extent = ViewExtent::new(10, 10, 2);
    let r = b.expand(ViewCoords::new(2, 5), extent);
    assert_eq!(r, views(&[(2, 5), (2, 5), (12, 5)]));
}

#[test]
fn test_expand_ysym() {
    let mut b = Brush::default();
    b.set(BrushMode::YSym);
    let extent = ViewExtent::new(10, 10, 2);
    let r = b.expand(ViewCoords::new(2, 5), extent);
    assert_eq!(r, views(&[(2, 5), (2, 4)]));
}

#[test]
fn test_expand_composes_all() {
    let mut b = Brush::default();
    b.set(BrushMode::XSym);
    b.set(BrushMode::YSym);
    b.set(BrushMode::Multi);
    let extent = ViewExtent::new(10, 10, 2);
    let r = b.expand(ViewCoords::new(2, 5), extent);
    assert_eq!(
        r,
        views(&[
            (2, 5),
            (7, 5),
            (2, 4),
            (7, 4),
            (2, 5),
            (12, 5),
            (7, 5),
            (17, 5),
            (2, 4),
            (12, 4),
            (7, 4),
            (17, 4),
        ])
    );
}

#[test]
fn test_expand_no_modes() {
    let b = Brush::default();
    let extent = ViewExtent::new(10, 10, 2);
    let r = b.expand(ViewCoords::new(3, 3), extent);
    assert_eq!(r, views(&[(3, 3)]));
}
