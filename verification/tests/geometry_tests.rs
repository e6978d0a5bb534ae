use rs_paint::bounding_box::BoundingBox;
use rs_paint::color::Color;
use rs_paint::point_location::PointLocation;
use rs_paint::position::Position;
use rs_paint::regular::{Regular, SemiRegular};
use rs_paint::shapes::{Ellipse, Shape};
use rs_paint::textures::{NoTexture, Texture};

#[test]
fn named_colours() {
    assert_eq!(Color::new(1, 2, 3), Color { r: 1, g: 2, b: 3 });
    assert_eq!(Color::white(), Color { r: 255, g: 255, b: 255 });
    assert_eq!(Color::black(), Color { r: 0, g: 0, b: 0 });
    assert_eq!(Color::red(), Color { r: 255, g: 0, b: 0 });
    assert_eq!(Color::green(), Color { r: 0, g: 255, b: 0 });
    assert_eq!(Color::blue(), Color { r: 0, g: 0, b: 255 });
}

#[test]
fn colours_compare_by_all_three_channels() {
    assert_ne!(Color::new(1, 2, 3), Color::new(0, 2, 3));
    assert_ne!(Color::new(1, 2, 3), Color::new(1, 0, 3));
    assert_ne!(Color::new(1, 2, 3), Color::new(1, 2, 0));
    assert_eq!(Color::new(9, 8, 7), Color::new(9, 8, 7));
}

#[test]
fn position_keeps_its_coordinates() {
    let p = Position::new(-3, 8);
    assert_eq!((p.x, p.y), (-3, 8));
    assert_eq!(p, Position { x: -3, y: 8 });
}

#[test]
fn bounding_box_measures() {
    let b = BoundingBox { top_left: Position::new(2, 3), bottom_right: Position::new(12, 7) };
    assert_eq!(b.width(), 10);
    assert_eq!(b.height(), 4);
    assert_eq!(b.centre(), Position::new(7, 5));
}

#[test]
fn bounding_box_centre_rounds_towards_zero() {
    let b = BoundingBox { top_left: Position::new(-4, -8), bottom_right: Position::new(1, 1) };
    assert_eq!(b.centre(), Position::new(-1, -3));
    let c = BoundingBox { top_left: Position::new(0, 0), bottom_right: Position::new(5, 3) };
    assert_eq!(c.centre(), Position::new(2, 1));
}

#[test]
fn ellipse_inside_a_box() {
    let b = BoundingBox { top_left: Position::new(0, 10), bottom_right: Position::new(21, 16) };
    let e = Ellipse::new_inside(b);
    assert_eq!(e.centre, Position::new(10, 13));
    assert_eq!(e.semi_major_axis, 10);
    assert_eq!(e.semi_minor_axis, 3);
}

#[test]
fn point_locations_are_distinct() {
    assert_ne!(PointLocation::Inside, PointLocation::OnBorder);
    assert_ne!(PointLocation::OnBorder, PointLocation::Outside);
    assert_ne!(PointLocation::Inside, PointLocation::Outside);
}

#[test]
fn no_texture_keeps_the_colour() {
    let mut t = NoTexture {};
    assert_eq!(t.color_at(Position::new(4, 5), Color::red()), Color::red());
    assert_eq!(t.color_at(Position::new(0, 0), Color::new(1, 2, 3)), Color::new(1, 2, 3));
}

fn takes_regular<T: Regular>(value: &T) -> T {
    value.clone()
}

fn takes_semi_regular<T: SemiRegular>(a: &T, b: &T) -> bool {
    a == b
}

#[test]
fn value_types_are_regular() {
    assert_eq!(takes_regular(&Color::red()), Color::red());
    assert_eq!(takes_regular(&Position::new(1, 2)), Position::new(1, 2));
    assert_eq!(takes_regular(&7u8), 7);
    assert!(takes_semi_regular(&PointLocation::Inside, &PointLocation::Inside));
    assert!(!takes_semi_regular(&Position::new(1, 2), &Position::new(2, 1)));
}

#[derive(Clone, PartialEq, Eq, Debug)]
struct Square {
    corner: Position,
    side: i32,
}

impl Shape for Square {
    fn new_inside(bounding_box: BoundingBox) -> Self {
        let side = bounding_box.width().min(bounding_box.height());
        Square { corner: bounding_box.top_left, side }
    }

    fn point_location(&self, point: Position) -> PointLocation {
        let dx = point.x - self.corner.x;
        let dy = point.y - self.corner.y;
        if dx < 0 || dy < 0 || dx > self.side || dy > self.side {
            PointLocation::Outside
        } else if dx == 0 || dy == 0 || dx == self.side || dy == self.side {
            PointLocation::OnBorder
        } else {
            PointLocation::Inside
        }
    }

    fn bounding_box(&self) -> BoundingBox {
        BoundingBox {
            top_left: self.corner,
            bottom_right: Position::new(self.corner.x + self.side, self.corner.y + self.side),
        }
    }
}

#[test]
fn a_shape_can_be_written_against_the_trait() {
    let b = BoundingBox { top_left: Position::new(1, 1), bottom_right: Position::new(9, 5) };
    let s = Square::new_inside(b);
    assert_eq!(s.side, 4);
    assert_eq!(s.point_location(Position::new(3, 3)), PointLocation::Inside);
    assert_eq!(s.point_location(Position::new(1, 3)), PointLocation::OnBorder);
    assert_eq!(s.point_location(Position::new(0, 3)), PointLocation::Outside);
    assert_eq!(s.bounding_box().bottom_right, Position::new(5, 5));
}

struct Chessboard {
    calls: u32,
}

impl Texture for Chessboard {
    fn color_at(&mut self, pos: Position, prev_color: Color) -> Color {
        self.calls += 1;
        if (pos.x + pos.y) % 2 == 0 {
            Color::black()
        } else {
            prev_color
        }
    }
}

#[test]
fn a_texture_can_be_written_against_the_trait() {
    let mut t = Chessboard { calls: 0 };
    assert_eq!(t.color_at(Position::new(2, 2), Color::white()), Color::black());
    assert_eq!(t.color_at(Position::new(2, 3), Color::white()), Color::white());
    assert_eq!(t.calls, 2);
}
