use rs_paint::color::Color;
use rs_paint::document::{Document, FlatDocument};
use rs_paint::paint_methods::{fill_color, fill_color_dfs};
use rs_paint::position::Position;

fn shade(k: usize) -> Color {
    Color::new((k % 251) as u8, (k / 251) as u8, 7)
}

#[test]
fn new_document_shows_the_background_everywhere() {
    let doc = Document::new(300, 130, Color::green());
    assert_eq!(doc.width(), 300);
    assert_eq!(doc.height(), 130);
    for y in 0..130 {
        for x in 0..300 {
            assert_eq!(*doc.at(x, y), Color::green());
        }
    }
}

#[test]
fn size_need_not_be_a_multiple_of_the_tile_size() {
    let mut doc = Document::new_with_tile_size(7, 5, Color::white(), 3);
    for y in 0..5 {
        for x in 0..7 {
            *doc.at_mut(x, y) = shade(y * 7 + x);
        }
    }
    for y in 0..5 {
        for x in 0..7 {
            assert_eq!(*doc.at(x, y), shade(y * 7 + x));
        }
    }
}

#[test]
fn empty_documents_can_be_made() {
    let a = Document::new(0, 0, Color::black());
    assert_eq!((a.width(), a.height()), (0, 0));
    let b = Document::new_with_tile_size(0, 9, Color::black(), 4);
    assert_eq!((b.width(), b.height()), (0, 9));
    let c = Document::new_with_tile_size(9, 0, Color::black(), 4);
    assert_eq!((c.width(), c.height()), (9, 0));
}

#[test]
fn writing_one_pixel_changes_no_other() {
    let mut doc = Document::new_with_tile_size(10, 6, Color::white(), 4);
    *doc.at_mut(9, 5) = Color::red();
    for y in 0..6 {
        for x in 0..10 {
            let expected = if (x, y) == (9, 5) { Color::red() } else { Color::white() };
            assert_eq!(*doc.at(x, y), expected);
        }
    }
}

#[test]
fn writing_to_a_clone_leaves_the_source_as_it_was() {
    let source = Document::new_with_tile_size(9, 9, Color::white(), 4);
    let mut copy = source.clone();
    *copy.at_mut(5, 6) = Color::blue();
    assert_eq!(*copy.at(5, 6), Color::blue());
    for y in 0..9 {
        for x in 0..9 {
            assert_eq!(*source.at(x, y), Color::white());
        }
    }
}

#[test]
fn writing_to_the_source_leaves_the_clone_as_it_was() {
    let mut source = Document::new_with_tile_size(9, 9, Color::white(), 4);
    *source.at_mut(1, 1) = Color::red();
    let copy = source.clone();
    *source.at_mut(1, 1) = Color::green();
    *source.at_mut(8, 8) = Color::green();
    assert_eq!(*copy.at(1, 1), Color::red());
    assert_eq!(*copy.at(8, 8), Color::white());
    assert_eq!(*source.at(1, 1), Color::green());
}

#[test]
fn many_writes_into_one_tile_of_a_clone() {
    let source = Document::new_with_tile_size(8, 8, Color::white(), 4);
    let mut copy = source.clone();
    for y in 0..4 {
        for x in 0..4 {
            *copy.at_mut(x, y) = shade(4 * y + x);
        }
    }
    for y in 0..8 {
        for x in 0..8 {
            assert_eq!(*source.at(x, y), Color::white());
            let expected = if x < 4 && y < 4 { shade(4 * y + x) } else { Color::white() };
            assert_eq!(*copy.at(x, y), expected);
        }
    }
}

#[test]
fn tiles_of_a_new_document_are_told_apart_once_written() {
    let mut doc = Document::new_with_tile_size(8, 4, Color::white(), 4);
    *doc.at_mut(0, 0) = Color::red();
    assert_eq!(*doc.at(4, 0), Color::white());
    assert_eq!(*doc.at(0, 0), Color::red());
}

#[test]
fn documents_with_the_same_pixels_are_equal() {
    let mut a = Document::new_with_tile_size(6, 6, Color::white(), 4);
    let mut b = Document::new_with_tile_size(6, 6, Color::white(), 4);
    assert!(a == b);
    *a.at_mut(5, 5) = Color::red();
    assert!(a != b);
    *b.at_mut(5, 5) = Color::red();
    assert!(a == b);
    let c = a.clone();
    assert!(a == c);
    assert!(c == b);
}

#[test]
fn equality_does_not_look_at_the_tile_size() {
    let mut a = Document::new_with_tile_size(5, 4, Color::black(), 2);
    let mut b = Document::new_with_tile_size(5, 4, Color::black(), 3);
    *a.at_mut(4, 3) = Color::blue();
    *b.at_mut(4, 3) = Color::blue();
    assert!(a == b);
}

#[test]
fn documents_of_different_size_are_not_equal() {
    let a = Document::new_with_tile_size(4, 3, Color::black(), 2);
    let b = Document::new_with_tile_size(3, 4, Color::black(), 2);
    assert!(a != b);
    let c = Document::new_with_tile_size(0, 3, Color::black(), 2);
    let d = Document::new_with_tile_size(0, 4, Color::black(), 2);
    assert!(c != d);
}

#[test]
fn fill_color_crosses_tile_borders() {
    let mut doc = Document::new_with_tile_size(7, 5, Color::white(), 3);
    for y in 0..5 {
        *doc.at_mut(4, y) = Color::black();
    }
    fill_color(&mut doc, Position::new(0, 2), Color::red());
    for y in 0..5 {
        for x in 0..7 {
            let expected = if x < 4 {
                Color::red()
            } else if x == 4 {
                Color::black()
            } else {
                Color::white()
            };
            assert_eq!(*doc.at(x, y), expected);
        }
    }
}

#[test]
fn fill_color_takes_x_as_column_and_y_as_row() {
    let mut doc = Document::new_with_tile_size(6, 2, Color::white(), 4);
    *doc.at_mut(4, 0) = Color::black();
    *doc.at_mut(4, 1) = Color::black();
    fill_color(&mut doc, Position::new(5, 1), Color::blue());
    assert_eq!(*doc.at(5, 0), Color::blue());
    assert_eq!(*doc.at(5, 1), Color::blue());
    assert_eq!(*doc.at(3, 1), Color::white());
    assert_eq!(*doc.at(4, 1), Color::black());
}

#[test]
fn fill_color_with_the_colour_already_there_changes_nothing() {
    let mut doc = Document::new_with_tile_size(5, 5, Color::white(), 2);
    *doc.at_mut(2, 2) = Color::red();
    let before = doc.clone();
    fill_color(&mut doc, Position::new(0, 0), Color::white());
    assert!(doc == before);
}

#[test]
fn fill_color_on_a_clone_leaves_the_source() {
    let source = Document::new(200, 150, Color::white());
    let mut copy = source.clone();
    fill_color(&mut copy, Position::new(199, 149), Color::green());
    assert!(copy == Document::new(200, 150, Color::green()));
    assert!(source == Document::new(200, 150, Color::white()));
}

#[test]
fn flat_document_reads_and_writes_pixels() {
    let mut doc = FlatDocument::new(5, 3, Color::white());
    assert_eq!((doc.width(), doc.height()), (5, 3));
    *doc.at_mut(4, 2) = Color::red();
    for y in 0..3 {
        for x in 0..5 {
            let expected = if (x, y) == (4, 2) { Color::red() } else { Color::white() };
            assert_eq!(*doc.at(x, y), expected);
        }
    }
    let other = FlatDocument::new_with_tile_size(2, 7, Color::blue(), 64);
    assert_eq!((other.width(), other.height()), (2, 7));
    assert_eq!(*other.at(1, 6), Color::blue());
}

#[test]
fn depth_first_fill_agrees_with_fill_color() {
    let mut base = Document::new_with_tile_size(9, 7, Color::white(), 4);
    for k in 0..7 {
        *base.at_mut(k + 1, k) = Color::black();
    }
    *base.at_mut(4, 3) = Color::white();
    for (x, y) in [(0usize, 0usize), (8, 0), (0, 6), (8, 6), (3, 2), (4, 3)] {
        let mut a = base.clone();
        let mut b = base.clone();
        let start = *a.at(x, y);
        fill_color_dfs(&mut a, y as i32, x as i32, start, Color::red());
        fill_color(&mut b, Position::new(x as i32, y as i32), Color::red());
        assert!(a == b);
        assert_eq!(*a.at(x, y), Color::red());
    }
}

#[test]
fn depth_first_fill_recolours_the_region_only() {
    let mut doc = Document::new_with_tile_size(5, 3, Color::white(), 2);
    for y in 0..3 {
        *doc.at_mut(2, y) = Color::black();
    }
    fill_color_dfs(&mut doc, 1, 4, Color::white(), Color::green());
    for y in 0..3 {
        for x in 0..5 {
            let expected = if x < 2 {
                Color::white()
            } else if x == 2 {
                Color::black()
            } else {
                Color::green()
            };
            assert_eq!(*doc.at(x, y), expected);
        }
    }
}

#[test]
fn depth_first_fill_does_nothing_where_it_cannot_start() {
    let mut doc = Document::new_with_tile_size(4, 4, Color::white(), 2);
    *doc.at_mut(1, 1) = Color::black();
    let before = doc.clone();
    fill_color_dfs(&mut doc, -1, 0, Color::white(), Color::red());
    fill_color_dfs(&mut doc, 0, -1, Color::white(), Color::red());
    fill_color_dfs(&mut doc, 4, 0, Color::white(), Color::red());
    fill_color_dfs(&mut doc, 0, 4, Color::white(), Color::red());
    fill_color_dfs(&mut doc, 1, 1, Color::white(), Color::red());
    fill_color_dfs(&mut doc, 0, 0, Color::white(), Color::white());
    fill_color_dfs(&mut doc, 0, 0, Color::blue(), Color::red());
    assert!(doc == before);
}
