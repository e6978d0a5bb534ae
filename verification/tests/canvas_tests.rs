use rs_paint::canvas::DrawingCanvas;
use rs_paint::color::Color;
use rs_paint::document::Document;

fn paint(canvas: &mut DrawingCanvas, x: usize, y: usize, color: Color) {
    *canvas.visible_doc_mut().at_mut(x, y) = color;
}

fn check_history(canvas: &DrawingCanvas) {
    assert!(canvas.history().len() >= 1);
    assert!(canvas.current_idx() < canvas.history().len());
}

#[test]
fn new_canvas_holds_one_snapshot() {
    let canvas = DrawingCanvas::new(20, 10, Color::white());
    assert_eq!(canvas.history().len(), 1);
    assert_eq!(canvas.current_idx(), 0);
    let blank = Document::new(20, 10, Color::white());
    assert!(*canvas.visible_doc() == blank);
    assert!(*canvas.current() == blank);
    assert!(canvas.history()[0] == blank);
}

#[test]
fn commit_appends_the_visible_document_and_moves_the_cursor() {
    let mut canvas = DrawingCanvas::new(4, 4, Color::white());
    paint(&mut canvas, 1, 1, Color::red());
    assert!(*canvas.current() != *canvas.visible_doc());
    canvas.commit();
    assert_eq!(canvas.history().len(), 2);
    assert_eq!(canvas.current_idx(), 1);
    assert!(*canvas.current() == *canvas.visible_doc());
    assert_eq!(*canvas.history()[1].at(1, 1), Color::red());
    assert_eq!(*canvas.history()[0].at(1, 1), Color::white());
}

#[test]
fn undo_at_the_first_snapshot_does_nothing() {
    let mut canvas = DrawingCanvas::new(4, 4, Color::white());
    assert!(!canvas.undo());
    assert_eq!(canvas.current_idx(), 0);
    assert_eq!(canvas.history().len(), 1);
}

#[test]
fn redo_at_the_last_snapshot_does_nothing() {
    let mut canvas = DrawingCanvas::new(4, 4, Color::white());
    assert!(!canvas.redo());
    canvas.commit();
    assert!(!canvas.redo());
    assert_eq!(canvas.current_idx(), 1);
}

#[test]
fn commit_then_undo_shows_the_state_before_the_edit() {
    let mut canvas = DrawingCanvas::new(4, 4, Color::white());
    let before = canvas.visible_doc().clone();
    paint(&mut canvas, 2, 3, Color::blue());
    canvas.commit();
    assert!(canvas.undo());
    assert_eq!(canvas.current_idx(), 0);
    assert!(*canvas.visible_doc() == before);
}

#[test]
fn undo_then_redo_shows_the_committed_state() {
    let mut canvas = DrawingCanvas::new(4, 4, Color::white());
    paint(&mut canvas, 2, 3, Color::blue());
    canvas.commit();
    let committed = canvas.visible_doc().clone();
    assert!(canvas.undo());
    assert!(canvas.redo());
    assert_eq!(canvas.current_idx(), 1);
    assert!(*canvas.visible_doc() == committed);
    assert_eq!(*canvas.visible_doc().at(2, 3), Color::blue());
}

#[test]
fn commit_after_undo_drops_what_could_be_redone() {
    let mut canvas = DrawingCanvas::new(4, 4, Color::white());
    paint(&mut canvas, 0, 0, Color::red());
    canvas.commit();
    paint(&mut canvas, 1, 0, Color::green());
    canvas.commit();
    assert_eq!(canvas.history().len(), 3);
    assert!(canvas.undo());
    assert!(canvas.undo());
    paint(&mut canvas, 3, 3, Color::blue());
    canvas.commit();
    assert!(!canvas.redo());
    assert_eq!(canvas.history().len(), 2);
    assert_eq!(canvas.current_idx(), 1);
    assert_eq!(*canvas.history()[1].at(3, 3), Color::blue());
    assert_eq!(*canvas.history()[1].at(0, 0), Color::white());
}

#[test]
fn unsaved_edits_are_lost_on_undo() {
    let mut canvas = DrawingCanvas::new(4, 4, Color::white());
    paint(&mut canvas, 0, 0, Color::red());
    canvas.commit();
    paint(&mut canvas, 1, 1, Color::green());
    assert!(canvas.undo());
    assert_eq!(*canvas.visible_doc().at(0, 0), Color::white());
    assert!(canvas.redo());
    assert_eq!(*canvas.visible_doc().at(0, 0), Color::red());
    assert_eq!(*canvas.visible_doc().at(1, 1), Color::white());
}

#[test]
fn clear_history_from_keeps_the_snapshots_up_to_the_index() {
    let mut canvas = DrawingCanvas::new(4, 4, Color::white());
    for k in 0..4 {
        paint(&mut canvas, k, 0, Color::red());
        canvas.commit();
    }
    assert_eq!(canvas.history().len(), 5);
    canvas.clear_history_from(2);
    assert_eq!(canvas.history().len(), 3);
    assert_eq!(canvas.current_idx(), 2);
    assert_eq!(*canvas.current().at(1, 0), Color::red());
    assert_eq!(*canvas.current().at(2, 0), Color::white());
    assert_eq!(*canvas.visible_doc().at(3, 0), Color::red());
    canvas.clear_history_from(2);
    assert_eq!(canvas.history().len(), 3);
    assert_eq!(canvas.current_idx(), 2);
}

#[test]
fn erasing_a_snapshot_before_the_cursor_moves_the_cursor_back() {
    let mut canvas = DrawingCanvas::new(4, 4, Color::white());
    for k in 0..3 {
        paint(&mut canvas, k, 0, Color::red());
        canvas.commit();
    }
    assert_eq!(canvas.current_idx(), 3);
    let current = canvas.current().clone();
    canvas.erase_history_element(1);
    assert_eq!(canvas.history().len(), 3);
    assert_eq!(canvas.current_idx(), 2);
    assert!(*canvas.current() == current);
}

#[test]
fn erasing_the_current_snapshot_moves_the_cursor_back() {
    let mut canvas = DrawingCanvas::new(4, 4, Color::white());
    for k in 0..2 {
        paint(&mut canvas, k, 0, Color::red());
        canvas.commit();
    }
    canvas.erase_history_element(2);
    assert_eq!(canvas.history().len(), 2);
    assert_eq!(canvas.current_idx(), 1);
    assert_eq!(*canvas.current().at(0, 0), Color::red());
    assert_eq!(*canvas.current().at(1, 0), Color::white());
}

#[test]
fn erasing_a_snapshot_after_the_cursor_leaves_the_cursor() {
    let mut canvas = DrawingCanvas::new(4, 4, Color::white());
    for k in 0..3 {
        paint(&mut canvas, k, 0, Color::red());
        canvas.commit();
    }
    assert!(canvas.undo());
    assert!(canvas.undo());
    assert_eq!(canvas.current_idx(), 1);
    canvas.erase_history_element(3);
    assert_eq!(canvas.history().len(), 3);
    assert_eq!(canvas.current_idx(), 1);
    canvas.erase_history_element(0);
    assert_eq!(canvas.history().len(), 2);
    assert_eq!(canvas.current_idx(), 0);
    assert_eq!(*canvas.current().at(0, 0), Color::red());
}

#[test]
fn history_stays_valid_over_a_mixed_run() {
    let mut canvas = DrawingCanvas::new(6, 6, Color::white());
    check_history(&canvas);
    for round in 0..6 {
        paint(&mut canvas, round, round, Color::green());
        canvas.commit();
        check_history(&canvas);
        if round % 2 == 1 {
            canvas.undo();
            check_history(&canvas);
        }
        if round % 3 == 2 {
            canvas.redo();
            check_history(&canvas);
        }
        if canvas.history().len() > 1 && canvas.current_idx() > 0 {
            canvas.erase_history_element(0);
            check_history(&canvas);
        }
    }
    while canvas.undo() {
        check_history(&canvas);
    }
    assert_eq!(canvas.current_idx(), 0);
    while canvas.redo() {
        check_history(&canvas);
    }
    assert_eq!(canvas.current_idx(), canvas.history().len() - 1);
}

#[test]
fn clone_of_a_canvas_is_independent() {
    let mut canvas = DrawingCanvas::new(4, 4, Color::white());
    paint(&mut canvas, 0, 0, Color::red());
    canvas.commit();
    let copy = canvas.clone();
    paint(&mut canvas, 1, 1, Color::blue());
    canvas.commit();
    assert_eq!(copy.history().len(), 2);
    assert_eq!(copy.current_idx(), 1);
    assert_eq!(*copy.visible_doc().at(1, 1), Color::white());
    assert_eq!(*copy.visible_doc().at(0, 0), Color::red());
}
