use cull::app::Action;
use cull::input::{key_action, key_request, Key, Pointer, Request};

fn typed(s: &str) -> Key {
    Key::Character(s.to_string())
}

#[test]
fn keys_navigate() {
    for key in [Key::ArrowRight, Key::ArrowDown, Key::Space] {
        assert_eq!(key_action(&key), Some(Action::Next));
    }
    for key in [Key::ArrowLeft, Key::ArrowUp] {
        assert_eq!(key_action(&key), Some(Action::Prev));
    }
    assert_eq!(key_action(&Key::PageDown), Some(Action::Skip(10)));
    assert_eq!(key_action(&Key::PageUp), Some(Action::Skip(-10)));
    assert_eq!(key_action(&Key::Home), Some(Action::First));
    assert_eq!(key_action(&Key::End), Some(Action::Last));
    assert_eq!(key_action(&Key::Other), None);
}

#[test]
fn letters_act_in_either_case() {
    for (letters, action) in [
        (["x", "X"], Action::ToggleFitMode),
        (["f", "F"], Action::Fit),
        (["z", "Z"], Action::ActualSize),
        (["u", "U"], Action::Undo),
    ] {
        for l in letters {
            assert_eq!(key_action(&typed(l)), Some(action), "{l}");
        }
    }
    for other in ["", "q", "xx", "x "] {
        assert_eq!(key_action(&typed(other)), None, "{other:?}");
    }
}

#[test]
fn deleting_takes_two_keys() {
    assert_eq!(key_action(&Key::Delete), Some(Action::Delete));
    assert_eq!(key_action(&Key::Enter), Some(Action::ConfirmDelete));
}

#[test]
fn escape_cancels_before_it_quits() {
    assert_eq!(key_request(&Key::Escape, true), Request::Act(Action::Cancel));
    assert_eq!(key_request(&Key::Escape, false), Request::Quit);
    assert_eq!(key_request(&Key::Space, true), Request::Act(Action::Next));
    assert_eq!(key_request(&typed("?"), false), Request::Nothing);
}

#[test]
fn a_drag_starts_on_the_image_and_ends_anywhere() {
    let mut p = Pointer::new();
    p.button(true, true, false, false);
    assert!(!p.dragging, "a press on a panel is no drag");
    p.button(true, true, false, true);
    assert!(p.pans(false, true));
    assert!(!p.pans(true, true) && !p.pans(false, false));
    p.button(true, false, true, false);
    assert!(!p.dragging);
    assert!(p.zooms(false, true) && !p.zooms(true, true) && !p.zooms(false, false));
}
