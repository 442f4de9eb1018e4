//! What keys and pointer buttons mean.
use vstd::prelude::*;
use crate::app::Action;
use crate::text;

verus! {

/// The keys that mean something, and what text a key stands for otherwise.
#[derive(Debug)]
pub enum Key {
    ArrowRight,
    ArrowLeft,
    ArrowUp,
    ArrowDown,
    Space,
    PageUp,
    PageDown,
    Home,
    End,
    Enter,
    Delete,
    Escape,
    Character(String),
    Other,
}

/// The text is the letter `lower`, in either case.
pub open spec fn is_letter(s: Seq<char>, lower: char, upper: char) -> bool {
    s == seq![lower] || s == seq![upper]
}

/// The action that a key stands for.
pub open spec fn action_of(key: Key) -> Option<Action> {
    match key {
        Key::ArrowRight => Some(Action::Next),
        Key::ArrowDown => Some(Action::Next),
        Key::Space => Some(Action::Next),
        Key::ArrowLeft => Some(Action::Prev),
        Key::ArrowUp => Some(Action::Prev),
        Key::PageDown => Some(Action::Skip(10)),
        Key::PageUp => Some(Action::Skip(-10i64)),
        Key::Home => Some(Action::First),
        Key::End => Some(Action::Last),
        Key::Enter => Some(Action::ConfirmDelete),
        Key::Delete => Some(Action::Delete),
        Key::Character(c) => if is_letter(c@, 'x', 'X') {
            Some(Action::ToggleFitMode)
        } else if is_letter(c@, 'f', 'F') {
            Some(Action::Fit)
        } else if is_letter(c@, 'z', 'Z') {
            Some(Action::ActualSize)
        } else if is_letter(c@, 'u', 'U') {
            Some(Action::Undo)
        } else {
            None
        },
        Key::Escape => None,
        Key::Other => None,
    }
}

/// The action that a key stands for.
pub fn key_action(key: &Key) -> (r: Option<Action>)
    ensures
        r == action_of(*key),
{
    match key {
        Key::ArrowRight => Some(Action::Next),
        Key::ArrowDown => Some(Action::Next),
        Key::Space => Some(Action::Next),
        Key::ArrowLeft => Some(Action::Prev),
        Key::ArrowUp => Some(Action::Prev),
        Key::PageDown => Some(Action::Skip(10)),
        Key::PageUp => Some(Action::Skip(-10)),
        Key::Home => Some(Action::First),
        Key::End => Some(Action::Last),
        Key::Enter => Some(Action::ConfirmDelete),
        // Plain Delete. It only *arms* the deletion; Enter is what carries it out, so the
        // deliberate second keystroke is still there without needing a modifier on the first.
        Key::Delete => Some(Action::Delete),
        Key::Character(c) => {
            let v = text::to_chars(c.as_str());
            if v.len() != 1 {
                assert(c@.len() != 1);
                return None;
            }
            let k: char = v[0];
            assert(c@ == seq![k]);
            assert(forall|d: char| #[trigger] seq![d] == seq![k] ==> seq![d][0] == k);
            if k == 'x' || k == 'X' {
                Some(Action::ToggleFitMode)
            } else if k == 'f' || k == 'F' {
                Some(Action::Fit)
            } else if k == 'z' || k == 'Z' {
                Some(Action::ActualSize)
            } else if k == 'u' || k == 'U' {
                Some(Action::Undo)
            } else {
                None
            }
        },
        Key::Escape => None,
        Key::Other => None,
    }
}

/// What a key press asks for.
#[derive(Clone, Copy, PartialEq, Eq, Debug, Structural)]
pub enum Request {
    Nothing,
    Act(Action),
    Quit,
}

/// What a key press asks for, given whether a delete is armed.
pub open spec fn request_of(key: Key, armed: bool) -> Request {
    if key is Escape {
        if armed {
            Request::Act(Action::Cancel)
        } else {
            Request::Quit
        }
    } else {
        match action_of(key) {
            Some(a) => Request::Act(a),
            None => Request::Nothing,
        }
    }
}

/// What a key press asks for, given whether a delete is armed.
///
/// Escape backs out of an armed delete first; it only quits if there is nothing pending, so it
/// cannot both cancel and exit.
pub fn key_request(key: &Key, armed: bool) -> (r: Request)
    ensures
        r == (if *key is Escape {
            if armed {
                Request::Act(Action::Cancel)
            } else {
                Request::Quit
            }
        } else {
            match action_of(*key) {
                Some(a) => Request::Act(a),
                None => Request::Nothing,
            }
        }),
        r == request_of(*key, armed),
{
    if let Key::Escape = key {
        return if armed {
            Request::Act(Action::Cancel)
        } else {
            Request::Quit
        };
    }
    match key_action(key) {
        Some(a) => Request::Act(a),
        None => Request::Nothing,
    }
}

/// Whether the image is being dragged.
#[derive(Clone, Copy, PartialEq, Eq, Debug, Structural)]
pub struct Pointer {
    pub dragging: bool,
}

impl Pointer {
    /// The pointer once a button went down or up.
    pub open spec fn after_button(
        self,
        left: bool,
        pressed: bool,
        captured: bool,
        over_image: bool,
    ) -> Pointer {
        Pointer {
            dragging: if left && !captured && over_image {
                pressed
            } else {
                pressed && self.dragging
            },
        }
    }

    /// A move of the pointer pans the image.
    pub open spec fn spec_pans(self, captured: bool, over_image: bool) -> bool {
        self.dragging && !captured && over_image
    }

    pub fn new() -> (p: Self)
        ensures
            !p.dragging,
    {
        Pointer { dragging: false }
    }

    /// A button went down or up. `captured` means that a panel took the event.
    pub fn button(&mut self, left: bool, pressed: bool, captured: bool, over_image: bool)
        ensures
            final(self).dragging == (if left && !captured && over_image {
                pressed
            } else {
                pressed && old(self).dragging
            }),
            *final(self) == old(self).after_button(left, pressed, captured, over_image),
    {
        if left && !captured && over_image {
            self.dragging = pressed;
        } else if !pressed {
            // Always end a drag, even if it finished over a panel.
            self.dragging = false;
        }
    }

    /// True when a move of the pointer pans the image.
    pub fn pans(&self, captured: bool, over_image: bool) -> (r: bool)
        ensures
            r == (self.dragging && !captured && over_image),
            r == self.spec_pans(captured, over_image),
    {
        self.dragging && !captured && over_image
    }

    /// True when the wheel zooms the image: over a panel it must scroll the list instead.
    pub fn zooms(&self, captured: bool, over_image: bool) -> (r: bool)
        ensures
            r == (!captured && over_image),
    {
        !captured && over_image
    }
}

/// A delete takes two different keys: one that only arms it, and one that only confirms it.
pub proof fn law_deleting_takes_two_keys(key: Key)
    ensures
        action_of(key) == Some(Action::Delete) <==> key is Delete,
        action_of(key) == Some(Action::ConfirmDelete) <==> key is Enter,
{
}

/// The keys mean what is printed on them: the arrows and the space bar go to the next image or
/// back, the page keys ten at a time, Home and End to the ends; x, f, z and u, in either case,
/// toggle the mode, fit, show the actual size and undo. No other character means anything.
pub proof fn law_keys_mean_what_they_say(key: Key)
    ensures
        key is ArrowRight || key is ArrowDown || key is Space <==> action_of(key) == Some(
            Action::Next,
        ),
        key is ArrowLeft || key is ArrowUp <==> action_of(key) == Some(Action::Prev),
        key is PageDown ==> action_of(key) == Some(Action::Skip(10)),
        key is PageUp ==> action_of(key) == Some(Action::Skip(-10i64)),
        key is Home <==> action_of(key) == Some(Action::First),
        key is End <==> action_of(key) == Some(Action::Last),
        key matches Key::Character(c) ==> {
            &&& c@.len() == 1 && (c@[0] == 'x' || c@[0] == 'X') ==> action_of(key) == Some(
                Action::ToggleFitMode,
            )
            &&& c@.len() == 1 && (c@[0] == 'f' || c@[0] == 'F') ==> action_of(key) == Some(
                Action::Fit,
            )
            &&& c@.len() == 1 && (c@[0] == 'z' || c@[0] == 'Z') ==> action_of(key) == Some(
                Action::ActualSize,
            )
            &&& c@.len() == 1 && (c@[0] == 'u' || c@[0] == 'U') ==> action_of(key) == Some(
                Action::Undo,
            )
            &&& c@.len() != 1 ==> action_of(key) is None
            &&& c@.len() == 1 && c@[0] != 'x' && c@[0] != 'X' && c@[0] != 'f' && c@[0] != 'F'
                && c@[0] != 'z' && c@[0] != 'Z' && c@[0] != 'u' && c@[0] != 'U' ==> action_of(
                key,
            ) is None
        },
        key is Other ==> action_of(key) is None,
{
    if let Key::Character(c) = key {
        if c@.len() == 1 {
            let k = c@[0];
            assert(c@ == seq![k]);
            assert(forall|d: char| #[trigger] seq![d] == seq![k] ==> seq![d][0] == k);
        }
    }
}

/// The left arrow takes back what the right arrow did, and page up what page down did, wherever
/// there was room to move.
pub proof fn law_opposite_keys_cancel_out(
    there: Key,
    back: Key,
    known: Map<Seq<char>, crate::scan::FileMeta>,
    on_disk: u64,
    a: crate::app::AppFacts,
    r: crate::prefetch::Ring,
    now: u64,
    once: crate::app::Outcome,
    later: u64,
    twice: crate::app::Outcome,
    step: int,
)
    requires
        (there is ArrowRight && back is ArrowLeft && step == 1) || (there is PageDown
            && back is PageUp && step == 10),
        a.index + step < a.groups.len() <= usize::MAX,
        crate::app::acts(
            Seq::empty(),
            known,
            on_disk,
            a,
            r,
            action_of(there)->0,
            now,
            once,
        ),
        crate::app::acts(
            Seq::empty(),
            known,
            on_disk,
            once.app,
            once.ring,
            action_of(back)->0,
            later,
            twice,
        ),
    ensures
        once.app.index == a.index + step,
        twice.app.index == a.index,
{
    crate::app::law_keys_move_the_selection(
        Seq::empty(),
        known,
        on_disk,
        a,
        r,
        action_of(there)->0,
        now,
        once,
    );
    crate::app::law_keys_move_the_selection(
        Seq::empty(),
        known,
        on_disk,
        once.app,
        once.ring,
        action_of(back)->0,
        later,
        twice,
    );
}

/// Escape backs out of an armed delete before it quits, and is the only key that quits. Any other
/// key asks for what it means, armed or not.
pub proof fn law_escape_backs_out_first(key: Key, armed: bool, action: Action)
    ensures
        key is Escape && armed ==> request_of(key, armed) == Request::Act(Action::Cancel),
        key is Escape && !armed ==> request_of(key, armed) == Request::Quit,
        !(key is Escape) ==> request_of(key, armed) != Request::Quit,
        !(key is Escape) && action_of(key) == Some(action) ==> request_of(key, armed)
            == Request::Act(action),
        !(key is Escape) && action_of(key) is None ==> request_of(key, armed) == Request::Nothing,
{
}

/// A drag starts with the left button over the image, and nowhere else; it ends with any button,
/// wherever that goes up; and it pans only over the image.
pub proof fn law_drag_starts_over_the_image(
    p: Pointer,
    left: bool,
    pressed: bool,
    captured: bool,
    over_image: bool,
)
    ensures
        !p.after_button(left, false, captured, over_image).dragging,
        p.after_button(true, true, false, true).dragging,
        !(left && !captured && over_image) ==> (p.after_button(
            left,
            true,
            captured,
            over_image,
        ).dragging <==> p.dragging),
        p.spec_pans(captured, over_image) ==> p.dragging && !captured && over_image,
        p.dragging ==> p.spec_pans(false, true),
{
}

} // verus!
