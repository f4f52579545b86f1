//! The decisions of the render loop that come from outside: the window's
//! events and size, and the settings read from the environment.
use vstd::prelude::*;

verus! {

/// A key, as far as the render loop cares.
#[derive(Clone, Copy, Debug, PartialEq, Eq, Structural)]
pub enum Key {
    Escape,
    Other,
}

/// A window event, as far as the render loop cares.
#[derive(Clone, Copy, Debug, PartialEq, Eq, Structural)]
pub enum InputEvent {
    /// The window was asked to close.
    Quit,
    /// A key was pressed; `None` when the key has no key code.
    KeyDown(Option<Key>),
    Other,
}

/// The event ends the render loop: a request to close, or the Escape key.
pub open spec fn ends_loop(e: InputEvent) -> bool {
    e == InputEvent::Quit || e == InputEvent::KeyDown(Some(Key::Escape))
}

/// Whether the event ends the render loop.
pub fn is_exit_event(e: &InputEvent) -> (b: bool)
    ensures
        b == ends_loop(*e),
{
    match e {
        InputEvent::Quit => true,
        InputEvent::KeyDown(Some(Key::Escape)) => true,
        _ => false,
    }
}

/// Whether any of a frame's events ends the render loop.
pub fn quit_requested(events: &Vec<InputEvent>) -> (b: bool)
    ensures
        b == exists|i: int| 0 <= i < events@.len() && ends_loop(#[trigger] events@[i]),
{
    let mut i: usize = 0;
    while i < events.len()
        invariant
            i <= events@.len(),
            forall|j: int| 0 <= j < i ==> !ends_loop(#[trigger] events@[j]),
        decreases events.len() - i,
    {
        if is_exit_event(&events[i]) {
            return true;
        }
        i = i + 1;
    }
    false
}

/// A switch read from the environment is on unless it is set to something
/// other than `1`; an unset variable (or one that is not Unicode) leaves it on.
pub open spec fn switch_on(setting: Option<Seq<char>>) -> bool {
    match setting {
        None => true,
        Some(s) => s == seq!['1'],
    }
}

/// A switch is on exactly when its variable is unset or holds the single
/// character `1`: any other value, `"0"`, `"false"`, `"off"`, `" 1"`, `"11"` or
/// the empty string, turns it off.
pub proof fn lemma_switch_on_only_for_one(s: Seq<char>)
    ensures
        switch_on(None),
        switch_on(Some(s)) == (s.len() == 1 && s[0] == '1'),
{
    if s.len() == 1 && s[0] == '1' {
        assert(s =~= seq!['1']);
    }
    if s == seq!['1'] {
        assert(s[0] == '1');
    }
}

/// Whether the switch with this setting is on.
pub fn flag_enabled(setting: &Option<String>) -> (b: bool)
    ensures
        b == switch_on(
            match setting {
                Some(s) => Some(s@),
                None => None,
            },
        ),
{
    match setting {
        None => true,
        Some(s) => {
            let t: &str = s.as_str();
            let n = t.unicode_len();
            if n == 1 && t.get_char(0) == '1' {
                assert(s@ =~= seq!['1']);
                true
            } else {
                proof {
                    if s@ == seq!['1'] {
                        assert(t@[0] == '1');
                    }
                }
                false
            }
        },
    }
}

/// The aspect ratio that the projection uses: the window's width divided by
/// its height in whole numbers, the remainder dropped (1 for a square window).
pub fn aspect_ratio(width: u32, height: u32) -> (r: u32)
    requires
        height > 0,
    ensures
        r == width / height,
{
    width / height
}

} // verus!
