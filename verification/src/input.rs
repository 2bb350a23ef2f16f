//! The input state machine: which keys and mouse buttons are held, went down or came up
//! this frame, where the cursor is, and the state of a left-button drag.

use std::collections::HashSet;
use vstd::prelude::*;
use vstd::std_specs::hash::group_hash_axioms;

verus! {

broadcast use group_hash_axioms;

/// A mouse button.
#[derive(Debug, Clone, Copy, PartialEq, Eq, Structural)]
pub enum MouseButton {
    Left,
    Right,
    Middle,
    Other(u16),
}

/// The number a mouse button is tracked by.
pub open spec fn button_code(b: MouseButton) -> u32 {
    match b {
        MouseButton::Left => 0,
        MouseButton::Right => 1,
        MouseButton::Middle => 2,
        MouseButton::Other(n) => (3 + n) as u32,
    }
}

/// The number a mouse button is tracked by.
pub fn mouse_button_code(b: MouseButton) -> (c: u32)
    ensures
        c == button_code(b),
{
    match b {
        MouseButton::Left => 0,
        MouseButton::Right => 1,
        MouseButton::Middle => 2,
        MouseButton::Other(n) => 3 + n as u32,
    }
}

/// The state of a left-button drag, in cursor pixels.
#[derive(Debug, Clone, Copy, PartialEq, Eq, Structural)]
pub enum Drag {
    /// No drag.
    Idle,
    /// The button went down at `(x0, y0)`.
    Start { x0: u32, y0: u32 },
    /// The cursor moved to `(x1, y1)` with the button down since `(x0, y0)`.
    Dragging { x0: u32, y0: u32, x1: u32, y1: u32 },
    /// The button came up at `(x1, y1)` after dragging from `(x0, y0)`.
    End { x0: u32, y0: u32, x1: u32, y1: u32 },
}

/// A window event, as the input state sees it.
#[derive(Debug, Clone, Copy, PartialEq, Eq, Structural)]
pub enum InputEvent {
    /// A key with virtual key code `code` went down (`pressed`) or up.
    Key { code: u32, pressed: bool },
    /// The cursor moved to a position whose coordinates, converted to `i32` and to `u32`,
    /// are `(x, y)` and `(ux, uy)`.
    CursorMoved { x: i32, y: i32, ux: u32, uy: u32 },
    /// A mouse button went down (`pressed`) or up.
    Mouse { button: MouseButton, pressed: bool },
    /// Any other event.
    Other,
}

/// The input state, as sets of key and button numbers.
pub struct InputView {
    pub key_pressed: Set<u32>,
    pub mouse_pressed: Set<u32>,
    pub key_trigger: Set<u32>,
    pub mouse_trigger: Set<u32>,
    pub key_release: Set<u32>,
    pub mouse_release: Set<u32>,
    pub drag: Drag,
    pub cursor_pos: (u32, u32),
    pub cursor_offset: (int, int),
}

/// The input state after event `e`.
pub open spec fn input_step(v: InputView, e: InputEvent) -> InputView {
    match e {
        InputEvent::Key { code, pressed } => if pressed {
            InputView { key_pressed: v.key_pressed.insert(code), key_trigger: v.key_trigger.insert(code), ..v }
        } else {
            InputView { key_pressed: v.key_pressed.remove(code), key_release: v.key_release.insert(code), ..v }
        },
        InputEvent::CursorMoved { x, y, ux, uy } => InputView {
            cursor_offset: (x - (v.cursor_pos.0 as i32), y - (v.cursor_pos.1 as i32)),
            cursor_pos: (ux, uy),
            drag: match v.drag {
                Drag::Start { x0, y0 } => Drag::Dragging { x0, y0, x1: ux, y1: uy },
                Drag::Dragging { x0, y0, .. } => Drag::Dragging { x0, y0, x1: ux, y1: uy },
                d => d,
            },
            ..v
        },
        InputEvent::Mouse { button, pressed } => if pressed {
            InputView {
                mouse_pressed: v.mouse_pressed.insert(button_code(button)),
                mouse_trigger: v.mouse_trigger.insert(button_code(button)),
                drag: if button == MouseButton::Left {
                    Drag::Start { x0: v.cursor_pos.0, y0: v.cursor_pos.1 }
                } else {
                    v.drag
                },
                ..v
            }
        } else {
            InputView {
                mouse_pressed: v.mouse_pressed.remove(button_code(button)),
                mouse_release: v.mouse_release.insert(button_code(button)),
                drag: if button == MouseButton::Left {
                    match v.drag {
                        Drag::Dragging { x0, y0, .. } => Drag::End { x0, y0, x1: v.cursor_pos.0, y1: v.cursor_pos.1 },
                        _ => Drag::Idle,
                    }
                } else {
                    v.drag
                },
                ..v
            }
        },
        InputEvent::Other => v,
    }
}

/// The input state at the end of a frame: this frame's presses and releases are forgotten,
/// a finished drag is dropped and the cursor offset is zero.
pub open spec fn input_cleared(v: InputView) -> InputView {
    InputView {
        key_trigger: Set::empty(),
        mouse_trigger: Set::empty(),
        key_release: Set::empty(),
        mouse_release: Set::empty(),
        drag: match v.drag {
            Drag::End { .. } => Drag::Idle,
            d => d,
        },
        cursor_offset: (0, 0),
        ..v
    }
}

/// The keys and mouse buttons held, pressed this frame and released this frame, the cursor
/// and the drag.
#[derive(Debug)]
pub struct InputState {
    pub key_pressed: HashSet<u32>,
    pub mouse_pressed: HashSet<u32>,
    pub key_trigger: HashSet<u32>,
    pub mouse_trigger: HashSet<u32>,
    pub key_release: HashSet<u32>,
    pub mouse_release: HashSet<u32>,
    pub drag: Drag,
    pub cursor_pos: (u32, u32),
    pub cursor_offset: (i32, i32),
}

impl InputState {
    /// The state as sets.
    pub open spec fn view(&self) -> InputView {
        InputView {
            key_pressed: self.key_pressed@,
            mouse_pressed: self.mouse_pressed@,
            key_trigger: self.key_trigger@,
            mouse_trigger: self.mouse_trigger@,
            key_release: self.key_release@,
            mouse_release: self.mouse_release@,
            drag: self.drag,
            cursor_pos: self.cursor_pos,
            cursor_offset: (self.cursor_offset.0 as int, self.cursor_offset.1 as int),
        }
    }

    /// Nothing held, no drag, the cursor at the origin.
    pub fn new() -> (s: InputState)
        ensures
            s@.key_pressed.is_empty(),
            s@.mouse_pressed.is_empty(),
            s@.key_trigger.is_empty(),
            s@.mouse_trigger.is_empty(),
            s@.key_release.is_empty(),
            s@.mouse_release.is_empty(),
            s@.drag == Drag::Idle,
            s@.cursor_pos == (0u32, 0u32),
            s@.cursor_offset == (0int, 0int),
    {
        InputState {
            key_pressed: HashSet::new(),
            mouse_pressed: HashSet::new(),
            key_trigger: HashSet::new(),
            mouse_trigger: HashSet::new(),
            key_release: HashSet::new(),
            mouse_release: HashSet::new(),
            drag: Drag::Idle,
            cursor_pos: (0, 0),
            cursor_offset: (0, 0),
        }
    }

    /// Applies one event (see `input_step`). A cursor move needs the offset, from the previous
    /// position cast to `i32` (which wraps above `i32::MAX`), to fit in `i32`.
    pub fn update(&mut self, evt: &InputEvent)
        requires
            evt matches InputEvent::CursorMoved { x, y, .. } ==> {
                &&& i32::MIN <= x - (old(self).cursor_pos.0 as i32) <= i32::MAX
                &&& i32::MIN <= y - (old(self).cursor_pos.1 as i32) <= i32::MAX
            },
        ensures
            final(self)@ == input_step(old(self)@, *evt),
    {
        match *evt {
            InputEvent::Key { code, pressed } => {
                if pressed {
                    self.key_pressed.insert(code);
                    self.key_trigger.insert(code);
                } else {
                    self.key_pressed.remove(&code);
                    self.key_release.insert(code);
                }
            },
            InputEvent::CursorMoved { x, y, ux, uy } => {
                let (old_x, old_y) = self.cursor_pos;
                self.cursor_offset = (x - old_x as i32, y - old_y as i32);
                self.cursor_pos = (ux, uy);
                match self.drag {
                    Drag::Start { x0, y0 } => {
                        self.drag = Drag::Dragging { x0, y0, x1: ux, y1: uy };
                    },
                    Drag::Dragging { x0, y0, .. } => {
                        self.drag = Drag::Dragging { x0, y0, x1: ux, y1: uy };
                    },
                    _ => {},
                }
            },
            InputEvent::Mouse { button, pressed } => {
                let code = mouse_button_code(button);
                if pressed {
                    self.mouse_pressed.insert(code);
                    self.mouse_trigger.insert(code);
                    if button == MouseButton::Left {
                        self.drag = Drag::Start { x0: self.cursor_pos.0, y0: self.cursor_pos.1 };
                    }
                } else {
                    self.mouse_pressed.remove(&code);
                    self.mouse_release.insert(code);
                    if button == MouseButton::Left {
                        match self.drag {
                            Drag::Dragging { x0, y0, .. } => {
                                self.drag = Drag::End { x0, y0, x1: self.cursor_pos.0, y1: self.cursor_pos.1 };
                            },
                            _ => {
                                self.drag = Drag::Idle;
                            },
                        }
                    }
                }
            },
            InputEvent::Other => {},
        }
    }

    /// Ends a frame (see `input_cleared`).
    pub fn clear(&mut self)
        ensures
            final(self)@ == input_cleared(old(self)@),
    {
        self.key_trigger.clear();
        self.mouse_trigger.clear();
        self.mouse_release.clear();
        self.key_release.clear();
        if let Drag::End { .. } = self.drag {
            self.drag = Drag::Idle;
        }
        self.cursor_offset = (0, 0);
    }
}

/// A key that goes down and then up is no longer held, and is among this frame's presses and
/// releases.
pub proof fn lemma_press_release(v: InputView, code: u32)
    ensures
        ({
            let w = input_step(input_step(v, InputEvent::Key { code, pressed: true }), InputEvent::Key { code, pressed: false });
            &&& !w.key_pressed.contains(code)
            &&& w.key_trigger.contains(code)
            &&& w.key_release.contains(code)
            &&& forall|k: u32| k != code ==> (w.key_pressed.contains(k) <==> v.key_pressed.contains(k))
        }),
{
}

/// A left press, a cursor move and a left release make a finished drag from the point of the
/// press to the point of the release, which the end of the frame drops.
pub proof fn lemma_drag_cycle(v: InputView, x: i32, y: i32, ux: u32, uy: u32)
    ensures
        ({
            let pressed = input_step(v, InputEvent::Mouse { button: MouseButton::Left, pressed: true });
            let moved = input_step(pressed, InputEvent::CursorMoved { x, y, ux, uy });
            let released = input_step(moved, InputEvent::Mouse { button: MouseButton::Left, pressed: false });
            &&& released.drag == (Drag::End { x0: v.cursor_pos.0, y0: v.cursor_pos.1, x1: ux, y1: uy })
            &&& input_cleared(released).drag == Drag::Idle
        }),
{
}

/// Only the left button drags: pressing or releasing any other button leaves the drag as it
/// was, and a left press starts one where the cursor is.
pub proof fn lemma_only_left_button_drags(v: InputView, b: MouseButton, pressed: bool)
    ensures
        b != MouseButton::Left ==> input_step(v, InputEvent::Mouse { button: b, pressed }).drag == v.drag,
        input_step(v, InputEvent::Mouse { button: MouseButton::Left, pressed: true }).drag
            == (Drag::Start { x0: v.cursor_pos.0, y0: v.cursor_pos.1 }),
{
}

/// The end of a frame forgets the frame's presses and releases and the cursor offset, keeps
/// what is held and where the cursor is, and leaves no finished drag.
pub proof fn lemma_clear_forgets_frame(v: InputView)
    ensures
        input_cleared(v).key_trigger.is_empty(),
        input_cleared(v).mouse_trigger.is_empty(),
        input_cleared(v).key_release.is_empty(),
        input_cleared(v).mouse_release.is_empty(),
        input_cleared(v).cursor_offset == (0int, 0int),
        input_cleared(v).key_pressed == v.key_pressed,
        input_cleared(v).mouse_pressed == v.mouse_pressed,
        input_cleared(v).cursor_pos == v.cursor_pos,
        !(input_cleared(v).drag is End),
        !(v.drag is End) ==> input_cleared(v).drag == v.drag,
{
}

/// A left press and release without a move in between is no drag.
pub proof fn lemma_click_is_no_drag(v: InputView)
    ensures
        input_step(
            input_step(v, InputEvent::Mouse { button: MouseButton::Left, pressed: true }),
            InputEvent::Mouse { button: MouseButton::Left, pressed: false },
        ).drag == Drag::Idle,
{
}

} // verus!
