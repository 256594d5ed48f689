//! What the interactive window does with its input: which events reach the viewer while a
//! benchmark runs, which command each key press stands for, how the render cap steps, and
//! the viewer's switches after each command.
use vstd::prelude::*;

use crate::renderer::RenderMode;

verus! {

/// Number of render-cap steps cycled with `C` (the fractions of the scene drawn).
pub const CAP_STEPS: usize = 4;

/// A key press as the window reports it: the text it types, the Escape key, or any other
/// named key.
#[derive(Debug)]
pub enum KeyInput {
    Text(Vec<u8>),
    Escape,
    Other,
}

/// What the viewer does in answer to a key press.
#[derive(Clone, Copy, PartialEq, Eq, Structural, Debug)]
pub enum Command {
    SetMode(RenderMode),
    ToggleExactAlpha,
    ResetCamera,
    ToggleMeshes,
    ToggleBackground,
    CycleBins,
    CycleTile,
    CycleCap,
    ShrinkSplats,
    GrowSplats,
    ToggleOpaque,
    Exit,
    Nothing,
}

/// The kinds of window event the viewer tells apart.
#[derive(Clone, Copy, PartialEq, Eq, Structural, Debug)]
pub enum EventKind {
    CloseRequested,
    Resized,
    RedrawRequested,
    Keyboard,
    MouseButton,
    CursorMoved,
    MouseWheel,
    Other,
}

/// A benchmark that answered a stray key press or mouse drag would measure the user:
/// while one runs only closing, resizing and redrawing get through.
pub open spec fn spec_event_reaches_viewer(benching: bool, kind: EventKind) -> bool {
    !benching || kind == EventKind::CloseRequested || kind == EventKind::Resized || kind
        == EventKind::RedrawRequested
}

/// The command of a key that types the single byte `c` (upper and lower case alike);
/// `C` steps the render cap only when a splat scene is loaded.
pub open spec fn byte_command(c: u8, has_splats: bool) -> Command {
    if c == 0x31 {
        Command::SetMode(RenderMode::AlphaBlend)
    } else if c == 0x32 {
        Command::SetMode(RenderMode::NaiveWboit)
    } else if c == 0x33 {
        Command::SetMode(RenderMode::HistogramWboit)
    } else if c == 0x61 || c == 0x41 {
        Command::ToggleExactAlpha
    } else if c == 0x72 || c == 0x52 {
        Command::ResetCamera
    } else if c == 0x6d || c == 0x4d {
        Command::ToggleMeshes
    } else if c == 0x77 || c == 0x57 {
        Command::ToggleBackground
    } else if c == 0x62 || c == 0x42 {
        Command::CycleBins
    } else if c == 0x74 || c == 0x54 {
        Command::CycleTile
    } else if (c == 0x63 || c == 0x43) && has_splats {
        Command::CycleCap
    } else if c == 0x5b {
        Command::ShrinkSplats
    } else if c == 0x5d {
        Command::GrowSplats
    } else if c == 0x6f || c == 0x4f {
        Command::ToggleOpaque
    } else {
        Command::Nothing
    }
}

/// The command a key event stands for: only presses act, text keys act when they type one
/// byte with a binding, and Escape quits.
pub open spec fn spec_key_command(key: KeyInput, pressed: bool, has_splats: bool) -> Command {
    if !pressed {
        Command::Nothing
    } else {
        match key {
            KeyInput::Text(t) => if t@.len() == 1 {
                byte_command(t@[0], has_splats)
            } else {
                Command::Nothing
            },
            KeyInput::Escape => Command::Exit,
            KeyInput::Other => Command::Nothing,
        }
    }
}

/// Without a splat scene no key steps the render cap, and a released key does nothing.
pub proof fn lemma_no_cap_without_splats(key: KeyInput, pressed: bool, has_splats: bool)
    ensures
        spec_key_command(key, pressed, false) != Command::CycleCap,
        !pressed ==> spec_key_command(key, pressed, has_splats) == Command::Nothing,
{
}

/// A letter and its upper case give the same command: for keys typing one byte, `c` in
/// `a..=z` acts exactly like `c - 0x20` in `A..=Z`.
pub proof fn lemma_letters_ignore_case(lower: Vec<u8>, upper: Vec<u8>, pressed: bool, has_splats: bool)
    requires
        lower@.len() == 1,
        upper@.len() == 1,
        0x61 <= lower@[0] <= 0x7a,
        upper@[0] == lower@[0] - 0x20,
    ensures
        spec_key_command(KeyInput::Text(lower), pressed, has_splats) == spec_key_command(
            KeyInput::Text(upper),
            pressed,
            has_splats,
        ),
{
}

/// Whether an event of this kind is handled at all, given whether a benchmark is running.
pub fn event_reaches_viewer(benching: bool, kind: EventKind) -> (r: bool)
    ensures
        r == spec_event_reaches_viewer(benching, kind),
{
    match kind {
        EventKind::CloseRequested | EventKind::Resized | EventKind::RedrawRequested => true,
        _ => !benching,
    }
}

/// The command for a key event.
pub fn key_command(key: &KeyInput, pressed: bool, has_splats: bool) -> (c: Command)
    ensures
        c == spec_key_command(*key, pressed, has_splats),
{
    if !pressed {
        return Command::Nothing;
    }
    match key {
        KeyInput::Text(t) => {
            if t.len() != 1 {
                return Command::Nothing;
            }
            let c = t[0];
            if c == 0x31 {
                Command::SetMode(RenderMode::AlphaBlend)
            } else if c == 0x32 {
                Command::SetMode(RenderMode::NaiveWboit)
            } else if c == 0x33 {
                Command::SetMode(RenderMode::HistogramWboit)
            } else if c == 0x61 || c == 0x41 {
                Command::ToggleExactAlpha
            } else if c == 0x72 || c == 0x52 {
                Command::ResetCamera
            } else if c == 0x6d || c == 0x4d {
                Command::ToggleMeshes
            } else if c == 0x77 || c == 0x57 {
                Command::ToggleBackground
            } else if c == 0x62 || c == 0x42 {
                Command::CycleBins
            } else if c == 0x74 || c == 0x54 {
                Command::CycleTile
            } else if (c == 0x63 || c == 0x43) && has_splats {
                Command::CycleCap
            } else if c == 0x5b {
                Command::ShrinkSplats
            } else if c == 0x5d {
                Command::GrowSplats
            } else if c == 0x6f || c == 0x4f {
                Command::ToggleOpaque
            } else {
                Command::Nothing
            }
        },
        KeyInput::Escape => Command::Exit,
        KeyInput::Other => Command::Nothing,
    }
}

/// The render-cap step after `cap`, wrapping to the full scene after the smallest cap.
pub fn next_cap(cap: usize) -> (r: usize)
    requires
        cap < CAP_STEPS,
    ensures
        r == (cap + 1) % (CAP_STEPS as int),
        r < CAP_STEPS,
{
    (cap + 1) % CAP_STEPS
}

/// The viewer's switches that key presses turn.
#[derive(Clone, Copy, PartialEq, Eq, Structural, Debug)]
pub struct ViewerState {
    pub mode: RenderMode,
    /// Exact alpha from the optical-depth buffer rather than its approximation.
    pub exact_alpha: bool,
    /// Whether the optional extra meshes are drawn.
    pub show_meshes: bool,
    /// Clear to an opaque background rather than a transparent one.
    pub opaque_background: bool,
    /// Draw every object fully opaque.
    pub force_opaque: bool,
    /// Index of the render-cap step (`0` is the whole scene).
    pub cap: usize,
}

/// What the caller does beyond the switches: work on the camera, the histogram grid, the
/// splat buffers or the window.
#[derive(Clone, Copy, PartialEq, Eq, Structural, Debug)]
pub enum Effect {
    Nothing,
    /// Put the camera back at its home pose and stop any drag.
    ResetCamera,
    /// Step the histogram's bin count.
    CycleBins,
    /// Step the histogram's tile size.
    CycleTile,
    /// Draw the prefix of the scene that cap step `cap` allows.
    ApplyCap(usize),
    /// Scale the splats down one step.
    ShrinkSplats,
    /// Scale the splats up one step.
    GrowSplats,
    /// Close the viewer.
    Exit,
}

/// The switches after a command, and what else the command asks for.
pub open spec fn spec_apply(s: ViewerState, c: Command) -> (ViewerState, Effect) {
    match c {
        Command::SetMode(m) => (ViewerState { mode: m, ..s }, Effect::Nothing),
        Command::ToggleExactAlpha => (ViewerState { exact_alpha: !s.exact_alpha, ..s }, Effect::Nothing),
        Command::ResetCamera => (s, Effect::ResetCamera),
        Command::ToggleMeshes => (ViewerState { show_meshes: !s.show_meshes, ..s }, Effect::Nothing),
        Command::ToggleBackground => (
            ViewerState { opaque_background: !s.opaque_background, ..s },
            Effect::Nothing,
        ),
        Command::CycleBins => (s, Effect::CycleBins),
        Command::CycleTile => (s, Effect::CycleTile),
        Command::CycleCap => {
            let cap = ((s.cap + 1) % (CAP_STEPS as int)) as usize;
            (ViewerState { cap, ..s }, Effect::ApplyCap(cap))
        },
        Command::ShrinkSplats => (s, Effect::ShrinkSplats),
        Command::GrowSplats => (s, Effect::GrowSplats),
        Command::ToggleOpaque => (ViewerState { force_opaque: !s.force_opaque, ..s }, Effect::Nothing),
        Command::Exit => (s, Effect::Exit),
        Command::Nothing => (s, Effect::Nothing),
    }
}

impl ViewerState {
    /// The switches at start-up: alpha blending, exact alpha, an opaque background and the
    /// whole scene; the mesh switches start as the scene sets them.
    pub fn new(show_meshes: bool, force_opaque: bool) -> (s: ViewerState)
        ensures
            s == (ViewerState {
                mode: RenderMode::AlphaBlend,
                exact_alpha: true,
                show_meshes,
                opaque_background: true,
                force_opaque,
                cap: 0,
            }),
    {
        ViewerState {
            mode: RenderMode::AlphaBlend,
            exact_alpha: true,
            show_meshes,
            opaque_background: true,
            force_opaque,
            cap: 0,
        }
    }

    /// Carry out a command on the switches and say what else it asks for.
    pub fn apply(&mut self, c: Command) -> (e: Effect)
        requires
            old(self).cap < CAP_STEPS,
        ensures
            (*final(self), e) == spec_apply(*old(self), c),
            final(self).cap < CAP_STEPS,
    {
        match c {
            Command::SetMode(m) => {
                self.mode = m;
                Effect::Nothing
            },
            Command::ToggleExactAlpha => {
                self.exact_alpha = !self.exact_alpha;
                Effect::Nothing
            },
            Command::ResetCamera => Effect::ResetCamera,
            Command::ToggleMeshes => {
                self.show_meshes = !self.show_meshes;
                Effect::Nothing
            },
            Command::ToggleBackground => {
                self.opaque_background = !self.opaque_background;
                Effect::Nothing
            },
            Command::CycleBins => Effect::CycleBins,
            Command::CycleTile => Effect::CycleTile,
            Command::CycleCap => {
                self.cap = next_cap(self.cap);
                Effect::ApplyCap(self.cap)
            },
            Command::ShrinkSplats => Effect::ShrinkSplats,
            Command::GrowSplats => Effect::GrowSplats,
            Command::ToggleOpaque => {
                self.force_opaque = !self.force_opaque;
                Effect::Nothing
            },
            Command::Exit => Effect::Exit,
            Command::Nothing => Effect::Nothing,
        }
    }

    /// Answer one key event: its command carried out on the switches.
    pub fn press(&mut self, key: &KeyInput, pressed: bool, has_splats: bool) -> (e: Effect)
        requires
            old(self).cap < CAP_STEPS,
        ensures
            (*final(self), e) == spec_apply(*old(self), spec_key_command(*key, pressed, has_splats)),
            final(self).cap < CAP_STEPS,
    {
        let c = key_command(key, pressed, has_splats);
        self.apply(c)
    }
}

/// Pressing `C` as many times as there are cap steps brings the cap back where it was.
pub proof fn lemma_cap_cycle_returns(s: ViewerState)
    requires
        s.cap < CAP_STEPS,
    ensures
        spec_apply(
            spec_apply(
                spec_apply(spec_apply(s, Command::CycleCap).0, Command::CycleCap).0,
                Command::CycleCap,
            ).0,
            Command::CycleCap,
        ).0 == s,
{
}

} // verus!
