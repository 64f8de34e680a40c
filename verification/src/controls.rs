//! The decisions behind the keyboard and the tool wells: which command a
//! key press means, and how the pen, the erasers and the escape key move
//! between states. Reading input and drawing are the program's business;
//! stroke widths, which are measured on paper, stay with it too: these
//! functions only say when a width is kept, remembered or restored.

use vstd::prelude::*;
use crate::ink::Tool;

verus! {

/// The keys the program answers to.
#[derive(Clone, Copy, Debug, PartialEq, Eq, Structural)]
pub enum Key {
    Escape,
    A,
    B,
    C,
    D,
    E,
    H,
    I,
    L,
    M,
    N,
    P,
    R,
    S,
    T,
    Y,
    Z,
    Num0,
    Num1,
    Num2,
    Num3,
    Num4,
    Num5,
    Num6,
    Num7,
    Num8,
    Num9,
    Plus,
    Equals,
    Minus,
    Delete,
    Backspace,
    Enter,
    OpenBracket,
    CloseBracket,
    Slash,
    F1,
}

fn pressed_key(keys: &[Key], k: Key) -> (r: bool)
    ensures
        r == keys@.contains(k),
{
    let mut i: usize = 0;
    while i < keys.len()
        invariant
            0 <= i <= keys@.len(),
            forall|j: int| 0 <= j < i ==> keys@[j] != k,
        decreases keys.len() - i,
    {
        if keys[i] == k {
            return true;
        }
        i = i + 1;
    }
    false
}

/// What the keys pressed in a frame ask of the program.
#[derive(Clone, Copy, Debug, PartialEq, Eq, Structural)]
pub struct Commands {
    pub new_note: bool,
    pub undo: bool,
    pub redo: bool,
    pub save: bool,
    pub export_png: bool,
    pub export_pdf: bool,
    pub fit: bool,
    pub zoom_in: bool,
    pub zoom_out: bool,
    pub close: bool,
    pub delete_sel: bool,
    pub duplicate: bool,
    /// Thinner (-1) or thicker (+1) stroke, or neither (0).
    pub width_step: i8,
    pub tool: Option<Tool>,
    /// A theme ink, by position.
    pub color: Option<u8>,
    pub cycle_paper: bool,
    pub erase_pick: Option<Tool>,
    pub toggle_fiche: bool,
}

/// The tool a plain key picks: `p` felt-tip, `b` fountain pen, `c`
/// pencil, `h` highlighter, `l` lasso, `t` text, `i` image; the later in
/// that list wins.
pub open spec fn key_tool(keys: Seq<Key>) -> Option<Tool> {
    if keys.contains(Key::I) {
        Some(Tool::Image)
    } else if keys.contains(Key::T) {
        Some(Tool::Text)
    } else if keys.contains(Key::L) {
        Some(Tool::Lasso)
    } else if keys.contains(Key::H) {
        Some(Tool::Highlighter)
    } else if keys.contains(Key::C) {
        Some(Tool::Pencil)
    } else if keys.contains(Key::B) {
        Some(Tool::Brush)
    } else if keys.contains(Key::P) {
        Some(Tool::Fineliner)
    } else {
        None
    }
}

/// The theme ink a digit key picks, `1` to `9`; the highest wins.
pub open spec fn key_color(keys: Seq<Key>) -> Option<u8> {
    if keys.contains(Key::Num9) {
        Some(8u8)
    } else if keys.contains(Key::Num8) {
        Some(7u8)
    } else if keys.contains(Key::Num7) {
        Some(6u8)
    } else if keys.contains(Key::Num6) {
        Some(5u8)
    } else if keys.contains(Key::Num5) {
        Some(4u8)
    } else if keys.contains(Key::Num4) {
        Some(3u8)
    } else if keys.contains(Key::Num3) {
        Some(2u8)
    } else if keys.contains(Key::Num2) {
        Some(1u8)
    } else if keys.contains(Key::Num1) {
        Some(0u8)
    } else {
        None
    }
}

/// The commands of the keys `keys` pressed with `command` (ctrl) and
/// `shift` held. `typing` is true while a text field has the keyboard,
/// `editing_text` while a text box of the page is edited, and `on_shelf`
/// while the shelf shows.
pub open spec fn commands_spec(
    keys: Seq<Key>,
    command: bool,
    shift: bool,
    typing: bool,
    editing_text: bool,
    on_shelf: bool,
) -> Commands {
    let plain = !command && !editing_text;
    let shelf_plain = !command && on_shelf && !typing;
    Commands {
        new_note: (command && keys.contains(Key::N)) || (shelf_plain && keys.contains(Key::N)),
        undo: command && keys.contains(Key::Z) && !shift,
        redo: command && (keys.contains(Key::Y) || (shift && keys.contains(Key::Z))),
        save: command && keys.contains(Key::S),
        export_png: command && !shift && keys.contains(Key::E),
        export_pdf: command && shift && keys.contains(Key::E),
        fit: keys.contains(Key::Num0) && (command || !typing),
        zoom_in: !typing && (keys.contains(Key::Plus) || keys.contains(Key::Equals)),
        zoom_out: !typing && keys.contains(Key::Minus),
        close: keys.contains(Key::Escape),
        delete_sel: (keys.contains(Key::Delete) || keys.contains(Key::Backspace)) && !editing_text,
        duplicate: command && keys.contains(Key::D),
        width_step: if keys.contains(Key::CloseBracket) {
            1i8
        } else if keys.contains(Key::OpenBracket) {
            -1i8
        } else {
            0i8
        },
        tool: if plain {
            key_tool(keys)
        } else {
            None
        },
        color: if plain {
            key_color(keys)
        } else {
            None
        },
        cycle_paper: plain && keys.contains(Key::M),
        erase_pick: if plain && keys.contains(Key::E) {
            Some(
                if shift {
                    Tool::EraserArea
                } else {
                    Tool::EraserStroke
                },
            )
        } else {
            None
        },
        toggle_fiche: shelf_plain && (keys.contains(Key::Slash) || keys.contains(Key::F1)),
    }
}

fn tool_of_keys(keys: &[Key]) -> (r: Option<Tool>)
    ensures
        r == key_tool(keys@),
{
    if pressed_key(keys, Key::I) {
        Some(Tool::Image)
    } else if pressed_key(keys, Key::T) {
        Some(Tool::Text)
    } else if pressed_key(keys, Key::L) {
        Some(Tool::Lasso)
    } else if pressed_key(keys, Key::H) {
        Some(Tool::Highlighter)
    } else if pressed_key(keys, Key::C) {
        Some(Tool::Pencil)
    } else if pressed_key(keys, Key::B) {
        Some(Tool::Brush)
    } else if pressed_key(keys, Key::P) {
        Some(Tool::Fineliner)
    } else {
        None
    }
}

fn color_of_keys(keys: &[Key]) -> (r: Option<u8>)
    ensures
        r == key_color(keys@),
{
    if pressed_key(keys, Key::Num9) {
        Some(8)
    } else if pressed_key(keys, Key::Num8) {
        Some(7)
    } else if pressed_key(keys, Key::Num7) {
        Some(6)
    } else if pressed_key(keys, Key::Num6) {
        Some(5)
    } else if pressed_key(keys, Key::Num5) {
        Some(4)
    } else if pressed_key(keys, Key::Num4) {
        Some(3)
    } else if pressed_key(keys, Key::Num3) {
        Some(2)
    } else if pressed_key(keys, Key::Num2) {
        Some(1)
    } else if pressed_key(keys, Key::Num1) {
        Some(0)
    } else {
        None
    }
}

/// Reads the keys pressed in a frame as commands.
pub fn commands(
    keys: &[Key],
    command: bool,
    shift: bool,
    typing: bool,
    editing_text: bool,
    on_shelf: bool,
) -> (r: Commands)
    ensures
        r == commands_spec(keys@, command, shift, typing, editing_text, on_shelf),
{
    let plain = !command && !editing_text;
    let shelf_plain = !command && on_shelf && !typing;
    let n = pressed_key(keys, Key::N);
    let z = pressed_key(keys, Key::Z);
    let e = pressed_key(keys, Key::E);
    let equals = pressed_key(keys, Key::Equals);
    Commands {
        new_note: (command && n) || (shelf_plain && n),
        undo: command && z && !shift,
        redo: command && (pressed_key(keys, Key::Y) || (shift && z)),
        save: command && pressed_key(keys, Key::S),
        export_png: command && !shift && e,
        export_pdf: command && shift && e,
        fit: pressed_key(keys, Key::Num0) && (command || !typing),
        zoom_in: !typing && (pressed_key(keys, Key::Plus) || equals),
        zoom_out: !typing && pressed_key(keys, Key::Minus),
        close: pressed_key(keys, Key::Escape),
        delete_sel: (pressed_key(keys, Key::Delete) || pressed_key(keys, Key::Backspace)) && !editing_text,
        duplicate: command && pressed_key(keys, Key::D),
        width_step: if pressed_key(keys, Key::CloseBracket) {
            1
        } else if pressed_key(keys, Key::OpenBracket) {
            -1
        } else {
            0
        },
        tool: if plain {
            tool_of_keys(keys)
        } else {
            None
        },
        color: if plain {
            color_of_keys(keys)
        } else {
            None
        },
        cycle_paper: plain && pressed_key(keys, Key::M),
        erase_pick: if plain && e {
            Some(
                if shift {
                    Tool::EraserArea
                } else {
                    Tool::EraserStroke
                },
            )
        } else {
            None
        },
        toggle_fiche: shelf_plain && (pressed_key(keys, Key::Slash) || pressed_key(keys, Key::F1)),
    }
}

/// What the keys pressed on the shelf ask of it.
#[derive(Clone, Copy, Debug, PartialEq, Eq, Structural)]
pub struct ShelfCommands {
    pub clear: bool,
    pub select_all: bool,
    pub trash_sel: bool,
    pub open_one: bool,
    pub pin: bool,
    pub mark: bool,
    pub restore: bool,
}

/// The shelf commands of `keys`, with `picks` notebooks picked.
pub open spec fn shelf_commands_spec(keys: Seq<Key>, command: bool, typing: bool, picks: usize) -> ShelfCommands {
    ShelfCommands {
        clear: keys.contains(Key::Escape),
        select_all: !typing && command && keys.contains(Key::A),
        trash_sel: !typing && (keys.contains(Key::Delete) || keys.contains(Key::Backspace)),
        open_one: !typing && keys.contains(Key::Enter) && picks == 1,
        pin: !typing && !command && keys.contains(Key::P),
        mark: !typing && !command && keys.contains(Key::E),
        restore: !typing && !command && keys.contains(Key::R),
    }
}

/// Reads the keys pressed on the shelf.
pub fn shelf_commands(keys: &[Key], command: bool, typing: bool, picks: usize) -> (r: ShelfCommands)
    ensures
        r == shelf_commands_spec(keys@, command, typing, picks),
{
    ShelfCommands {
        clear: pressed_key(keys, Key::Escape),
        select_all: !typing && command && pressed_key(keys, Key::A),
        trash_sel: !typing && (pressed_key(keys, Key::Delete) || pressed_key(keys, Key::Backspace)),
        open_one: !typing && pressed_key(keys, Key::Enter) && picks == 1,
        pin: !typing && !command && pressed_key(keys, Key::P),
        mark: !typing && !command && pressed_key(keys, Key::E),
        restore: !typing && !command && pressed_key(keys, Key::R),
    }
}

/// What escape does on the page.
#[derive(Clone, Copy, Debug, PartialEq, Eq, Structural)]
pub enum DeskEscape {
    FinishText,
    ClearSelection,
    CloseDesk,
}

/// Escape on the page ends the text edit, else drops the selection, else
/// goes back to the shelf.
pub fn desk_escape(editing_text: bool, has_selection: bool) -> (r: DeskEscape)
    ensures
        r == if editing_text {
            DeskEscape::FinishText
        } else if has_selection {
            DeskEscape::ClearSelection
        } else {
            DeskEscape::CloseDesk
        },
{
    if editing_text {
        DeskEscape::FinishText
    } else if has_selection {
        DeskEscape::ClearSelection
    } else {
        DeskEscape::CloseDesk
    }
}

/// What escape does on the shelf.
#[derive(Clone, Copy, Debug, PartialEq, Eq, Structural)]
pub enum ShelfEscape {
    CloseWheel,
    ClearSelection,
    CloseBin,
    ClosePicker,
    Nothing,
}

/// Escape on the shelf closes the spine wheel, else drops the selection,
/// else closes the bin row, else closes the emoji picker.
pub fn shelf_escape(wheel_open: bool, has_selection: bool, bin_open: bool, picker_open: bool) -> (r: ShelfEscape)
    ensures
        r == if wheel_open {
            ShelfEscape::CloseWheel
        } else if has_selection {
            ShelfEscape::ClearSelection
        } else if bin_open {
            ShelfEscape::CloseBin
        } else if picker_open {
            ShelfEscape::ClosePicker
        } else {
            ShelfEscape::Nothing
        },
{
    if wheel_open {
        ShelfEscape::CloseWheel
    } else if has_selection {
        ShelfEscape::ClearSelection
    } else if bin_open {
        ShelfEscape::CloseBin
    } else if picker_open {
        ShelfEscape::ClosePicker
    } else {
        ShelfEscape::Nothing
    }
}

/// What becomes of the stroke width when the tool changes.
#[derive(Clone, Copy, Debug, PartialEq, Eq, Structural)]
pub enum WidthMove {
    /// The width stays.
    Keep,
    /// The current width is remembered as the ink's width.
    Remember,
    /// The ink's remembered width comes back.
    Restore,
    /// The current width is remembered, then the nib's default width is set.
    RememberThenDefault,
    /// The nib's default width is set, and remembered as the ink's.
    Default,
}

/// The tool in hand, the ink to come back to, and the eraser last used.
#[derive(Clone, Copy, Debug, PartialEq, Eq, Structural)]
pub struct ToolState {
    pub tool: Tool,
    pub last_ink: Tool,
    pub last_eraser: Tool,
}

/// The tool in hand remembered as the ink to come back to, when it is one.
pub open spec fn remembered(s: ToolState) -> (ToolState, WidthMove) {
    if s.tool.nib_of() is Some {
        (ToolState { last_ink: s.tool, ..s }, WidthMove::Remember)
    } else {
        (s, WidthMove::Keep)
    }
}

/// Pen ↔ eraser.
pub open spec fn toggled(s: ToolState) -> (ToolState, WidthMove) {
    if s.tool.erases() {
        (ToolState { tool: s.last_ink, ..s }, WidthMove::Restore)
    } else {
        let (r, m) = remembered(s);
        (ToolState { tool: s.last_eraser, ..r }, m)
    }
}

/// Eraser `kind` picked.
pub open spec fn eraser_picked(s: ToolState, kind: Tool) -> (ToolState, WidthMove) {
    if !kind.erases() {
        (s, WidthMove::Keep)
    } else if s.tool == kind {
        (ToolState { tool: s.last_ink, ..s }, WidthMove::Restore)
    } else {
        let (r, m) = remembered(s);
        (ToolState { tool: kind, last_eraser: kind, ..r }, m)
    }
}

/// Tool `t` taken by its key.
pub open spec fn key_picked(s: ToolState, t: Tool) -> (ToolState, WidthMove) {
    if t.nib_of() is Some {
        (ToolState { tool: t, last_ink: t, ..s }, WidthMove::Default)
    } else if t.erases() {
        let (r, m) = remembered(s);
        (ToolState { tool: t, last_eraser: t, ..r }, m)
    } else {
        (ToolState { tool: t, ..s }, WidthMove::Keep)
    }
}

impl ToolState {
    /// The ink to come back to is an ink, and the eraser last used an eraser.
    pub open spec fn wf(&self) -> bool {
        self.last_ink.nib_of() is Some && self.last_eraser.erases()
    }

    /// A felt-tip in hand; the stroke eraser is the one to come.
    pub fn new() -> (s: Self)
        ensures
            s.wf(),
            s == (ToolState { tool: Tool::Fineliner, last_ink: Tool::Fineliner, last_eraser: Tool::EraserStroke }),
    {
        ToolState { tool: Tool::Fineliner, last_ink: Tool::Fineliner, last_eraser: Tool::EraserStroke }
    }

    /// Remembers the tool in hand as the ink to come back to, when it is one.
    pub fn remember_ink(&mut self) -> (m: WidthMove)
        ensures
            (*final(self), m) == remembered(*old(self)),
            old(self).wf() ==> final(self).wf(),
    {
        if self.tool.is_ink() {
            self.last_ink = self.tool;
            WidthMove::Remember
        } else {
            WidthMove::Keep
        }
    }

    /// Pen ↔ eraser: from an eraser back to the ink (and its width), else
    /// from the tool in hand to the eraser last used.
    pub fn toggle_eraser(&mut self) -> (m: WidthMove)
        ensures
            (*final(self), m) == toggled(*old(self)),
            old(self).wf() ==> final(self).wf(),
    {
        if self.tool.is_eraser() {
            self.tool = self.last_ink;
            WidthMove::Restore
        } else {
            let m = self.remember_ink();
            self.tool = self.last_eraser;
            m
        }
    }

    /// Picks eraser `kind`; picking the eraser in hand again returns to the
    /// ink. A tool that is no eraser changes nothing.
    pub fn pick_eraser(&mut self, kind: Tool) -> (m: WidthMove)
        ensures
            (*final(self), m) == eraser_picked(*old(self), kind),
            old(self).wf() ==> final(self).wf(),
    {
        if !kind.is_eraser() {
            return WidthMove::Keep;
        }
        if self.tool == kind {
            self.tool = self.last_ink;
            WidthMove::Restore
        } else {
            let m = self.remember_ink();
            self.last_eraser = kind;
            self.tool = kind;
            m
        }
    }

    /// Takes tool `t` by its key: an ink becomes the ink to come back to
    /// (at its nib's default width), an eraser becomes the eraser to come
    /// (after the ink in hand is remembered).
    pub fn pick_by_key(&mut self, t: Tool) -> (m: WidthMove)
        ensures
            (*final(self), m) == key_picked(*old(self), t),
            old(self).wf() ==> final(self).wf(),
    {
        if t.is_ink() {
            self.last_ink = t;
            self.tool = t;
            return WidthMove::Default;
        }
        let mut m = WidthMove::Keep;
        if t.is_eraser() {
            m = self.remember_ink();
            self.last_eraser = t;
        }
        self.tool = t;
        m
    }

    /// The tool a press uses: the lasso while the stylus's lasso button is
    /// held, the eraser last used for the stylus's eraser or a secondary
    /// press, else the tool in hand.
    pub fn in_use(&self, lasso_button: bool, erasing: bool) -> (t: Tool)
        ensures
            t == if lasso_button {
                Tool::Lasso
            } else if erasing {
                self.last_eraser
            } else {
                self.tool
            },
    {
        if lasso_button {
            Tool::Lasso
        } else if erasing {
            self.last_eraser
        } else {
            self.tool
        }
    }
}

/// Ctrl+S saves, with or without shift and whatever else is going on;
/// nothing else saves. Ctrl+Z undoes and ctrl+shift+Z or ctrl+Y redoes;
/// ctrl+E exports a PNG and ctrl+shift+E a PDF.
pub proof fn law_command_keys(keys: Seq<Key>, command: bool, shift: bool, typing: bool, editing_text: bool, on_shelf: bool)
    ensures
        ({
            let c = commands_spec(keys, command, shift, typing, editing_text, on_shelf);
            &&& c.save <==> (command && keys.contains(Key::S))
            &&& c.save == commands_spec(keys, command, !shift, !typing, !editing_text, !on_shelf).save
            &&& c.undo <==> (command && !shift && keys.contains(Key::Z))
            &&& c.redo <==> (command && (keys.contains(Key::Y) || (shift && keys.contains(Key::Z))))
            &&& c.export_png <==> (command && !shift && keys.contains(Key::E))
            &&& c.export_pdf <==> (command && shift && keys.contains(Key::E))
        }),
{
}

/// The key that picks tool `t` (`p` `b` `c` `h` `l` `t` `i`), if any.
pub open spec fn tool_key(t: Tool) -> Option<Key> {
    match t {
        Tool::Fineliner => Some(Key::P),
        Tool::Brush => Some(Key::B),
        Tool::Pencil => Some(Key::C),
        Tool::Highlighter => Some(Key::H),
        Tool::Lasso => Some(Key::L),
        Tool::Text => Some(Key::T),
        Tool::Image => Some(Key::I),
        _ => None,
    }
}

/// `keys` holds the key of tool `t` and the key of no other tool.
pub open spec fn only_tool_key(keys: Seq<Key>, t: Tool) -> bool {
    &&& tool_key(t) matches Some(k) && keys.contains(k)
    &&& forall|u: Tool| u != t ==> (#[trigger] tool_key(u) matches Some(k2) ==> !keys.contains(k2))
}

/// A plain press (no ctrl, no text being edited) of one tool's key picks
/// that tool; no tool is picked without a tool key or with ctrl held or a
/// text box being edited. `e` picks the stroke eraser and shift+`e` the
/// area eraser, `m` cycles the paper, and `]` and `[` step the width up
/// and down.
pub proof fn law_plain_keys(keys: Seq<Key>, command: bool, shift: bool, typing: bool, editing_text: bool, on_shelf: bool)
    ensures
        ({
            let c = commands_spec(keys, command, shift, typing, editing_text, on_shelf);
            let plain = !command && !editing_text;
            &&& forall|t: Tool| plain && #[trigger] only_tool_key(keys, t) ==> c.tool == Some(t)
            &&& (c.tool matches Some(t) ==> (plain && (tool_key(t) matches Some(k) && keys.contains(k))))
            &&& c.erase_pick == if plain && keys.contains(Key::E) {
                Some(if shift { Tool::EraserArea } else { Tool::EraserStroke })
            } else {
                None::<Tool>
            }
            &&& c.cycle_paper <==> (plain && keys.contains(Key::M))
            &&& (keys.contains(Key::CloseBracket) ==> c.width_step == 1)
            &&& (!keys.contains(Key::CloseBracket) && keys.contains(Key::OpenBracket) ==> c.width_step == -1)
            &&& (!keys.contains(Key::CloseBracket) && !keys.contains(Key::OpenBracket) ==> c.width_step == 0)
        }),
{
    let c = commands_spec(keys, command, shift, typing, editing_text, on_shelf);
    let plain = !command && !editing_text;
    assert forall|t: Tool| plain && #[trigger] only_tool_key(keys, t) implies c.tool == Some(t) by {
        assert(tool_key(Tool::Fineliner) == Some(Key::P));
        assert(tool_key(Tool::Brush) == Some(Key::B));
        assert(tool_key(Tool::Pencil) == Some(Key::C));
        assert(tool_key(Tool::Highlighter) == Some(Key::H));
        assert(tool_key(Tool::Lasso) == Some(Key::L));
        assert(tool_key(Tool::Text) == Some(Key::T));
        assert(tool_key(Tool::Image) == Some(Key::I));
    }
}

/// On the shelf, `p` pins, `e` marks and `r` restores the picked
/// notebooks, Delete or Backspace throws them in the bin, Enter opens the
/// one picked, and Escape clears the picks; only Escape and ctrl+A act
/// while typing in the search field, and ctrl turns `p`, `e` and `r` off.
pub proof fn law_shelf_keys(keys: Seq<Key>, command: bool, typing: bool, picks: usize)
    ensures
        ({
            let c = shelf_commands_spec(keys, command, typing, picks);
            &&& c.clear <==> keys.contains(Key::Escape)
            &&& c.pin <==> (!typing && !command && keys.contains(Key::P))
            &&& c.mark <==> (!typing && !command && keys.contains(Key::E))
            &&& c.restore <==> (!typing && !command && keys.contains(Key::R))
            &&& c.trash_sel <==> (!typing && (keys.contains(Key::Delete) || keys.contains(Key::Backspace)))
            &&& c.open_one <==> (!typing && keys.contains(Key::Enter) && picks == 1)
            &&& c.select_all <==> (!typing && command && keys.contains(Key::A))
        }),
{
}

/// Picking the same eraser twice, starting from an ink, puts that ink back
/// in hand, and its width with it.
pub proof fn law_eraser_twice_returns_to_ink(s: ToolState, kind: Tool)
    requires
        s.tool.nib_of() is Some,
        kind.erases(),
    ensures
        eraser_picked(eraser_picked(s, kind).0, kind) == (
            ToolState { last_ink: s.tool, last_eraser: kind, ..s },
            WidthMove::Restore,
        ),
{
}

/// Toggling pen ↔ eraser twice, starting from an ink, puts that ink back
/// in hand, and its width with it.
pub proof fn law_toggle_twice_returns_to_ink(s: ToolState)
    requires
        s.wf(),
        s.tool.nib_of() is Some,
    ensures
        toggled(toggled(s).0) == (ToolState { last_ink: s.tool, ..s }, WidthMove::Restore),
{
}

} // verus!
