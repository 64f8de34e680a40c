use cahier::controls::{
    commands, desk_escape, shelf_commands, shelf_escape, DeskEscape, Key, ShelfEscape, ToolState, WidthMove,
};
use cahier::document::Moment;
use cahier::export::{rgb_from_rgba, MediaLoader};
use cahier::ink::{premultiply, same_rgb, Nib, Rgba, Tool};
use cahier::look::{current_dir, hex_parse_ok, parse_hex, pretty_name, slugify, ThemeStamp};
use cahier::pressure::Pressure;
use cahier::tablet::{seats_to_bind, wants_repaint, PenEffect, PenEvent, PenState};
use cahier::undo::UndoStack;

#[test]
fn tools_and_nibs() {
    assert_eq!(Tool::Brush.nib(), Some(Nib::Brush));
    assert_eq!(Tool::Lasso.nib(), None);
    assert!(Tool::Pencil.is_ink());
    assert!(!Tool::EraserArea.is_ink());
    assert!(Tool::EraserArea.is_eraser());
    assert!(!Tool::Text.is_eraser());
    assert_eq!(Tool::Fineliner.label(), "Pen");
    assert_eq!(Tool::EraserStroke.label(), "stroke");
}

#[test]
fn premultiplied_colour() {
    assert_eq!(premultiply(Rgba { r: 255, g: 128, b: 10, a: 128 }), Rgba { r: 128, g: 64, b: 5, a: 128 });
    assert_eq!(premultiply(Rgba::rgb(1, 2, 3)), Rgba::rgb(1, 2, 3));
    assert_eq!(premultiply(Rgba { r: 200, g: 200, b: 200, a: 0 }), Rgba { r: 0, g: 0, b: 0, a: 0 });
}

#[test]
fn hex_colours() {
    assert_eq!(parse_hex("#1a1b26"), Some(Rgba::rgb(0x1a, 0x1b, 0x26)));
    assert_eq!(parse_hex("  ##7AA2F7ff "), Some(Rgba::rgb(0x7a, 0xa2, 0xf7)));
    assert_eq!(parse_hex("+f+f+f"), Some(Rgba::rgb(15, 15, 15)));
    assert_eq!(parse_hex("#12345"), None);
    assert_eq!(parse_hex("zz0000"), None);
    assert!(hex_parse_ok("#abcdef"));
    assert!(hex_parse_ok("é12345"));
    assert_eq!(parse_hex("é12345"), None);
    assert!(!hex_parse_ok("aé2345"));
}

#[test]
fn theme_names() {
    assert_eq!(slugify("  Tokyo Night "), "tokyo-night");
    assert_eq!(slugify("Catppuccin Latte"), "catppuccin-latte");
    assert_eq!(pretty_name("tokyo-night"), "Tokyo Night");
    assert_eq!(pretty_name("--rose--pine-"), "Rose Pine");
    assert_eq!(pretty_name("ßaxa"), "SSaxa");
    assert_eq!(pretty_name(""), "");
}

#[test]
fn theme_directory() {
    assert_eq!(current_dir(Some("/x/state"), Some("/home/a")), "/x/state/omarchy/current/theme");
    assert_eq!(current_dir(Some("/x/state/"), None), "/x/state/omarchy/current/theme");
    assert_eq!(current_dir(None, Some("/home/a")), "/home/a/.local/state/omarchy/current/theme");
    assert_eq!(current_dir(None, None), "./.local/state/omarchy/current/theme");
    assert_eq!(current_dir(Some(""), None), "omarchy/current/theme");
}

#[test]
fn theme_stamp_drift() {
    let t = Moment { secs: 5, nanos: 1 };
    let s = ThemeStamp { slug: "nord".to_string(), colors_mtime: Some(t), font_file: None };
    assert!(!s.drifted("nord", Some(t)));
    assert!(s.drifted("nord", None));
    assert!(s.drifted("norde", Some(t)));
    assert!(s.drifted("nord", Some(Moment { secs: 5, nanos: 2 })));
}

#[test]
fn keys_to_commands() {
    let c = commands(&[Key::Z], true, false, false, false, false);
    assert!(c.undo && !c.redo);
    let c = commands(&[Key::Z], true, true, false, false, false);
    assert!(c.redo && !c.undo);
    let c = commands(&[Key::E], true, true, false, false, false);
    assert!(c.export_pdf && !c.export_png && c.erase_pick.is_none());
    let c = commands(&[Key::E], false, true, false, false, false);
    assert_eq!(c.erase_pick, Some(Tool::EraserArea));
    let c = commands(&[Key::P, Key::H, Key::Num2, Key::Num7], false, false, false, false, false);
    assert_eq!(c.tool, Some(Tool::Highlighter));
    assert_eq!(c.color, Some(6));
    let c = commands(&[Key::P], false, false, false, true, false);
    assert_eq!(c.tool, None);
    let c = commands(&[Key::OpenBracket, Key::CloseBracket], false, false, false, false, false);
    assert_eq!(c.width_step, 1);
    let c = commands(&[Key::N, Key::Slash], false, false, false, false, true);
    assert!(c.new_note && c.toggle_fiche);
    let c = commands(&[Key::N], false, false, true, false, true);
    assert!(!c.new_note);
    let c = commands(&[Key::Num0, Key::Plus], false, false, true, false, false);
    assert!(!c.fit && !c.zoom_in);
    let c = commands(&[Key::Backspace], false, false, false, true, false);
    assert!(!c.delete_sel);
}

#[test]
fn shelf_keys_and_escape() {
    let c = shelf_commands(&[Key::Enter, Key::A], true, false, 1);
    assert!(c.open_one && c.select_all && !c.pin);
    let c = shelf_commands(&[Key::Enter], false, false, 2);
    assert!(!c.open_one);
    let c = shelf_commands(&[Key::P, Key::R, Key::E], false, true, 0);
    assert!(!c.pin && !c.restore && !c.mark);
    assert_eq!(desk_escape(true, true), DeskEscape::FinishText);
    assert_eq!(desk_escape(false, true), DeskEscape::ClearSelection);
    assert_eq!(desk_escape(false, false), DeskEscape::CloseDesk);
    assert_eq!(shelf_escape(false, false, true, true), ShelfEscape::CloseBin);
    assert_eq!(shelf_escape(false, false, false, false), ShelfEscape::Nothing);
}

#[test]
fn eraser_toggles_back_to_the_ink() {
    let mut s = ToolState::new();
    s.pick_by_key(Tool::Brush);
    assert_eq!(s.pick_eraser(Tool::EraserArea), WidthMove::Remember);
    assert_eq!(s.tool, Tool::EraserArea);
    assert_eq!(s.pick_eraser(Tool::EraserArea), WidthMove::Restore);
    assert_eq!(s.tool, Tool::Brush);
    assert_eq!(s.toggle_eraser(), WidthMove::Remember);
    assert_eq!(s.tool, Tool::EraserArea);
    assert_eq!(s.toggle_eraser(), WidthMove::Restore);
    assert_eq!(s.tool, Tool::Brush);
    assert_eq!(s.pick_eraser(Tool::Lasso), WidthMove::Keep);
    assert_eq!(s.in_use(true, true), Tool::Lasso);
    assert_eq!(s.in_use(false, true), Tool::EraserArea);
    assert_eq!(s.pick_by_key(Tool::Text), WidthMove::Keep);
    assert_eq!(s.last_ink, Tool::Brush);
}

#[test]
fn pen_events() {
    let mut p = PenState::default();
    assert_eq!(p.event(PenEvent::ProximityIn), PenEffect::Nothing);
    p.event(PenEvent::Down);
    assert_eq!(p.event(PenEvent::Motion), PenEffect::Move { sample: true });
    assert_eq!(p.event(PenEvent::Pressure { raw: 1310 }), PenEffect::Nothing);
    assert_eq!(p.event(PenEvent::Pressure { raw: 1311 }), PenEffect::TakePressure);
    p.event(PenEvent::Button { button: 0x14b, pressed: true });
    assert!(p.erasing());
    assert_eq!(p.event(PenEvent::ProximityOut), PenEffect::ClearPressure);
    assert!(!p.down && p.released && p.pressed && !p.in_proximity && !p.erasing());
    p.new_frame();
    assert!(!p.pressed && !p.released);
    assert_eq!(p.event(PenEvent::Removed), PenEffect::Destroy);
    assert!(wants_repaint(false, false, false, false, true));
    assert!(!wants_repaint(true, false, true, true, false));
    assert!(!wants_repaint(false, true, false, false, true));
    let mut bound: std::collections::HashSet<u32> = [3].into_iter().collect();
    assert_eq!(seats_to_bind(&[3, 4, 4, 5], &mut bound), vec![4, 5]);
    assert_eq!(bound, [3, 4, 5].into_iter().collect());
    assert!(seats_to_bind(&[5, 3], &mut bound).is_empty());
}

#[test]
fn undo_redo_roundtrip() {
    let mut u: UndoStack<i32> = UndoStack::new();
    let mut cur = 3;
    assert!(!u.undo(&mut cur));
    u.push(1);
    u.push(2);
    assert!(u.undo(&mut cur));
    assert_eq!(cur, 2);
    assert!(u.undo(&mut cur));
    assert_eq!(cur, 1);
    assert!(!u.undo(&mut cur));
    assert!(u.redo(&mut cur));
    assert_eq!(cur, 2);
    assert!(u.redo(&mut cur));
    assert_eq!(cur, 3);
    assert!(!u.redo(&mut cur));
    u.push(9);
    assert!(!u.redo(&mut cur));
    u.clear();
    assert!(!u.undo(&mut cur));
}

#[test]
fn undo_keeps_sixty_snapshots() {
    let mut u: UndoStack<i32> = UndoStack::default();
    for i in 0..70 {
        u.push(i);
    }
    let mut cur = 100;
    let mut n = 0;
    while u.undo(&mut cur) {
        n += 1;
    }
    assert_eq!(n, 60);
    assert_eq!(cur, 10);
}

#[test]
fn rgb_drops_alpha() {
    assert_eq!(rgb_from_rgba(&[1, 2, 3, 4, 5, 6, 7, 8, 9]), vec![1, 2, 3, 5, 6, 7]);
    assert!(rgb_from_rgba(&[1, 2]).is_empty());
    let m = MediaLoader { root: "/tmp".to_string() };
    assert_eq!(m.root, "/tmp");
}

#[test]
fn pressure_cell_is_shared() {
    let p = Pressure::start();
    assert_eq!(p.latest_bits(), 0);
    let q = p.clone();
    q.store_bits(0x3f00_0000);
    assert_eq!(p.latest_bits(), 0x3f00_0000);
}

#[test]
fn inks_within_eight_read_as_the_same() {
    assert!(same_rgb(Rgba::rgb(10, 20, 30), Rgba::rgb(17, 13, 30)));
    assert!(!same_rgb(Rgba::rgb(10, 20, 30), Rgba::rgb(18, 20, 30)));
    assert!(!same_rgb(Rgba::rgb(10, 20, 30), Rgba::rgb(10, 20, 38)));
    assert!(same_rgb(Rgba { r: 1, g: 2, b: 3, a: 0 }, Rgba::rgb(1, 2, 3)));
}
