use wlr_which_key::entry::{Entry, TextExtent};
use wlr_which_key::key::{Key, ModifierState, SingleKey};
use wlr_which_key::menu::{Action, Menu, MenuConfig};

fn mods(ctrl: bool, alt: bool, mod4: bool) -> ModifierState {
    ModifierState { mod_ctrl: ctrl, mod_alt: alt, mod_mod4: mod4 }
}

fn chord(c: char, m: ModifierState) -> SingleKey {
    SingleKey { keysym: c as u32, repr: c.to_string(), modifiers: m }
}

fn ext(w: u64, h: u64) -> TextExtent {
    TextExtent { width: w, height: h }
}

fn cmd_with(k: Key, run: &str) -> Entry {
    Entry::Cmd {
        key: k,
        key_ext: ext(4, 4),
        cmd: String::from(run),
        desc: String::from(run),
        desc_ext: ext(4, 4),
        keep_open: false,
    }
}

fn cmd(c: char, run: &str) -> Entry {
    cmd_with(Key::from_single(chord(c, mods(false, false, false))), run)
}

fn cfg() -> MenuConfig {
    MenuConfig {
        border_width: 1,
        corner_r: 1,
        padding: None,
        column_padding: None,
        rows_per_column: Some(2),
        separator: String::from(">"),
        separator_ext: ext(1, 1),
    }
}

fn sample_menu() -> Menu {
    let sub = vec![cmd('x', "run-x")];
    let entries = vec![
        cmd('a', "run-a"),
        cmd_with(Key::from_single(chord('b', mods(true, false, false))), "run-ctrl-b"),
        Entry::Recursive {
            key: Key::from_single(chord('s', mods(false, false, false))),
            key_ext: ext(4, 4),
            submenu: sub,
            desc: String::from("Sub"),
            desc_ext: ext(4, 4),
        },
    ];
    Menu::new(&entries, &cfg()).unwrap()
}

#[test]
fn item_chord_resolves_to_its_action() {
    let m = sample_menu();
    match m.get_action(mods(false, false, false), 0x61) {
        Some(Action::Exec { cmd, keep_open }) => {
            assert_eq!(cmd, "run-a");
            assert!(!keep_open);
        },
        _ => panic!("expected the command of item a"),
    }
    match m.get_action(mods(true, false, false), 0x62) {
        Some(Action::Exec { cmd, .. }) => assert_eq!(cmd, "run-ctrl-b"),
        _ => panic!("expected the command of item ctrl+b"),
    }
    assert!(matches!(
        m.get_action(mods(false, false, false), 0x73),
        Some(Action::Submenu(1))
    ));
}

#[test]
fn modifiers_must_match_exactly() {
    let m = sample_menu();
    // `b` without ctrl matches nothing, and is no fallback either.
    assert!(m.get_action(mods(false, false, false), 0x62).is_none());
    // `a` with ctrl held matches nothing.
    assert!(m.get_action(mods(true, false, false), 0x61).is_none());
}

#[test]
fn unbound_chord_resolves_to_nothing() {
    let m = sample_menu();
    assert!(m.get_action(mods(false, false, false), 0x71).is_none());
    assert!(m.get_action(mods(false, true, true), 0x61).is_none());
}

#[test]
fn escape_quits_on_every_page() {
    let mut m = sample_menu();
    assert!(matches!(
        m.get_action(mods(false, false, false), 0xff1b),
        Some(Action::Quit)
    ));
    // Even with modifiers held, and also down in a sub-level.
    assert!(matches!(
        m.get_action(mods(true, true, true), 0xff1b),
        Some(Action::Quit)
    ));
    m.set_page(1);
    assert!(matches!(
        m.get_action(mods(false, false, false), 0xff1b),
        Some(Action::Quit)
    ));
}

#[test]
fn ctrl_bracket_and_ctrl_g_quit() {
    let m = sample_menu();
    assert!(matches!(
        m.get_action(mods(true, false, false), 0x5b),
        Some(Action::Quit)
    ));
    assert!(matches!(
        m.get_action(mods(true, false, false), 0x67),
        Some(Action::Quit)
    ));
    // Without ctrl neither is a fallback.
    assert!(m.get_action(mods(false, false, false), 0x5b).is_none());
    assert!(m.get_action(mods(false, false, false), 0x67).is_none());
}

#[test]
fn backspace_goes_up_only_when_a_parent_exists() {
    let mut m = sample_menu();
    assert!(m.get_action(mods(false, false, false), 0xff08).is_none());
    m.set_page(1);
    assert!(matches!(
        m.get_action(mods(false, false, false), 0xff08),
        Some(Action::Submenu(0))
    ));
}

#[test]
fn first_match_wins_on_duplicate_bindings() {
    let entries = vec![cmd('a', "first"), cmd('a', "second")];
    let m = Menu::new(&entries, &cfg()).unwrap();
    match m.get_action(mods(false, false, false), 0x61) {
        Some(Action::Exec { cmd, .. }) => assert_eq!(cmd, "first"),
        _ => panic!("expected the first item's command"),
    }
}

#[test]
fn item_binding_beats_fallback() {
    // A page may bind escape itself; the item then wins over the fallback.
    let entries = vec![cmd_with(
        Key::from_single(SingleKey {
            keysym: 0xff1b,
            repr: String::from("Escape"),
            modifiers: mods(false, false, false),
        }),
        "custom-escape",
    )];
    let m = Menu::new(&entries, &cfg()).unwrap();
    match m.get_action(mods(false, false, false), 0xff1b) {
        Some(Action::Exec { cmd, .. }) => assert_eq!(cmd, "custom-escape"),
        _ => panic!("expected the item to win"),
    }
}

#[test]
fn layout_fallback_finds_match_under_later_layout() {
    let entries = vec![cmd('y', "run-y")];
    let m = Menu::new(&entries, &cfg()).unwrap();
    // The active layout delivers other symbols first; the authored symbol
    // only appears under the third candidate.
    let syms = vec![0x7a_u32, 0x78_u32, 0x79_u32];
    match m.get_action_any_layout(mods(false, false, false), &syms) {
        Some(Action::Exec { cmd, .. }) => assert_eq!(cmd, "run-y"),
        _ => panic!("expected the match under the third layout"),
    }
}

#[test]
fn layout_fallback_misses_when_no_candidate_matches() {
    let entries = vec![cmd('y', "run-y")];
    let m = Menu::new(&entries, &cfg()).unwrap();
    assert!(m
        .get_action_any_layout(mods(false, false, false), &vec![0x7a_u32, 0x78_u32])
        .is_none());
    assert!(m.get_action_any_layout(mods(false, false, false), &Vec::new()).is_none());
}

#[test]
fn layout_fallback_still_applies_fallback_keys() {
    let entries = vec![cmd('y', "run-y")];
    let m = Menu::new(&entries, &cfg()).unwrap();
    // The first candidate that resolves anything wins, including a
    // built-in fallback resolution.
    assert!(matches!(
        m.get_action_any_layout(mods(false, false, false), &vec![0xff1b_u32, 0x79_u32]),
        Some(Action::Quit)
    ));
}
