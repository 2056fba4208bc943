use wlr_which_key::entry::{Entry, TextExtent};
use wlr_which_key::errors::SequenceError;
use wlr_which_key::key::{Key, ModifierState, NameTable, SingleKey};
use wlr_which_key::menu::{Action, Menu, MenuConfig};

fn plain(c: char) -> Key {
    Key::from_single(SingleKey {
        keysym: c as u32,
        repr: c.to_string(),
        modifiers: ModifierState { mod_ctrl: false, mod_alt: false, mod_mod4: false },
    })
}

fn ext(w: u64, h: u64) -> TextExtent {
    TextExtent { width: w, height: h }
}

fn cmd(c: char, run: &str) -> Entry {
    Entry::Cmd {
        key: plain(c),
        key_ext: ext(4, 4),
        cmd: String::from(run),
        desc: String::from(run),
        desc_ext: ext(4, 4),
        keep_open: false,
    }
}

fn rec(c: char, submenu: Vec<Entry>, desc: &str) -> Entry {
    Entry::Recursive {
        key: plain(c),
        key_ext: ext(4, 4),
        submenu,
        desc: String::from(desc),
        desc_ext: ext(4, 4),
    }
}

fn cfg() -> MenuConfig {
    MenuConfig {
        border_width: 1,
        corner_r: 1,
        padding: None,
        column_padding: None,
        rows_per_column: None,
        separator: String::from(">"),
        separator_ext: ext(1, 1),
    }
}

fn nested_menu() -> Menu {
    // root: p -> [ s (command), t -> [ u (command) ] ]
    let deep = vec![cmd('u', "run-u")];
    let sub = vec![cmd('s', "run-s"), rec('t', deep, "Deeper")];
    let entries = vec![rec('p', sub, "Sub"), cmd('q', "run-q")];
    Menu::new(&entries, &cfg()).unwrap()
}

#[test]
fn navigate_to_leaf_returns_its_action() {
    let mut m = nested_menu();
    let r = m.navigate_to_key_sequence("p s", &NameTable::new()).unwrap();
    match r {
        Some(Action::Exec { cmd, .. }) => assert_eq!(cmd, "run-s"),
        _ => panic!("expected the leaf's command"),
    }
    // The walk entered the sub-level before firing.
    assert_eq!(m.cur_page, 1);
}

#[test]
fn navigate_to_submenu_returns_nothing_and_stays_there() {
    let mut m = nested_menu();
    let r = m.navigate_to_key_sequence("p t", &NameTable::new()).unwrap();
    assert!(r.is_none());
    assert_eq!(m.cur_page, 2);
}

#[test]
fn navigate_empty_sequence_is_a_no_op() {
    let mut m = nested_menu();
    let r = m.navigate_to_key_sequence("   ", &NameTable::new()).unwrap();
    assert!(r.is_none());
    assert_eq!(m.cur_page, 0);
}

#[test]
fn navigate_fails_on_trailing_tokens_after_terminal_action() {
    let mut m = nested_menu();
    let e = m.navigate_to_key_sequence("p s extra", &NameTable::new()).unwrap_err();
    match e {
        SequenceError::InvalidSequence(t) => assert_eq!(t, "s"),
        _ => panic!("expected InvalidSequence naming the firing token"),
    }
}

#[test]
fn navigate_fails_on_unmatched_token() {
    let mut m = nested_menu();
    let e = m.navigate_to_key_sequence("p z", &NameTable::new()).unwrap_err();
    match e {
        SequenceError::InvalidSequence(t) => assert_eq!(t, "z"),
        _ => panic!("expected InvalidSequence naming the unmatched token"),
    }
    // The pages entered before the failure stay entered.
    assert_eq!(m.cur_page, 1);
}

#[test]
fn navigate_fails_on_unparsable_token() {
    let mut m = nested_menu();
    let e = m.navigate_to_key_sequence("p NoSuchKey", &NameTable::new()).unwrap_err();
    match e {
        SequenceError::InvalidKey(t) => assert_eq!(t, "NoSuchKey"),
        _ => panic!("expected InvalidKey"),
    }
    let e2 = m.navigate_to_key_sequence("foo+u", &NameTable::new()).unwrap_err();
    match e2 {
        SequenceError::UnknownModifier(t) => assert_eq!(t, "foo"),
        _ => panic!("expected UnknownModifier"),
    }
}

#[test]
fn navigate_ignores_builtin_fallbacks() {
    // Escape resolves through the fallbacks in interactive resolution, but
    // an initial sequence uses the matching step only.
    let mut m = nested_menu();
    let e = m.navigate_to_key_sequence("Escape", &{
        let mut t = NameTable::new();
        t.add(String::from("Escape"), 0xff1b);
        t
    });
    match e.unwrap_err() {
        SequenceError::InvalidSequence(t) => assert_eq!(t, "Escape"),
        _ => panic!("expected InvalidSequence"),
    }
}
