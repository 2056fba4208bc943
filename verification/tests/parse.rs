use wlr_which_key::errors::ConfigError;
use wlr_which_key::key::{Key, ModifierState, NameTable, SingleKey};

fn no_names() -> NameTable {
    NameTable::new()
}

fn std_names() -> NameTable {
    let mut t = NameTable::new();
    t.add(String::from("Escape"), 0xff1b);
    t.add(String::from("BackSpace"), 0xff08);
    t.add(String::from("Return"), 0xff0d);
    t.add(String::from("F1"), 0xffbe);
    t.add(String::from("space"), 0x20);
    t
}

#[test]
fn parse_single_letter() {
    let k = SingleKey::parse("p", &no_names()).unwrap();
    assert_eq!(k.keysym, 0x70);
    assert_eq!(k.repr, "p");
    assert!(!k.modifiers.mod_ctrl && !k.modifiers.mod_alt && !k.modifiers.mod_mod4);
}

#[test]
fn parse_plus_token_is_plus_key() {
    let k = SingleKey::parse("+", &no_names()).unwrap();
    assert_eq!(k.keysym, 0x2b);
    assert_eq!(k.repr, "+");
    assert!(!k.modifiers.mod_ctrl && !k.modifiers.mod_alt && !k.modifiers.mod_mod4);
}

#[test]
fn parse_with_modifiers() {
    let k = SingleKey::parse("ctrl+alt+p", &no_names()).unwrap();
    assert_eq!(k.keysym, 0x70);
    assert_eq!(k.repr, "ctrl+alt+p");
    assert!(k.modifiers.mod_ctrl);
    assert!(k.modifiers.mod_alt);
    assert!(!k.modifiers.mod_mod4);
}

#[test]
fn parse_modifier_names_ignore_ascii_case() {
    let k = SingleKey::parse("CTRL+X", &no_names()).unwrap();
    assert!(k.modifiers.mod_ctrl);
    assert_eq!(k.keysym, 0x58);
}

#[test]
fn parse_logo_and_mod4_both_set_mod4() {
    let a = SingleKey::parse("logo+x", &no_names()).unwrap();
    let b = SingleKey::parse("mod4+x", &no_names()).unwrap();
    assert!(a.modifiers.mod_mod4);
    assert!(b.modifiers.mod_mod4);
}

#[test]
fn parse_latin1_letter_maps_to_itself() {
    let k = SingleKey::parse("\u{e9}", &no_names()).unwrap();
    assert_eq!(k.keysym, 0xe9);
}

#[test]
fn parse_cyrillic_letter_maps_to_legacy_keysym() {
    // The code point is 0x044e; the keysym table maps it elsewhere, so an
    // identity mapping would fail here.
    let k = SingleKey::parse("\u{44e}", &no_names()).unwrap();
    assert_eq!(k.keysym, 0x06c0);
}

#[test]
fn parse_escape_control_char_maps_to_escape_keysym() {
    let k = SingleKey::parse("\u{1b}", &no_names()).unwrap();
    assert_eq!(k.keysym, 0xff1b);
}

#[test]
fn parse_noncharacter_is_invalid() {
    let e = SingleKey::parse("\u{fdd0}", &no_names()).unwrap_err();
    match e {
        ConfigError::InvalidKey(t) => assert_eq!(t, "\u{fdd0}"),
        _ => panic!("expected InvalidKey"),
    }
}

#[test]
fn parse_name_through_table() {
    let k = SingleKey::parse("F1", &std_names()).unwrap();
    assert_eq!(k.keysym, 0xffbe);
    let k2 = SingleKey::parse("ctrl+Return", &std_names()).unwrap();
    assert_eq!(k2.keysym, 0xff0d);
    assert!(k2.modifiers.mod_ctrl);
}

#[test]
fn parse_unknown_name_is_invalid_key() {
    let e = SingleKey::parse("Banana", &std_names()).unwrap_err();
    match e {
        ConfigError::InvalidKey(t) => assert_eq!(t, "Banana"),
        _ => panic!("expected InvalidKey"),
    }
}

#[test]
fn parse_unknown_modifier() {
    let e = SingleKey::parse("foo+p", &no_names()).unwrap_err();
    match e {
        ConfigError::UnknownModifier(t) => assert_eq!(t, "foo"),
        _ => panic!("expected UnknownModifier"),
    }
}

#[test]
fn parse_bad_base_wins_over_bad_modifier() {
    let e = SingleKey::parse("foo+Banana", &std_names()).unwrap_err();
    match e {
        ConfigError::InvalidKey(t) => assert_eq!(t, "Banana"),
        _ => panic!("expected InvalidKey"),
    }
}

#[test]
fn parse_trailing_plus_has_empty_base() {
    let e = SingleKey::parse("ctrl+", &no_names()).unwrap_err();
    match e {
        ConfigError::InvalidKey(t) => assert_eq!(t, ""),
        _ => panic!("expected InvalidKey"),
    }
}

#[test]
fn name_table_first_match_wins() {
    let mut t = NameTable::new();
    t.add(String::from("Zed"), 1);
    t.add(String::from("Zed"), 2);
    assert_eq!(t.lookup("Zed"), Some(1));
    assert_eq!(t.lookup("zed"), None);
}

#[test]
fn key_matches_any_alternative_exactly() {
    let ctrl = ModifierState { mod_ctrl: true, mod_alt: false, mod_mod4: false };
    let plain = ModifierState { mod_ctrl: false, mod_alt: false, mod_mod4: false };
    let a = SingleKey::parse("a", &no_names()).unwrap();
    let b = SingleKey::parse("ctrl+b", &no_names()).unwrap();
    let mut key = Key::from_single(a);
    key.any_of.push(b);
    assert!(key.matches(0x61, plain));
    assert!(key.matches(0x62, ctrl));
    assert!(!key.matches(0x62, plain));
    assert!(!key.matches(0x61, ctrl));
    assert!(!key.matches(0x63, plain));
}

#[test]
fn key_display_text_joins_with_separator() {
    let a = SingleKey::parse("a", &no_names()).unwrap();
    let b = SingleKey::parse("ctrl+b", &no_names()).unwrap();
    let mut key = Key::from_single(a);
    key.any_of.push(b);
    assert_eq!(key.display_text(), "a | ctrl+b");
    let lone = Key::from_single(SingleKey::parse("q", &no_names()).unwrap());
    assert_eq!(lone.display_text(), "q");
}

#[test]
fn modifier_state_default_is_empty() {
    let m = ModifierState::default();
    assert!(!m.mod_ctrl && !m.mod_alt && !m.mod_mod4);
}
