use wlr_which_key::entry::{Entry, TextExtent};
use wlr_which_key::key::{Key, ModifierState, SingleKey};
use wlr_which_key::menu::{Menu, MenuConfig};

fn plain(c: char) -> Key {
    Key::from_single(SingleKey {
        keysym: c as u32,
        repr: c.to_string(),
        modifiers: ModifierState { mod_ctrl: false, mod_alt: false, mod_mod4: false },
    })
}

fn ext(w: u64, h: u64) -> TextExtent {
    TextExtent { width: w, height: h }
}

fn cmd(c: char, kw: u64, kh: u64, dw: u64, dh: u64) -> Entry {
    Entry::Cmd {
        key: plain(c),
        key_ext: ext(kw, kh),
        cmd: String::from("run"),
        desc: String::from("desc"),
        desc_ext: ext(dw, dh),
        keep_open: false,
    }
}

#[test]
fn width_sums_columns_gaps_and_edges() {
    let entries = vec![
        cmd('a', 10, 4, 30, 4),
        cmd('b', 12, 4, 25, 4),
        cmd('c', 7, 4, 9, 4),
    ];
    let cfg = MenuConfig {
        border_width: 2,
        corner_r: 10,
        padding: Some(5),
        column_padding: Some(3),
        rows_per_column: Some(2),
        separator: String::from(">"),
        separator_ext: ext(4, 6),
    };
    let m = Menu::new(&entries, &cfg).unwrap();
    // Columns: [a, b] and [c]; widths 12+30 and 7+9, plus a separator each.
    // 12+30+4 + 7+9+4 + 1*3 + 2*(5+2) == 83
    assert_eq!(m.width(&cfg), 83);
    // Height: rows 2, item height max(6, 4) == 6: 6*2 + 2*(5+2) == 26
    assert_eq!(m.height(&cfg), 26);
}

#[test]
fn padding_defaults_to_corner_radius_and_column_padding_to_padding() {
    let entries = vec![cmd('a', 10, 4, 30, 4), cmd('b', 12, 4, 25, 4)];
    let cfg = MenuConfig {
        border_width: 2,
        corner_r: 10,
        padding: None,
        column_padding: None,
        rows_per_column: Some(1),
        separator: String::from(">"),
        separator_ext: ext(4, 6),
    };
    let m = Menu::new(&entries, &cfg).unwrap();
    // Columns: [a], [b]: 10+30+4 + 12+25+4 + 1*10 + 2*(10+2) == 119
    assert_eq!(m.width(&cfg), 119);
    // Height: one row, item height 6: 6*1 + 2*(10+2) == 30
    assert_eq!(m.height(&cfg), 30);
}

#[test]
fn width_saturates_instead_of_overflowing() {
    let entries = vec![cmd('a', u64::MAX, 4, u64::MAX, 4)];
    let cfg = MenuConfig {
        border_width: 2,
        corner_r: 10,
        padding: Some(5),
        column_padding: Some(3),
        rows_per_column: None,
        separator: String::from(">"),
        separator_ext: ext(4, 6),
    };
    let m = Menu::new(&entries, &cfg).unwrap();
    assert_eq!(m.width(&cfg), u64::MAX);
}

#[test]
fn render_emits_three_commands_per_item_in_order() {
    let entries = vec![cmd('a', 10, 4, 30, 4), cmd('b', 12, 4, 25, 4)];
    let cfg = MenuConfig {
        border_width: 2,
        corner_r: 10,
        padding: Some(5),
        column_padding: Some(3),
        rows_per_column: None,
        separator: String::from(" > "),
        separator_ext: ext(4, 6),
    };
    let m = Menu::new(&entries, &cfg).unwrap();
    let cmds = m.render(&cfg);
    assert_eq!(cmds.len(), 6);
    // Edge inset is padding + border == 7; key column width is 12.
    // Item a: key right-aligned at 7 + (12 - 10) == 9.
    assert_eq!(cmds[0].text, "a");
    assert_eq!(cmds[0].x, 9);
    assert_eq!(cmds[0].y, 7);
    assert_eq!(cmds[0].box_height, 6);
    assert_eq!(cmds[1].text, " > ");
    assert_eq!(cmds[1].x, 7 + 12);
    assert_eq!(cmds[2].text, "desc");
    assert_eq!(cmds[2].x, 7 + 12 + 4);
    // Item b sits one row further down: y == 7 + 6.
    assert_eq!(cmds[3].text, "b");
    assert_eq!(cmds[3].x, 7);
    assert_eq!(cmds[3].y, 13);
    assert_eq!(cmds[4].x, 7 + 12);
    assert_eq!(cmds[5].x, 7 + 12 + 4);
}

#[test]
fn render_advances_column_origin() {
    let entries = vec![cmd('a', 10, 4, 30, 4), cmd('b', 12, 4, 25, 4)];
    let cfg = MenuConfig {
        border_width: 2,
        corner_r: 10,
        padding: Some(5),
        column_padding: Some(3),
        rows_per_column: Some(1),
        separator: String::from(">"),
        separator_ext: ext(4, 6),
    };
    let m = Menu::new(&entries, &cfg).unwrap();
    let cmds = m.render(&cfg);
    assert_eq!(cmds.len(), 6);
    // Second column starts at 7 + (10 + 30 + 4 + 3) == 54.
    assert_eq!(cmds[3].text, "b");
    assert_eq!(cmds[3].x, 54);
    assert_eq!(cmds[3].y, 7);
    assert_eq!(cmds[4].x, 54 + 12);
    assert_eq!(cmds[5].x, 54 + 12 + 4);
}

#[test]
fn growing_a_page_never_shrinks_its_geometry() {
    // The general statement is proved in the crate; this checks one
    // instance of it.
    let cfg = MenuConfig {
        border_width: 2,
        corner_r: 10,
        padding: Some(5),
        column_padding: Some(3),
        rows_per_column: Some(2),
        separator: String::from(">"),
        separator_ext: ext(4, 6),
    };
    let small = vec![cmd('a', 10, 4, 30, 4), cmd('b', 12, 4, 25, 4)];
    let big = vec![
        cmd('a', 10, 4, 30, 4),
        cmd('b', 12, 4, 25, 4),
        cmd('c', 1, 1, 1, 1),
    ];
    let m1 = Menu::new(&small, &cfg).unwrap();
    let m2 = Menu::new(&big, &cfg).unwrap();
    assert!(m2.width(&cfg) >= m1.width(&cfg));
    assert!(m2.height(&cfg) >= m1.height(&cfg));
}
