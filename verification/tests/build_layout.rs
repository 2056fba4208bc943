use wlr_which_key::entry::{Entry, TextExtent};
use wlr_which_key::errors::ConfigError;
use wlr_which_key::key::{Key, ModifierState, SingleKey};
use wlr_which_key::menu::{Action, Menu, MenuConfig};

fn no_mods() -> ModifierState {
    ModifierState { mod_ctrl: false, mod_alt: false, mod_mod4: false }
}

fn key1(c: char) -> Key {
    Key::from_single(SingleKey {
        keysym: c as u32,
        repr: c.to_string(),
        modifiers: no_mods(),
    })
}

fn ext(w: u64, h: u64) -> TextExtent {
    TextExtent { width: w, height: h }
}

fn cmd(c: char, run: &str, desc: &str, kw: u64, kh: u64, dw: u64, dh: u64) -> Entry {
    Entry::Cmd {
        key: key1(c),
        key_ext: ext(kw, kh),
        cmd: String::from(run),
        desc: String::from(desc),
        desc_ext: ext(dw, dh),
        keep_open: false,
    }
}

fn cfg(rows: Option<usize>) -> MenuConfig {
    MenuConfig {
        border_width: 2,
        corner_r: 10,
        padding: Some(5),
        column_padding: Some(3),
        rows_per_column: rows,
        separator: String::from(" > "),
        separator_ext: ext(4, 6),
    }
}

#[test]
fn build_fails_on_empty_root() {
    let entries: Vec<Entry> = Vec::new();
    let e = Menu::new(&entries, &cfg(None)).unwrap_err();
    assert!(matches!(e, ConfigError::EmptyPage));
}

#[test]
fn build_fails_on_empty_submenu() {
    let entries = vec![
        cmd('a', "run-a", "A", 10, 8, 20, 8),
        Entry::Recursive {
            key: key1('s'),
            key_ext: ext(10, 8),
            submenu: Vec::new(),
            desc: String::from("Sub"),
            desc_ext: ext(20, 8),
        },
    ];
    let e = Menu::new(&entries, &cfg(None)).unwrap_err();
    assert!(matches!(e, ConfigError::EmptyPage));
}

#[test]
fn build_succeeds_on_nested_nonempty_tree() {
    let entries = vec![
        cmd('a', "run-a", "A", 10, 8, 20, 8),
        Entry::Recursive {
            key: key1('s'),
            key_ext: ext(10, 8),
            submenu: vec![cmd('b', "run-b", "B", 12, 8, 22, 8)],
            desc: String::from("Sub"),
            desc_ext: ext(20, 8),
        },
    ];
    let m = Menu::new(&entries, &cfg(None)).unwrap();
    assert_eq!(m.pages.len(), 2);
    assert_eq!(m.cur_page, 0);
}

#[test]
fn pages_are_appended_depth_first_with_parent_links() {
    // root: [sub1 -> [leaf, sub2 -> [leaf]], leaf]
    let sub2 = vec![cmd('x', "run-x", "X", 5, 5, 5, 5)];
    let sub1 = vec![
        cmd('y', "run-y", "Y", 5, 5, 5, 5),
        Entry::Recursive {
            key: key1('t'),
            key_ext: ext(5, 5),
            submenu: sub2,
            desc: String::from("Deeper"),
            desc_ext: ext(5, 5),
        },
    ];
    let entries = vec![
        Entry::Recursive {
            key: key1('s'),
            key_ext: ext(5, 5),
            submenu: sub1,
            desc: String::from("Sub"),
            desc_ext: ext(5, 5),
        },
        cmd('z', "run-z", "Z", 5, 5, 5, 5),
    ];
    let m = Menu::new(&entries, &cfg(None)).unwrap();
    assert_eq!(m.pages.len(), 3);
    assert_eq!(m.pages[0].parent, None);
    assert_eq!(m.pages[1].parent, Some(0));
    assert_eq!(m.pages[2].parent, Some(1));
    // The root's first item opens page 1; page 1's second item opens page 2.
    match &m.pages[0].columns[0].items[0].action {
        Action::Submenu(q) => assert_eq!(*q, 1),
        _ => panic!("expected submenu action"),
    }
    match &m.pages[1].columns[0].items[1].action {
        Action::Submenu(q) => assert_eq!(*q, 2),
        _ => panic!("expected submenu action"),
    }
}

#[test]
fn submenu_description_gets_plus_prefix() {
    let entries = vec![Entry::Recursive {
        key: key1('s'),
        key_ext: ext(5, 5),
        submenu: vec![cmd('x', "run-x", "X", 5, 5, 5, 5)],
        desc: String::from("More"),
        desc_ext: ext(5, 5),
    }];
    let m = Menu::new(&entries, &cfg(None)).unwrap();
    assert_eq!(m.pages[0].columns[0].items[0].desc_text, "+More");
    assert_eq!(m.pages[1].columns[0].items[0].desc_text, "X");
}

#[test]
fn all_items_in_one_column_without_row_limit() {
    let entries = vec![
        cmd('a', "ra", "A", 1, 1, 1, 1),
        cmd('b', "rb", "B", 1, 1, 1, 1),
        cmd('c', "rc", "C", 1, 1, 1, 1),
        cmd('d', "rd", "D", 1, 1, 1, 1),
        cmd('e', "re", "E", 1, 1, 1, 1),
    ];
    let m = Menu::new(&entries, &cfg(None)).unwrap();
    assert_eq!(m.pages[0].columns.len(), 1);
    assert_eq!(m.pages[0].columns[0].items.len(), 5);
}

#[test]
fn items_fill_columns_by_position_over_row_limit() {
    // With two rows per column, item i lands in column i / 2.
    let entries = vec![
        cmd('a', "ra", "A", 1, 1, 1, 1),
        cmd('b', "rb", "B", 1, 1, 1, 1),
        cmd('c', "rc", "C", 1, 1, 1, 1),
        cmd('d', "rd", "D", 1, 1, 1, 1),
        cmd('e', "re", "E", 1, 1, 1, 1),
    ];
    let m = Menu::new(&entries, &cfg(Some(2))).unwrap();
    let page = &m.pages[0];
    assert_eq!(page.columns.len(), 3);
    assert_eq!(page.columns[0].items.len(), 2);
    assert_eq!(page.columns[1].items.len(), 2);
    assert_eq!(page.columns[2].items.len(), 1);
    assert_eq!(page.columns[0].items[0].key_text, "a");
    assert_eq!(page.columns[0].items[1].key_text, "b");
    assert_eq!(page.columns[1].items[0].key_text, "c");
    assert_eq!(page.columns[1].items[1].key_text, "d");
    assert_eq!(page.columns[2].items[0].key_text, "e");
}

#[test]
fn column_widths_are_maxima_of_their_items() {
    let entries = vec![
        cmd('a', "ra", "A", 10, 1, 31, 1),
        cmd('b', "rb", "B", 17, 1, 9, 1),
        cmd('c', "rc", "C", 3, 1, 40, 1),
    ];
    let m = Menu::new(&entries, &cfg(Some(2))).unwrap();
    let page = &m.pages[0];
    assert_eq!(page.columns[0].key_col_width, 17);
    assert_eq!(page.columns[0].val_col_width, 31);
    assert_eq!(page.columns[1].key_col_width, 3);
    assert_eq!(page.columns[1].val_col_width, 40);
}

#[test]
fn item_height_is_max_of_texts_and_separator() {
    let entries = vec![
        cmd('a', "ra", "A", 10, 4, 31, 3),
        cmd('b', "rb", "B", 17, 2, 9, 11),
    ];
    let m = Menu::new(&entries, &cfg(None)).unwrap();
    assert_eq!(m.pages[0].item_height, 11);
    // With small texts the separator's own height wins.
    let low = vec![cmd('a', "ra", "A", 10, 1, 31, 2)];
    let m2 = Menu::new(&low, &cfg(None)).unwrap();
    assert_eq!(m2.pages[0].item_height, 6);
}

#[test]
fn key_text_is_joined_display_form() {
    let mut k = key1('a');
    k.any_of.push(SingleKey {
        keysym: 0x62,
        repr: String::from("ctrl+b"),
        modifiers: ModifierState { mod_ctrl: true, mod_alt: false, mod_mod4: false },
    });
    let entries = vec![Entry::Cmd {
        key: k,
        key_ext: ext(5, 5),
        cmd: String::from("run"),
        desc: String::from("D"),
        desc_ext: ext(5, 5),
        keep_open: true,
    }];
    let m = Menu::new(&entries, &cfg(None)).unwrap();
    let item = &m.pages[0].columns[0].items[0];
    assert_eq!(item.key_text, "a | ctrl+b");
    match &item.action {
        Action::Exec { cmd, keep_open } => {
            assert_eq!(cmd, "run");
            assert!(*keep_open);
        },
        _ => panic!("expected exec action"),
    }
}
