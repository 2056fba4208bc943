//! The menu proper: building pages from the entry tree, resolving chords
//! into actions, page geometry, and initial-sequence navigation.
//!
//! Pages live in one flat, append-only collection and refer to each other by
//! index: a sub-level's item carries the index of its page, and every page
//! but the root carries the index of its parent.  The only mutable state
//! after building is the index of the page currently shown.

use vstd::math::max;
use vstd::math::min;
use vstd::prelude::*;
use vstd::std_specs::vec::vec_index_mut;

use crate::entry::{
    entries_wf, entry_desc_ext, entry_display_desc, entry_height, entry_key, entry_key_ext,
    entry_wf, prefixed_desc, Entry, TextExtent,
};
use crate::errors::{ConfigError, SequenceError};
use crate::key::{
    base_sym, first_bad_modifier, join_reprs, parse_fails_with, spec_key_matches, spec_parse_mods,
    spec_parse_ok, spec_parse_sym, Key, ModifierState, NameEntry, NameTable, SingleKey,
};
use crate::keysym::{KEYSYM_BACKSPACE, KEYSYM_BRACKET_LEFT, KEYSYM_ESCAPE, KEYSYM_LOWER_G};
use crate::strutil::{split_on, split_ws, split_ws_str};

verus! {

/// The resolved effect of a key event.
#[derive(Debug)]
pub enum Action {
    /// Close the menu without any effect.
    Quit,
    /// Run `cmd`; keep the menu open afterwards exactly when `keep_open`.
    Exec { cmd: String, keep_open: bool },
    /// Show the page with this index.
    Submenu(usize),
}

impl Clone for Action {
    fn clone(&self) -> (r: Self)
        ensures
            r == *self,
    {
        match self {
            Action::Quit => Action::Quit,
            Action::Exec { cmd, keep_open } => Action::Exec {
                cmd: cmd.clone(),
                keep_open: *keep_open,
            },
            Action::Submenu(p) => Action::Submenu(*p),
        }
    }
}

/// One item of a page: its action, its binding, and the display texts with
/// their measured extents.
#[derive(Debug)]
pub struct MenuItem {
    pub action: Action,
    pub key: Key,
    pub key_text: String,
    pub key_ext: TextExtent,
    pub desc_text: String,
    pub desc_ext: TextExtent,
}

/// A vertical group of items, with the widths of its two text columns: the
/// maxima of the contained items' measured widths.
#[derive(Debug)]
pub struct MenuColumn {
    pub key_col_width: u64,
    pub val_col_width: u64,
    pub items: Vec<MenuItem>,
}

/// One level of the hierarchy, laid out into columns.
#[derive(Debug)]
pub struct MenuPage {
    pub item_height: u64,
    pub columns: Vec<MenuColumn>,
    pub parent: Option<usize>,
}

/// Layout parameters the host supplies, in whole pixels.
///
/// `padding` defaults to the corner radius when unset, and `column_padding`
/// defaults to the padding.  `separator_ext` is the measured extent of the
/// separator glyph `separator` drawn between the two text columns.
#[derive(Debug)]
pub struct MenuConfig {
    pub border_width: u64,
    pub corner_r: u64,
    pub padding: Option<u64>,
    pub column_padding: Option<u64>,
    pub rows_per_column: Option<usize>,
    pub separator: String,
    pub separator_ext: TextExtent,
}

/// The padding actually used: the explicit one, or the corner radius.
pub open spec fn spec_padding(cfg: MenuConfig) -> u64 {
    match cfg.padding {
        Option::Some(p) => p,
        Option::None => cfg.corner_r,
    }
}

/// The inter-column padding actually used: the explicit one, or the padding.
pub open spec fn spec_column_padding(cfg: MenuConfig) -> u64 {
    match cfg.column_padding {
        Option::Some(p) => p,
        Option::None => spec_padding(cfg),
    }
}

impl MenuConfig {
    /// The padding actually used: the explicit one, or the corner radius.
    pub fn padding(&self) -> (r: u64)
        ensures
            r == spec_padding(*self),
    {
        match self.padding {
            Option::Some(p) => p,
            Option::None => self.corner_r,
        }
    }

    /// The inter-column padding actually used: the explicit one, or the
    /// padding.
    pub fn column_padding(&self) -> (r: u64)
        ensures
            r == spec_column_padding(*self),
    {
        match self.column_padding {
            Option::Some(p) => p,
            Option::None => self.padding(),
        }
    }

    /// True when `rows_per_column`, if set, is at least one row.
    pub open spec fn rows_ok(self) -> bool {
        match self.rows_per_column {
            Option::Some(k) => k > 0,
            Option::None => true,
        }
    }
}

/// The column that the item at zero-based position `i` lands in: always the
/// first column when no row limit is set, otherwise `i / k`.
pub open spec fn spec_col_of(i: int, k: Option<usize>) -> int {
    match k {
        Option::None => 0,
        Option::Some(kk) => i / (kk as int),
    }
}

/// The row within its column of the item at position `i`.
pub open spec fn spec_row_of(i: int, k: Option<usize>) -> int {
    match k {
        Option::None => i,
        Option::Some(kk) => i % (kk as int),
    }
}

/// How many columns `n` items occupy.
pub open spec fn spec_ncols(n: int, k: Option<usize>) -> int {
    match k {
        Option::None => 1,
        Option::Some(kk) => (n - 1) / (kk as int) + 1,
    }
}

/// How many items column `c` holds when `n` items are laid out.
pub open spec fn spec_col_len(n: int, k: Option<usize>, c: int) -> int {
    match k {
        Option::None => n,
        Option::Some(kk) => min(kk as int, n - c * (kk as int)),
    }
}

/// The entries that land in column `c`.
pub open spec fn col_entries(es: Seq<Entry>, k: Option<usize>, c: int) -> Seq<Entry> {
    match k {
        Option::None => es,
        Option::Some(kk) => es.subrange(
            c * (kk as int),
            c * (kk as int) + spec_col_len(es.len() as int, k, c),
        ),
    }
}

/// The widest binding text among these entries.
pub open spec fn max_key_width(es: Seq<Entry>) -> int
    decreases es.len(),
{
    if es.len() == 0 {
        0
    } else {
        max(max_key_width(es.drop_last()), entry_key_ext(es.last()).width as int)
    }
}

/// The widest description text among these entries.
pub open spec fn max_desc_width(es: Seq<Entry>) -> int
    decreases es.len(),
{
    if es.len() == 0 {
        0
    } else {
        max(max_desc_width(es.drop_last()), entry_desc_ext(es.last()).width as int)
    }
}

/// The tallest text among these entries.
pub open spec fn max_entry_height(es: Seq<Entry>) -> int
    decreases es.len(),
{
    if es.len() == 0 {
        0
    } else {
        max(max_entry_height(es.drop_last()), entry_height(es.last()))
    }
}

/// The item of `page` that stands for the entry at position `i`.
pub open spec fn item_at(page: MenuPage, i: int, k: Option<usize>) -> MenuItem {
    page.columns@[spec_col_of(i, k)].items@[spec_row_of(i, k)]
}

/// The display data an item must carry for its entry: the entry's binding,
/// the binding's joined display text, the displayed description, and the
/// measured extents.
pub open spec fn item_base(item: MenuItem, e: Entry) -> bool {
    &&& item.key@ == entry_key(e)@
    &&& item.key_text@ == join_reprs(entry_key(e)@)
    &&& item.key_ext == entry_key_ext(e)
    &&& item.desc_text@ == entry_display_desc(e)
    &&& item.desc_ext == entry_desc_ext(e)
}

/// The shape a page has when it lays out `es`: the parent back-reference,
/// the row height, the column count, and per column its length and widths.
pub open spec fn page_shape(
    pages: Seq<MenuPage>,
    p: int,
    es: Seq<Entry>,
    parent: Option<usize>,
    k: Option<usize>,
    sep: TextExtent,
) -> bool {
    let n = es.len() as int;
    let page = pages[p];
    &&& 0 <= p < pages.len()
    &&& n >= 1
    &&& page.parent == parent
    &&& page.item_height as int == max(sep.height as int, max_entry_height(es))
    &&& page.columns@.len() == spec_ncols(n, k)
    &&& forall|c: int|
        0 <= c < spec_ncols(n, k) ==> #[trigger] page.columns@[c].items@.len() == spec_col_len(
            n,
            k,
            c,
        )
    &&& forall|c: int|
        0 <= c < spec_ncols(n, k) ==> #[trigger] page.columns@[c].key_col_width as int
            == max_key_width(col_entries(es, k, c))
    &&& forall|c: int|
        0 <= c < spec_ncols(n, k) ==> #[trigger] page.columns@[c].val_col_width as int
            == max_desc_width(col_entries(es, k, c))
}

/// The action an item must carry for its entry: a command entry's item runs
/// that command, and a sub-level entry's item opens a later page that in
/// turn represents the sub-level.
pub open spec fn item_action_ok(
    item: MenuItem,
    e: Entry,
    pages: Seq<MenuPage>,
    p: int,
    k: Option<usize>,
    sep: TextExtent,
) -> bool
    decreases e,
{
    match e {
        Entry::Cmd { cmd, keep_open, .. } => item.action == (Action::Exec { cmd, keep_open }),
        Entry::Recursive { submenu, .. } => match item.action {
            Action::Submenu(q) => {
                &&& p < q < pages.len()
                &&& page_represents(pages, q as int, submenu@, Option::Some(p as usize), k, sep)
            },
            _ => false,
        },
    }
}

/// Page `p` of `pages` represents the entry sequence `es`: it has the shape
/// above and every item carries its entry's texts, extents and action.
pub open spec fn page_represents(
    pages: Seq<MenuPage>,
    p: int,
    es: Seq<Entry>,
    parent: Option<usize>,
    k: Option<usize>,
    sep: TextExtent,
) -> bool
    decreases es,
{
    &&& page_shape(pages, p, es, parent, k, sep)
    &&& forall|i: int|
        0 <= i < es.len() ==> item_base(#[trigger] item_at(pages[p], i, k), es[i])
    &&& forall|i: int|
        0 <= i < es.len() ==> item_action_ok(
            #[trigger] item_at(pages[p], i, k),
            es[i],
            pages,
            p,
            k,
            sep,
        )
}

/// Every page index an action can lead to stays inside the collection.
pub open spec fn action_in_bounds(a: Action, npages: int) -> bool {
    match a {
        Action::Submenu(q) => (q as int) < npages,
        _ => true,
    }
}

/// A structurally sound page: at least one column, item widths within the
/// column widths, and every reference to another page in bounds.
pub open spec fn page_wf(page: MenuPage, npages: int) -> bool {
    &&& page.columns@.len() >= 1
    &&& match page.parent {
        Option::Some(pp) => (pp as int) < npages,
        Option::None => true,
    }
    &&& forall|c: int, i: int|
        0 <= c < page.columns@.len() && 0 <= i < page.columns@[c].items@.len()
            ==> action_in_bounds((#[trigger] page.columns@[c].items@[i]).action, npages)
    &&& forall|c: int, i: int|
        0 <= c < page.columns@.len() && 0 <= i < page.columns@[c].items@.len() ==> (
        #[trigger] page.columns@[c].items@[i]).key_ext.width <= page.columns@[c].key_col_width
            && page.columns@[c].items@[i].desc_ext.width <= page.columns@[c].val_col_width
}

/// The menu: the flat page collection, the index of the page shown, and the
/// measured separator glyph.
#[derive(Debug)]
pub struct Menu {
    pub pages: Vec<MenuPage>,
    pub cur_page: usize,
    pub separator: TextExtent,
    pub separator_text: String,
}

impl Menu {
    /// A structurally sound menu: at least one page, the shown page in
    /// bounds, and every page well-formed.
    pub open spec fn wf(self) -> bool {
        &&& self.pages@.len() >= 1
        &&& (self.cur_page as int) < self.pages@.len()
        &&& forall|p: int|
            0 <= p < self.pages@.len() ==> page_wf(
                #[trigger] self.pages@[p],
                self.pages@.len() as int,
            )
    }

    /// Appends the page for `entries` and, depth-first and in entry order,
    /// the pages of every sub-level beneath it; returns the new page's
    /// index.  Fails exactly when the sequence or some sub-level beneath it
    /// is empty.
    #[verifier::rlimit(100)]
    fn push_page(&mut self, entries: &Vec<Entry>, k: Option<usize>, parent: Option<usize>) -> (r:
        Result<usize, ConfigError>)
        requires
            match k {
                Option::Some(kk) => kk > 0,
                Option::None => true,
            },
            match parent {
                Option::Some(pp) => (pp as int) < old(self).pages@.len(),
                Option::None => true,
            },
        ensures
            final(self).cur_page == old(self).cur_page,
            final(self).separator == old(self).separator,
            final(self).separator_text == old(self).separator_text,
            final(self).pages@.len() >= old(self).pages@.len(),
            final(self).pages@.take(old(self).pages@.len() as int) == old(self).pages@,
            match r {
                Ok(p) => {
                    &&& p == old(self).pages@.len()
                    &&& final(self).pages@.len() > old(self).pages@.len()
                    &&& entries@.len() > 0
                    &&& entries_wf(entries@)
                    &&& page_represents(
                        final(self).pages@,
                        p as int,
                        entries@,
                        parent,
                        k,
                        old(self).separator,
                    )
                    &&& forall|q: int|
                        old(self).pages@.len() <= q < final(self).pages@.len() ==> page_wf(
                            #[trigger] final(self).pages@[q],
                            final(self).pages@.len() as int,
                        )
                },
                Err(e) => (e matches ConfigError::EmptyPage) && !(entries@.len() > 0
                    && entries_wf(entries@)),
            },
        decreases entries@,
    {
        let n = entries.len();
        if n == 0 {
            proof {
                assert(self.pages@.take(old(self).pages@.len() as int) =~= old(self).pages@);
            }
            return Err(ConfigError::EmptyPage);
        }
        let cur_page = self.pages.len();
        self.pages.push(
            MenuPage { item_height: self.separator.height, columns: Vec::new(), parent },
        );
        proof {
            assert(self.pages@.take(cur_page as int) =~= old(self).pages@);
            assert(entries@.take(0) =~= Seq::<Entry>::empty());
        }
        let ghost es = entries@;
        let ghost sepg = old(self).separator;
        let mut entry_i: usize = 0;
        while entry_i < n
            invariant
                n == es.len(),
                es == entries@,
                0 < n,
                entry_i <= n,
                match k {
                    Option::Some(kk) => kk > 0,
                    Option::None => true,
                },
                match parent {
                    Option::Some(pp) => (pp as int) < old(self).pages@.len(),
                    Option::None => true,
                },
                sepg == old(self).separator,
                self.cur_page == old(self).cur_page,
                self.separator == old(self).separator,
                self.separator_text == old(self).separator_text,
                cur_page == old(self).pages@.len(),
                cur_page < self.pages@.len(),
                self.pages@.take(cur_page as int) == old(self).pages@,
                self.pages@[cur_page as int].parent == parent,
                self.pages@[cur_page as int].item_height as int == max(
                    sepg.height as int,
                    max_entry_height(es.take(entry_i as int)),
                ),
                self.pages@[cur_page as int].columns@.len() == (if entry_i == 0 {
                    0int
                } else {
                    spec_ncols(entry_i as int, k)
                }),
                forall|c: int|
                    0 <= c < self.pages@[cur_page as int].columns@.len()
                        ==> #[trigger] self.pages@[cur_page as int].columns@[c].items@.len()
                        == spec_col_len(entry_i as int, k, c),
                forall|c: int|
                    0 <= c < self.pages@[cur_page as int].columns@.len()
                        ==> #[trigger] self.pages@[cur_page as int].columns@[c].key_col_width as int
                        == max_key_width(col_entries(es.take(entry_i as int), k, c)),
                forall|c: int|
                    0 <= c < self.pages@[cur_page as int].columns@.len()
                        ==> #[trigger] self.pages@[cur_page as int].columns@[c].val_col_width as int
                        == max_desc_width(col_entries(es.take(entry_i as int), k, c)),
                forall|i: int|
                    0 <= i < entry_i ==> item_base(
                        #[trigger] item_at(self.pages@[cur_page as int], i, k),
                        es[i],
                    ),
                forall|i: int|
                    0 <= i < entry_i ==> item_action_ok(
                        #[trigger] item_at(self.pages@[cur_page as int], i, k),
                        es[i],
                        self.pages@,
                        cur_page as int,
                        k,
                        sepg,
                    ),
                forall|i: int| 0 <= i < entry_i ==> entry_wf(#[trigger] es[i]),
                forall|q: int|
                    cur_page < q < self.pages@.len() ==> page_wf(
                        #[trigger] self.pages@[q],
                        self.pages@.len() as int,
                    ),
                forall|c: int, ii: int|
                    0 <= c < self.pages@[cur_page as int].columns@.len() && 0 <= ii < self.pages@[
                        cur_page as int
                    ].columns@[c].items@.len() ==> action_in_bounds(
                        (#[trigger] self.pages@[cur_page as int].columns@[c].items@[ii]).action,
                        self.pages@.len() as int,
                    ),
                forall|c: int, ii: int|
                    0 <= c < self.pages@[cur_page as int].columns@.len() && 0 <= ii < self.pages@[
                        cur_page as int
                    ].columns@[c].items@.len() ==> (#[trigger] self.pages@[cur_page as int].columns@[c].items@[ii]).key_ext.width
                        <= self.pages@[cur_page as int].columns@[c].key_col_width && self.pages@[
                        cur_page as int
                    ].columns@[c].items@[ii].desc_ext.width <= self.pages@[cur_page as int].columns@[c].val_col_width,
            decreases n - entry_i,
        {
            let ghost e = es[entry_i as int];
            let ghost pages_pre = self.pages@;
            let item: MenuItem = match &entries[entry_i] {
                Entry::Cmd { key, key_ext, cmd, desc, desc_ext, keep_open } => {
                    MenuItem {
                        action: Action::Exec { cmd: cmd.clone(), keep_open: *keep_open },
                        key: key.clone(),
                        key_text: key.display_text(),
                        key_ext: *key_ext,
                        desc_text: desc.clone(),
                        desc_ext: *desc_ext,
                    }
                },
                Entry::Recursive { key, key_ext, submenu, desc, desc_ext } => {
                    proof {
                        assert(decreases_to!(es => e));
                        assert(decreases_to!(e => e->Recursive_submenu));
                    }
                    let newp = match self.push_page(submenu, k, Some(cur_page)) {
                        Ok(p) => p,
                        Err(er) => {
                            proof {
                                assert(!entry_wf(e));
                                assert(!entries_wf(es));
                                assert(self.pages@.take(cur_page as int) =~= old(self).pages@);
                            }
                            return Err(er);
                        },
                    };
                    MenuItem {
                        action: Action::Submenu(newp),
                        key: key.clone(),
                        key_text: key.display_text(),
                        key_ext: *key_ext,
                        desc_text: prefixed_desc(desc.as_str()),
                        desc_ext: *desc_ext,
                    }
                },
            };
            let ghost pages_mid = self.pages@;
            proof {
                assert(pages_mid[cur_page as int] == pages_mid.take(pages_pre.len() as int)[cur_page as int]);
                assert(pages_mid[cur_page as int] == pages_pre[cur_page as int]);
                assert(item_base(item, e));
                assert(item_action_ok(item, e, pages_mid, cur_page as int, k, sepg));
                assert(entry_wf(e));
                // Older items still hold against the grown collection.
                assert forall|i: int| 0 <= i < entry_i implies item_action_ok(
                    #[trigger] item_at(pages_mid[cur_page as int], i, k),
                    es[i],
                    pages_mid,
                    cur_page as int,
                    k,
                    sepg,
                ) by {
                    lemma_item_action_agree(
                        item_at(pages_pre[cur_page as int], i, k),
                        es[i],
                        pages_pre,
                        pages_mid,
                        cur_page as int,
                        k,
                        sepg,
                    );
                }
                assert forall|q: int| cur_page < q < pages_mid.len() implies page_wf(
                    #[trigger] pages_mid[q],
                    pages_mid.len() as int,
                ) by {
                    if q < pages_pre.len() {
                        assert(pages_mid[q] == pages_pre[q]);
                        lemma_page_wf_mono(pages_pre[q], pages_pre.len() as int, pages_mid.len() as int);
                    }
                }
            }
            let ikw = item.key_ext.width;
            let ivw = item.desc_ext.width;
            let kh = item.key_ext.height;
            let dh = item.desc_ext.height;
            let height = if kh > dh {
                kh
            } else {
                dh
            };
            proof {
                assert(height as int == entry_height(e));
            }
            let col_i: usize = match k {
                Option::None => 0,
                Option::Some(r) => entry_i / r,
            };
            let cols_len = self.pages[cur_page].columns.len();
            proof {
                assert(col_i as int == spec_col_of(entry_i as int, k));
                match k {
                    Option::Some(kk) => {
                        if entry_i >= 1 {
                            lemma_col_step(entry_i as int, kk as int);
                        }
                    },
                    Option::None => {},
                }
                assert(col_i <= cols_len);
            }
            let ghost gi = entry_i as int;
            let ghost take_i = es.take(gi);
            let ghost take_i1 = es.take(gi + 1);
            proof {
                assert(take_i1.drop_last() =~= take_i);
                assert(take_i1.last() == e);
                assert(max_entry_height(take_i1) == max(max_entry_height(take_i), entry_height(e)));
            }
            let ghost gitem = item;
            if col_i == cols_len {
                proof {
                    // With no row limit the first column exists from the
                    // first item on, so a new column only ever starts at the
                    // very first entry.
                    match k {
                        Option::None => {
                            if gi >= 1 {
                                assert(cols_len == 1);
                                assert(false);
                            }
                        },
                        Option::Some(kk) => {
                            if gi >= 1 {
                                assert(cols_len == (gi - 1) / (kk as int) + 1);
                                assert(gi % (kk as int) == 0);
                                assert(gi == (kk as int) * col_i);
                            } else {
                                assert(gi / (kk as int) == 0 && gi % (kk as int) == 0)
                                    by (nonlinear_arith)
                                    requires
                                        gi == 0,
                                        kk >= 1,
                                ;
                                assert(gi == (kk as int) * (col_i as int)) by (nonlinear_arith)
                                    requires
                                        gi == 0,
                                        col_i as int == 0,
                                ;
                            }
                        },
                    }
                }
                let mut items: Vec<MenuItem> = Vec::new();
                items.push(item);
                let newcol = MenuColumn { key_col_width: ikw, val_col_width: ivw, items };
                let ghost gcol = newcol;
                let page = vec_index_mut(&mut self.pages, cur_page);
                if height > page.item_height {
                    page.item_height = height;
                }
                page.columns.push(newcol);
                proof {
                    let np = self.pages@[cur_page as int];
                    let opg = pages_mid[cur_page as int];
                    assert(self.pages@.len() == pages_mid.len());
                    assert(forall|q: int|
                        0 <= q < pages_mid.len() && q != cur_page ==> self.pages@[q]
                            == #[trigger] pages_mid[q]);
                    assert(self.pages@.take(cur_page as int) =~= pages_mid.take(cur_page as int));
                    assert(np.columns@ == opg.columns@.push(gcol));
                    assert(gcol.items@ =~= seq![gitem]);
                    assert(np.columns@.len() == spec_ncols(gi + 1, k));
                    // Every previous column keeps its length, entries and
                    // widths: it was already full.
                    assert forall|c: int| 0 <= c < cols_len implies #[trigger] np.columns@[c]
                        == opg.columns@[c] && spec_col_len(gi + 1, k, c) == spec_col_len(gi, k, c)
                        && col_entries(take_i1, k, c) =~= col_entries(take_i, k, c) by {
                        match k {
                            Option::Some(kk) => {
                                let kkk = kk as int;
                                assert(c * kkk + kkk <= gi) by (nonlinear_arith)
                                    requires
                                        0 <= c,
                                        c < col_i as int,
                                        kkk >= 1,
                                        gi == kkk * (col_i as int),
                                ;
                            },
                            Option::None => {},
                        }
                    }
                    // The new column holds exactly the new entry.
                    assert(col_entries(take_i1, k, col_i as int) =~= seq![e]) by {
                        match k {
                            Option::Some(kk) => {
                                let kkk = kk as int;
                                assert(col_i as int * kkk == gi) by (nonlinear_arith)
                                    requires
                                        gi == kkk * col_i,
                                ;
                                assert(spec_col_len(gi + 1, k, col_i as int) == 1);
                            },
                            Option::None => {},
                        }
                    }
                    assert(max_key_width(seq![e]) == entry_key_ext(e).width as int) by {
                        assert(seq![e].drop_last() =~= Seq::<Entry>::empty());
                        assert(seq![e].last() == e);
                        assert(max_key_width(Seq::<Entry>::empty()) == 0);
                    }
                    assert(max_desc_width(seq![e]) == entry_desc_ext(e).width as int) by {
                        assert(seq![e].drop_last() =~= Seq::<Entry>::empty());
                        assert(seq![e].last() == e);
                        assert(max_desc_width(Seq::<Entry>::empty()) == 0);
                    }
                    // Item placement: the new entry sits at row zero of the
                    // new column, and nothing else moved.
                    assert(spec_col_of(gi, k) == col_i as int && spec_row_of(gi, k) == 0);
                    assert(item_at(np, gi, k) == gitem);
                    assert forall|i: int| 0 <= i < gi implies spec_col_of(i, k) < cols_len
                        && #[trigger] item_at(np, i, k) == item_at(opg, i, k) by {
                        match k {
                            Option::Some(kk) => {
                                vstd::arithmetic::div_mod::lemma_div_is_ordered(
                                    i,
                                    gi - 1,
                                    kk as int,
                                );
                            },
                            Option::None => {},
                        }
                    }
                    assert forall|i: int| 0 <= i < gi + 1 implies item_action_ok(
                        #[trigger] item_at(np, i, k),
                        es[i],
                        self.pages@,
                        cur_page as int,
                        k,
                        sepg,
                    ) by {
                        lemma_item_action_agree(
                            item_at(np, i, k),
                            es[i],
                            pages_mid,
                            self.pages@,
                            cur_page as int,
                            k,
                            sepg,
                        );
                    }
                    // The new item's action stays inside the collection.
                    assert(action_in_bounds(gitem.action, self.pages@.len() as int)) by {
                        match es[gi] {
                            Entry::Cmd { .. } => {},
                            Entry::Recursive { .. } => {},
                        }
                    }
                    // Assemble the per-column facts of the grown page.
                    assert(spec_col_len(gi + 1, k, col_i as int) == 1) by {
                        match k {
                            Option::Some(kk) => {
                                assert(col_i as int * (kk as int) == gi) by (nonlinear_arith)
                                    requires
                                        gi == (kk as int) * (col_i as int),
                                ;
                            },
                            Option::None => {},
                        }
                    }
                    assert(np.columns@[cols_len as int] == gcol);
                    assert forall|c: int| 0 <= c < np.columns@.len() implies {
                        &&& (#[trigger] np.columns@[c]).items@.len() == spec_col_len(gi + 1, k, c)
                        &&& np.columns@[c].key_col_width as int == max_key_width(
                            col_entries(take_i1, k, c),
                        )
                        &&& np.columns@[c].val_col_width as int == max_desc_width(
                            col_entries(take_i1, k, c),
                        )
                    } by {
                        if c < cols_len {
                            assert(np.columns@[c] == opg.columns@[c]);
                            assert(opg.columns@[c].items@.len() == spec_col_len(gi, k, c));
                            assert(opg.columns@[c].key_col_width as int == max_key_width(
                                col_entries(take_i, k, c),
                            ));
                            assert(opg.columns@[c].val_col_width as int == max_desc_width(
                                col_entries(take_i, k, c),
                            ));
                        } else {
                            assert(c == cols_len);
                            assert(np.columns@[c] == gcol);
                        }
                    }
                    assert forall|c: int, ii: int|
                        0 <= c < np.columns@.len() && 0 <= ii < np.columns@[c].items@.len() implies
                        action_in_bounds(
                        (#[trigger] np.columns@[c].items@[ii]).action,
                        self.pages@.len() as int,
                    ) && np.columns@[c].items@[ii].key_ext.width <= np.columns@[c].key_col_width
                        && np.columns@[c].items@[ii].desc_ext.width
                        <= np.columns@[c].val_col_width by {
                        if c < cols_len {
                            assert(np.columns@[c] == opg.columns@[c]);
                            assert(action_in_bounds(
                                opg.columns@[c].items@[ii].action,
                                pages_mid.len() as int,
                            ));
                        } else {
                            assert(np.columns@[c] == gcol);
                            assert(np.columns@[c].items@[ii] == gitem);
                        }
                    }
                }
            } else {
                proof {
                    assert(col_i < cols_len);
                }
                let page = vec_index_mut(&mut self.pages, cur_page);
                if height > page.item_height {
                    page.item_height = height;
                }
                let col = vec_index_mut(&mut page.columns, col_i);
                if ikw > col.key_col_width {
                    col.key_col_width = ikw;
                }
                if ivw > col.val_col_width {
                    col.val_col_width = ivw;
                }
                col.items.push(item);
                proof {
                    let np = self.pages@[cur_page as int];
                    let opg = pages_mid[cur_page as int];
                    let ghost oldcol = opg.columns@[col_i as int];
                    let ghost newc = np.columns@[col_i as int];
                    assert(self.pages@.len() == pages_mid.len());
                    assert(forall|q: int|
                        0 <= q < pages_mid.len() && q != cur_page ==> self.pages@[q]
                            == #[trigger] pages_mid[q]);
                    assert(self.pages@.take(cur_page as int) =~= pages_mid.take(cur_page as int));
                    assert(np.columns@.len() == opg.columns@.len());
                    assert(forall|c: int|
                        0 <= c < cols_len && c != col_i ==> #[trigger] np.columns@[c]
                            == opg.columns@[c]);
                    assert(newc.items@ == oldcol.items@.push(gitem));
                    // An item landing in an existing column means the row
                    // limit is not a divisor of its position, so the column
                    // count stands.
                    match k {
                        Option::None => {
                            assert(gi >= 1);
                            assert(np.columns@.len() == spec_ncols(gi + 1, k));
                        },
                        Option::Some(kk) => {
                            let kkk = kk as int;
                            if gi == 0 {
                                assert(cols_len == 0);
                                assert(false);
                            }
                            assert(gi % kkk != 0);
                            assert(col_i as int == (gi - 1) / kkk);
                            assert(np.columns@.len() == spec_ncols(gi + 1, k));
                        },
                    }
                    // Other columns keep their lengths, entries and widths.
                    assert forall|c: int| 0 <= c < cols_len && c != col_i implies spec_col_len(
                        gi + 1,
                        k,
                        c,
                    ) == spec_col_len(gi, k, c) && col_entries(take_i1, k, c) =~= col_entries(
                        take_i,
                        k,
                        c,
                    ) by {
                        match k {
                            Option::Some(kk) => {
                                let kkk = kk as int;
                                assert(c < col_i);
                                assert(c * kkk + kkk <= gi) by (nonlinear_arith)
                                    requires
                                        0 <= c,
                                        c < col_i as int,
                                        kkk >= 1,
                                        gi == kkk * (gi / kkk) + gi % kkk,
                                        gi % kkk >= 0,
                                        col_i as int == gi / kkk,
                                ;
                            },
                            Option::None => {},
                        }
                    }
                    // The grown column gains exactly the new entry.
                    assert(col_entries(take_i1, k, col_i as int).drop_last() =~= col_entries(
                        take_i,
                        k,
                        col_i as int,
                    ) && col_entries(take_i1, k, col_i as int).last() == e && spec_col_len(
                        gi + 1,
                        k,
                        col_i as int,
                    ) == spec_col_len(gi, k, col_i as int) + 1) by {
                        match k {
                            Option::Some(kk) => {
                                let kkk = kk as int;
                                assert(gi == kkk * col_i + gi % kkk);
                                assert(col_i as int * kkk == gi - gi % kkk) by (nonlinear_arith)
                                    requires
                                        gi == kkk * (col_i as int) + gi % kkk,
                                ;
                            },
                            Option::None => {},
                        }
                    }
                    assert(max_key_width(col_entries(take_i1, k, col_i as int)) == max(
                        max_key_width(col_entries(take_i, k, col_i as int)),
                        entry_key_ext(e).width as int,
                    ));
                    assert(max_desc_width(col_entries(take_i1, k, col_i as int)) == max(
                        max_desc_width(col_entries(take_i, k, col_i as int)),
                        entry_desc_ext(e).width as int,
                    ));
                    // Item placement: the new entry sits at the first free
                    // row of its column, and nothing else moved.
                    assert(spec_col_of(gi, k) == col_i as int);
                    assert(spec_row_of(gi, k) == oldcol.items@.len() as int) by {
                        match k {
                            Option::Some(kk) => {
                                let kkk = kk as int;
                                assert(col_i as int * kkk == gi - gi % kkk) by (nonlinear_arith)
                                    requires
                                        gi == kkk * (col_i as int) + gi % kkk,
                                ;
                            },
                            Option::None => {},
                        }
                    }
                    assert(item_at(np, gi, k) == gitem);
                    assert forall|i: int| 0 <= i < gi implies #[trigger] item_at(np, i, k)
                        == item_at(opg, i, k) by {
                        match k {
                            Option::Some(kk) => {
                                vstd::arithmetic::div_mod::lemma_div_is_ordered(
                                    i,
                                    gi - 1,
                                    kk as int,
                                );
                                if spec_col_of(i, k) == col_i as int {
                                    vstd::arithmetic::div_mod::lemma_fundamental_div_mod(
                                        i,
                                        kk as int,
                                    );
                                    vstd::arithmetic::div_mod::lemma_fundamental_div_mod(
                                        gi,
                                        kk as int,
                                    );
                                    vstd::arithmetic::div_mod::lemma_mod_division_less_than_divisor(
                                        i,
                                        kk as int,
                                    );
                                    assert(spec_row_of(i, k) < oldcol.items@.len());
                                }
                            },
                            Option::None => {},
                        }
                    }
                    assert forall|i: int| 0 <= i < gi + 1 implies item_action_ok(
                        #[trigger] item_at(np, i, k),
                        es[i],
                        self.pages@,
                        cur_page as int,
                        k,
                        sepg,
                    ) by {
                        lemma_item_action_agree(
                            item_at(np, i, k),
                            es[i],
                            pages_mid,
                            self.pages@,
                            cur_page as int,
                            k,
                            sepg,
                        );
                    }
                    assert(action_in_bounds(gitem.action, self.pages@.len() as int)) by {
                        match es[gi] {
                            Entry::Cmd { .. } => {},
                            Entry::Recursive { .. } => {},
                        }
                    }
                    // Assemble the per-column facts of the grown page.
                    assert forall|c: int| 0 <= c < np.columns@.len() implies {
                        &&& (#[trigger] np.columns@[c]).items@.len() == spec_col_len(gi + 1, k, c)
                        &&& np.columns@[c].key_col_width as int == max_key_width(
                            col_entries(take_i1, k, c),
                        )
                        &&& np.columns@[c].val_col_width as int == max_desc_width(
                            col_entries(take_i1, k, c),
                        )
                    } by {
                        assert(opg.columns@[c].items@.len() == spec_col_len(gi, k, c));
                        assert(opg.columns@[c].key_col_width as int == max_key_width(
                            col_entries(take_i, k, c),
                        ));
                        assert(opg.columns@[c].val_col_width as int == max_desc_width(
                            col_entries(take_i, k, c),
                        ));
                        if c != col_i {
                            assert(np.columns@[c] == opg.columns@[c]);
                        } else {
                            assert(np.columns@[c] == newc);
                        }
                    }
                    assert forall|c: int, ii: int|
                        0 <= c < np.columns@.len() && 0 <= ii < np.columns@[c].items@.len() implies
                        action_in_bounds(
                        (#[trigger] np.columns@[c].items@[ii]).action,
                        self.pages@.len() as int,
                    ) && np.columns@[c].items@[ii].key_ext.width <= np.columns@[c].key_col_width
                        && np.columns@[c].items@[ii].desc_ext.width
                        <= np.columns@[c].val_col_width by {
                        if c != col_i {
                            assert(np.columns@[c] == opg.columns@[c]);
                            assert(action_in_bounds(
                                opg.columns@[c].items@[ii].action,
                                pages_mid.len() as int,
                            ));
                            assert(opg.columns@[c].items@[ii].key_ext.width
                                <= opg.columns@[c].key_col_width);
                        } else {
                            assert(np.columns@[c] == newc);
                            if ii < oldcol.items@.len() {
                                assert(newc.items@[ii] == oldcol.items@[ii]);
                                assert(action_in_bounds(
                                    oldcol.items@[ii].action,
                                    pages_mid.len() as int,
                                ));
                                assert(oldcol.items@[ii].key_ext.width <= oldcol.key_col_width);
                                assert(oldcol.items@[ii].desc_ext.width <= oldcol.val_col_width);
                            } else {
                                assert(np.columns@[c].items@[ii] == gitem);
                            }
                        }
                    }
                }
            }
            entry_i = entry_i + 1;
        }
        proof {
            assert(es.take(n as int) =~= es);
            let pages = self.pages@;
            let p = cur_page as int;
            assert(spec_ncols(n as int, k) >= 1) by {
                match k {
                    Option::Some(kk) => {
                        vstd::arithmetic::div_mod::lemma_div_pos_is_pos(n - 1, kk as int);
                    },
                    Option::None => {},
                }
            }
            assert(page_shape(pages, p, es, parent, k, sepg));
            assert(page_represents(pages, p, es, parent, k, sepg));
            assert(page_wf(pages[p], pages.len() as int));
        }
        Ok(cur_page)
    }

    /// Builds the menu: one page per level of the entry tree, depth-first in
    /// entry order, the root level first.  Succeeds exactly when the root
    /// sequence is non-empty and no sub-level anywhere is empty; otherwise
    /// nothing but `EmptyPage` can come back.
    pub fn new(entries: &Vec<Entry>, cfg: &MenuConfig) -> (r: Result<Menu, ConfigError>)
        requires
            cfg.rows_ok(),
        ensures
            match r {
                Ok(m) => {
                    &&& m.wf()
                    &&& m.cur_page == 0
                    &&& m.separator == cfg.separator_ext
                    &&& m.separator_text@ == cfg.separator@
                    &&& entries@.len() > 0
                    &&& entries_wf(entries@)
                    &&& page_represents(
                        m.pages@,
                        0,
                        entries@,
                        Option::None,
                        cfg.rows_per_column,
                        cfg.separator_ext,
                    )
                },
                Err(e) => (e matches ConfigError::EmptyPage) && !(entries@.len() > 0
                    && entries_wf(entries@)),
            },
    {
        let mut this = Menu {
            pages: Vec::new(),
            cur_page: 0,
            separator: cfg.separator_ext,
            separator_text: cfg.separator.clone(),
        };
        match this.push_page(entries, cfg.rows_per_column, Option::None) {
            Ok(_) => Ok(this),
            Err(e) => Err(e),
        }
    }

    /// Makes the page with this index the one shown.
    pub fn set_page(&mut self, page: usize)
        requires
            (page as int) < old(self).pages@.len(),
        ensures
            final(self).cur_page == page,
            final(self).pages@ == old(self).pages@,
            final(self).separator == old(self).separator,
            final(self).separator_text == old(self).separator_text,
    {
        self.cur_page = page;
    }
}

/// The action of the first item in these items, in order, whose binding has
/// this chord.
pub open spec fn items_first_match(items: Seq<MenuItem>, modifiers: ModifierState, sym: u32) -> Option<
    Action,
>
    decreases items.len(),
{
    if items.len() == 0 {
        Option::None
    } else if spec_key_matches(items[0].key@, modifiers, sym) {
        Option::Some(items[0].action)
    } else {
        items_first_match(items.skip(1), modifiers, sym)
    }
}

/// The action of the first matching item in column-then-row order.
pub open spec fn cols_first_match(
    cols: Seq<MenuColumn>,
    modifiers: ModifierState,
    sym: u32,
) -> Option<Action>
    decreases cols.len(),
{
    if cols.len() == 0 {
        Option::None
    } else {
        match items_first_match(cols[0].items@, modifiers, sym) {
            Option::Some(a) => Option::Some(a),
            Option::None => cols_first_match(cols.skip(1), modifiers, sym),
        }
    }
}

/// The matching step of resolution: the first item of the page, scanned
/// column by column and within a column row by row, whose binding has the
/// chord.  The built-in fallbacks are not part of this step.
pub open spec fn spec_match_action(page: MenuPage, modifiers: ModifierState, sym: u32) -> Option<
    Action,
> {
    cols_first_match(page.columns@, modifiers, sym)
}

/// The built-in fallbacks, tried in order once no item matches: escape
/// always quits; `ctrl+[` and `ctrl+g` quit; backspace goes to the parent
/// page when there is one.
pub open spec fn spec_fallback_action(page: MenuPage, modifiers: ModifierState, sym: u32) -> Option<
    Action,
> {
    if sym == KEYSYM_ESCAPE {
        Option::Some(Action::Quit)
    } else if (sym == KEYSYM_BRACKET_LEFT || sym == KEYSYM_LOWER_G) && modifiers.mod_ctrl {
        Option::Some(Action::Quit)
    } else if sym == KEYSYM_BACKSPACE {
        match page.parent {
            Option::Some(pp) => Option::Some(Action::Submenu(pp)),
            Option::None => Option::None,
        }
    } else {
        Option::None
    }
}

/// What a key event resolves to on the page currently shown: the first
/// matching item's action, else a fallback, else nothing.
pub open spec fn spec_get_action(m: Menu, modifiers: ModifierState, sym: u32) -> Option<Action> {
    let page = m.pages@[m.cur_page as int];
    match spec_match_action(page, modifiers, sym) {
        Option::Some(a) => Option::Some(a),
        Option::None => spec_fallback_action(page, modifiers, sym),
    }
}

/// What a first match means: when it exists it is the action of a matching
/// item that no earlier item in the same order beats, and when there is
/// none, no item matches at all.
pub proof fn lemma_items_first_match(items: Seq<MenuItem>, modifiers: ModifierState, sym: u32)
    ensures
        match items_first_match(items, modifiers, sym) {
            Option::Some(a) => exists|i: int|
                {
                    &&& 0 <= i < items.len()
                    &&& spec_key_matches(#[trigger] items[i].key@, modifiers, sym)
                    &&& a == items[i].action
                    &&& forall|j: int|
                        0 <= j < i ==> !spec_key_matches(#[trigger] items[j].key@, modifiers, sym)
                },
            Option::None => forall|i: int|
                0 <= i < items.len() ==> !spec_key_matches(
                    #[trigger] items[i].key@,
                    modifiers,
                    sym,
                ),
        },
    decreases items.len(),
{
    if items.len() > 0 {
        if spec_key_matches(items[0].key@, modifiers, sym) {
            assert({
                &&& 0 <= 0 < items.len()
                &&& spec_key_matches(items[0].key@, modifiers, sym)
                &&& items[0].action == items[0].action
                &&& forall|j: int|
                    0 <= j < 0 ==> !spec_key_matches(#[trigger] items[j].key@, modifiers, sym)
            });
        } else {
            lemma_items_first_match(items.skip(1), modifiers, sym);
            assert(forall|j: int|
                0 <= j < items.len() - 1 ==> #[trigger] items.skip(1)[j] == items[j + 1]);
            match items_first_match(items.skip(1), modifiers, sym) {
                Option::Some(a) => {
                    let i = choose|i: int|
                        {
                            &&& 0 <= i < items.skip(1).len()
                            &&& spec_key_matches(#[trigger] items.skip(1)[i].key@, modifiers, sym)
                            &&& a == items.skip(1)[i].action
                            &&& forall|j: int|
                                0 <= j < i ==> !spec_key_matches(
                                    #[trigger] items.skip(1)[j].key@,
                                    modifiers,
                                    sym,
                                )
                        };
                    assert(spec_key_matches(items[i + 1].key@, modifiers, sym));
                    assert forall|j: int| 0 <= j < i + 1 implies !spec_key_matches(
                        #[trigger] items[j].key@,
                        modifiers,
                        sym,
                    ) by {
                        if j >= 1 {
                            assert(items.skip(1)[j - 1] == items[j]);
                            assert(!spec_key_matches(items.skip(1)[j - 1].key@, modifiers, sym));
                        }
                    }
                    assert({
                        &&& 0 <= i + 1 < items.len()
                        &&& spec_key_matches(items[i + 1].key@, modifiers, sym)
                        &&& a == items[i + 1].action
                        &&& forall|j: int|
                            0 <= j < i + 1 ==> !spec_key_matches(
                                #[trigger] items[j].key@,
                                modifiers,
                                sym,
                            )
                    });
                },
                Option::None => {
                    assert forall|i: int| 0 <= i < items.len() implies !spec_key_matches(
                        #[trigger] items[i].key@,
                        modifiers,
                        sym,
                    ) by {
                        if i >= 1 {
                            assert(items.skip(1)[i - 1] == items[i]);
                            assert(!spec_key_matches(items.skip(1)[i - 1].key@, modifiers, sym));
                        }
                    }
                },
            }
        }
    }
}

/// The column-then-row first match, characterised over the flattened scan
/// order: a found action comes from the first matching item, and a miss
/// means no item of any column matches.
pub proof fn lemma_cols_first_match(cols: Seq<MenuColumn>, modifiers: ModifierState, sym: u32)
    ensures
        match cols_first_match(cols, modifiers, sym) {
            Option::Some(a) => exists|c: int, i: int|
                {
                    &&& 0 <= c < cols.len()
                    &&& 0 <= i < cols[c].items@.len()
                    &&& spec_key_matches(#[trigger] cols[c].items@[i].key@, modifiers, sym)
                    &&& a == cols[c].items@[i].action
                    &&& forall|c2: int, i2: int|
                        0 <= c2 < cols.len() && 0 <= i2 < cols[c2].items@.len() && (c2 < c || (c2
                            == c && i2 < i)) ==> !spec_key_matches(
                            (#[trigger] cols[c2].items@[i2]).key@,
                            modifiers,
                            sym,
                        )
                },
            Option::None => forall|c: int, i: int|
                0 <= c < cols.len() && 0 <= i < cols[c].items@.len() ==> !spec_key_matches(
                    (#[trigger] cols[c].items@[i]).key@,
                    modifiers,
                    sym,
                ),
        },
    decreases cols.len(),
{
    if cols.len() > 0 {
        lemma_items_first_match(cols[0].items@, modifiers, sym);
        match items_first_match(cols[0].items@, modifiers, sym) {
            Option::Some(a) => {
                let i = choose|i: int|
                    {
                        &&& 0 <= i < cols[0].items@.len()
                        &&& spec_key_matches(#[trigger] cols[0].items@[i].key@, modifiers, sym)
                        &&& a == cols[0].items@[i].action
                        &&& forall|j: int|
                            0 <= j < i ==> !spec_key_matches(
                                #[trigger] cols[0].items@[j].key@,
                                modifiers,
                                sym,
                            )
                    };
                assert({
                    &&& 0 <= 0 < cols.len()
                    &&& 0 <= i < cols[0].items@.len()
                    &&& spec_key_matches(cols[0].items@[i].key@, modifiers, sym)
                    &&& a == cols[0].items@[i].action
                    &&& forall|c2: int, i2: int|
                        0 <= c2 < cols.len() && 0 <= i2 < cols[c2].items@.len() && (c2 < 0 || (c2
                            == 0 && i2 < i)) ==> !spec_key_matches(
                            (#[trigger] cols[c2].items@[i2]).key@,
                            modifiers,
                            sym,
                        )
                });
            },
            Option::None => {
                lemma_cols_first_match(cols.skip(1), modifiers, sym);
                assert(forall|c: int|
                    0 <= c < cols.len() - 1 ==> #[trigger] cols.skip(1)[c] == cols[c + 1]);
                match cols_first_match(cols.skip(1), modifiers, sym) {
                    Option::Some(a) => {
                        let (c, i) = choose|c: int, i: int|
                            {
                                &&& 0 <= c < cols.skip(1).len()
                                &&& 0 <= i < cols.skip(1)[c].items@.len()
                                &&& spec_key_matches(
                                    #[trigger] cols.skip(1)[c].items@[i].key@,
                                    modifiers,
                                    sym,
                                )
                                &&& a == cols.skip(1)[c].items@[i].action
                                &&& forall|c2: int, i2: int|
                                    0 <= c2 < cols.skip(1).len() && 0 <= i2 < cols.skip(
                                        1,
                                    )[c2].items@.len() && (c2 < c || (c2 == c && i2 < i))
                                        ==> !spec_key_matches(
                                        (#[trigger] cols.skip(1)[c2].items@[i2]).key@,
                                        modifiers,
                                        sym,
                                    )
                            };
                        assert forall|c2: int, i2: int|
                            0 <= c2 < cols.len() && 0 <= i2 < cols[c2].items@.len() && (c2 < c + 1
                                || (c2 == c + 1 && i2 < i)) implies !spec_key_matches(
                            (#[trigger] cols[c2].items@[i2]).key@,
                            modifiers,
                            sym,
                        ) by {
                            if c2 == 0 {
                                assert(!spec_key_matches(cols[0].items@[i2].key@, modifiers, sym));
                            } else {
                                assert(cols.skip(1)[c2 - 1] == cols[c2]);
                                assert(!spec_key_matches(
                                    cols.skip(1)[c2 - 1].items@[i2].key@,
                                    modifiers,
                                    sym,
                                ));
                            }
                        }
                        assert({
                            &&& 0 <= c + 1 < cols.len()
                            &&& 0 <= i < cols[c + 1].items@.len()
                            &&& spec_key_matches(cols[c + 1].items@[i].key@, modifiers, sym)
                            &&& a == cols[c + 1].items@[i].action
                            &&& forall|c2: int, i2: int|
                                0 <= c2 < cols.len() && 0 <= i2 < cols[c2].items@.len() && (c2 < c
                                    + 1 || (c2 == c + 1 && i2 < i)) ==> !spec_key_matches(
                                    (#[trigger] cols[c2].items@[i2]).key@,
                                    modifiers,
                                    sym,
                                )
                        });
                    },
                    Option::None => {
                        assert forall|c: int, i: int|
                            0 <= c < cols.len() && 0 <= i < cols[c].items@.len() implies
                            !spec_key_matches(
                            (#[trigger] cols[c].items@[i]).key@,
                            modifiers,
                            sym,
                        ) by {
                            if c >= 1 {
                                assert(cols.skip(1)[c - 1] == cols[c]);
                                assert(!spec_key_matches(
                                    cols.skip(1)[c - 1].items@[i].key@,
                                    modifiers,
                                    sym,
                                ));
                            } else {
                                assert(!spec_key_matches(cols[0].items@[i].key@, modifiers, sym));
                            }
                        }
                    },
                }
            },
        }
    }
}

impl Menu {
    /// The matching step only: scans the current page's items in
    /// column-then-row order and returns the first item whose binding has
    /// exactly this chord.
    fn match_action(&self, modifiers: ModifierState, sym: u32) -> (r: Option<Action>)
        requires
            self.wf(),
        ensures
            r == spec_match_action(self.pages@[self.cur_page as int], modifiers, sym),
            match r {
                Option::Some(a) => action_in_bounds(a, self.pages@.len() as int),
                Option::None => true,
            },
    {
        let page = &self.pages[self.cur_page];
        let ncols = page.columns.len();
        let mut ci: usize = 0;
        proof {
            assert(page.columns@.skip(0) =~= page.columns@);
        }
        while ci < ncols
            invariant
                self.wf(),
                page == &self.pages[self.cur_page as int],
                ncols == page.columns@.len(),
                ci <= ncols,
                cols_first_match(page.columns@, modifiers, sym) == cols_first_match(
                    page.columns@.skip(ci as int),
                    modifiers,
                    sym,
                ),
            decreases ncols - ci,
        {
            let col = &page.columns[ci];
            let nitems = col.items.len();
            let mut ii: usize = 0;
            proof {
                assert(col.items@.skip(0) =~= col.items@);
            }
            while ii < nitems
                invariant
                    self.wf(),
                    page == &self.pages[self.cur_page as int],
                    ci < ncols == page.columns@.len(),
                    cols_first_match(page.columns@, modifiers, sym) == cols_first_match(
                        page.columns@.skip(ci as int),
                        modifiers,
                        sym,
                    ),
                    col == &page.columns@[ci as int],
                    nitems == col.items@.len(),
                    ii <= nitems,
                    items_first_match(col.items@, modifiers, sym) == items_first_match(
                        col.items@.skip(ii as int),
                        modifiers,
                        sym,
                    ),
                decreases nitems - ii,
            {
                proof {
                    let rest = col.items@.skip(ii as int);
                    assert(rest[0] == col.items@[ii as int]);
                    assert(rest.skip(1) =~= col.items@.skip(ii + 1));
                }
                let it = &col.items[ii];
                if it.key.matches(sym, modifiers) {
                    proof {
                        let rest_cols = page.columns@.skip(ci as int);
                        assert(rest_cols[0] == page.columns@[ci as int]);
                        assert(items_first_match(col.items@, modifiers, sym) == Option::Some(
                            it.action,
                        ));
                        assert(cols_first_match(rest_cols, modifiers, sym) == Option::Some(
                            it.action,
                        ));
                        assert(page_wf(self.pages@[self.cur_page as int], self.pages@.len() as int));
                        assert(action_in_bounds(it.action, self.pages@.len() as int));
                    }
                    return Option::Some(it.action.clone());
                }
                ii = ii + 1;
            }
            proof {
                assert(col.items@.skip(nitems as int) =~= Seq::<MenuItem>::empty());
                let rest = page.columns@.skip(ci as int);
                assert(rest[0] == page.columns@[ci as int]);
                assert(rest.skip(1) =~= page.columns@.skip(ci + 1));
            }
            ci = ci + 1;
        }
        proof {
            assert(page.columns@.skip(ncols as int) =~= Seq::<MenuColumn>::empty());
        }
        Option::None
    }

    /// Resolves a chord on the page currently shown: the first matching
    /// item's action; failing that, the built-in fallbacks (escape quits,
    /// `ctrl+[` and `ctrl+g` quit, backspace goes up when a parent exists);
    /// failing those, nothing, and the event is ignored.
    pub fn get_action(&self, modifiers: ModifierState, sym: u32) -> (r: Option<Action>)
        requires
            self.wf(),
        ensures
            r == spec_get_action(*self, modifiers, sym),
            match r {
                Option::Some(a) => action_in_bounds(a, self.pages@.len() as int),
                Option::None => true,
            },
    {
        let found = self.match_action(modifiers, sym);
        match found {
            Option::Some(a) => {
                return Option::Some(a);
            },
            Option::None => {},
        }
        if sym == KEYSYM_ESCAPE {
            return Option::Some(Action::Quit);
        }
        if (sym == KEYSYM_BRACKET_LEFT || sym == KEYSYM_LOWER_G) && modifiers.mod_ctrl {
            return Option::Some(Action::Quit);
        }
        if sym == KEYSYM_BACKSPACE {
            match self.pages[self.cur_page].parent {
                Option::Some(pp) => {
                    proof {
                        assert(page_wf(
                            self.pages@[self.cur_page as int],
                            self.pages@.len() as int,
                        ));
                    }
                    return Option::Some(Action::Submenu(pp));
                },
                Option::None => {},
            }
        }
        Option::None
    }
}

/// How the column of item `i` relates to the column of item `i - 1`: it is
/// the same column, or, exactly when `i` is a multiple of the row limit, the
/// next one.
proof fn lemma_col_step(i: int, kk: int)
    requires
        i >= 1,
        kk >= 1,
    ensures
        0 <= i % kk < kk,
        i == kk * (i / kk) + (i % kk),
        i / kk >= 0,
        (i % kk == 0) ==> (i / kk == (i - 1) / kk + 1 && i == kk * (i / kk)),
        (i % kk != 0) ==> (i / kk == (i - 1) / kk && (i - 1) % kk == i % kk - 1),
{
    vstd::arithmetic::div_mod::lemma_fundamental_div_mod(i, kk);
    vstd::arithmetic::div_mod::lemma_mod_division_less_than_divisor(i, kk);
    vstd::arithmetic::div_mod::lemma_div_pos_is_pos(i, kk);
    let q = i / kk;
    let r = i % kk;
    if r == 0 {
        assert(kk * (q - 1) == kk * q - kk) by (nonlinear_arith);
        assert(i - 1 == (q - 1) * kk + (kk - 1)) by (nonlinear_arith)
            requires
                i == kk * q,
                kk * (q - 1) == kk * q - kk,
        ;
        vstd::arithmetic::div_mod::lemma_fundamental_div_mod_converse(i - 1, kk, q - 1, kk - 1);
    } else {
        assert(i - 1 == q * kk + (r - 1)) by (nonlinear_arith)
            requires
                i == kk * q + r,
        ;
        vstd::arithmetic::div_mod::lemma_fundamental_div_mod_converse(i - 1, kk, q, r - 1);
    }
}

/// A page's representation of an entry sequence only reads the pages from
/// its own index upward, so it survives changes below that index and
/// appends beyond the end.
proof fn lemma_represents_agree(
    pages1: Seq<MenuPage>,
    pages2: Seq<MenuPage>,
    p: int,
    es: Seq<Entry>,
    parent: Option<usize>,
    k: Option<usize>,
    sep: TextExtent,
)
    requires
        page_represents(pages1, p, es, parent, k, sep),
        pages2.len() >= pages1.len(),
        forall|q: int| p <= q < pages1.len() ==> pages2[q] == pages1[q],
    ensures
        page_represents(pages2, p, es, parent, k, sep),
    decreases es,
{
    assert(pages2[p] == pages1[p]);
    assert(page_shape(pages2, p, es, parent, k, sep));
    assert forall|i: int| 0 <= i < es.len() implies item_base(
        #[trigger] item_at(pages2[p], i, k),
        es[i],
    ) by {
        assert(item_base(item_at(pages1[p], i, k), es[i]));
    }
    assert forall|i: int| 0 <= i < es.len() implies item_action_ok(
        #[trigger] item_at(pages2[p], i, k),
        es[i],
        pages2,
        p,
        k,
        sep,
    ) by {
        assert(item_action_ok(item_at(pages1[p], i, k), es[i], pages1, p, k, sep));
        lemma_item_action_agree(item_at(pages1[p], i, k), es[i], pages1, pages2, p, k, sep);
    }
}

/// The action side of an item's representation survives the same page
/// changes as [`lemma_represents_agree`].
proof fn lemma_item_action_agree(
    item: MenuItem,
    e: Entry,
    pages1: Seq<MenuPage>,
    pages2: Seq<MenuPage>,
    p: int,
    k: Option<usize>,
    sep: TextExtent,
)
    requires
        item_action_ok(item, e, pages1, p, k, sep),
        pages2.len() >= pages1.len(),
        forall|q: int| p < q < pages1.len() ==> pages2[q] == pages1[q],
    ensures
        item_action_ok(item, e, pages2, p, k, sep),
    decreases e,
{
    match e {
        Entry::Cmd { .. } => {},
        Entry::Recursive { submenu, .. } => {
            match item.action {
                Action::Submenu(q) => {
                    lemma_represents_agree(
                        pages1,
                        pages2,
                        q as int,
                        submenu@,
                        Option::Some(p as usize),
                        k,
                        sep,
                    );
                },
                _ => {},
            }
        },
    }
}

/// A structurally sound page stays sound when the collection only grows.
proof fn lemma_page_wf_mono(page: MenuPage, n1: int, n2: int)
    requires
        page_wf(page, n1),
        n2 >= n1,
    ensures
        page_wf(page, n2),
{
    assert forall|c: int, i: int|
        0 <= c < page.columns@.len() && 0 <= i < page.columns@[c].items@.len() implies
        action_in_bounds((#[trigger] page.columns@[c].items@[i]).action, n2) by {
        assert(action_in_bounds(page.columns@[c].items@[i].action, n1));
    }
}

/// Clamps a mathematical pixel value to what a `u64` can carry.
pub open spec fn sat64(x: int) -> int {
    if x > u64::MAX as int {
        u64::MAX as int
    } else {
        x
    }
}

/// The summed width of the columns: each contributes its two text columns
/// and one separator glyph.
pub open spec fn spec_cols_width_sum(cols: Seq<MenuColumn>, sep_w: int) -> int
    decreases cols.len(),
{
    if cols.len() == 0 {
        0
    } else {
        spec_cols_width_sum(cols.drop_last(), sep_w) + cols.last().key_col_width
            + cols.last().val_col_width + sep_w
    }
}

/// The row count of the page's tallest column.
pub open spec fn spec_max_col_items(cols: Seq<MenuColumn>) -> int
    decreases cols.len(),
{
    if cols.len() == 0 {
        0
    } else {
        max(spec_max_col_items(cols.drop_last()), cols.last().items@.len() as int)
    }
}

/// The page's width: every column's texts and separator, the padding
/// between consecutive columns, and the padding and border on both sides.
pub open spec fn spec_page_width(page: MenuPage, cfg: MenuConfig, sep: TextExtent) -> int {
    spec_cols_width_sum(page.columns@, sep.width as int) + (page.columns@.len() - 1)
        * (spec_column_padding(cfg) as int) + 2 * (spec_padding(cfg) + cfg.border_width)
}

/// The page's height: the row height times the tallest column's row count,
/// plus the padding and border on both sides.
pub open spec fn spec_page_height(page: MenuPage, cfg: MenuConfig) -> int {
    (page.item_height as int) * spec_max_col_items(page.columns@) + 2 * (spec_padding(cfg)
        + cfg.border_width)
}

/// `a + b`, stopping at the largest pixel value instead of wrapping.
pub(crate) fn sat_add(a: u64, b: u64) -> (r: u64)
    ensures
        r as int == sat64(a + b),
{
    a.saturating_add(b)
}

/// `a * b`, stopping at the largest pixel value instead of wrapping.
pub(crate) fn sat_mul(a: u64, b: u64) -> (r: u64)
    ensures
        r as int == sat64(a * b),
{
    match a.checked_mul(b) {
        Option::Some(v) => v,
        Option::None => u64::MAX,
    }
}

impl Menu {
    /// The pixel width the page currently shown needs, clamped to `u64`.
    pub fn width(&self, cfg: &MenuConfig) -> (r: u64)
        requires
            self.wf(),
        ensures
            r as int == sat64(spec_page_width(self.pages@[self.cur_page as int], *cfg, self.separator)),
    {
        let page = &self.pages[self.cur_page];
        let ncols = page.columns.len();
        let sep_w = self.separator.width;
        let mut acc: u64 = 0;
        let mut c: usize = 0;
        proof {
            assert(page.columns@.take(0) =~= Seq::<MenuColumn>::empty());
        }
        while c < ncols
            invariant
                page == &self.pages[self.cur_page as int],
                ncols == page.columns@.len(),
                sep_w == self.separator.width,
                c <= ncols,
                acc as int == sat64(spec_cols_width_sum(page.columns@.take(c as int), sep_w as int)),
                spec_cols_width_sum(page.columns@.take(c as int), sep_w as int) >= 0,
            decreases ncols - c,
        {
            let col = &page.columns[c];
            acc = sat_add(acc, sat_add(sat_add(col.key_col_width, col.val_col_width), sep_w));
            proof {
                let pre2 = page.columns@.take(c + 1);
                assert(pre2.drop_last() =~= page.columns@.take(c as int));
                assert(pre2.last() == page.columns@[c as int]);
            }
            c = c + 1;
        }
        proof {
            assert(page.columns@.take(ncols as int) =~= page.columns@);
        }
        let pad = cfg.padding();
        let col_pad = cfg.column_padding();
        let gaps = sat_mul((ncols - 1) as u64, col_pad);
        let edge = sat_add(pad, cfg.border_width);
        let total = sat_add(sat_add(acc, gaps), sat_add(edge, edge));
        proof {
            assert((ncols - 1) as u64 as int == page.columns@.len() - 1);
        }
        total
    }

    /// The pixel height the page currently shown needs, clamped to `u64`.
    pub fn height(&self, cfg: &MenuConfig) -> (r: u64)
        requires
            self.wf(),
        ensures
            r as int == sat64(spec_page_height(self.pages@[self.cur_page as int], *cfg)),
    {
        let page = &self.pages[self.cur_page];
        let ncols = page.columns.len();
        let mut rows: usize = 0;
        let mut c: usize = 0;
        proof {
            assert(page.columns@.take(0) =~= Seq::<MenuColumn>::empty());
        }
        while c < ncols
            invariant
                page == &self.pages[self.cur_page as int],
                ncols == page.columns@.len(),
                c <= ncols,
                rows as int == spec_max_col_items(page.columns@.take(c as int)),
            decreases ncols - c,
        {
            let len = page.columns[c].items.len();
            if len > rows {
                rows = len;
            }
            proof {
                let pre2 = page.columns@.take(c + 1);
                assert(pre2.drop_last() =~= page.columns@.take(c as int));
                assert(pre2.last() == page.columns@[c as int]);
            }
            c = c + 1;
        }
        proof {
            assert(page.columns@.take(ncols as int) =~= page.columns@);
        }
        let pad = cfg.padding();
        let body = sat_mul(page.item_height, rows as u64);
        let edge = sat_add(pad, cfg.border_width);
        sat_add(body, sat_add(edge, edge))
    }

    /// Tries the chord under each candidate symbol in turn, one per keyboard
    /// layout, and returns the first resolution; the host derives the
    /// symbols by probing its layouts and restores its input state
    /// afterwards.
    pub fn get_action_any_layout(&self, modifiers: ModifierState, syms: &Vec<u32>) -> (r: Option<
        Action,
    >)
        requires
            self.wf(),
        ensures
            r == spec_first_layout_action(*self, modifiers, syms@),
            match r {
                Option::Some(a) => action_in_bounds(a, self.pages@.len() as int),
                Option::None => true,
            },
    {
        let n = syms.len();
        let mut i: usize = 0;
        proof {
            assert(syms@.skip(0) =~= syms@);
        }
        while i < n
            invariant
                self.wf(),
                n == syms@.len(),
                i <= n,
                spec_first_layout_action(*self, modifiers, syms@) == spec_first_layout_action(
                    *self,
                    modifiers,
                    syms@.skip(i as int),
                ),
            decreases n - i,
        {
            proof {
                let rest = syms@.skip(i as int);
                assert(rest[0] == syms@[i as int]);
                assert(rest.skip(1) =~= syms@.skip(i + 1));
            }
            match self.get_action(modifiers, syms[i]) {
                Option::Some(a) => {
                    return Option::Some(a);
                },
                Option::None => {},
            }
            i = i + 1;
        }
        proof {
            assert(syms@.skip(n as int) =~= Seq::<u32>::empty());
        }
        Option::None
    }
}

/// The first resolution among candidate symbols tried in order: what the
/// cross-layout fallback returns once the host has derived one symbol per
/// layout for the pressed key.
pub open spec fn spec_first_layout_action(m: Menu, modifiers: ModifierState, syms: Seq<u32>) -> Option<
    Action,
>
    decreases syms.len(),
{
    if syms.len() == 0 {
        Option::None
    } else {
        match spec_get_action(m, modifiers, syms[0]) {
            Option::Some(a) => Option::Some(a),
            Option::None => spec_first_layout_action(m, modifiers, syms.skip(1)),
        }
    }
}

/// The outcome of replaying an initial key sequence token by token against
/// the page collection `pages`, starting on page `p`.
pub enum NavOutcome {
    /// Every token was consumed: the walk ends on `page`, with the action
    /// the final token fired, if it fired one.
    Done { page: int, last: Option<Action> },
    /// A token whose base segment resolves to no symbol; `token` is that
    /// base segment.
    BadBase { page: int, token: Seq<char> },
    /// A token with an unrecognised modifier segment; `token` is that
    /// segment.
    BadModifier { page: int, token: Seq<char> },
    /// A token that matches no item on the page reached; `token` is the
    /// whole token.
    NotFound { page: int, token: Seq<char> },
    /// A token that fired a terminal action although more tokens follow;
    /// `token` is the token that fired it.
    Trailing { page: int, token: Seq<char> },
}

/// Replays tokens: a parse failure or an unmatched token stops the walk, a
/// sub-level match advances the page, and a terminal action must come from
/// the very last token.  The built-in fallbacks play no part here.
pub open spec fn spec_navigate(
    pages: Seq<MenuPage>,
    ts: Seq<Seq<char>>,
    names: Seq<NameEntry>,
    p: int,
) -> NavOutcome
    decreases ts.len(),
{
    if ts.len() == 0 {
        NavOutcome::Done { page: p, last: Option::None }
    } else {
        let t = ts[0];
        if !spec_parse_ok(t, names) {
            let segs = split_on(t, '+');
            if base_sym(segs.last(), names) is None {
                NavOutcome::BadBase { page: p, token: segs.last() }
            } else {
                NavOutcome::BadModifier {
                    page: p,
                    token: segs.drop_last()[first_bad_modifier(segs.drop_last())],
                }
            }
        } else {
            match spec_match_action(pages[p], spec_parse_mods(t, names), spec_parse_sym(t, names)) {
                Option::None => NavOutcome::NotFound { page: p, token: t },
                Option::Some(a) => match a {
                    Action::Submenu(q) => spec_navigate(pages, ts.skip(1), names, q as int),
                    _ => {
                        if ts.len() == 1 {
                            NavOutcome::Done { page: p, last: Option::Some(a) }
                        } else {
                            NavOutcome::Trailing { page: p, token: t }
                        }
                    },
                },
            }
        }
    }
}

impl Menu {
    /// Replays a whitespace-delimited sequence of key tokens before first
    /// display: each token is resolved against the page currently shown by
    /// the matching step alone, a sub-level match advances the page, and a
    /// terminal action is returned only from the final token.  A token that
    /// does not parse, matches nothing, or fires an action before the last
    /// token fails the walk, naming the token at fault; pages already
    /// entered stay entered.
    pub fn navigate_to_key_sequence(&mut self, key_sequence: &str, names: &NameTable) -> (r: Result<
        Option<Action>,
        SequenceError,
    >)
        requires
            old(self).wf(),
        ensures
            final(self).wf(),
            final(self).pages@ == old(self).pages@,
            final(self).separator == old(self).separator,
            final(self).separator_text == old(self).separator_text,
            ({
                let out = spec_navigate(
                    old(self).pages@,
                    split_ws(key_sequence@),
                    names.entries@,
                    old(self).cur_page as int,
                );
                match out {
                    NavOutcome::Done { page, last } => {
                        &&& r matches Ok(a) && a == last
                        &&& final(self).cur_page as int == page
                    },
                    NavOutcome::BadBase { page, token } => {
                        &&& r matches Err(SequenceError::InvalidKey(t)) && t@ == token
                        &&& final(self).cur_page as int == page
                    },
                    NavOutcome::BadModifier { page, token } => {
                        &&& r matches Err(SequenceError::UnknownModifier(t)) && t@ == token
                        &&& final(self).cur_page as int == page
                    },
                    NavOutcome::NotFound { page, token } => {
                        &&& r matches Err(SequenceError::InvalidSequence(t)) && t@ == token
                        &&& final(self).cur_page as int == page
                    },
                    NavOutcome::Trailing { page, token } => {
                        &&& r matches Err(SequenceError::InvalidSequence(t)) && t@ == token
                        &&& final(self).cur_page as int == page
                    },
                }
            }),
    {
        let tokens = split_ws_str(key_sequence);
        let ghost ts = split_ws(key_sequence@);
        let ghost names_g = names.entries@;
        let ghost out = spec_navigate(old(self).pages@, ts, names_g, old(self).cur_page as int);
        let ntok = tokens.len();
        let mut idx: usize = 0;
        proof {
            assert(ts.skip(0) =~= ts);
            assert forall|j: int| 0 <= j < ntok implies ts[j] == #[trigger] tokens@[j]@ by {
                assert(ts[j] == tokens@.map_values(|t: String| t@)[j]);
            }
        }
        while idx < ntok
            invariant
                self.wf(),
                ntok == tokens@.len(),
                idx <= ntok,
                ts == split_ws(key_sequence@),
                ts == tokens@.map_values(|t: String| t@),
                forall|j: int| 0 <= j < ntok ==> ts[j] == #[trigger] tokens@[j]@,
                names_g == names.entries@,
                self.pages@ == old(self).pages@,
                self.separator == old(self).separator,
                self.separator_text == old(self).separator_text,
                out == spec_navigate(old(self).pages@, ts, names_g, old(self).cur_page as int),
                out == spec_navigate(self.pages@, ts.skip(idx as int), names_g, self.cur_page as int),
            decreases ntok - idx,
        {
            let ghost rest = ts.skip(idx as int);
            proof {
                assert(rest[0] == ts[idx as int]);
                assert(rest.skip(1) =~= ts.skip(idx + 1));
            }
            let t: &String = &tokens[idx];
            match SingleKey::parse(t.as_str(), names) {
                Err(e) => {
                    let ghost ge = e;
                    proof {
                        assert(parse_fails_with(t@, names_g, ge));
                        assert(t@ != seq!['+']);
                        assert(!spec_parse_ok(t@, names_g));
                        assert(t@ == rest[0]);
                    }
                    match e {
                        ConfigError::InvalidKey(tok) => {
                            proof {
                                assert(out == (NavOutcome::BadBase {
                                    page: self.cur_page as int,
                                    token: split_on(t@, '+').last(),
                                }));
                            }
                            return Err(SequenceError::InvalidKey(tok));
                        },
                        ConfigError::UnknownModifier(tok) => {
                            proof {
                                let segs = split_on(t@, '+');
                                assert(out == (NavOutcome::BadModifier {
                                    page: self.cur_page as int,
                                    token: segs.drop_last()[first_bad_modifier(segs.drop_last())],
                                }));
                            }
                            return Err(SequenceError::UnknownModifier(tok));
                        },
                        ConfigError::EmptyPage => {
                            proof {
                                assert(false);
                            }
                            return Err(SequenceError::InvalidSequence(String::new()));
                        },
                    }
                },
                Ok(sk) => {
                    proof {
                        assert(spec_parse_ok(t@, names_g));
                        assert(sk.keysym == spec_parse_sym(t@, names_g));
                        assert(sk.modifiers == spec_parse_mods(t@, names_g));
                    }
                    let found = self.match_action(sk.modifiers, sk.keysym);
                    match found {
                        Option::None => {
                            return Err(SequenceError::InvalidSequence(t.clone()));
                        },
                        Option::Some(a) => {
                            match &a {
                                Action::Submenu(q) => {
                                    let qq: usize = *q;
                                    proof {
                                        assert(action_in_bounds(a, self.pages@.len() as int));
                                    }
                                    self.set_page(qq);
                                },
                                _ => {
                                    if idx + 1 == ntok {
                                        proof {
                                            assert(rest.len() == 1);
                                        }
                                        return Ok(Option::Some(a));
                                    } else {
                                        return Err(SequenceError::InvalidSequence(t.clone()));
                                    }
                                },
                            }
                        },
                    }
                },
            }
            idx = idx + 1;
        }
        proof {
            assert(ts.skip(ntok as int) =~= Seq::<Seq<char>>::empty());
        }
        Ok(Option::None)
    }
}

} // verus!
