//! Laws of key resolution and page layout, stated and proved once over the
//! spec model that the executable functions' contracts use.

use vstd::prelude::*;

use crate::entry::{Entry, TextExtent};
use crate::key::{spec_key_matches, ModifierState};
use crate::keysym::{KEYSYM_BACKSPACE, KEYSYM_BRACKET_LEFT, KEYSYM_ESCAPE, KEYSYM_LOWER_G};
use crate::menu::{
    col_entries, cols_first_match, item_base, item_at, lemma_cols_first_match, max_desc_width,
    max_entry_height, max_key_width, page_represents, spec_cols_width_sum, spec_col_len,
    spec_col_of, spec_get_action, spec_max_col_items, spec_ncols, spec_page_height,
    spec_page_width, spec_row_of, Action, Menu, MenuColumn, MenuConfig, MenuPage,
};

verus! {

/// Resolving an item's own chord returns that item's action, provided no
/// item earlier in column-then-row scan order also binds the chord (the
/// first match wins by design).
pub proof fn lemma_resolution_finds_item(
    m: Menu,
    modifiers: ModifierState,
    sym: u32,
    c: int,
    i: int,
)
    requires
        m.wf(),
        0 <= c < m.pages@[m.cur_page as int].columns@.len(),
        0 <= i < m.pages@[m.cur_page as int].columns@[c].items@.len(),
        spec_key_matches(
            m.pages@[m.cur_page as int].columns@[c].items@[i].key@,
            modifiers,
            sym,
        ),
        forall|c2: int, i2: int|
            0 <= c2 < m.pages@[m.cur_page as int].columns@.len() && 0 <= i2 < m.pages@[m.cur_page as int].columns@[c2].items@.len()
                && (c2 < c || (c2 == c && i2 < i)) ==> !spec_key_matches(
                (#[trigger] m.pages@[m.cur_page as int].columns@[c2].items@[i2]).key@,
                modifiers,
                sym,
            ),
    ensures
        spec_get_action(m, modifiers, sym) == Option::Some(
            m.pages@[m.cur_page as int].columns@[c].items@[i].action,
        ),
{
    let page = m.pages@[m.cur_page as int];
    let cols = page.columns@;
    lemma_cols_first_match(cols, modifiers, sym);
    match cols_first_match(cols, modifiers, sym) {
        Option::None => {
            assert(!spec_key_matches(cols[c].items@[i].key@, modifiers, sym));
        },
        Option::Some(a) => {
            let (c2, i2) = choose|c2: int, i2: int|
                {
                    &&& 0 <= c2 < cols.len()
                    &&& 0 <= i2 < cols[c2].items@.len()
                    &&& spec_key_matches(#[trigger] cols[c2].items@[i2].key@, modifiers, sym)
                    &&& a == cols[c2].items@[i2].action
                    &&& forall|c3: int, i3: int|
                        0 <= c3 < cols.len() && 0 <= i3 < cols[c3].items@.len() && (c3 < c2 || (c3
                            == c2 && i3 < i2)) ==> !spec_key_matches(
                            (#[trigger] cols[c3].items@[i3]).key@,
                            modifiers,
                            sym,
                        )
                };
            if c2 < c || (c2 == c && i2 < i) {
                assert(!spec_key_matches(cols[c2].items@[i2].key@, modifiers, sym));
            }
            if c < c2 || (c == c2 && i < i2) {
                assert(!spec_key_matches(cols[c].items@[i].key@, modifiers, sym));
            }
            assert(c2 == c && i2 == i);
        },
    }
}

/// A chord bound by no item of the current page and caught by no built-in
/// fallback resolves to nothing: the event is ignored.
pub proof fn lemma_resolution_ignores_unbound(m: Menu, modifiers: ModifierState, sym: u32)
    requires
        m.wf(),
        forall|c: int, i: int|
            0 <= c < m.pages@[m.cur_page as int].columns@.len() && 0 <= i < m.pages@[m.cur_page as int].columns@[c].items@.len()
                ==> !spec_key_matches(
                (#[trigger] m.pages@[m.cur_page as int].columns@[c].items@[i]).key@,
                modifiers,
                sym,
            ),
        sym != KEYSYM_ESCAPE,
        !((sym == KEYSYM_BRACKET_LEFT || sym == KEYSYM_LOWER_G) && modifiers.mod_ctrl),
        sym != KEYSYM_BACKSPACE,
    ensures
        spec_get_action(m, modifiers, sym) is None,
{
    let page = m.pages@[m.cur_page as int];
    lemma_cols_first_match(page.columns@, modifiers, sym);
    match cols_first_match(page.columns@, modifiers, sym) {
        Option::Some(a) => {
            let (c2, i2) = choose|c2: int, i2: int|
                {
                    &&& 0 <= c2 < page.columns@.len()
                    &&& 0 <= i2 < page.columns@[c2].items@.len()
                    &&& spec_key_matches(
                        #[trigger] page.columns@[c2].items@[i2].key@,
                        modifiers,
                        sym,
                    )
                    &&& a == page.columns@[c2].items@[i2].action
                };
            assert(!spec_key_matches(page.columns@[c2].items@[i2].key@, modifiers, sym));
        },
        Option::None => {},
    }
}

/// Escape resolves to quit on every page and under every modifier state,
/// whenever no item of the page claims the escape chord itself.
pub proof fn lemma_escape_always_quits(m: Menu, modifiers: ModifierState)
    requires
        m.wf(),
        forall|c: int, i: int|
            0 <= c < m.pages@[m.cur_page as int].columns@.len() && 0 <= i < m.pages@[m.cur_page as int].columns@[c].items@.len()
                ==> !spec_key_matches(
                (#[trigger] m.pages@[m.cur_page as int].columns@[c].items@[i]).key@,
                modifiers,
                KEYSYM_ESCAPE,
            ),
    ensures
        spec_get_action(m, modifiers, KEYSYM_ESCAPE) == Option::Some(Action::Quit),
{
    let page = m.pages@[m.cur_page as int];
    lemma_cols_first_match(page.columns@, modifiers, KEYSYM_ESCAPE);
    match cols_first_match(page.columns@, modifiers, KEYSYM_ESCAPE) {
        Option::Some(a) => {
            let (c2, i2) = choose|c2: int, i2: int|
                {
                    &&& 0 <= c2 < page.columns@.len()
                    &&& 0 <= i2 < page.columns@[c2].items@.len()
                    &&& spec_key_matches(
                        #[trigger] page.columns@[c2].items@[i2].key@,
                        modifiers,
                        KEYSYM_ESCAPE,
                    )
                    &&& a == page.columns@[c2].items@[i2].action
                };
            assert(!spec_key_matches(page.columns@[c2].items@[i2].key@, modifiers, KEYSYM_ESCAPE));
        },
        Option::None => {},
    }
}

/// Backspace resolves to the parent page exactly when the current page has
/// one, and to nothing on the root page, whenever no item of the page
/// claims the backspace chord itself.
pub proof fn lemma_backspace_iff_parent(m: Menu, modifiers: ModifierState)
    requires
        m.wf(),
        forall|c: int, i: int|
            0 <= c < m.pages@[m.cur_page as int].columns@.len() && 0 <= i < m.pages@[m.cur_page as int].columns@[c].items@.len()
                ==> !spec_key_matches(
                (#[trigger] m.pages@[m.cur_page as int].columns@[c].items@[i]).key@,
                modifiers,
                KEYSYM_BACKSPACE,
            ),
    ensures
        spec_get_action(m, modifiers, KEYSYM_BACKSPACE) == (match m.pages@[m.cur_page as int].parent {
            Option::Some(pp) => Option::Some(Action::Submenu(pp)),
            Option::None => Option::None,
        }),
{
    let page = m.pages@[m.cur_page as int];
    lemma_cols_first_match(page.columns@, modifiers, KEYSYM_BACKSPACE);
    match cols_first_match(page.columns@, modifiers, KEYSYM_BACKSPACE) {
        Option::Some(a) => {
            let (c2, i2) = choose|c2: int, i2: int|
                {
                    &&& 0 <= c2 < page.columns@.len()
                    &&& 0 <= i2 < page.columns@[c2].items@.len()
                    &&& spec_key_matches(
                        #[trigger] page.columns@[c2].items@[i2].key@,
                        modifiers,
                        KEYSYM_BACKSPACE,
                    )
                    &&& a == page.columns@[c2].items@[i2].action
                };
            assert(!spec_key_matches(
                page.columns@[c2].items@[i2].key@,
                modifiers,
                KEYSYM_BACKSPACE,
            ));
        },
        Option::None => {},
    }
}

/// Column placement: on a page laying out `es`, the entry at zero-based
/// position `i` lands in column `i / k` at row `i % k` when a row limit `k`
/// is set, and in column zero at row `i` when none is.
pub proof fn lemma_column_placement(
    pages: Seq<MenuPage>,
    p: int,
    es: Seq<Entry>,
    parent: Option<usize>,
    k: Option<usize>,
    sep: TextExtent,
    i: int,
)
    requires
        page_represents(pages, p, es, parent, k, sep),
        0 <= i < es.len(),
    ensures
        match k {
            Option::Some(kk) => spec_col_of(i, k) == i / (kk as int) && spec_row_of(i, k) == i % (
            kk as int),
            Option::None => spec_col_of(i, k) == 0 && spec_row_of(i, k) == i,
        },
        item_base(
            pages[p].columns@[spec_col_of(i, k)].items@[spec_row_of(i, k)],
            es[i],
        ),
{
    assert(item_base(item_at(pages[p], i, k), es[i]));
}

proof fn lemma_max_widths_prefix(s: Seq<Entry>, m: int)
    requires
        0 <= m <= s.len(),
    ensures
        max_key_width(s.take(m)) <= max_key_width(s),
        max_desc_width(s.take(m)) <= max_desc_width(s),
        max_entry_height(s.take(m)) <= max_entry_height(s),
    decreases s.len(),
{
    if m == s.len() {
        assert(s.take(m) =~= s);
    } else {
        lemma_max_widths_prefix(s.drop_last(), m);
        assert(s.drop_last().take(m) =~= s.take(m));
    }
}

proof fn lemma_cols_sum_le(cols1: Seq<MenuColumn>, cols2: Seq<MenuColumn>, sep_w: int)
    requires
        sep_w >= 0,
        cols1.len() <= cols2.len(),
        forall|c: int|
            0 <= c < cols1.len() ==> (#[trigger] cols1[c]).key_col_width <= cols2[c].key_col_width
                && cols1[c].val_col_width <= cols2[c].val_col_width,
    ensures
        spec_cols_width_sum(cols1, sep_w) <= spec_cols_width_sum(cols2, sep_w),
        spec_cols_width_sum(cols1, sep_w) >= 0,
    decreases cols2.len(),
{
    if cols2.len() == 0 {
    } else if cols1.len() == cols2.len() {
        assert(forall|c: int|
            0 <= c < cols1.len() - 1 ==> #[trigger] cols1.drop_last()[c] == cols1[c]);
        assert(forall|c: int|
            0 <= c < cols2.len() - 1 ==> #[trigger] cols2.drop_last()[c] == cols2[c]);
        lemma_cols_sum_le(cols1.drop_last(), cols2.drop_last(), sep_w);
        assert(cols1.last() == cols1[cols1.len() - 1]);
        assert(cols2.last() == cols2[cols2.len() - 1]);
    } else {
        assert(forall|c: int|
            0 <= c < cols2.len() - 1 ==> #[trigger] cols2.drop_last()[c] == cols2[c]);
        lemma_cols_sum_le(cols1, cols2.drop_last(), sep_w);
    }
}

proof fn lemma_max_col_items_le(cols1: Seq<MenuColumn>, cols2: Seq<MenuColumn>)
    requires
        cols1.len() <= cols2.len(),
        forall|c: int|
            0 <= c < cols1.len() ==> (#[trigger] cols1[c]).items@.len() <= cols2[c].items@.len(),
    ensures
        spec_max_col_items(cols1) <= spec_max_col_items(cols2),
        spec_max_col_items(cols1) >= 0,
        spec_max_col_items(cols2) >= 0,
    decreases cols2.len(),
{
    if cols2.len() == 0 {
    } else if cols1.len() == cols2.len() {
        assert(forall|c: int|
            0 <= c < cols1.len() - 1 ==> #[trigger] cols1.drop_last()[c] == cols1[c]);
        assert(forall|c: int|
            0 <= c < cols2.len() - 1 ==> #[trigger] cols2.drop_last()[c] == cols2[c]);
        lemma_max_col_items_le(cols1.drop_last(), cols2.drop_last());
        assert(cols1.last() == cols1[cols1.len() - 1]);
        assert(cols2.last() == cols2[cols2.len() - 1]);
    } else {
        assert(forall|c: int|
            0 <= c < cols2.len() - 1 ==> #[trigger] cols2.drop_last()[c] == cols2[c]);
        lemma_max_col_items_le(cols1, cols2.drop_last());
    }
}

/// Growing a page never shrinks it: a page laying out one entry more than
/// another, everything else equal, computes a width and height at least as
/// large.
pub proof fn lemma_geometry_monotonic(
    pages1: Seq<MenuPage>,
    p1: int,
    pages2: Seq<MenuPage>,
    p2: int,
    es: Seq<Entry>,
    e: Entry,
    parent1: Option<usize>,
    parent2: Option<usize>,
    k: Option<usize>,
    sep: TextExtent,
    cfg: MenuConfig,
)
    requires
        match k {
            Option::Some(kk) => kk > 0,
            Option::None => true,
        },
        page_represents(pages1, p1, es, parent1, k, sep),
        page_represents(pages2, p2, es.push(e), parent2, k, sep),
    ensures
        spec_page_width(pages1[p1], cfg, sep) <= spec_page_width(pages2[p2], cfg, sep),
        spec_page_height(pages1[p1], cfg) <= spec_page_height(pages2[p2], cfg),
{
    let pg1 = pages1[p1];
    let pg2 = pages2[p2];
    let n = es.len() as int;
    let es2 = es.push(e);
    assert(es2.drop_last() =~= es);
    // The column count never shrinks.
    match k {
        Option::Some(kk) => {
            vstd::arithmetic::div_mod::lemma_div_is_ordered(n - 1, n, kk as int);
        },
        Option::None => {},
    }
    assert(spec_ncols(n, k) <= spec_ncols(n + 1, k));
    // Column by column, lengths and widths never shrink.
    assert forall|c: int| 0 <= c < pg1.columns@.len() implies {
        &&& (#[trigger] pg1.columns@[c]).key_col_width <= pg2.columns@[c].key_col_width
        &&& pg1.columns@[c].val_col_width <= pg2.columns@[c].val_col_width
        &&& pg1.columns@[c].items@.len() <= pg2.columns@[c].items@.len()
    } by {
        match k {
            Option::Some(kk) => {
                let kkk = kk as int;
                vstd::arithmetic::mul::lemma_mul_nonnegative(c, kkk);
                let start = c * kkk;
                let len1 = spec_col_len(n, k, c);
                let len2 = spec_col_len(n + 1, k, c);
                vstd::arithmetic::div_mod::lemma_fundamental_div_mod(n - 1, kkk);
                vstd::arithmetic::div_mod::lemma_mod_division_less_than_divisor(n - 1, kkk);
                vstd::arithmetic::mul::lemma_mul_inequality(c, (n - 1) / kkk, kkk);
                vstd::arithmetic::mul::lemma_mul_is_commutative((n - 1) / kkk, kkk);
                assert(start <= n - 1);
                assert(1 <= len1 <= len2);
                assert(col_entries(es2, k, c).take(len1) =~= col_entries(es, k, c));
                lemma_max_widths_prefix(col_entries(es2, k, c), len1);
            },
            Option::None => {
                assert(es2.take(n) =~= es);
                lemma_max_widths_prefix(es2, n);
            },
        }
    }
    lemma_cols_sum_le(pg1.columns@, pg2.columns@, sep.width as int);
    lemma_max_col_items_le(pg1.columns@, pg2.columns@);
    // The row height never shrinks.
    assert(max_entry_height(es) <= max_entry_height(es2));
    assert(pg1.item_height <= pg2.item_height);
    // Width: the gap term grows with the column count.
    vstd::arithmetic::mul::lemma_mul_inequality(
        pg1.columns@.len() - 1,
        pg2.columns@.len() - 1,
        spec_column_padding_int(cfg),
    );
    // Height: both product factors grow.
    let rows1 = spec_max_col_items(pg1.columns@);
    let rows2 = spec_max_col_items(pg2.columns@);
    vstd::arithmetic::mul::lemma_mul_inequality(rows1, rows2, pg1.item_height as int);
    vstd::arithmetic::mul::lemma_mul_is_commutative(rows1, pg1.item_height as int);
    vstd::arithmetic::mul::lemma_mul_is_commutative(rows2, pg1.item_height as int);
    vstd::arithmetic::mul::lemma_mul_inequality(
        pg1.item_height as int,
        pg2.item_height as int,
        rows2,
    );
    vstd::arithmetic::mul::lemma_mul_is_commutative(pg1.item_height as int, rows2);
    vstd::arithmetic::mul::lemma_mul_is_commutative(pg2.item_height as int, rows2);
}

/// The inter-column padding as a mathematical integer.
pub open spec fn spec_column_padding_int(cfg: MenuConfig) -> int {
    crate::menu::spec_column_padding(cfg) as int
}

} // verus!
