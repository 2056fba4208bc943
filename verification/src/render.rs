//! The rendering adapter: turns the page currently shown into an ordered
//! list of draw instructions.
//!
//! Each item produces three instructions: its binding text right-aligned in
//! the key column, the separator glyph, and the description.  The host draws
//! each text at `(x, y)` vertically centred in a box of height `box_height`
//! and needs nothing else of the menu model.  Every coordinate is clamped to
//! `u64` the same way the page geometry is.

use vstd::prelude::*;

use crate::entry::TextExtent;
use crate::menu::{
    page_wf, sat64, sat_add, sat_mul, spec_column_padding, spec_padding, Menu, MenuColumn,
    MenuConfig, MenuItem,
};

verus! {

/// One draw instruction for the host.
#[derive(Debug)]
pub struct RenderCommand {
    pub text: String,
    pub x: u64,
    pub y: u64,
    pub box_height: u64,
}

/// The mathematical shadow of a draw instruction.
pub struct RenderCommandModel {
    pub text: Seq<char>,
    pub x: int,
    pub y: int,
    pub box_height: int,
}

/// The instruction carries exactly the text and numbers of its model.
pub open spec fn rc_matches(rc: RenderCommand, m: RenderCommandModel) -> bool {
    &&& rc.text@ == m.text
    &&& rc.x as int == m.x
    &&& rc.y as int == m.y
    &&& rc.box_height as int == m.box_height
}

/// The instruction list carries exactly the texts and numbers of the model
/// list, in the same order.
pub open spec fn cmds_match(rcs: Seq<RenderCommand>, ms: Seq<RenderCommandModel>) -> bool {
    &&& rcs.len() == ms.len()
    &&& forall|j: int| 0 <= j < rcs.len() ==> rc_matches(#[trigger] rcs[j], ms[j])
}

/// The three instructions of the item at row `idx` of a column starting at
/// `dx`: the binding text right-aligned in the key column, the separator,
/// and the description, all on the row's baseline.
pub open spec fn item_cmds(
    item: MenuItem,
    sep_text: Seq<char>,
    sep: TextExtent,
    kcw: int,
    ih: int,
    dx: int,
    dy: int,
    idx: int,
) -> Seq<RenderCommandModel> {
    let y = sat64(dy + sat64(ih * idx));
    seq![
        RenderCommandModel {
            text: item.key_text@,
            x: sat64(dx + (kcw - item.key_ext.width)),
            y: y,
            box_height: ih,
        },
        RenderCommandModel { text: sep_text, x: sat64(dx + kcw), y: y, box_height: ih },
        RenderCommandModel {
            text: item.desc_text@,
            x: sat64(dx + sat64(kcw + sep.width)),
            y: y,
            box_height: ih,
        },
    ]
}

/// The instructions of a column's items, top to bottom.
pub open spec fn items_cmds(
    items: Seq<MenuItem>,
    sep_text: Seq<char>,
    sep: TextExtent,
    kcw: int,
    ih: int,
    dx: int,
    dy: int,
) -> Seq<RenderCommandModel>
    decreases items.len(),
{
    if items.len() == 0 {
        Seq::<RenderCommandModel>::empty()
    } else {
        items_cmds(items.drop_last(), sep_text, sep, kcw, ih, dx, dy) + item_cmds(
            items.last(),
            sep_text,
            sep,
            kcw,
            ih,
            dx,
            dy,
            items.len() - 1,
        )
    }
}

/// The instructions of the columns left to right, each column starting
/// where the previous one ended plus the inter-column padding.
pub open spec fn cols_cmds(
    cols: Seq<MenuColumn>,
    sep_text: Seq<char>,
    sep: TextExtent,
    colpad: int,
    ih: int,
    dx: int,
    dy: int,
) -> Seq<RenderCommandModel>
    decreases cols.len(),
{
    if cols.len() == 0 {
        Seq::<RenderCommandModel>::empty()
    } else {
        items_cmds(cols[0].items@, sep_text, sep, cols[0].key_col_width as int, ih, dx, dy)
            + cols_cmds(
            cols.skip(1),
            sep_text,
            sep,
            colpad,
            ih,
            sat64(
                dx + sat64(
                    sat64(cols[0].key_col_width + cols[0].val_col_width) + sat64(
                        sep.width + colpad,
                    ),
                ),
            ),
            dy,
        )
    }
}

/// The whole page's instruction list: columns left to right, starting after
/// the page's padding and border on both axes.
pub open spec fn spec_render_page(
    page: crate::menu::MenuPage,
    cfg: MenuConfig,
    sep: TextExtent,
    sep_text: Seq<char>,
) -> Seq<RenderCommandModel> {
    let edge = sat64(spec_padding(cfg) + cfg.border_width);
    cols_cmds(
        page.columns@,
        sep_text,
        sep,
        spec_column_padding(cfg) as int,
        page.item_height as int,
        edge,
        edge,
    )
}

impl Menu {
    /// The draw instructions for the page currently shown, in drawing
    /// order: for every column left to right and every row top to bottom,
    /// the right-aligned binding text, the separator glyph, and the
    /// description.
    pub fn render(&self, cfg: &MenuConfig) -> (r: Vec<RenderCommand>)
        requires
            self.wf(),
        ensures
            cmds_match(
                r@,
                spec_render_page(
                    self.pages@[self.cur_page as int],
                    *cfg,
                    self.separator,
                    self.separator_text@,
                ),
            ),
    {
        let page = &self.pages[self.cur_page];
        let ghost sep_text = self.separator_text@;
        let ghost sepg = self.separator;
        let ghost ihg = page.item_height as int;
        let ghost colpadg = spec_column_padding(*cfg) as int;
        let edge = sat_add(cfg.padding(), cfg.border_width);
        let dy = edge;
        let mut dx = edge;
        let mut out: Vec<RenderCommand> = Vec::new();
        let ncols = page.columns.len();
        let mut ci: usize = 0;
        let ghost full = spec_render_page(*page, *cfg, self.separator, self.separator_text@);
        let ghost mut done: Seq<RenderCommandModel> = Seq::<RenderCommandModel>::empty();
        proof {
            assert(page.columns@.skip(0) =~= page.columns@);
            assert(out@.len() == 0);
        }
        while ci < ncols
            invariant
                self.wf(),
                page == &self.pages[self.cur_page as int],
                ncols == page.columns@.len(),
                ci <= ncols,
                sep_text == self.separator_text@,
                sepg == self.separator,
                ihg == page.item_height as int,
                colpadg == spec_column_padding(*cfg) as int,
                full == spec_render_page(*page, *cfg, self.separator, self.separator_text@),
                full == done + cols_cmds(
                    page.columns@.skip(ci as int),
                    sep_text,
                    sepg,
                    colpadg,
                    ihg,
                    dx as int,
                    dy as int,
                ),
                cmds_match(out@, done),
            decreases ncols - ci,
        {
            let ghost rest = page.columns@.skip(ci as int);
            proof {
                assert(rest[0] == page.columns@[ci as int]);
                assert(rest.skip(1) =~= page.columns@.skip(ci + 1));
            }
            let col = &page.columns[ci];
            let kcw = col.key_col_width;
            let nitems = col.items.len();
            let mut ii: usize = 0;
            let ghost done_col = done;
            proof {
                assert(col.items@.take(0) =~= Seq::<MenuItem>::empty());
                assert(done + items_cmds(col.items@.take(0), sep_text, sepg, kcw as int, ihg, dx as int, dy as int) =~= done);
            }
            while ii < nitems
                invariant
                    self.wf(),
                    page == &self.pages[self.cur_page as int],
                    ci < ncols == page.columns@.len(),
                    col == &page.columns@[ci as int],
                    kcw == col.key_col_width,
                    nitems == col.items@.len(),
                    ii <= nitems,
                    sep_text == self.separator_text@,
                    sepg == self.separator,
                    ihg == page.item_height as int,
                    done == done_col + items_cmds(
                        col.items@.take(ii as int),
                        sep_text,
                        sepg,
                        kcw as int,
                        ihg,
                        dx as int,
                        dy as int,
                    ),
                    cmds_match(out@, done),
                decreases nitems - ii,
            {
                let it = &col.items[ii];
                proof {
                    assert(page_wf(self.pages@[self.cur_page as int], self.pages@.len() as int));
                    assert(it.key_ext.width <= kcw);
                }
                let y = sat_add(dy, sat_mul(page.item_height, ii as u64));
                let key_x = sat_add(dx, kcw - it.key_ext.width);
                let sep_x = sat_add(dx, kcw);
                let desc_x = sat_add(dx, sat_add(kcw, self.separator.width));
                out.push(
                    RenderCommand {
                        text: it.key_text.clone(),
                        x: key_x,
                        y,
                        box_height: page.item_height,
                    },
                );
                out.push(
                    RenderCommand {
                        text: self.separator_text.clone(),
                        x: sep_x,
                        y,
                        box_height: page.item_height,
                    },
                );
                out.push(
                    RenderCommand {
                        text: it.desc_text.clone(),
                        x: desc_x,
                        y,
                        box_height: page.item_height,
                    },
                );
                proof {
                    let pre2 = col.items@.take(ii + 1);
                    assert(pre2.drop_last() =~= col.items@.take(ii as int));
                    assert(pre2.last() == col.items@[ii as int]);
                    let trio = item_cmds(
                        col.items@[ii as int],
                        sep_text,
                        sepg,
                        kcw as int,
                        ihg,
                        dx as int,
                        dy as int,
                        ii as int,
                    );
                    done = done + trio;
                    assert(done == done_col + items_cmds(
                        pre2,
                        sep_text,
                        sepg,
                        kcw as int,
                        ihg,
                        dx as int,
                        dy as int,
                    ));
                    assert(cmds_match(out@, done));
                }
                ii = ii + 1;
            }
            proof {
                assert(col.items@.take(nitems as int) =~= col.items@);
            }
            dx = sat_add(dx, sat_add(sat_add(kcw, col.val_col_width), sat_add(self.separator.width, cfg.column_padding())));
            ci = ci + 1;
        }
        proof {
            assert(page.columns@.skip(ncols as int) =~= Seq::<MenuColumn>::empty());
            assert(full =~= done);
        }
        out
    }
}

} // verus!
