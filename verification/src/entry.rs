//! The user-authored entry tree.
//!
//! Each entry either runs a command or opens a named sub-level of further
//! entries.  Text measurement is the host's capability: every entry arrives
//! with the measured extent of its binding's display text and of its
//! displayed description (for a sub-level that is the description with the
//! `+` prefix already applied).

use vstd::prelude::*;
use vstd::string::StringExecFns;

use crate::key::Key;

verus! {

/// The measured pixel size of a piece of text.
#[derive(Clone, Copy, PartialEq, Eq, Structural, Debug)]
pub struct TextExtent {
    pub width: u64,
    pub height: u64,
}

/// One authored entry: a command leaf or a named group of further entries.
///
/// `key_ext` is the measured extent of the binding's display text and
/// `desc_ext` the measured extent of the displayed description, which for a
/// `Recursive` entry is the description prefixed with `+`.
#[derive(Debug)]
pub enum Entry {
    Cmd {
        key: Key,
        key_ext: TextExtent,
        cmd: String,
        desc: String,
        desc_ext: TextExtent,
        keep_open: bool,
    },
    Recursive { key: Key, key_ext: TextExtent, submenu: Vec<Entry>, desc: String, desc_ext: TextExtent },
}

/// The binding of an entry.
pub open spec fn entry_key(e: Entry) -> Key {
    match e {
        Entry::Cmd { key, .. } => key,
        Entry::Recursive { key, .. } => key,
    }
}

/// The measured extent of an entry's binding text.
pub open spec fn entry_key_ext(e: Entry) -> TextExtent {
    match e {
        Entry::Cmd { key_ext, .. } => key_ext,
        Entry::Recursive { key_ext, .. } => key_ext,
    }
}

/// The measured extent of an entry's displayed description.
pub open spec fn entry_desc_ext(e: Entry) -> TextExtent {
    match e {
        Entry::Cmd { desc_ext, .. } => desc_ext,
        Entry::Recursive { desc_ext, .. } => desc_ext,
    }
}

/// The description text as the menu shows it: a sub-level's description
/// carries a `+` prefix.
pub open spec fn entry_display_desc(e: Entry) -> Seq<char> {
    match e {
        Entry::Cmd { desc, .. } => desc@,
        Entry::Recursive { desc, .. } => seq!['+'] + desc@,
    }
}

/// The height an entry asks of its row: the taller of its two texts.
pub open spec fn entry_height(e: Entry) -> int {
    vstd::math::max(entry_key_ext(e).height as int, entry_desc_ext(e).height as int)
}

/// A well-formed entry has no empty sub-level anywhere beneath it.
pub open spec fn entry_wf(e: Entry) -> bool
    decreases e,
{
    match e {
        Entry::Cmd { .. } => true,
        Entry::Recursive { submenu, .. } => submenu@.len() > 0 && (forall|i: int|
            0 <= i < submenu@.len() ==> entry_wf(#[trigger] submenu@[i])),
    }
}

/// A well-formed entry sequence: every entry is well-formed.
pub open spec fn entries_wf(es: Seq<Entry>) -> bool {
    forall|i: int| 0 <= i < es.len() ==> entry_wf(#[trigger] es[i])
}

/// The description of a sub-level as displayed, with the `+` prefix.
pub fn prefixed_desc(desc: &str) -> (r: String)
    ensures
        r@ == seq!['+'] + desc@,
{
    let mut t = String::new();
    t.append("+");
    t.append(desc);
    proof {
        reveal_strlit("+");
        assert("+"@ =~= seq!['+']);
        assert(t@ =~= seq!['+'] + desc@);
    }
    t
}

} // verus!
