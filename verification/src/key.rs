//! Chords, bindings and key-token parsing.
//!
//! A chord is one keyboard symbol together with an exact modifier
//! combination.  A binding ([`Key`]) is a non-empty list of alternative
//! chords that all trigger the same action.  A token such as `"ctrl+alt+p"`
//! parses into a single chord: the last `+`-separated component is the base
//! symbol and the preceding components are modifier names.

use vstd::prelude::*;
use vstd::string::StrSliceExecFns;
use vstd::string::StringExecFns;

use crate::errors::ConfigError;
use crate::keysym::{keysym_from_char, sym_of_char, KEYSYM_NO_SYMBOL, KEYSYM_PLUS};
use crate::strutil::{split_on, split_str_on, str_eq};

verus! {

/// The exact set of modifiers held with a chord.  Two chords match only if
/// every flag is equal; there are no "don't care" bits.
#[derive(Clone, Copy, PartialEq, Eq, Structural, Debug)]
pub struct ModifierState {
    pub mod_ctrl: bool,
    pub mod_alt: bool,
    pub mod_mod4: bool,
}

/// The modifier state with nothing held.
pub open spec fn no_mods() -> ModifierState {
    ModifierState { mod_ctrl: false, mod_alt: false, mod_mod4: false }
}

impl Default for ModifierState {
    fn default() -> (r: Self)
        ensures
            r == no_mods(),
    {
        ModifierState { mod_ctrl: false, mod_alt: false, mod_mod4: false }
    }
}

/// One chord: a keysym, the exact modifiers, and the token it was written as.
#[derive(Debug)]
pub struct SingleKey {
    pub keysym: u32,
    pub repr: String,
    pub modifiers: ModifierState,
}

impl Clone for SingleKey {
    fn clone(&self) -> (r: Self)
        ensures
            r == *self,
    {
        SingleKey { keysym: self.keysym, repr: self.repr.clone(), modifiers: self.modifiers }
    }
}

/// A binding: any of these chords activates it.
#[derive(Debug)]
pub struct Key {
    pub any_of: Vec<SingleKey>,
}

impl View for Key {
    type V = Seq<SingleKey>;

    open spec fn view(&self) -> Seq<SingleKey> {
        self.any_of@
    }
}

/// True when the chord has exactly these modifiers and this symbol.
pub open spec fn chord_matches(sk: SingleKey, modifiers: ModifierState, sym: u32) -> bool {
    sk.modifiers == modifiers && sk.keysym == sym
}

/// True when any chord of the binding has these modifiers and this symbol.
pub open spec fn spec_key_matches(chords: Seq<SingleKey>, modifiers: ModifierState, sym: u32) -> bool {
    exists|i: int| 0 <= i < chords.len() && chord_matches(chords[i], modifiers, sym)
}

/// The separator placed between alternative chords in a binding's display
/// form.
pub open spec fn key_sep() -> Seq<char> {
    seq![' ', '|', ' ']
}

/// The display form of a binding: the chord tokens joined with `" | "`.
pub open spec fn join_reprs(chords: Seq<SingleKey>) -> Seq<char>
    decreases chords.len(),
{
    if chords.len() == 0 {
        Seq::<char>::empty()
    } else if chords.len() == 1 {
        chords[0].repr@
    } else {
        join_reprs(chords.drop_last()) + key_sep() + chords.last().repr@
    }
}

impl Key {
    /// The binding consisting of this one chord.
    pub fn from_single(sk: SingleKey) -> (r: Key)
        ensures
            r@ == seq![sk],
    {
        let mut any_of: Vec<SingleKey> = Vec::new();
        any_of.push(sk);
        Key { any_of }
    }

    /// True when any of the binding's chords has this symbol and exactly
    /// these modifiers.
    pub fn matches(&self, sym: u32, modifiers: ModifierState) -> (r: bool)
        ensures
            r == spec_key_matches(self@, modifiers, sym),
    {
        let n = self.any_of.len();
        let mut i: usize = 0;
        while i < n
            invariant
                n == self.any_of@.len(),
                i <= n,
                forall|j: int| 0 <= j < i ==> !chord_matches(self.any_of@[j], modifiers, sym),
            decreases n - i,
        {
            let sk = &self.any_of[i];
            if sk.keysym == sym && sk.modifiers.mod_ctrl == modifiers.mod_ctrl
                && sk.modifiers.mod_alt == modifiers.mod_alt && sk.modifiers.mod_mod4
                == modifiers.mod_mod4 {
                return true;
            }
            i = i + 1;
        }
        false
    }

    /// The display form of the binding, joining each chord's token with
    /// `" | "`.
    pub fn display_text(&self) -> (r: String)
        ensures
            r@ == join_reprs(self@),
    {
        let n = self.any_of.len();
        let mut acc = String::new();
        let mut i: usize = 0;
        while i < n
            invariant
                n == self.any_of@.len(),
                i <= n,
                i == 0 ==> acc@ == Seq::<char>::empty(),
                0 < i < n ==> acc@ == join_reprs(self.any_of@.take(i as int)) + key_sep(),
                0 < i == n ==> acc@ == join_reprs(self.any_of@),
            decreases n - i,
        {
            acc.append(self.any_of[i].repr.as_str());
            proof {
                let chords = self.any_of@;
                let pre = chords.take(i + 1);
                assert(pre.drop_last() =~= chords.take(i as int));
                assert(pre.last() == chords[i as int]);
                if i + 1 == n {
                    assert(chords.take(i + 1) =~= chords);
                }
                assert(acc@ == join_reprs(chords.take(i + 1)));
            }
            if i + 1 != n {
                acc.append(" | ");
                proof {
                    reveal_strlit(" | ");
                    assert(" | "@ =~= key_sep());
                }
            }
            i = i + 1;
        }
        acc
    }

}

impl Clone for Key {
    fn clone(&self) -> (r: Self)
        ensures
            r@ == self@,
    {
        let n = self.any_of.len();
        let mut any_of: Vec<SingleKey> = Vec::new();
        let mut i: usize = 0;
        while i < n
            invariant
                n == self.any_of@.len(),
                i <= n,
                any_of@ == self.any_of@.take(i as int),
            decreases n - i,
        {
            any_of.push(self.any_of[i].clone());
            proof {
                assert(any_of@ =~= self.any_of@.take(i + 1));
            }
            i = i + 1;
        }
        proof {
            assert(self.any_of@.take(n as int) =~= self.any_of@);
        }
        Key { any_of }
    }
}

/// True when the token names the control modifier, compared without regard
/// to ASCII case.
pub open spec fn is_ctrl_name(s: Seq<char>) -> bool {
    s.len() == 4 && (s[0] == 'c' || s[0] == 'C') && (s[1] == 't' || s[1] == 'T') && (s[2] == 'r'
        || s[2] == 'R') && (s[3] == 'l' || s[3] == 'L')
}

/// True when the token names the alt modifier, compared without regard to
/// ASCII case.
pub open spec fn is_alt_name(s: Seq<char>) -> bool {
    s.len() == 3 && (s[0] == 'a' || s[0] == 'A') && (s[1] == 'l' || s[1] == 'L') && (s[2] == 't'
        || s[2] == 'T')
}

/// True when the token names the fourth modifier as `mod4`, compared without
/// regard to ASCII case.
pub open spec fn is_mod4_name(s: Seq<char>) -> bool {
    s.len() == 4 && (s[0] == 'm' || s[0] == 'M') && (s[1] == 'o' || s[1] == 'O') && (s[2] == 'd'
        || s[2] == 'D') && s[3] == '4'
}

/// True when the token names the fourth modifier as `logo`, compared without
/// regard to ASCII case.
pub open spec fn is_logo_name(s: Seq<char>) -> bool {
    s.len() == 4 && (s[0] == 'l' || s[0] == 'L') && (s[1] == 'o' || s[1] == 'O') && (s[2] == 'g'
        || s[2] == 'G') && (s[3] == 'o' || s[3] == 'O')
}

/// True when the token is any recognised modifier name.
pub open spec fn is_modifier_name(s: Seq<char>) -> bool {
    is_ctrl_name(s) || is_alt_name(s) || is_mod4_name(s) || is_logo_name(s)
}

/// The index of the first segment that is not a modifier name, or `-1` when
/// every segment is one.
pub open spec fn first_bad_modifier(segs: Seq<Seq<char>>) -> int
    decreases segs.len(),
{
    if segs.len() == 0 {
        -1
    } else if !is_modifier_name(segs[0]) {
        0
    } else {
        let r = first_bad_modifier(segs.skip(1));
        if r < 0 {
            -1
        } else {
            r + 1
        }
    }
}

/// The modifier state that a list of modifier segments produces: a flag is
/// set exactly when some segment names it.
pub open spec fn mods_of_segs(segs: Seq<Seq<char>>) -> ModifierState {
    ModifierState {
        mod_ctrl: exists|i: int| 0 <= i < segs.len() && is_ctrl_name(#[trigger] segs[i]),
        mod_alt: exists|i: int| 0 <= i < segs.len() && is_alt_name(#[trigger] segs[i]),
        mod_mod4: exists|i: int|
            0 <= i < segs.len() && (is_mod4_name(#[trigger] segs[i]) || is_logo_name(segs[i])),
    }
}

pub proof fn lemma_first_bad_at(segs: Seq<Seq<char>>, i: int)
    requires
        0 <= i < segs.len(),
        forall|j: int| 0 <= j < i ==> is_modifier_name(#[trigger] segs[j]),
        !is_modifier_name(segs[i]),
    ensures
        first_bad_modifier(segs) == i,
    decreases i,
{
    if i > 0 {
        assert(forall|j: int|
            0 <= j < i - 1 ==> #[trigger] segs.skip(1)[j] == segs[j + 1]);
        lemma_first_bad_at(segs.skip(1), i - 1);
    }
}

pub proof fn lemma_first_bad_none(segs: Seq<Seq<char>>)
    requires
        forall|j: int| 0 <= j < segs.len() ==> is_modifier_name(#[trigger] segs[j]),
    ensures
        first_bad_modifier(segs) == -1,
    decreases segs.len(),
{
    if segs.len() > 0 {
        assert(forall|j: int|
            0 <= j < segs.len() - 1 ==> #[trigger] segs.skip(1)[j] == segs[j + 1]);
        lemma_first_bad_none(segs.skip(1));
    }
}

/// One row of the symbolic-name table: a keysym name such as `"F1"` or
/// `"Escape"` and the symbol it stands for.
#[derive(Debug)]
pub struct NameEntry {
    pub name: String,
    pub sym: u32,
}

/// The table of symbolic keysym names the host supplies.  Multi-character
/// base tokens resolve through it; the first entry with a matching name wins.
#[derive(Debug)]
pub struct NameTable {
    pub entries: Vec<NameEntry>,
}

/// The symbol of the first table entry whose name matches, if any.
pub open spec fn lookup_name(names: Seq<NameEntry>, name: Seq<char>) -> Option<u32>
    decreases names.len(),
{
    if names.len() == 0 {
        Option::None
    } else if names[0].name@ == name {
        Option::Some(names[0].sym)
    } else {
        lookup_name(names.skip(1), name)
    }
}

impl NameTable {
    /// An empty table.
    pub fn new() -> (r: Self)
        ensures
            r.entries@.len() == 0,
    {
        NameTable { entries: Vec::new() }
    }

    /// Appends one name-to-symbol row.
    pub fn add(&mut self, name: String, sym: u32)
        ensures
            final(self).entries@ == old(self).entries@.push(NameEntry { name, sym }),
    {
        self.entries.push(NameEntry { name, sym });
    }

    /// Looks a name up, first matching row first.
    pub fn lookup(&self, name: &str) -> (r: Option<u32>)
        ensures
            r == lookup_name(self.entries@, name@),
    {
        let n = self.entries.len();
        let mut i: usize = 0;
        proof {
            assert(self.entries@.skip(0) =~= self.entries@);
        }
        while i < n
            invariant
                n == self.entries@.len(),
                i <= n,
                lookup_name(self.entries@, name@) == lookup_name(
                    self.entries@.skip(i as int),
                    name@,
                ),
            decreases n - i,
        {
            proof {
                let rest = self.entries@.skip(i as int);
                assert(rest[0] == self.entries@[i as int]);
                assert(rest.skip(1) =~= self.entries@.skip(i + 1));
            }
            if str_eq(self.entries[i].name.as_str(), name) {
                return Option::Some(self.entries[i].sym);
            }
            i = i + 1;
        }
        proof {
            assert(self.entries@.skip(n as int) =~= Seq::<NameEntry>::empty());
        }
        Option::None
    }
}

/// The symbol a base token resolves to: a one-character token goes through
/// the code-point mapping, a longer token through the symbolic-name table,
/// and an empty token resolves to nothing.
pub open spec fn base_sym(base: Seq<char>, names: Seq<NameEntry>) -> Option<u32> {
    if base.len() == 1 {
        if sym_of_char(base[0]) == KEYSYM_NO_SYMBOL {
            Option::None
        } else {
            Option::Some(sym_of_char(base[0]))
        }
    } else if base.len() == 0 {
        Option::None
    } else {
        lookup_name(names, base)
    }
}

/// What a successfully parsed chord looks like for the token `s`: the
/// special token `"+"` is the bare plus key; otherwise the last `+`-separated
/// segment is the base symbol, every earlier segment is a recognised
/// modifier, and the token itself is kept as the display form.
pub open spec fn parse_result_ok(s: Seq<char>, names: Seq<NameEntry>, k: SingleKey) -> bool {
    if s == seq!['+'] {
        k.keysym == KEYSYM_PLUS && k.repr@ == s && k.modifiers == no_mods()
    } else {
        let segs = split_on(s, '+');
        let base = segs.last();
        &&& base_sym(base, names) == Option::Some(k.keysym)
        &&& k.repr@ == s
        &&& first_bad_modifier(segs.drop_last()) == -1
        &&& k.modifiers == mods_of_segs(segs.drop_last())
    }
}

/// When and how parsing the token `s` fails: with `InvalidKey` naming the
/// base segment when that segment resolves to no symbol, and otherwise with
/// `UnknownModifier` naming the first segment that is not a modifier name.
pub open spec fn parse_fails_with(s: Seq<char>, names: Seq<NameEntry>, e: ConfigError) -> bool {
    if s == seq!['+'] {
        false
    } else {
        let segs = split_on(s, '+');
        let base = segs.last();
        match e {
            ConfigError::InvalidKey(t) => base_sym(base, names) == Option::None::<u32> && t@
                == base,
            ConfigError::UnknownModifier(t) => {
                let j = first_bad_modifier(segs.drop_last());
                &&& base_sym(base, names) is Some
                &&& j >= 0
                &&& t@ == segs.drop_last()[j]
            },
            ConfigError::EmptyPage => false,
        }
    }
}

/// Whether the token parses into a chord at all: the literal `"+"` does,
/// and otherwise the base segment must resolve and every earlier segment
/// must be a modifier name.
pub open spec fn spec_parse_ok(t: Seq<char>, names: Seq<NameEntry>) -> bool {
    t == seq!['+'] || (base_sym(split_on(t, '+').last(), names) is Some && first_bad_modifier(
        split_on(t, '+').drop_last(),
    ) == -1)
}

/// The symbol a token parses to, when it parses.
pub open spec fn spec_parse_sym(t: Seq<char>, names: Seq<NameEntry>) -> u32 {
    if t == seq!['+'] {
        KEYSYM_PLUS
    } else {
        match base_sym(split_on(t, '+').last(), names) {
            Option::Some(v) => v,
            Option::None => KEYSYM_NO_SYMBOL,
        }
    }
}

/// The modifier state a token parses to, when it parses.
pub open spec fn spec_parse_mods(t: Seq<char>, names: Seq<NameEntry>) -> ModifierState {
    if t == seq!['+'] {
        no_mods()
    } else {
        mods_of_segs(split_on(t, '+').drop_last())
    }
}

fn seg_is_ctrl(s: &str) -> (r: bool)
    ensures
        r == is_ctrl_name(s@),
{
    if s.unicode_len() != 4 {
        return false;
    }
    let c0 = s.get_char(0);
    let c1 = s.get_char(1);
    let c2 = s.get_char(2);
    let c3 = s.get_char(3);
    (c0 == 'c' || c0 == 'C') && (c1 == 't' || c1 == 'T') && (c2 == 'r' || c2 == 'R') && (c3 == 'l'
        || c3 == 'L')
}

fn seg_is_alt(s: &str) -> (r: bool)
    ensures
        r == is_alt_name(s@),
{
    if s.unicode_len() != 3 {
        return false;
    }
    let c0 = s.get_char(0);
    let c1 = s.get_char(1);
    let c2 = s.get_char(2);
    (c0 == 'a' || c0 == 'A') && (c1 == 'l' || c1 == 'L') && (c2 == 't' || c2 == 'T')
}

fn seg_is_mod4(s: &str) -> (r: bool)
    ensures
        r == is_mod4_name(s@),
{
    if s.unicode_len() != 4 {
        return false;
    }
    let c0 = s.get_char(0);
    let c1 = s.get_char(1);
    let c2 = s.get_char(2);
    let c3 = s.get_char(3);
    (c0 == 'm' || c0 == 'M') && (c1 == 'o' || c1 == 'O') && (c2 == 'd' || c2 == 'D') && c3 == '4'
}

fn seg_is_logo(s: &str) -> (r: bool)
    ensures
        r == is_logo_name(s@),
{
    if s.unicode_len() != 4 {
        return false;
    }
    let c0 = s.get_char(0);
    let c1 = s.get_char(1);
    let c2 = s.get_char(2);
    let c3 = s.get_char(3);
    (c0 == 'l' || c0 == 'L') && (c1 == 'o' || c1 == 'O') && (c2 == 'g' || c2 == 'G') && (c3 == 'o'
        || c3 == 'O')
}

impl SingleKey {
    /// Parses a key token such as `"p"`, `"F1"` or `"ctrl+alt+p"` into one
    /// chord.  The literal token `"+"` is the plus key itself.  The base
    /// segment resolves first, so an unresolvable base reports `InvalidKey`
    /// even when a modifier segment is also bad.
    pub fn parse(s: &str, names: &NameTable) -> (r: Result<SingleKey, ConfigError>)
        ensures
            match r {
                Ok(k) => parse_result_ok(s@, names.entries@, k),
                Err(e) => parse_fails_with(s@, names.entries@, e),
            },
    {
        let n = s.unicode_len();
        if n == 1 && s.get_char(0) == '+' {
            proof {
                assert(s@ =~= seq!['+']);
            }
            return Ok(
                SingleKey {
                    keysym: KEYSYM_PLUS,
                    repr: s.to_owned(),
                    modifiers: ModifierState { mod_ctrl: false, mod_alt: false, mod_mod4: false },
                },
            );
        }
        proof {
            assert(seq!['+'].len() == 1);
            assert(seq!['+'][0] == '+');
            assert(s@ != seq!['+']);
        }
        let segs: Vec<String> = split_str_on(s, '+');
        let ghost gsegs = split_on(s@, '+');
        proof {
            assert forall|j: int| 0 <= j < segs@.len() implies gsegs[j] == #[trigger] segs@[j]@ by {
                assert(gsegs[j] == segs@.map_values(|t: String| t@)[j]);
            }
        }
        let nsegs = segs.len();
        let base: &String = &segs[nsegs - 1];
        let bn = base.unicode_len();
        let sym_opt: Option<u32> = if bn == 1 {
            let k0 = keysym_from_char(base.as_str().get_char(0));
            if k0 == KEYSYM_NO_SYMBOL {
                Option::None
            } else {
                Option::Some(k0)
            }
        } else if bn == 0 {
            Option::None
        } else {
            names.lookup(base.as_str())
        };
        proof {
            assert(gsegs.last() == gsegs[nsegs - 1]);
            assert(sym_opt == base_sym(gsegs.last(), names.entries@));
        }
        let sym: u32 = match sym_opt {
            Option::Some(v) => v,
            Option::None => {
                return Err(ConfigError::InvalidKey(base.clone()));
            },
        };
        proof {
            assert(base_sym(gsegs.last(), names.entries@) == Option::Some(sym));
        }
        let ghost gmods = gsegs.drop_last();
        let mut m = ModifierState { mod_ctrl: false, mod_alt: false, mod_mod4: false };
        let mlen = nsegs - 1;
        let mut j: usize = 0;
        proof {
            assert(gmods.len() == mlen);
            assert(forall|i: int| 0 <= i < mlen ==> #[trigger] gmods[i] == gsegs[i]);
            assert(gmods.take(0) =~= Seq::<Seq<char>>::empty());
            assert(m == mods_of_segs(gmods.take(0)));
        }
        while j < mlen
            invariant
                mlen == gmods.len(),
                mlen < nsegs == segs@.len(),
                j <= mlen,
                s@ != seq!['+'],
                gsegs == split_on(s@, '+'),
                gmods == gsegs.drop_last(),
                base_sym(gsegs.last(), names.entries@) == Option::Some(sym),
                gsegs == segs@.map_values(|t: String| t@),
                forall|i: int| 0 <= i < segs@.len() ==> gsegs[i] == #[trigger] segs@[i]@,
                forall|i: int| 0 <= i < mlen ==> #[trigger] gmods[i] == gsegs[i],
                forall|i: int| 0 <= i < j ==> is_modifier_name(#[trigger] gmods[i]),
                m == mods_of_segs(gmods.take(j as int)),
            decreases mlen - j,
        {
            let seg: &String = &segs[j];
            let c_ctrl = seg_is_ctrl(seg.as_str());
            let c_alt = seg_is_alt(seg.as_str());
            let c_mod4 = seg_is_mod4(seg.as_str());
            let c_logo = seg_is_logo(seg.as_str());
            if !(c_ctrl || c_alt || c_mod4 || c_logo) {
                proof {
                    lemma_first_bad_at(gmods, j as int);
                }
                return Err(ConfigError::UnknownModifier(seg.clone()));
            }
            if c_ctrl {
                m.mod_ctrl = true;
            } else if c_alt {
                m.mod_alt = true;
            } else {
                m.mod_mod4 = true;
            }
            proof {
                let pre = gmods.take(j as int);
                let pre2 = gmods.take(j + 1);
                assert(forall|i: int| 0 <= i < j + 1 ==> #[trigger] pre2[i] == gmods[i]);
                assert(forall|i: int| 0 <= i < j ==> #[trigger] pre[i] == gmods[i]);
                assert(pre2[j as int] == gmods[j as int]);
                if c_ctrl {
                    assert(is_ctrl_name(pre2[j as int]));
                } else if c_alt {
                    assert(is_alt_name(pre2[j as int]));
                } else {
                    assert(is_mod4_name(pre2[j as int]) || is_logo_name(pre2[j as int]));
                }
                assert(m.mod_ctrl == mods_of_segs(pre2).mod_ctrl);
                assert(m.mod_alt == mods_of_segs(pre2).mod_alt);
                assert(m.mod_mod4 == mods_of_segs(pre2).mod_mod4);
            }
            j = j + 1;
        }
        proof {
            assert(gmods.take(mlen as int) =~= gmods);
            lemma_first_bad_none(gmods);
        }
        Ok(SingleKey { keysym: sym, repr: s.to_owned(), modifiers: m })
    }
}

} // verus!
