//! Small verified string helpers: splitting on `+`, splitting on spaces,
//! and character-wise string comparison.

use vstd::prelude::*;

verus! {

/// Relies on `String::push`, which appends one character to the string.
#[verifier::external_body]
pub fn push_char(s: &mut String, c: char)
    ensures
        final(s)@ == old(s)@.push(c),
{
    s.push(c)
}

/// Replaces the first segment of `segs` with `p` prepended to it.
pub open spec fn graft_first(p: Seq<char>, segs: Seq<Seq<char>>) -> Seq<Seq<char>>
    recommends
        segs.len() >= 1,
{
    segs.update(0, p + segs[0])
}

/// The segments of `s` between occurrences of `sep`, in order.  Splitting the
/// empty sequence gives one empty segment, and every occurrence of `sep`
/// opens a new segment, so `"a++"` has three segments.
pub open spec fn split_on(s: Seq<char>, sep: char) -> Seq<Seq<char>>
    decreases s.len(),
{
    if s.len() == 0 {
        seq![Seq::<char>::empty()]
    } else if s[0] == sep {
        seq![Seq::<char>::empty()] + split_on(s.skip(1), sep)
    } else {
        graft_first(seq![s[0]], split_on(s.skip(1), sep))
    }
}

pub proof fn lemma_split_on_len(s: Seq<char>, sep: char)
    ensures
        split_on(s, sep).len() >= 1,
    decreases s.len(),
{
    if s.len() != 0 && s[0] != sep {
        lemma_split_on_len(s.skip(1), sep);
    }
}

/// Splits `s` on `sep`, one owned segment per entry.
pub fn split_str_on(s: &str, sep: char) -> (r: Vec<String>)
    ensures
        r@.map_values(|t: String| t@) == split_on(s@, sep),
        r@.len() >= 1,
{
    let n: usize = s.unicode_len();
    let mut done: Vec<String> = Vec::new();
    let mut cur: String = String::new();
    let mut i: usize = 0;
    proof {
        lemma_split_on_len(s@, sep);
        assert(s@.subrange(0, n as int) =~= s@);
        assert(graft_first(Seq::<char>::empty(), split_on(s@, sep)) =~~= split_on(s@, sep));
        assert(done@.map_values(|t: String| t@) =~= Seq::<Seq<char>>::empty());
    }
    while i < n
        invariant
            n == s@.len(),
            i <= n,
            split_on(s@, sep).len() >= 1,
            split_on(s@, sep) == done@.map_values(|t: String| t@) + graft_first(
                cur@,
                split_on(s@.subrange(i as int, n as int), sep),
            ),
        decreases n - i,
    {
        let c = s.get_char(i);
        proof {
            let rest = s@.subrange(i as int, n as int);
            let rest2 = s@.subrange(i + 1, n as int);
            assert(rest[0] == c);
            assert(rest.skip(1) =~= rest2);
            lemma_split_on_len(rest2, sep);
        }
        if c == sep {
            let ghost rest2 = s@.subrange(i + 1, n as int);
            proof {
                assert(graft_first(cur@, split_on(s@.subrange(i as int, n as int), sep)) =~~= seq![
                    cur@,
                ] + graft_first(Seq::<char>::empty(), split_on(rest2, sep)));
                assert(done@.push(cur).map_values(|t: String| t@) =~= done@.map_values(
                    |t: String| t@,
                ) + seq![cur@]);
            }
            done.push(cur);
            cur = String::new();
            proof {
                assert(split_on(s@, sep) == done@.map_values(|t: String| t@) + graft_first(
                    cur@,
                    split_on(rest2, sep),
                ));
            }
        } else {
            let ghost rest2 = s@.subrange(i + 1, n as int);
            let ghost oldcur = cur@;
            push_char(&mut cur, c);
            proof {
                lemma_split_on_len(rest2, sep);
                assert(graft_first(oldcur, graft_first(seq![c], split_on(rest2, sep))) =~~= graft_first(
                    cur@,
                    split_on(rest2, sep),
                ));
            }
        }
        i = i + 1;
    }
    proof {
        assert(s@.subrange(n as int, n as int) =~= Seq::<char>::empty());
        assert(graft_first(cur@, split_on(s@.subrange(n as int, n as int), sep)) =~~= seq![cur@]);
        assert(done@.push(cur).map_values(|t: String| t@) =~= done@.map_values(|t: String| t@)
            + seq![cur@]);
    }
    done.push(cur);
    done
}

/// True for the ASCII whitespace characters that separate key tokens.
pub open spec fn is_space_char(c: char) -> bool {
    c == ' ' || c == '\t' || c == '\n' || c == '\u{c}' || c == '\r'
}

fn space_char(c: char) -> (r: bool)
    ensures
        r == is_space_char(c),
{
    c == ' ' || c == '\t' || c == '\n' || c == '\u{c}' || c == '\r'
}

/// The whitespace-delimited tokens of `s`, in order; runs of whitespace
/// separate tokens and produce no empty ones.
pub open spec fn split_ws(s: Seq<char>) -> Seq<Seq<char>>
    decreases s.len(),
{
    if s.len() == 0 {
        Seq::<Seq<char>>::empty()
    } else if is_space_char(s[0]) {
        split_ws(s.skip(1))
    } else if s.len() >= 2 && !is_space_char(s[1]) {
        graft_first(seq![s[0]], split_ws(s.skip(1)))
    } else {
        seq![seq![s[0]]] + split_ws(s.skip(1))
    }
}

/// What remains to be produced when `cur` is an unfinished token whose
/// continuation is `rest`.
pub open spec fn pending_ws(cur: Seq<char>, rest: Seq<char>) -> Seq<Seq<char>> {
    if rest.len() >= 1 && !is_space_char(rest[0]) {
        graft_first(cur, split_ws(rest))
    } else {
        seq![cur] + split_ws(rest)
    }
}

pub proof fn lemma_split_ws_head_len(s: Seq<char>)
    requires
        s.len() >= 1,
        !is_space_char(s[0]),
    ensures
        split_ws(s).len() >= 1,
    decreases s.len(),
{
    if s.len() >= 2 && !is_space_char(s[1]) {
        lemma_split_ws_head_len(s.skip(1));
    }
}

/// Splits `s` into whitespace-delimited tokens, one owned token per entry.
pub fn split_ws_str(s: &str) -> (r: Vec<String>)
    ensures
        r@.map_values(|t: String| t@) == split_ws(s@),
{
    let n: usize = s.unicode_len();
    let mut done: Vec<String> = Vec::new();
    let mut cur: String = String::new();
    let mut started: bool = false;
    let mut i: usize = 0;
    proof {
        assert(s@.subrange(0, n as int) =~= s@);
        assert(done@.map_values(|t: String| t@) =~= Seq::<Seq<char>>::empty());
    }
    while i < n
        invariant
            n == s@.len(),
            i <= n,
            started == (cur@.len() > 0),
            split_ws(s@) == done@.map_values(|t: String| t@) + (if started {
                pending_ws(cur@, s@.subrange(i as int, n as int))
            } else {
                split_ws(s@.subrange(i as int, n as int))
            }),
        decreases n - i,
    {
        let c = s.get_char(i);
        let ghost rest = s@.subrange(i as int, n as int);
        let ghost rest2 = s@.subrange(i + 1, n as int);
        proof {
            assert(rest[0] == c);
            assert(rest.skip(1) =~= rest2);
        }
        if space_char(c) {
            if started {
                proof {
                    assert(pending_ws(cur@, rest) =~~= seq![cur@] + split_ws(rest2));
                    assert(done@.push(cur).map_values(|t: String| t@) =~= done@.map_values(
                        |t: String| t@,
                    ) + seq![cur@]);
                }
                done.push(cur);
                cur = String::new();
                started = false;
            } else {
                proof {
                    assert(split_ws(rest) == split_ws(rest2));
                }
            }
        } else {
            let ghost oldcur = cur@;
            push_char(&mut cur, c);
            if !started {
                started = true;
                proof {
                    assert(oldcur.len() == 0);
                    if rest2.len() >= 1 && !is_space_char(rest2[0]) {
                        lemma_split_ws_head_len(rest2);
                        assert(split_ws(rest) =~~= graft_first(seq![c], split_ws(rest2)));
                        assert(split_ws(rest) =~~= pending_ws(cur@, rest2));
                    } else {
                        assert(split_ws(rest) =~~= seq![seq![c]] + split_ws(rest2));
                        assert(split_ws(rest) =~~= pending_ws(cur@, rest2));
                    }
                }
            } else {
                proof {
                    if rest2.len() >= 1 && !is_space_char(rest2[0]) {
                        lemma_split_ws_head_len(rest2);
                        assert(pending_ws(oldcur, rest) =~~= graft_first(
                            oldcur,
                            graft_first(seq![c], split_ws(rest2)),
                        ));
                        assert(graft_first(oldcur, graft_first(seq![c], split_ws(rest2)))
                            =~~= graft_first(cur@, split_ws(rest2)));
                        assert(pending_ws(oldcur, rest) =~~= pending_ws(cur@, rest2));
                    } else {
                        assert(pending_ws(oldcur, rest) =~~= graft_first(
                            oldcur,
                            seq![seq![c]] + split_ws(rest2),
                        ));
                        assert(graft_first(oldcur, seq![seq![c]] + split_ws(rest2)) =~~= seq![cur@]
                            + split_ws(rest2));
                        assert(pending_ws(oldcur, rest) =~~= pending_ws(cur@, rest2));
                    }
                }
            }
        }
        i = i + 1;
    }
    proof {
        assert(s@.subrange(n as int, n as int) =~= Seq::<char>::empty());
        if started {
            assert(pending_ws(cur@, Seq::<char>::empty()) =~~= seq![cur@]);
            assert(done@.push(cur).map_values(|t: String| t@) =~= done@.map_values(|t: String| t@)
                + seq![cur@]);
        }
    }
    if started {
        done.push(cur);
    }
    done
}

/// True when the two strings hold the same characters.
pub fn str_eq(a: &str, b: &str) -> (r: bool)
    ensures
        r == (a@ == b@),
{
    let na: usize = a.unicode_len();
    let nb: usize = b.unicode_len();
    if na != nb {
        return false;
    }
    let mut i: usize = 0;
    while i < na
        invariant
            na == a@.len(),
            nb == b@.len(),
            na == nb,
            i <= na,
            forall|j: int| 0 <= j < i ==> a@[j] == b@[j],
        decreases na - i,
    {
        if a.get_char(i) != b.get_char(i) {
            return false;
        }
        i = i + 1;
    }
    proof {
        assert(a@ =~= b@);
    }
    true
}

} // verus!
