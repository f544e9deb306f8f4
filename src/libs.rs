use vstd::prelude::*;

use crate::call::views_of;
use crate::text::back_span;
use crate::text::char_views;
use crate::text::chars_of;
use crate::text::lemma_back_span_is;
use crate::text::lemma_span_is;
use crate::text::span;
use crate::text::split_chars;
use crate::text::split_on;
use crate::text::string_of;
use crate::text::sub_chars;

verus! {

pub open spec fn is_alnum(c: char) -> bool {
    ('0' <= c <= '9') || ('a' <= c <= 'z') || ('A' <= c <= 'Z')
}

/// Characters that are stripped from the ends of a token.
pub open spec fn stray() -> spec_fn(char) -> bool {
    |c: char| !is_alnum(c) && c != '.'
}

/// A token with stray characters stripped from both ends, in ASCII lower case.
pub open spec fn lib_token(t: Seq<char>) -> Seq<char> {
    let u = t.skip(span(t, stray()));
    let core = u.take(u.len() - back_span(u, stray()));
    core.map_values(|c: char| lower_char(c))
}

/// ASCII lower case of a character.
pub open spec fn lower_char(c: char) -> char {
    if 'A' <= c <= 'Z' {
        ((c as u32) + 32) as u8 as char
    } else {
        c
    }
}

fn lower_exec(c: char) -> (r: char)
    ensures
        r == lower_char(c),
{
    if 'A' <= c && c <= 'Z' {
        ((c as u32) + 32) as u8 as char
    } else {
        c
    }
}

pub open spec fn ends_with_so(s: Seq<char>) -> bool {
    s.len() >= 3 && s[s.len() - 3] == '.' && s[s.len() - 2] == 's' && s[s.len() - 1] == 'o'
}

/// The shared-library names that a text line mentions.
pub open spec fn line_libs(line: Seq<char>) -> Set<Seq<char>> {
    Set::new(
        |n: Seq<char>|
            exists|i: int|
                0 <= i < split_on(line, ' ').len() && split_on(line, ' ')[i].len() > 0 && n
                    == lib_token(#[trigger] split_on(line, ' ')[i]) && ends_with_so(n),
    )
}

/// The shared-library names that any of the lines mentions.
pub open spec fn lines_libs(lines: Seq<Seq<char>>) -> Set<Seq<char>> {
    Set::new(|n: Seq<char>| exists|i: int| 0 <= i < lines.len() && line_libs(#[trigger] lines[i]).contains(n))
}

/// Lexicographic order on characters.
pub open spec fn lex_lt(a: Seq<char>, b: Seq<char>) -> bool
    decreases a.len(),
{
    if a.len() == 0 {
        b.len() > 0
    } else if b.len() == 0 {
        false
    } else if a[0] != b[0] {
        a[0] < b[0]
    } else {
        lex_lt(a.skip(1), b.skip(1))
    }
}

fn lex_less(a: &[char], b: &[char]) -> (r: bool)
    ensures
        r == lex_lt(a@, b@),
{
    let mut i: usize = 0;
    assert(a@.skip(0) =~= a@);
    assert(b@.skip(0) =~= b@);
    while i < a.len() && i < b.len() && a[i] == b[i]
        invariant
            i <= a.len(),
            i <= b.len(),
            lex_lt(a@, b@) == lex_lt(a@.skip(i as int), b@.skip(i as int)),
        decreases a.len() - i,
    {
        assert(a@.skip(i as int).skip(1) =~= a@.skip(i + 1));
        assert(b@.skip(i as int).skip(1) =~= b@.skip(i + 1));
        i += 1;
    }
    if i == a.len() {
        i < b.len()
    } else if i == b.len() {
        false
    } else {
        a[i] < b[i]
    }
}

/// Strictly increasing in lexicographic order, neighbour by neighbour.
pub open spec fn ascending(v: Seq<Seq<char>>) -> bool {
    forall|k: int| 0 <= k < v.len() - 1 ==> lex_lt(#[trigger] v[k], v[k + 1])
}

proof fn lemma_lex_total(a: Seq<char>, b: Seq<char>)
    requires
        !lex_lt(a, b),
        a != b,
    ensures
        lex_lt(b, a),
    decreases a.len(),
{
    if a.len() > 0 && b.len() > 0 && a[0] == b[0] {
        if a.skip(1) == b.skip(1) {
            assert(a =~= seq![a[0]] + a.skip(1));
            assert(b =~= seq![b[0]] + b.skip(1));
        }
        lemma_lex_total(a.skip(1), b.skip(1));
    } else if a.len() == 0 && b.len() == 0 {
        assert(a =~= b);
    }
}

proof fn lemma_lex_irreflexive(a: Seq<char>)
    ensures
        !lex_lt(a, a),
    decreases a.len(),
{
    if a.len() > 0 {
        lemma_lex_irreflexive(a.skip(1));
    }
}

/// Adds `x` to an ascending list, keeping it ascending and without repeats.
fn insert_sorted(v: &mut Vec<Vec<char>>, x: Vec<char>)
    requires
        ascending(char_views(old(v)@)),
    ensures
        ascending(char_views(final(v)@)),
        char_views(final(v)@).to_set() == char_views(old(v)@).to_set().insert(x@),
{
    let ghost before = char_views(v@);
    let mut k: usize = 0;
    while k < v.len() && lex_less(v[k].as_slice(), x.as_slice())
        invariant
            k <= v.len(),
            before == char_views(v@),
            k > 0 ==> lex_lt(v@[k - 1]@, x@),
        decreases v.len() - k,
    {
        k += 1;
    }
    assert(k > 0 ==> lex_lt(before[k - 1], x@));
    let found = k < v.len() && crate::text::same_chars(v[k].as_slice(), x.as_slice());
    proof {
        if k < v.len() && !found {
            assert(!lex_lt(before[k as int], x@));
            lemma_lex_total(before[k as int], x@);
        }
    }
    if found {
        assert(before[k as int] == x@);
        assert(before.to_set().insert(x@) =~= before.to_set());
        return;
    }
    proof {
        lemma_lex_irreflexive(x@);
    }
    v.insert(k, x);
    proof {
        let after = char_views(v@);
        assert(after =~= before.insert(k as int, x@));
        assert forall|j: int| 0 <= j < after.len() - 1 implies lex_lt(#[trigger] after[j], after[j + 1]) by {
            if j + 1 < k {
                assert(after[j] == before[j] && after[j + 1] == before[j + 1]);
            } else if j + 1 == k {
                assert(after[j] == before[j] && after[j + 1] == x@);
            } else if j == k {
                assert(after[j] == x@);
                assert(after[j + 1] == before[k as int]);
            } else {
                assert(after[j] == before[j - 1] && after[j + 1] == before[j]);
            }
        }
        assert(after.to_set() =~= before.to_set().insert(x@)) by {
            assert forall|y: Seq<char>| after.to_set().contains(y) <==> before.to_set().insert(x@).contains(y) by {
                if after.to_set().contains(y) {
                    let j = choose|j: int| 0 <= j < after.len() && after[j] == y;
                    if j < k {
                        assert(before[j] == y);
                    } else if j > k {
                        assert(before[j - 1] == y);
                    }
                }
                if before.to_set().contains(y) {
                    let j = choose|j: int| 0 <= j < before.len() && before[j] == y;
                    if j < k {
                        assert(after[j] == y);
                    } else {
                        assert(after[j + 1] == y);
                    }
                }
                if y == x@ {
                    assert(after[k as int] == y);
                }
            }
        }
    }
}

fn is_stray(c: char) -> (r: bool)
    ensures
        r == (stray())(c),
{
    !(('0' <= c && c <= '9') || ('a' <= c && c <= 'z') || ('A' <= c && c <= 'Z')) && c != '.'
}

/// A token stripped and lowered: see `lib_token`.
fn lib_token_exec(t: &[char]) -> (r: Vec<char>)
    ensures
        r@ == lib_token(t@),
{
    let mut lo: usize = 0;
    while lo < t.len() && is_stray(t[lo])
        invariant
            lo <= t.len(),
            forall|i: int| 0 <= i < lo ==> (stray())(#[trigger] t@[i]),
        decreases t.len() - lo,
    {
        lo += 1;
    }
    proof {
        lemma_span_is(t@, stray(), lo as int);
    }
    let mut hi: usize = t.len();
    while hi > lo && is_stray(t[hi - 1])
        invariant
            lo <= hi <= t.len(),
            forall|i: int| hi <= i < t.len() ==> (stray())(#[trigger] t@[i]),
        decreases hi,
    {
        hi -= 1;
    }
    let ghost u = t@.skip(lo as int);
    proof {
        assert forall|i: int| u.len() - (t.len() - hi) <= i < u.len() implies (stray())(
            #[trigger] u[i],
        ) by {
            assert(u[i] == t@[lo + i]);
        }
        if hi > lo {
            assert(u[u.len() - (t.len() - hi) - 1] == t@[hi - 1]);
        }
        lemma_back_span_is(u, stray(), t.len() - hi);
    }
    let ghost core = u.take(u.len() - (t.len() - hi));
    assert(core =~= t@.subrange(lo as int, hi as int));
    let mut out: Vec<char> = Vec::new();
    let mut i: usize = lo;
    while i < hi
        invariant
            lo <= i <= hi <= t.len(),
            core == t@.subrange(lo as int, hi as int),
            out@ =~= core.take(i - lo).map_values(|c: char| lower_char(c)),
        decreases hi - i,
    {
        out.push(lower_exec(t[i]));
        i += 1;
        assert(out@ =~= core.take(i - lo).map_values(|c: char| lower_char(c)));
    }
    assert(core.take(hi - lo) =~= core);
    out
}

fn ends_with_so_exec(s: &[char]) -> (r: bool)
    ensures
        r == ends_with_so(s@),
{
    let n = s.len();
    n >= 3 && s[n - 3] == '.' && s[n - 2] == 's' && s[n - 1] == 'o'
}

/// The shared-library names (`*.so`) that the text lines mention, each a
/// space-separated token stripped of surrounding characters other than
/// letters, digits and dots, in ASCII lower case: sorted, without repeats.
pub fn unresolved_libs(lines: &[String]) -> (r: Vec<String>)
    ensures
        ascending(views_of(r@)),
        views_of(r@).to_set() == lines_libs(views_of(lines@)),
{
    let ghost lv = views_of(lines@);
    let mut acc: Vec<Vec<char>> = Vec::new();
    let mut i: usize = 0;
    assert(char_views(acc@).to_set() =~= Set::<Seq<char>>::empty());
    while i < lines.len()
        invariant
            i <= lines.len(),
            lv == views_of(lines@),
            ascending(char_views(acc@)),
            char_views(acc@).to_set() =~= Set::new(
                |n: Seq<char>| exists|k: int| 0 <= k < i && line_libs(#[trigger] lv[k]).contains(n),
            ),
        decreases lines.len() - i,
    {
        let line = chars_of(lines[i].as_str());
        let toks = split_chars(line.as_slice(), ' ');
        let ghost ps = split_on(line@, ' ');
        let ghost start = char_views(acc@).to_set();
        let mut j: usize = 0;
        while j < toks.len()
            invariant
                j <= toks.len(),
                char_views(toks@) == ps,
                ascending(char_views(acc@)),
                char_views(acc@).to_set() =~= start.union(Set::new(
                    |n: Seq<char>|
                        exists|m: int|
                            0 <= m < j && ps[m].len() > 0 && n == lib_token(#[trigger] ps[m])
                                && ends_with_so(n),
                )),
            decreases toks.len() - j,
        {
            assert(ps[j as int] == toks@[j as int]@);
            if toks[j].len() > 0 {
                let name = lib_token_exec(toks[j].as_slice());
                if ends_with_so_exec(name.as_slice()) {
                    insert_sorted(&mut acc, name);
                }
            }
            j += 1;
        }
        assert(lv[i as int] == line@);
        i += 1;
    }
    let mut out: Vec<String> = Vec::new();
    let mut k: usize = 0;
    while k < acc.len()
        invariant
            k <= acc.len(),
            out@.len() == k,
            forall|m: int| 0 <= m < k ==> (#[trigger] out@[m])@ == acc@[m]@,
        decreases acc.len() - k,
    {
        out.push(string_of(acc[k].as_slice()));
        k += 1;
    }
    assert(views_of(out@) =~= char_views(acc@));
    assert(lines_libs(lv) =~= char_views(acc@).to_set());
    out
}

} // verus!
