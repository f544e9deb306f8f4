use vstd::prelude::*;

use crate::call::calls_view;
use crate::call::views_of;
use crate::call::CallView;
use crate::call::TracedCall;
use crate::catalog::catalog;
use crate::catalog::catalog_chars;
use crate::catalog::catalog_names;
use crate::text::chars_of;
use crate::text::find_char;
use crate::text::not_char;
use crate::text::span;
use crate::text::split_on;
use crate::text::string_of;
use crate::text::sub_chars;
use crate::text::trim;
use crate::text::trim_chars;

verus! {

/// The ASCII lower-case code of a character; other characters keep their code.
pub open spec fn fold(c: char) -> u32 {
    let n = c as u32;
    if 65 <= n <= 90 {
        (n + 32) as u32
    } else {
        n
    }
}

pub open spec fn folded(s: Seq<char>) -> Seq<u32> {
    s.map_values(|c: char| fold(c))
}

/// A byte of the raw image, case-folded; bytes outside ASCII read as a space.
pub open spec fn fold_byte(b: u8) -> u32 {
    if b < 128 {
        fold(b as char)
    } else {
        32
    }
}

pub open spec fn folded_bytes(b: Seq<u8>) -> Seq<u32> {
    b.map_values(|x: u8| fold_byte(x))
}

pub open spec fn occurs_at(h: Seq<u32>, n: Seq<u32>, p: int) -> bool {
    0 <= p && p + n.len() <= h.len() && h.subrange(p, p + n.len()) == n
}

/// The first position at or after `q` where `n` occurs in `h`, or -1.
pub open spec fn search_from(h: Seq<u32>, n: Seq<u32>, q: int) -> int
    decreases h.len() + 1 - q,
{
    if q < 0 || q + n.len() > h.len() {
        -1
    } else if occurs_at(h, n, q) {
        q
    } else {
        search_from(h, n, q + 1)
    }
}

/// The first position where `n` occurs in `h`, or -1.
pub open spec fn first_match(h: Seq<u32>, n: Seq<u32>) -> int {
    search_from(h, n, 0)
}

pub proof fn lemma_search_from(h: Seq<u32>, n: Seq<u32>, q: int)
    requires
        q >= 0,
    ensures
        search_from(h, n, q) == -1 || (q <= search_from(h, n, q) && occurs_at(
            h,
            n,
            search_from(h, n, q),
        )),
    decreases h.len() + 1 - q,
{
    if q + n.len() <= h.len() && !occurs_at(h, n, q) {
        lemma_search_from(h, n, q + 1);
    }
}

pub(crate) fn fold_exec(c: char) -> (r: u32)
    ensures
        r == fold(c),
{
    let n = c as u32;
    if 65 <= n && n <= 90 {
        n + 32
    } else {
        n
    }
}

pub(crate) fn folded_chars(s: &[char]) -> (r: Vec<u32>)
    ensures
        r@ == folded(s@),
{
    let mut out: Vec<u32> = Vec::new();
    let mut i: usize = 0;
    while i < s.len()
        invariant
            i <= s.len(),
            out@ =~= folded(s@.take(i as int)),
        decreases s.len() - i,
    {
        out.push(fold_exec(s[i]));
        i += 1;
        assert(out@ =~= folded(s@.take(i as int)));
    }
    assert(s@.take(s.len() as int) =~= s@);
    out
}

/// The raw image case-folded, one code per byte, non-ASCII bytes as spaces.
pub fn bytes_to_ascii_lower(bytes: &[u8]) -> (r: Vec<u32>)
    ensures
        r@ == folded_bytes(bytes@),
{
    let mut out: Vec<u32> = Vec::new();
    let mut i: usize = 0;
    while i < bytes.len()
        invariant
            i <= bytes.len(),
            out@ =~= folded_bytes(bytes@.take(i as int)),
        decreases bytes.len() - i,
    {
        let b = bytes[i];
        let code: u32 = if b < 128 {
            fold_exec(b as char)
        } else {
            32
        };
        out.push(code);
        i += 1;
        assert(out@ =~= folded_bytes(bytes@.take(i as int)));
    }
    assert(bytes@.take(bytes.len() as int) =~= bytes@);
    out
}

/// The first position where `n` occurs in `h`, if any.
fn find_codes(h: &[u32], n: &[u32]) -> (r: Option<usize>)
    ensures
        match r {
            Some(p) => p as int == first_match(h@, n@),
            None => first_match(h@, n@) == -1,
        },
{
    if n.len() > h.len() {
        return None;
    }
    let mut q: usize = 0;
    while q <= h.len() - n.len()
        invariant
            n.len() <= h.len(),
            q <= h.len() - n.len() + 1,
            search_from(h@, n@, 0) == search_from(h@, n@, q as int),
        decreases h.len() - n.len() + 1 - q,
    {
        let mut j: usize = 0;
        while j < n.len() && h[q + j] == n[j]
            invariant
                q + n.len() <= h.len(),
                j <= n.len(),
                forall|k: int| 0 <= k < j ==> h@[q + k] == n@[k],
            decreases n.len() - j,
        {
            j += 1;
        }
        if j == n.len() {
            assert(h@.subrange(q as int, q + n.len()) =~= n@);
            return Some(q);
        }
        assert(h@.subrange(q as int, q + n.len())[j as int] != n@[j as int]);
        q += 1;
    }
    None
}

/// The zero-argument call of `f`.
pub open spec fn bare_call(f: Seq<char>) -> CallView {
    CallView { function: f, args: Seq::empty(), backtrace: Seq::empty() }
}

/// The pieces trimmed, with empty ones dropped.
pub open spec fn clean(ps: Seq<Seq<char>>) -> Seq<Seq<char>>
    decreases ps.len(),
{
    if ps.len() == 0 {
        Seq::empty()
    } else {
        let t = trim(ps[0]);
        (if t.len() > 0 {
            seq![t]
        } else {
            Seq::empty()
        }) + clean(ps.skip(1))
    }
}

/// The argument list written after the first case-insensitive match of `sym`
/// in `t`: the text between a `(` that follows the match at once and the next
/// `)`, split on commas, trimmed, empties dropped. Empty when there is none.
pub open spec fn args_after(t: Seq<char>, sym: Seq<char>) -> Seq<Seq<char>> {
    let p = first_match(folded(t), folded(sym));
    let rest = t.skip(p + sym.len());
    let end = span(rest, not_char(')'));
    if p >= 0 && rest.len() > 0 && rest[0] == '(' && end < rest.len() {
        clean(split_on(rest.subrange(1, end), ','))
    } else {
        Seq::empty()
    }
}

/// The call that a line mentioning `sym` stands for.
pub open spec fn call_from(t: Seq<char>, sym: Seq<char>) -> CallView {
    CallView { function: sym, args: args_after(t, sym), backtrace: Seq::empty() }
}

pub open spec fn mentions(t: Seq<char>, sym: Seq<char>) -> bool {
    first_match(folded(t), folded(sym)) >= 0
}

/// The hits of one trimmed line, in the order of `syms`.
pub open spec fn line_calls(t: Seq<char>, syms: Seq<Seq<char>>) -> Seq<CallView>
    decreases syms.len(),
{
    if syms.len() == 0 {
        Seq::empty()
    } else {
        (if mentions(t, syms[0]) {
            seq![call_from(t, syms[0])]
        } else {
            Seq::empty()
        }) + line_calls(t, syms.skip(1))
    }
}

/// The hits of all lines, in line order, each line trimmed first.
pub open spec fn lines_calls(lines: Seq<Seq<char>>, syms: Seq<Seq<char>>) -> Seq<CallView>
    decreases lines.len(),
{
    if lines.len() == 0 {
        Seq::empty()
    } else {
        line_calls(trim(lines[0]), syms) + lines_calls(lines.skip(1), syms)
    }
}

/// The names of `syms` found in the folded image, in the order of `syms`.
pub open spec fn blob_names(codes: Seq<u32>, syms: Seq<Seq<char>>) -> Seq<Seq<char>>
    decreases syms.len(),
{
    if syms.len() == 0 {
        Seq::empty()
    } else {
        (if first_match(codes, folded(syms[0])) >= 0 {
            seq![syms[0]]
        } else {
            Seq::empty()
        }) + blob_names(codes, syms.skip(1))
    }
}

/// All hits of the static scan of a raw image: those of its printable runs,
/// in line order and catalog order within a line, then one zero-argument hit
/// for each catalog name found anywhere in the image, in catalog order.
pub open spec fn static_calls(b: Seq<u8>) -> Seq<CallView> {
    lines_calls(crate::strings::text_runs(b), catalog()) + blob_names(
        folded_bytes(b),
        catalog(),
    ).map_values(|f: Seq<char>| bare_call(f))
}

/// Splits the argument text `inner` on commas, trims, drops empties.
fn split_args(inner: &[char]) -> (r: Vec<String>)
    ensures
        views_of(r@) == clean(split_on(inner@, ',')),
{
    let mut out: Vec<String> = Vec::new();
    let mut pos: usize = 0;
    assert(inner@.skip(0) =~= inner@);
    assert(views_of(out@) =~= Seq::<Seq<char>>::empty());
    loop
        invariant
            pos <= inner.len(),
            views_of(out@) + clean(split_on(inner@.skip(pos as int), ',')) == clean(
                split_on(inner@, ','),
            ),
        decreases inner.len() - pos,
    {
        let k = find_char(inner, pos, ',');
        let ghost rest = inner@.skip(pos as int);
        proof {
            crate::text::lemma_span(rest, not_char(','));
        }
        let piece = sub_chars(inner, pos, k);
        let t = trim_chars(piece.as_slice());
        let ghost old_out = views_of(out@);
        assert(rest.take(k - pos) =~= piece@);
        if t.len() > 0 {
            out.push(string_of(t.as_slice()));
            assert(views_of(out@) =~= old_out.push(t@));
        }
        if k >= inner.len() {
            proof {
                assert(split_on(rest, ',') == seq![rest]);
                assert(rest =~= piece@);
                let ps = split_on(rest, ',');
                assert(ps.skip(1) =~= Seq::<Seq<char>>::empty());
                assert(clean(ps.skip(1)) =~= Seq::<Seq<char>>::empty());
                assert(views_of(out@) =~= old_out + clean(ps));
            }
            return out;
        }
        proof {
            let ps = split_on(rest, ',');
            assert(rest.skip(k - pos + 1) =~= inner@.skip(k + 1));
            assert(ps =~= seq![piece@] + split_on(inner@.skip(k + 1), ','));
            assert(ps.skip(1) =~= split_on(inner@.skip(k + 1), ','));
            assert(clean(ps) =~= (if t@.len() > 0 {
                seq![t@]
            } else {
                Seq::empty()
            }) + clean(split_on(inner@.skip(k + 1), ',')));
            assert(views_of(out@) + clean(split_on(inner@.skip(k + 1), ',')) =~= old_out + clean(ps));
        }
        pos = k + 1;
    }
}

fn call_from_chars(t: &[char], tf: &[u32], sym: &[char], sf: &[u32]) -> (r: TracedCall)
    requires
        tf@ == folded(t@),
        sf@ == folded(sym@),
    ensures
        r@ == call_from(t@, sym@),
{
    let function = string_of(sym);
    let ghost expected_args = args_after(t@, sym@);
    let mut args: Vec<String> = Vec::new();
    let found = find_codes(tf, sf);
    match found {
        Some(p) => {
            proof {
                lemma_search_from(tf@, sf@, 0);
                assert(tf@.len() == t@.len());
                assert(sf@.len() == sym@.len());
                assert(occurs_at(tf@, sf@, p as int));
            }
            let tlen = t.len();
            assert(p + sym@.len() <= tlen);
            let start = p + sym.len();
            let ghost rest = t@.skip(start as int);
            if start < t.len() && t[start] == '(' {
                let end = find_char(t, start, ')');
                proof {
                    crate::text::lemma_span(rest, not_char(')'));
                }
                if end < t.len() {
                    let inner = sub_chars(t, start + 1, end);
                    assert(inner@ =~= rest.subrange(1, end - start));
                    args = split_args(inner.as_slice());
                    assert(views_of(args@) == expected_args);
                } else {
                    assert(views_of(args@) =~= expected_args);
                }
            } else {
                assert(views_of(args@) =~= expected_args);
            }
        },
        None => {
            assert(views_of(args@) =~= expected_args);
        },
    }
    TracedCall::new(function, args)
}

/// The call that `line` stands for when it mentions `symbol`: the argument
/// list is the text between a `(` right after the first case-insensitive
/// match and the next `)`, split on commas, trimmed, empties dropped; it is
/// empty where there is no such text.
pub fn parse_symbol_call_case_insensitive(line: &str, symbol: &str) -> (r: TracedCall)
    ensures
        r@ == call_from(line@, symbol@),
{
    let t = chars_of(line);
    let sym = chars_of(symbol);
    let tf = folded_chars(t.as_slice());
    let sf = folded_chars(sym.as_slice());
    call_from_chars(t.as_slice(), tf.as_slice(), sym.as_slice(), sf.as_slice())
}

fn catalog_folds(names: &Vec<Vec<char>>) -> (r: Vec<Vec<u32>>)
    ensures
        r@.len() == names@.len(),
        forall|i: int| 0 <= i < names@.len() ==> (#[trigger] r@[i])@ == folded(names@[i]@),
{
    let mut out: Vec<Vec<u32>> = Vec::new();
    let mut i: usize = 0;
    while i < names.len()
        invariant
            i <= names.len(),
            out@.len() == i,
            forall|k: int| 0 <= k < i ==> (#[trigger] out@[k])@ == folded(names@[k]@),
        decreases names.len() - i,
    {
        out.push(folded_chars(names[i].as_slice()));
        i += 1;
    }
    out
}

fn push_line_hits(
    t: &[char],
    names: &Vec<Vec<char>>,
    folds: &Vec<Vec<u32>>,
    out: &mut Vec<TracedCall>,
)
    requires
        names@.len() == catalog().len(),
        folds@.len() == catalog().len(),
        forall|i: int| 0 <= i < names@.len() ==> (#[trigger] names@[i])@ == catalog()[i],
        forall|i: int| 0 <= i < folds@.len() ==> (#[trigger] folds@[i])@ == folded(catalog()[i]),
    ensures
        calls_view(final(out)@) == calls_view(old(out)@) + line_calls(t@, catalog()),
{
    let ghost start = calls_view(out@);
    let tf = folded_chars(t);
    let mut i: usize = 0;
    assert(catalog().skip(0) =~= catalog());
    while i < names.len()
        invariant
            i <= names.len(),
            names@.len() == catalog().len(),
            folds@.len() == catalog().len(),
            forall|k: int| 0 <= k < names@.len() ==> (#[trigger] names@[k])@ == catalog()[k],
            forall|k: int|
                0 <= k < folds@.len() ==> (#[trigger] folds@[k])@ == folded(catalog()[k]),
            tf@ == folded(t@),
            calls_view(out@) + line_calls(t@, catalog().skip(i as int)) == start + line_calls(
                t@,
                catalog(),
            ),
        decreases names.len() - i,
    {
        let ghost before = calls_view(out@);
        let ghost syms = catalog().skip(i as int);
        assert(syms.skip(1) =~= catalog().skip(i + 1));
        assert(syms[0] == names@[i as int]@);
        let found = find_codes(tf.as_slice(), folds[i].as_slice());
        if found.is_some() {
            let c = call_from_chars(t, tf.as_slice(), names[i].as_slice(), folds[i].as_slice());
            out.push(c);
            assert(calls_view(out@) =~= before.push(c@));
        }
        assert(calls_view(out@) + line_calls(t@, catalog().skip(i + 1)) =~= before
            + line_calls(t@, syms));
        i += 1;
    }
    assert(catalog().skip(names.len() as int) =~= Seq::<Seq<char>>::empty());
    assert(calls_view(out@) =~= start + line_calls(t@, catalog()));
}

/// The names of the catalog found, case-insensitively, anywhere in the raw
/// image, in catalog order.
pub fn scan_symbols_in_bytes(bytes: &[u8]) -> (r: Vec<String>)
    ensures
        views_of(r@) == blob_names(folded_bytes(bytes@), catalog()),
{
    let blob = bytes_to_ascii_lower(bytes);
    let names = catalog_chars();
    let folds = catalog_folds(&names);
    let mut out: Vec<String> = Vec::new();
    let mut i: usize = 0;
    let ghost codes = folded_bytes(bytes@);
    assert(catalog().skip(0) =~= catalog());
    assert(views_of(out@) =~= Seq::<Seq<char>>::empty());
    while i < names.len()
        invariant
            i <= names.len(),
            blob@ == codes,
            names@.len() == catalog().len(),
            folds@.len() == catalog().len(),
            forall|k: int| 0 <= k < names@.len() ==> (#[trigger] names@[k])@ == catalog()[k],
            forall|k: int| 0 <= k < folds@.len() ==> (#[trigger] folds@[k])@ == folded(names@[k]@),
            views_of(out@) + blob_names(codes, catalog().skip(i as int)) == blob_names(
                codes,
                catalog(),
            ),
        decreases names.len() - i,
    {
        let ghost before = views_of(out@);
        let ghost syms = catalog().skip(i as int);
        assert(syms.skip(1) =~= catalog().skip(i + 1));
        assert(syms[0] == names@[i as int]@);
        let found = find_codes(blob.as_slice(), folds[i].as_slice());
        if found.is_some() {
            let name = string_of(names[i].as_slice());
            out.push(name);
            assert(views_of(out@) =~= before.push(syms[0]));
        }
        assert(views_of(out@) + blob_names(codes, catalog().skip(i + 1)) =~= before + blob_names(
            codes,
            syms,
        ));
        i += 1;
    }
    assert(catalog().skip(names.len() as int) =~= Seq::<Seq<char>>::empty());
    assert(views_of(out@) =~= blob_names(codes, catalog()));
    out
}

/// Every hit of the static scan of a raw image, in scan order: see
/// `static_calls`.
pub fn static_scan(bytes: &[u8]) -> (r: Vec<TracedCall>)
    ensures
        calls_view(r@) == static_calls(bytes@),
{
    let lines = crate::strings::extract_ascii_strings(bytes);
    let ghost lv = views_of(lines@);
    let names = catalog_chars();
    let folds = catalog_folds(&names);
    let mut out: Vec<TracedCall> = Vec::new();
    let mut i: usize = 0;
    assert(lv.skip(0) =~= lv);
    assert(calls_view(out@) =~= Seq::<CallView>::empty());
    while i < lines.len()
        invariant
            i <= lines.len(),
            lv == views_of(lines@),
            names@.len() == catalog().len(),
            folds@.len() == catalog().len(),
            forall|k: int| 0 <= k < names@.len() ==> (#[trigger] names@[k])@ == catalog()[k],
            forall|k: int| 0 <= k < folds@.len() ==> (#[trigger] folds@[k])@ == folded(names@[k]@),
            calls_view(out@) + lines_calls(lv.skip(i as int), catalog()) == lines_calls(
                lv,
                catalog(),
            ),
        decreases lines.len() - i,
    {
        let ghost before = calls_view(out@);
        let ghost rest = lv.skip(i as int);
        assert(rest.skip(1) =~= lv.skip(i + 1));
        assert(rest[0] == lines@[i as int]@);
        let raw = chars_of(lines[i].as_str());
        let t = trim_chars(raw.as_slice());
        push_line_hits(t.as_slice(), &names, &folds, &mut out);
        assert(calls_view(out@) + lines_calls(lv.skip(i + 1), catalog()) =~= before
            + lines_calls(rest, catalog()));
        i += 1;
    }
    assert(lv.skip(lines.len() as int) =~= Seq::<Seq<char>>::empty());
    let ghost line_part = calls_view(out@);
    assert(line_part =~= lines_calls(lv, catalog()));
    let found = scan_symbols_in_bytes(bytes);
    let ghost fv = views_of(found@);
    let mut j: usize = 0;
    while j < found.len()
        invariant
            j <= found.len(),
            fv == views_of(found@),
            calls_view(out@) =~= line_part + fv.take(j as int).map_values(
                |f: Seq<char>| bare_call(f),
            ),
        decreases found.len() - j,
    {
        let no_args: Vec<String> = Vec::new();
        assert(views_of(no_args@) =~= Seq::<Seq<char>>::empty());
        let ghost before = calls_view(out@);
        let c = TracedCall::new(found[j].clone(), no_args);
        assert(c@ == bare_call(fv[j as int]));
        out.push(c);
        assert(calls_view(out@) =~= before.push(c@));
        assert(fv.take(j + 1) =~= fv.take(j as int).push(fv[j as int]));
        j += 1;
        assert(calls_view(out@) =~= line_part + fv.take(j as int).map_values(
            |f: Seq<char>| bare_call(f),
        ));
    }
    assert(fv.take(found.len() as int) =~= fv);
    out
}

} // verus!
