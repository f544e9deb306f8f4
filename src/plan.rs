use vstd::prelude::*;

use crate::call::calls_view;
use crate::call::views_of;
use crate::call::CallView;
use crate::call::TracedCall;
use crate::infer::arg_type_of;
use crate::infer::ArgType;
use crate::infer::infer_trimmed;
use crate::infer::type_label;
use crate::text::chars_of;
use crate::text::decimal;
use crate::text::find_char;
use crate::text::join;
use crate::text::lemma_span;
use crate::text::lemma_trim_idempotent;
use crate::text::not_char;
use crate::text::push_all;
use crate::text::push_decimal;
use crate::text::push_joined;
use crate::text::span;
use crate::text::string_of;
use crate::text::sub_chars;
use crate::text::trim;
use crate::text::trim_chars;
use crate::text::split_on;
use crate::text::lemma_span_is;
use crate::text::lines_of;

verus! {

/// `name:type=value` for a raw argument: split on the first `=` into a name
/// and a value, or named `value` when there is none, both trimmed.
pub open spec fn typed_arg(a: Seq<char>) -> Seq<char> {
    let k = span(a, not_char('='));
    if k < a.len() {
        let n = trim(a.take(k));
        let v = trim(a.skip(k + 1));
        n + seq![':'] + type_label(arg_type_of(v)) + seq!['='] + v
    } else {
        let v = trim(a);
        seq!['v', 'a', 'l', 'u', 'e', ':'] + type_label(arg_type_of(v)) + seq!['='] + v
    }
}

pub open spec fn typed_args(args: Seq<Seq<char>>) -> Seq<Seq<char>> {
    args.map_values(|a: Seq<char>| typed_arg(a))
}

/// The typed form of a raw argument: see `typed_arg`.
pub fn format_typed_arg(arg: &str) -> (r: String)
    ensures
        r@ == typed_arg(arg@),
{
    let a = chars_of(arg);
    let k = find_char(a.as_slice(), 0, '=');
    assert(a@.skip(0) =~= a@);
    proof {
        lemma_span(a@, not_char('='));
    }
    let mut out: Vec<char> = Vec::new();
    let v;
    if k < a.len() {
        let name = sub_chars(a.as_slice(), 0, k);
        let value = sub_chars(a.as_slice(), k + 1, a.len());
        assert(name@ =~= a@.take(k as int));
        assert(value@ =~= a@.skip(k + 1));
        let n = trim_chars(name.as_slice());
        v = trim_chars(value.as_slice());
        push_all(&mut out, n.as_slice());
        out.push(':');
    } else {
        v = trim_chars(a.as_slice());
        let head = vec!['v', 'a', 'l', 'u', 'e', ':'];
        push_all(&mut out, head.as_slice());
    }
    proof {
        lemma_trim_idempotent(if k < a.len() { a@.skip(k + 1) } else { a@ });
    }
    let ty = infer_trimmed(v.as_slice());
    let label = chars_of(ty.label());
    push_all(&mut out, label.as_slice());
    out.push('=');
    push_all(&mut out, v.as_slice());
    assert(out@ =~= typed_arg(arg@));
    string_of(out.as_slice())
}

/// The typed form of each argument of a call, in order.
pub fn typed_args_for_call(call: &TracedCall) -> (r: Vec<String>)
    ensures
        views_of(r@) == typed_args(call@.args),
{
    let mut out: Vec<String> = Vec::new();
    let mut i: usize = 0;
    while i < call.args.len()
        invariant
            i <= call.args.len(),
            views_of(out@) =~= typed_args(call@.args.take(i as int)),
        decreases call.args.len() - i,
    {
        let ghost before = views_of(out@);
        let t = format_typed_arg(call.args[i].as_str());
        out.push(t);
        assert(views_of(out@) =~= before.push(t@));
        assert(call@.args.take(i + 1) =~= call@.args.take(i as int).push(call@.args[i as int]));
        i += 1;
    }
    assert(call@.args.take(call.args.len() as int) =~= call@.args);
    out
}

/// The first line of a plan.
pub open spec fn plan_header() -> Seq<char> {
    "# waygate execution plan"@
}

/// The record of the call at position `i`: its index from one, its function
/// and its typed arguments joined by `||`, separated by tabs.
pub open spec fn plan_record(i: nat, c: CallView) -> Seq<char> {
    decimal(i + 1) + seq!['\t'] + c.function + seq!['\t'] + join(
        typed_args(c.args),
        seq!['|', '|'],
    )
}

/// The records of all calls, each followed by a newline.
pub open spec fn plan_body(calls: Seq<CallView>) -> Seq<char>
    decreases calls.len(),
{
    if calls.len() == 0 {
        Seq::empty()
    } else {
        plan_body(calls.drop_last()) + plan_record((calls.len() - 1) as nat, calls.last()) + seq![
            '\n',
        ]
    }
}

/// The plan text: the header line, then one record line per call.
pub open spec fn plan_text(calls: Seq<CallView>) -> Seq<char> {
    plan_header() + seq!['\n'] + plan_body(calls)
}

/// The execution plan for the calls: see `plan_text`.
pub fn render_plan(calls: &[TracedCall]) -> (r: String)
    requires
        calls@.len() < usize::MAX,
    ensures
        r@ == plan_text(calls_view(calls@)),
{
    let ghost cv = calls_view(calls@);
    let mut out = chars_of("# waygate execution plan");
    out.push('\n');
    let bars = vec!['|', '|'];
    assert(bars@ =~= seq!['|', '|']);
    let mut i: usize = 0;
    assert(cv.take(0) =~= Seq::<CallView>::empty());
    while i < calls.len()
        invariant
            i <= calls.len() < usize::MAX,
            cv == calls_view(calls@),
            bars@ == seq!['|', '|'],
            out@ == plan_header() + seq!['\n'] + plan_body(cv.take(i as int)),
        decreases calls.len() - i,
    {
        let ghost before = out@;
        let c = &calls[i];
        push_decimal(&mut out, i + 1);
        out.push('\t');
        let f = chars_of(c.function.as_str());
        push_all(&mut out, f.as_slice());
        out.push('\t');
        let typed = typed_args_for_call(c);
        push_joined(&mut out, typed.as_slice(), bars.as_slice());
        out.push('\n');
        assert(cv.take(i + 1).drop_last() =~= cv.take(i as int));
        assert(cv.take(i + 1).last() == c@);
        assert(out@ =~= before + plan_record(i as nat, c@) + seq!['\n']);
        i += 1;
    }
    assert(cv.take(calls.len() as int) =~= cv);
    string_of(out.as_slice())
}

/// Whether `s` holds two neighbouring `|` at position `k`.
pub open spec fn bar_at(s: Seq<char>, k: int) -> bool {
    0 <= k && k + 1 < s.len() && s[k] == '|' && s[k + 1] == '|'
}

/// The first position at or after `q` of `||` in `s`, or -1.
pub open spec fn bar_from(s: Seq<char>, q: int) -> int
    decreases s.len() - q,
{
    if q < 0 || q + 1 >= s.len() {
        -1
    } else if bar_at(s, q) {
        q
    } else {
        bar_from(s, q + 1)
    }
}

/// The pieces of `s` between occurrences of `||`, read from the left.
pub open spec fn split_bars(s: Seq<char>) -> Seq<Seq<char>>
    decreases s.len(),
{
    let k = bar_from(s, 0);
    if k < 0 || k + 2 > s.len() {
        seq![s]
    } else {
        seq![s.take(k)] + split_bars(s.skip(k + 2))
    }
}

/// The typed arguments written in a record's third field.
pub open spec fn decode_args(field: Seq<char>) -> Seq<Seq<char>> {
    if field.len() == 0 {
        Seq::empty()
    } else {
        split_bars(field)
    }
}

proof fn lemma_bar_from_none(s: Seq<char>, q: int)
    requires
        q >= 0,
        forall|k: int| q <= k ==> !bar_at(s, k),
    ensures
        bar_from(s, q) == -1,
    decreases s.len() - q,
{
    if q + 1 < s.len() {
        lemma_bar_from_none(s, q + 1);
    }
}

proof fn lemma_bar_from_is(s: Seq<char>, q: int, m: int)
    requires
        0 <= q <= m,
        bar_at(s, m),
        forall|k: int| q <= k < m ==> !bar_at(s, k),
    ensures
        bar_from(s, q) == m,
    decreases m - q,
{
    if q < m {
        lemma_bar_from_is(s, q + 1, m);
    }
}

/// Holds no `||`.
pub open spec fn bar_free(x: Seq<char>) -> bool {
    forall|k: int| !bar_at(x, k)
}

/// Pieces that `||` can join and split back apart: none holds `||`, and none
/// but the last ends with `|`.
pub open spec fn bar_separable(xs: Seq<Seq<char>>) -> bool {
    &&& forall|i: int| 0 <= i < xs.len() ==> bar_free(#[trigger] xs[i])
    &&& forall|i: int|
        0 <= i < xs.len() - 1 ==> !((#[trigger] xs[i]).len() > 0 && xs[i].last() == '|')
}

proof fn lemma_join_front(xs: Seq<Seq<char>>, sep: Seq<char>)
    requires
        xs.len() >= 2,
    ensures
        join(xs, sep) == xs[0] + sep + join(xs.skip(1), sep),
    decreases xs.len(),
{
    if xs.len() == 2 {
        assert(xs.drop_last().len() == 1);
        assert(join(xs.drop_last(), sep) == xs[0]);
        assert(xs.skip(1).len() == 1);
        assert(join(xs.skip(1), sep) == xs[1]);
        assert(join(xs, sep) =~= xs[0] + sep + join(xs.skip(1), sep));
    } else {
        let d = xs.drop_last();
        lemma_join_front(d, sep);
        assert(d.skip(1) =~= xs.skip(1).drop_last());
        assert(xs.skip(1).last() == xs.last());
        assert(join(xs.skip(1), sep) == join(d.skip(1), sep) + sep + xs.last());
        assert(join(xs, sep) =~= xs[0] + sep + join(xs.skip(1), sep));
    }
}

/// Joining pieces with `||` and splitting the result on `||` gives the pieces
/// back.
pub proof fn lemma_split_bars_join(xs: Seq<Seq<char>>)
    requires
        xs.len() >= 1,
        bar_separable(xs),
    ensures
        split_bars(join(xs, seq!['|', '|'])) == xs,
    decreases xs.len(),
{
    let sep = seq!['|', '|'];
    if xs.len() == 1 {
        assert(bar_free(xs[0]));
        lemma_bar_from_none(xs[0], 0);
        assert(xs =~= seq![xs[0]]);
    } else {
        let x = xs[0];
        let rest = xs.skip(1);
        lemma_join_front(xs, sep);
        let s = join(xs, sep);
        assert(s == x + sep + join(rest, sep));
        let n = x.len() as int;
        assert(bar_free(x));
        assert forall|k: int| 0 <= k < n implies !bar_at(s, k) by {
            if k + 1 < n {
                assert(s[k] == x[k] && s[k + 1] == x[k + 1]);
                assert(!bar_at(x, k));
            } else {
                assert(s[k] == x.last());
                assert(!(x.len() > 0 && x.last() == '|'));
            }
        }
        assert(s[n] == '|' && s[n + 1] == '|');
        lemma_bar_from_is(s, 0, n);
        assert(s.take(n) =~= x);
        assert(s.skip(n + 2) =~= join(rest, sep));
        assert(bar_separable(rest)) by {
            assert forall|i: int| 0 <= i < rest.len() implies bar_free(#[trigger] rest[i]) by {
                assert(rest[i] == xs[i + 1]);
            }
            assert forall|i: int| 0 <= i < rest.len() - 1 implies !((#[trigger] rest[i]).len() > 0
                && rest[i].last() == '|') by {
                assert(rest[i] == xs[i + 1]);
            }
        }
        lemma_split_bars_join(rest);
        assert(xs =~= seq![x] + rest);
    }
}

proof fn lemma_split_cons(x: Seq<char>, c: char, rest: Seq<char>)
    requires
        !x.contains(c),
    ensures
        split_on(x + seq![c] + rest, c) == seq![x] + split_on(rest, c),
{
    let s = x + seq![c] + rest;
    assert forall|i: int| 0 <= i < x.len() implies (not_char(c))(#[trigger] s[i]) by {
        assert(s[i] == x[i]);
        if s[i] == c {
            assert(x.contains(c));
        }
    }
    assert(s[x.len() as int] == c);
    lemma_span_is(s, not_char(c), x.len() as int);
    assert(s.take(x.len() as int) =~= x);
    assert(s.skip(x.len() as int + 1) =~= rest);
}

proof fn lemma_split_none(x: Seq<char>, c: char)
    requires
        !x.contains(c),
    ensures
        split_on(x, c) == seq![x],
{
    assert forall|i: int| 0 <= i < x.len() implies (not_char(c))(#[trigger] x[i]) by {
        if x[i] == c {
            assert(x.contains(c));
        }
    }
    lemma_span_is(x, not_char(c), x.len() as int);
}

proof fn lemma_concat_free(a: Seq<char>, b: Seq<char>, c: char)
    requires
        !a.contains(c),
        !b.contains(c),
    ensures
        !(a + b).contains(c),
{
    if (a + b).contains(c) {
        let i = choose|i: int| 0 <= i < (a + b).len() && (a + b)[i] == c;
        if i < a.len() {
            assert(a[i] == c);
            assert(a.contains(c));
        } else {
            assert(b[i - a.len()] == c);
            assert(b.contains(c));
        }
    }
}

proof fn lemma_join_free(xs: Seq<Seq<char>>, sep: Seq<char>, c: char)
    requires
        forall|i: int| 0 <= i < xs.len() ==> !(#[trigger] xs[i]).contains(c),
        !sep.contains(c),
    ensures
        !join(xs, sep).contains(c),
    decreases xs.len(),
{
    if xs.len() == 0 {
        assert(!Seq::<char>::empty().contains(c));
    } else if xs.len() >= 2 {
        lemma_join_free(xs.drop_last(), sep, c);
        assert(!xs.last().contains(c));
        lemma_concat_free(join(xs.drop_last(), sep), sep, c);
        lemma_concat_free(join(xs.drop_last(), sep) + sep, xs.last(), c);
    }
}

proof fn lemma_decimal_digits(n: nat)
    ensures
        forall|j: int| 0 <= j < decimal(n).len() ==> '0' <= #[trigger] decimal(n)[j] <= '9',
    decreases n,
{
    let digits = seq!['0', '1', '2', '3', '4', '5', '6', '7', '8', '9'];
    assert(forall|d: int| 0 <= d < 10 ==> '0' <= #[trigger] digits[d] <= '9');
    if n >= 10 {
        lemma_decimal_digits(n / 10);
        let d = decimal(n);
        assert forall|j: int| 0 <= j < d.len() implies '0' <= #[trigger] d[j] <= '9' by {
            if j < d.len() - 1 {
                assert(d[j] == decimal(n / 10)[j]);
            }
        }
    }
}

proof fn lemma_digits_free(d: Seq<char>, c: char)
    requires
        forall|j: int| 0 <= j < d.len() ==> '0' <= #[trigger] d[j] <= '9',
        !('0' <= c <= '9'),
    ensures
        !d.contains(c),
{
    if d.contains(c) {
        let i = choose|i: int| 0 <= i < d.len() && d[i] == c;
        assert('0' <= d[i] <= '9');
    }
}

/// Typed arguments that a plan record holds unambiguously: neither a tab nor
/// a newline in any, and `||` can split them back apart.
pub open spec fn record_safe(xs: Seq<Seq<char>>) -> bool {
    &&& bar_separable(xs)
    &&& forall|j: int| 0 <= j < xs.len() ==> !(#[trigger] xs[j]).contains('\t')
    &&& forall|j: int| 0 <= j < xs.len() ==> !(#[trigger] xs[j]).contains('\n')
}

proof fn lemma_typed_arg_nonempty(a: Seq<char>)
    ensures
        typed_arg(a).len() > 0,
{
}

proof fn lemma_record_fields(i: nat, c: CallView)
    requires
        !c.function.contains('\t'),
        !c.function.contains('\n'),
        record_safe(typed_args(c.args)),
    ensures
        !plan_record(i, c).contains('\n'),
        split_on(plan_record(i, c), '\t').len() == 3,
        split_on(plan_record(i, c), '\t')[0] == decimal(i + 1),
        split_on(plan_record(i, c), '\t')[1] == c.function,
        decode_args(split_on(plan_record(i, c), '\t')[2]) == typed_args(c.args),
{
    let d = decimal(i + 1);
    let f = c.function;
    let xs = typed_args(c.args);
    let bars = seq!['|', '|'];
    let j = join(xs, bars);
    lemma_decimal_digits(i + 1);
    lemma_digits_free(d, '\t');
    lemma_digits_free(d, '\n');
    assert(!bars.contains('\t')) by {
        if bars.contains('\t') {
            let k = choose|k: int| 0 <= k < bars.len() && bars[k] == '\t';
        }
    }
    assert(!bars.contains('\n')) by {
        if bars.contains('\n') {
            let k = choose|k: int| 0 <= k < bars.len() && bars[k] == '\n';
        }
    }
    lemma_join_free(xs, bars, '\t');
    lemma_join_free(xs, bars, '\n');
    let r = plan_record(i, c);
    assert(r =~= d + seq!['\t'] + (f + seq!['\t'] + j));
    lemma_split_cons(d, '\t', f + seq!['\t'] + j);
    lemma_split_cons(f, '\t', j);
    lemma_split_none(j, '\t');
    assert(split_on(r, '\t') =~= seq![d, f, j]);
    let tab = seq!['\t'];
    assert(!tab.contains('\n')) by {
        if tab.contains('\n') {
            let k = choose|k: int| 0 <= k < tab.len() && tab[k] == '\n';
        }
    }
    lemma_concat_free(d, tab, '\n');
    lemma_concat_free(d + tab, f, '\n');
    lemma_concat_free(d + tab + f, tab, '\n');
    lemma_concat_free(d + tab + f + tab, j, '\n');
    if xs.len() > 0 {
        lemma_typed_arg_nonempty(c.args[0]);
        if xs.len() == 1 {
            assert(j.len() > 0);
        } else {
            lemma_join_front(xs, bars);
            assert(j.len() > 0);
        }
        lemma_split_bars_join(xs);
    } else {
        assert(j.len() == 0);
        assert(decode_args(j) =~= xs);
    }
}

/// The record lines of the calls, in order.
pub open spec fn plan_records(calls: Seq<CallView>) -> Seq<Seq<char>> {
    Seq::new(calls.len(), |i: int| plan_record(i as nat, calls[i]))
}

proof fn lemma_split_body(calls: Seq<CallView>, tail: Seq<char>)
    requires
        forall|i: int| 0 <= i < calls.len() ==> !plan_record(i as nat, #[trigger] calls[i]).contains(
            '\n',
        ),
    ensures
        split_on(plan_body(calls) + tail, '\n') == plan_records(calls) + split_on(tail, '\n'),
    decreases calls.len(),
{
    if calls.len() == 0 {
        assert(plan_body(calls) + tail =~= tail);
        assert(plan_records(calls) =~= Seq::<Seq<char>>::empty());
        assert(plan_records(calls) + split_on(tail, '\n') =~= split_on(tail, '\n'));
    } else {
        let d = calls.drop_last();
        let n = (calls.len() - 1) as nat;
        let r = plan_record(n, calls.last());
        assert(!r.contains('\n'));
        let tail2 = r + seq!['\n'] + tail;
        assert forall|i: int| 0 <= i < d.len() implies !plan_record(i as nat, #[trigger] d[i]).contains(
            '\n',
        ) by {
            assert(d[i] == calls[i]);
        }
        lemma_split_body(d, tail2);
        assert(plan_body(calls) + tail =~= plan_body(d) + tail2);
        lemma_split_cons(r, '\n', tail);
        assert(plan_records(calls) =~= plan_records(d).push(r));
        assert(split_on(plan_body(calls) + tail, '\n') =~= plan_records(calls) + split_on(
            tail,
            '\n',
        ));
    }
}

/// Splitting a written plan into lines, each record on tabs and its third
/// field on `||`, gives back each call's function and typed arguments, in
/// order, under the indices 1, 2, 3, ... The function names hold no tab and
/// no newline, and the typed arguments are `record_safe`.
pub proof fn lemma_plan_round_trip(calls: Seq<CallView>)
    requires
        forall|i: int| 0 <= i < calls.len() ==> !(#[trigger] calls[i]).function.contains('\t'),
        forall|i: int| 0 <= i < calls.len() ==> !(#[trigger] calls[i]).function.contains('\n'),
        forall|i: int| 0 <= i < calls.len() ==> record_safe(typed_args(#[trigger] calls[i].args)),
    ensures
        lines_of(plan_text(calls)).len() == calls.len() + 1,
        lines_of(plan_text(calls))[0] == plan_header(),
        forall|i: int|
            0 <= i < calls.len() ==> {
                let f = split_on(#[trigger] lines_of(plan_text(calls))[i + 1], '\t');
                &&& f.len() == 3
                &&& f[0] == decimal((i + 1) as nat)
                &&& f[1] == calls[i].function
                &&& decode_args(f[2]) == typed_args(calls[i].args)
            },
{
    let h = plan_header();
    reveal_strlit("# waygate execution plan");
    assert(!h.contains('\n')) by {
        if h.contains('\n') {
            let k = choose|k: int| 0 <= k < h.len() && h[k] == '\n';
            assert(h[k] != '\n');
        }
    }
    assert forall|i: int| 0 <= i < calls.len() implies !plan_record(i as nat, #[trigger] calls[i]).contains(
        '\n',
    ) by {
        lemma_record_fields(i as nat, calls[i]);
    }
    lemma_split_body(calls, Seq::empty());
    assert(plan_body(calls) + Seq::<char>::empty() =~= plan_body(calls));
    lemma_split_cons(h, '\n', plan_body(calls));
    let e = Seq::<char>::empty();
    assert(split_on(e, '\n') == seq![e]) by {
        lemma_split_none(e, '\n');
    }
    let ps = split_on(plan_text(calls), '\n');
    assert(ps =~= seq![h] + plan_records(calls) + seq![e]);
    let ls = lines_of(plan_text(calls));
    assert(ls =~= seq![h] + plan_records(calls));
    assert forall|i: int| 0 <= i < calls.len() implies {
        let f = split_on(#[trigger] ls[i + 1], '\t');
        &&& f.len() == 3
        &&& f[0] == decimal((i + 1) as nat)
        &&& f[1] == calls[i].function
        &&& decode_args(f[2]) == typed_args(calls[i].args)
    } by {
        assert(ls[i + 1] == plan_record(i as nat, calls[i]));
        lemma_record_fields(i as nat, calls[i]);
    }
}

proof fn lemma_trim_free(x: Seq<char>, c: char)
    requires
        !x.contains(c),
    ensures
        !trim(x).contains(c),
{
    let ws = |ch: char| crate::text::is_ws(ch);
    let l = span(x, ws);
    let u = x.skip(l);
    crate::text::lemma_span(x, ws);
    crate::text::lemma_back_span(u, ws);
    let t = trim(x);
    if t.contains(c) {
        let i = choose|i: int| 0 <= i < t.len() && t[i] == c;
        assert(t[i] == x[l + i]);
        assert(x.contains(c));
    }
}

proof fn lemma_letters_free(s: Seq<char>, c: char)
    requires
        forall|i: int| 0 <= i < s.len() ==> 'a' <= #[trigger] s[i] <= 'z',
        !('a' <= c <= 'z'),
    ensures
        !s.contains(c),
{
    if s.contains(c) {
        let i = choose|i: int| 0 <= i < s.len() && s[i] == c;
        assert('a' <= s[i] <= 'z');
    }
}

proof fn lemma_label_letters(t: ArgType)
    ensures
        forall|i: int| 0 <= i < type_label(t).len() ==> 'a' <= #[trigger] type_label(t)[i] <= 'z',
{
    let l = type_label(t);
    assert forall|i: int| 0 <= i < l.len() implies 'a' <= #[trigger] l[i] <= 'z' by {
        match t {
            ArgType::Bool => {},
            ArgType::Str => {},
            ArgType::Pointer => {},
            ArgType::Int => {},
            ArgType::Float => {},
            ArgType::Path => {},
            ArgType::Unknown => {},
        }
    }
}

proof fn lemma_single_free(x: char, c: char)
    requires
        x != c,
    ensures
        !seq![x].contains(c),
{
    if seq![x].contains(c) {
        let i = choose|i: int| 0 <= i < 1 && seq![x][i] == c;
    }
}

/// A tab, newline or `|` that a raw argument lacks, its typed form lacks too.
proof fn lemma_typed_arg_free(a: Seq<char>, c: char)
    requires
        !a.contains(c),
        c == '\t' || c == '\n' || c == '|',
    ensures
        !typed_arg(a).contains(c),
{
    let k = span(a, not_char('='));
    crate::text::lemma_span(a, not_char('='));
    if k < a.len() {
        let n = trim(a.take(k));
        let v = trim(a.skip(k + 1));
        assert(!a.take(k).contains(c)) by {
            if a.take(k).contains(c) {
                let i = choose|i: int| 0 <= i < k && a.take(k)[i] == c;
                assert(a[i] == c);
            }
        }
        assert(!a.skip(k + 1).contains(c)) by {
            if a.skip(k + 1).contains(c) {
                let i = choose|i: int| 0 <= i < a.len() - k - 1 && #[trigger] a.skip(k + 1)[i] == c;
                assert(a[k + 1 + i] == c);
            }
        }
        lemma_trim_free(a.take(k), c);
        lemma_trim_free(a.skip(k + 1), c);
        let l = type_label(arg_type_of(v));
        lemma_label_letters(arg_type_of(v));
        lemma_letters_free(l, c);
        lemma_single_free(':', c);
        lemma_single_free('=', c);
        lemma_concat_free(n, seq![':'], c);
        lemma_concat_free(n + seq![':'], l, c);
        lemma_concat_free(n + seq![':'] + l, seq!['='], c);
        lemma_concat_free(n + seq![':'] + l + seq!['='], v, c);
    } else {
        let v = trim(a);
        lemma_trim_free(a, c);
        let l = type_label(arg_type_of(v));
        lemma_label_letters(arg_type_of(v));
        lemma_letters_free(l, c);
        let head = seq!['v', 'a', 'l', 'u', 'e', ':'];
        assert(!head.contains(c)) by {
            if head.contains(c) {
                let i = choose|i: int| 0 <= i < 6 && head[i] == c;
            }
        }
        lemma_single_free('=', c);
        lemma_concat_free(head, l, c);
        lemma_concat_free(head + l, seq!['='], c);
        lemma_concat_free(head + l + seq!['='], v, c);
    }
}

/// The plan round trip for calls whose function names and raw arguments hold
/// no tab, no newline and no `|`: each record splits back into its index, its
/// function and the typed form of each argument, in order.
pub proof fn lemma_plan_round_trip_plain(calls: Seq<CallView>)
    requires
        forall|i: int|
            0 <= i < calls.len() ==> !(#[trigger] calls[i]).function.contains('\t')
                && !calls[i].function.contains('\n'),
        forall|i: int, k: int|
            0 <= i < calls.len() && 0 <= k < calls[i].args.len() ==> !(
            #[trigger] calls[i].args[k]).contains('\t') && !calls[i].args[k].contains('\n')
                && !calls[i].args[k].contains('|'),
    ensures
        lines_of(plan_text(calls)).len() == calls.len() + 1,
        lines_of(plan_text(calls))[0] == plan_header(),
        forall|i: int|
            0 <= i < calls.len() ==> {
                let f = split_on(#[trigger] lines_of(plan_text(calls))[i + 1], '\t');
                &&& f.len() == 3
                &&& f[0] == decimal((i + 1) as nat)
                &&& f[1] == calls[i].function
                &&& decode_args(f[2]) == typed_args(calls[i].args)
            },
{
    assert forall|i: int| 0 <= i < calls.len() implies record_safe(
        typed_args(#[trigger] calls[i].args),
    ) by {
        let xs = typed_args(calls[i].args);
        assert forall|j: int| 0 <= j < xs.len() implies !(#[trigger] xs[j]).contains('\t')
            && !xs[j].contains('\n') && !xs[j].contains('|') by {
            let a = calls[i].args[j];
            assert(!a.contains('\t') && !a.contains('\n') && !a.contains('|'));
            lemma_typed_arg_free(a, '\t');
            lemma_typed_arg_free(a, '\n');
            lemma_typed_arg_free(a, '|');
        }
        assert forall|j: int| 0 <= j < xs.len() implies bar_free(#[trigger] xs[j]) by {
            assert(!xs[j].contains('|'));
            assert forall|k: int| !bar_at(xs[j], k) by {
                if bar_at(xs[j], k) {
                    assert(xs[j][k] == '|');
                }
            }
        }
        assert forall|j: int| 0 <= j < xs.len() - 1 implies !((#[trigger] xs[j]).len() > 0
            && xs[j].last() == '|') by {
            assert(!xs[j].contains('|'));
            if xs[j].len() > 0 && xs[j].last() == '|' {
                assert(xs[j][xs[j].len() - 1] == '|');
            }
        }
    }
    lemma_plan_round_trip(calls);
}

} // verus!
