use vstd::prelude::*;

use crate::call::calls_view;
use crate::call::views_of;
use crate::call::CallView;
use crate::call::TracedCall;
use crate::catalog::catalog;
use crate::catalog::catalog_chars;
use crate::catalog::in_catalog;
use crate::catalog::is_catalog_name;
use crate::text::char_views;
use crate::text::chars_of;
use crate::text::contains_chars;
use crate::text::contains_seq;
use crate::text::decimal;
use crate::text::find_char;
use crate::text::join;
use crate::text::owned;
use crate::text::lemma_span;
use crate::text::lemma_span_is;
use crate::text::lines_of;
use crate::text::not_char;
use crate::text::span;
use crate::text::split_lines;
use crate::text::string_of;
use crate::text::sub_chars;
use crate::text::trim;
use crate::text::trim_chars;

verus! {

/// How many stops the generated debugger script reports at most.
pub const TRACE_MAX_STOPS: usize = 128;

/// The line printed before each stop's report.
pub open spec fn begin_marker() -> Seq<char> {
    "===TRACE_EVENT_BEGIN==="@
}

/// The line printed after each stop's report.
pub open spec fn end_marker() -> Seq<char> {
    "===TRACE_EVENT_END==="@
}

pub open spec fn name_char() -> spec_fn(char) -> bool {
    |c: char| c != '(' && c != ' '
}

pub open spec fn is_digit(c: char) -> bool {
    '0' <= c <= '9'
}

pub open spec fn is_frame_line(line: Seq<char>) -> bool {
    line.len() > 0 && line[0] == '#'
}

/// The function named by a backtrace line `#<n> <token> ...`: the token up to
/// the first `(` or space; none if it is empty or starts with a digit, as a
/// raw address does.
pub open spec fn name_of(line: Seq<char>) -> Option<Seq<char>> {
    let sp = span(line, not_char(' '));
    let w = trim(line.skip(sp + 1));
    let cand = w.take(span(w, name_char()));
    if !is_frame_line(line) || sp >= line.len() || cand.len() == 0 || is_digit(cand[0]) {
        None
    } else {
        Some(cand)
    }
}

/// The key and value of a line holding `=`, split at the first `=` and both
/// trimmed; none if the key is empty or starts with `#`.
pub open spec fn arg_parts(line: Seq<char>) -> Option<(Seq<char>, Seq<char>)> {
    let k = span(line, not_char('='));
    let key = trim(line.take(k));
    if k >= line.len() || key.len() == 0 || key[0] == '#' {
        None
    } else {
        Some((key, trim(line.skip(k + 1))))
    }
}

/// The argument `key=value` that a line reports.
pub open spec fn arg_of(line: Seq<char>) -> Option<Seq<char>> {
    match arg_parts(line) {
        Some((k, v)) => Some(k + seq!['='] + v),
        None => None,
    }
}

/// The first function named by a backtrace line of the block.
pub open spec fn block_function(ls: Seq<Seq<char>>) -> Option<Seq<char>>
    decreases ls.len(),
{
    if ls.len() == 0 {
        None
    } else {
        match name_of(ls[0]) {
            Some(n) => Some(n),
            None => block_function(ls.skip(1)),
        }
    }
}

pub open spec fn block_args(ls: Seq<Seq<char>>) -> Seq<Seq<char>>
    decreases ls.len(),
{
    if ls.len() == 0 {
        Seq::empty()
    } else {
        (match arg_of(ls[0]) {
            Some(a) => seq![a],
            None => Seq::empty(),
        }) + block_args(ls.skip(1))
    }
}

pub open spec fn block_backtrace(ls: Seq<Seq<char>>) -> Seq<Seq<char>>
    decreases ls.len(),
{
    if ls.len() == 0 {
        Seq::empty()
    } else {
        (if is_frame_line(ls[0]) {
            seq![ls[0]]
        } else {
            Seq::empty()
        }) + block_backtrace(ls.skip(1))
    }
}

/// The call a block reports, if it names a catalog function.
pub open spec fn block_call(ls: Seq<Seq<char>>) -> Option<CallView> {
    match block_function(ls) {
        Some(f) => if in_catalog(f) {
            Some(CallView { function: f, args: block_args(ls), backtrace: block_backtrace(ls) })
        } else {
            None
        },
        None => None,
    }
}

fn function_name_chars(line: &[char]) -> (r: Option<Vec<char>>)
    ensures
        match r {
            Some(v) => name_of(line@) == Some(v@),
            None => name_of(line@) is None,
        },
{
    let ghost sp = span(line@, not_char(' '));
    if line.len() == 0 || line[0] != '#' {
        return None;
    }
    let k = find_char(line, 0, ' ');
    assert(line@.skip(0) =~= line@);
    proof {
        lemma_span(line@, not_char(' '));
    }
    if k >= line.len() {
        return None;
    }
    let after = sub_chars(line, k + 1, line.len());
    assert(after@ =~= line@.skip(sp + 1));
    let w = trim_chars(after.as_slice());
    let mut e: usize = 0;
    while e < w.len() && w[e] != '(' && w[e] != ' '
        invariant
            e <= w.len(),
            forall|i: int| 0 <= i < e ==> (name_char())(#[trigger] w@[i]),
        decreases w.len() - e,
    {
        e += 1;
    }
    proof {
        lemma_span_is(w@, name_char(), e as int);
    }
    let cand = sub_chars(w.as_slice(), 0, e);
    assert(cand@ =~= w@.take(e as int));
    if cand.len() == 0 || ('0' <= cand[0] && cand[0] <= '9') {
        return None;
    }
    Some(cand)
}

/// The function named by a backtrace line: see `name_of`.
pub fn parse_function_name(line: &str) -> (r: Option<String>)
    ensures
        match r {
            Some(v) => name_of(line@) == Some(v@),
            None => name_of(line@) is None,
        },
{
    let c = chars_of(line);
    match function_name_chars(c.as_slice()) {
        Some(v) => Some(string_of(v.as_slice())),
        None => None,
    }
}

/// The key and value a line reports: see `arg_parts`.
pub fn parse_arg_line(line: &str) -> (r: Option<(String, String)>)
    ensures
        match r {
            Some((k, v)) => arg_parts(line@) == Some((k@, v@)),
            None => arg_parts(line@) is None,
        },
{
    let c = chars_of(line);
    match arg_line_chars(c.as_slice()) {
        Some((k, v)) => Some((string_of(k.as_slice()), string_of(v.as_slice()))),
        None => None,
    }
}

fn arg_line_chars(line: &[char]) -> (r: Option<(Vec<char>, Vec<char>)>)
    ensures
        match r {
            Some((k, v)) => arg_parts(line@) == Some((k@, v@)),
            None => arg_parts(line@) is None,
        },
{
    let k = find_char(line, 0, '=');
    assert(line@.skip(0) =~= line@);
    proof {
        lemma_span(line@, not_char('='));
    }
    if k >= line.len() {
        return None;
    }
    let name = sub_chars(line, 0, k);
    let key = trim_chars(name.as_slice());
    if key.len() == 0 || key[0] == '#' {
        return None;
    }
    let value = sub_chars(line, k + 1, line.len());
    let v = trim_chars(value.as_slice());
    assert(name@ =~= line@.take(k as int));
    assert(value@ =~= line@.skip(k + 1));
    Some((key, v))
}

/// The call a marker-delimited block reports: see `block_call`.
pub fn parse_trace_block(lines: &[String]) -> (r: Option<TracedCall>)
    ensures
        match r {
            Some(c) => block_call(views_of(lines@)) == Some(c@),
            None => block_call(views_of(lines@)) is None,
        },
{
    let ghost ls = views_of(lines@);
    let mut function: Option<Vec<char>> = None;
    let mut args: Vec<String> = Vec::new();
    let mut backtrace: Vec<String> = Vec::new();
    let mut i: usize = 0;
    assert(ls.skip(0) =~= ls);
    assert(views_of(args@) =~= Seq::<Seq<char>>::empty());
    assert(views_of(backtrace@) =~= Seq::<Seq<char>>::empty());
    while i < lines.len()
        invariant
            i <= lines.len(),
            ls == views_of(lines@),
            match function {
                Some(f) => block_function(ls) == Some(f@),
                None => block_function(ls) == block_function(ls.skip(i as int)),
            },
            views_of(args@) + block_args(ls.skip(i as int)) == block_args(ls),
            views_of(backtrace@) + block_backtrace(ls.skip(i as int)) == block_backtrace(ls),
        decreases lines.len() - i,
    {
        let line = chars_of(lines[i].as_str());
        let ghost rest = ls.skip(i as int);
        assert(rest[0] == line@);
        assert(rest.skip(1) =~= ls.skip(i + 1));
        if function.is_none() {
            function = function_name_chars(line.as_slice());
        }
        let ghost old_args = views_of(args@);
        match arg_line_chars(line.as_slice()) {
            Some((k, v)) => {
                let mut a = k;
                a.push('=');
                crate::text::push_all(&mut a, v.as_slice());
                assert(a@ =~= k@ + seq!['='] + v@);
                assert(arg_of(rest[0]) == Some(a@));
                args.push(string_of(a.as_slice()));
                assert(views_of(args@) =~= old_args.push(a@));
            },
            None => {
                assert(arg_of(rest[0]) is None);
            },
        }
        assert(views_of(args@) + block_args(ls.skip(i + 1)) =~= old_args + block_args(rest));
        let ghost old_bt = views_of(backtrace@);
        if line.len() > 0 && line[0] == '#' {
            backtrace.push(lines[i].clone());
            assert(views_of(backtrace@) =~= old_bt.push(line@));
        }
        assert(views_of(backtrace@) + block_backtrace(ls.skip(i + 1)) =~= old_bt
            + block_backtrace(rest));
        i += 1;
    }
    assert(ls.skip(lines.len() as int) =~= Seq::<Seq<char>>::empty());
    assert(views_of(args@) =~= block_args(ls));
    assert(views_of(backtrace@) =~= block_backtrace(ls));
    match function {
        Some(f) => {
            if is_catalog_name(f.as_slice()) {
                let name = string_of(f.as_slice());
                Some(TracedCall { function: name, args, backtrace })
            } else {
                None
            }
        },
        None => None,
    }
}

/// Where the parser stands after some lines of debugger output.
pub struct TraceState {
    pub inside: bool,
    pub block: Seq<Seq<char>>,
    pub calls: Seq<CallView>,
}

/// One line of debugger output read: a begin marker opens a new block, an end
/// marker closes it and keeps the call it reports, any other line inside a
/// block is added to it, trimmed.
pub open spec fn trace_step(st: TraceState, line: Seq<char>) -> TraceState {
    if contains_seq(line, begin_marker()) {
        TraceState { inside: true, block: Seq::empty(), calls: st.calls }
    } else if contains_seq(line, end_marker()) {
        TraceState {
            inside: false,
            block: Seq::empty(),
            calls: match block_call(st.block) {
                Some(c) => st.calls.push(c),
                None => st.calls,
            },
        }
    } else if st.inside {
        TraceState { inside: true, block: st.block.push(trim(line)), calls: st.calls }
    } else {
        st
    }
}

pub open spec fn trace_fold(lines: Seq<Seq<char>>) -> TraceState
    decreases lines.len(),
{
    if lines.len() == 0 {
        TraceState { inside: false, block: Seq::empty(), calls: Seq::empty() }
    } else {
        trace_step(trace_fold(lines.drop_last()), lines.last())
    }
}

/// The calls that the debugger's output reports, in order.
pub open spec fn trace_calls(text: Seq<char>) -> Seq<CallView> {
    trace_fold(lines_of(text)).calls
}

/// Parses the debugger's standard output into the calls it reports: see
/// `trace_calls`.
pub fn parse_gdb_trace(stdout: &str) -> (r: Vec<TracedCall>)
    ensures
        calls_view(r@) == trace_calls(stdout@),
{
    let text = chars_of(stdout);
    let lines = split_lines(text.as_slice());
    let ghost ls = char_views(lines@);
    let begin = chars_of("===TRACE_EVENT_BEGIN===");
    let end = chars_of("===TRACE_EVENT_END===");
    let mut calls: Vec<TracedCall> = Vec::new();
    let mut block: Vec<String> = Vec::new();
    let mut inside = false;
    let mut i: usize = 0;
    assert(calls_view(calls@) =~= Seq::<CallView>::empty());
    assert(views_of(block@) =~= Seq::<Seq<char>>::empty());
    assert(ls.take(0) =~= Seq::<Seq<char>>::empty());
    while i < lines.len()
        invariant
            i <= lines.len(),
            ls == char_views(lines@),
            begin@ == begin_marker(),
            end@ == end_marker(),
            trace_fold(ls.take(i as int)) == (TraceState {
                inside,
                block: views_of(block@),
                calls: calls_view(calls@),
            }),
        decreases lines.len() - i,
    {
        let line = &lines[i];
        assert(ls.take(i + 1).drop_last() =~= ls.take(i as int));
        assert(ls.take(i + 1).last() == line@);
        if contains_chars(line.as_slice(), begin.as_slice()) {
            inside = true;
            block = Vec::new();
            assert(views_of(block@) =~= Seq::<Seq<char>>::empty());
        } else if contains_chars(line.as_slice(), end.as_slice()) {
            inside = false;
            let ghost old_calls = calls_view(calls@);
            match parse_trace_block(block.as_slice()) {
                Some(c) => {
                    calls.push(c);
                    assert(calls_view(calls@) =~= old_calls.push(c@));
                },
                None => {},
            }
            block = Vec::new();
            assert(views_of(block@) =~= Seq::<Seq<char>>::empty());
        } else if inside {
            let ghost old_block = views_of(block@);
            let t = trim_chars(line.as_slice());
            block.push(string_of(t.as_slice()));
            assert(views_of(block@) =~= old_block.push(t@));
        }
        i += 1;
    }
    assert(ls.take(lines.len() as int) =~= ls);
    calls
}

/// The breakpoint line for a catalog name.
pub open spec fn break_line(sym: Seq<char>) -> Seq<char> {
    "rbreak ^"@ + sym + seq!['$']
}

/// The lines of the debugger script: settings, one exact-name breakpoint per
/// catalog name, `run`, then a loop of at most `TRACE_MAX_STOPS` rounds that
/// reports each stop between the markers and resumes, until the process exits.
pub open spec fn script_lines() -> Seq<Seq<char>> {
    seq![
        "set pagination off"@,
        "set confirm off"@,
        "set breakpoint pending on"@,
        "set print frame-arguments all"@,
    ] + catalog().map_values(|s: Seq<char>| break_line(s)) + seq![
        "run"@,
        "set $i = 0"@,
        "while $i < "@ + decimal(TRACE_MAX_STOPS as nat),
        "  if $_isvoid($_exitcode)"@,
        "    printf \"===TRACE_EVENT_BEGIN===\\n\""@,
        "    frame"@,
        "    info args"@,
        "    backtrace 8"@,
        "    printf \"===TRACE_EVENT_END===\\n\""@,
        "    continue"@,
        "  else"@,
        "    loop_break"@,
        "  end"@,
        "  set $i = $i + 1"@,
        "end"@,
    ]
}

/// The debugger script: its lines joined by newlines.
pub fn build_gdb_script() -> (r: String)
    ensures
        r@ == join(script_lines(), seq!['\n']),
{
    let mut lines: Vec<String> = Vec::new();
    lines.push(owned("set pagination off"));
    lines.push(owned("set confirm off"));
    lines.push(owned("set breakpoint pending on"));
    lines.push(owned("set print frame-arguments all"));
    let names = catalog_chars();
    let prefix = chars_of("rbreak ^");
    let ghost head = views_of(lines@);
    assert(head =~= seq![
        "set pagination off"@,
        "set confirm off"@,
        "set breakpoint pending on"@,
        "set print frame-arguments all"@,
    ]);
    let mut i: usize = 0;
    while i < names.len()
        invariant
            i <= names.len(),
            names@.len() == catalog().len(),
            forall|k: int| 0 <= k < names@.len() ==> (#[trigger] names@[k])@ == catalog()[k],
            prefix@ == "rbreak ^"@,
            views_of(lines@) =~= head + catalog().take(i as int).map_values(
                |s: Seq<char>| break_line(s),
            ),
        decreases names.len() - i,
    {
        let mut l = chars_of("rbreak ^");
        crate::text::push_all(&mut l, names[i].as_slice());
        l.push('$');
        let ghost before = views_of(lines@);
        lines.push(string_of(l.as_slice()));
        assert(l@ =~= break_line(catalog()[i as int]));
        assert(catalog().take(i + 1) =~= catalog().take(i as int).push(catalog()[i as int]));
        assert(views_of(lines@) =~= before.push(l@));
        i += 1;
    }
    assert(catalog().take(names.len() as int) =~= catalog());
    let mut w = chars_of("while $i < ");
    crate::text::push_decimal(&mut w, TRACE_MAX_STOPS);
    let ghost mid = views_of(lines@);
    lines.push(owned("run"));
    lines.push(owned("set $i = 0"));
    lines.push(string_of(w.as_slice()));
    lines.push(owned("  if $_isvoid($_exitcode)"));
    lines.push(owned("    printf \"===TRACE_EVENT_BEGIN===\\n\""));
    lines.push(owned("    frame"));
    lines.push(owned("    info args"));
    lines.push(owned("    backtrace 8"));
    lines.push(owned("    printf \"===TRACE_EVENT_END===\\n\""));
    lines.push(owned("    continue"));
    lines.push(owned("  else"));
    lines.push(owned("    loop_break"));
    lines.push(owned("  end"));
    lines.push(owned("  set $i = $i + 1"));
    lines.push(owned("end"));
    assert(views_of(lines@) =~= mid + seq![
        "run"@,
        "set $i = 0"@,
        "while $i < "@ + decimal(TRACE_MAX_STOPS as nat),
        "  if $_isvoid($_exitcode)"@,
        "    printf \"===TRACE_EVENT_BEGIN===\\n\""@,
        "    frame"@,
        "    info args"@,
        "    backtrace 8"@,
        "    printf \"===TRACE_EVENT_END===\\n\""@,
        "    continue"@,
        "  else"@,
        "    loop_break"@,
        "  end"@,
        "  set $i = $i + 1"@,
        "end"@,
    ]);
    assert(views_of(lines@) =~= script_lines());
    let mut out: Vec<char> = Vec::new();
    let sep = vec!['\n'];
    crate::text::push_joined(&mut out, lines.as_slice(), sep.as_slice());
    assert(sep@ =~= seq!['\n']);
    assert(out@ =~= join(script_lines(), seq!['\n']));
    string_of(out.as_slice())
}

} // verus!
