use vstd::prelude::*;

use crate::call::calls_view;
use crate::call::views_of;
use crate::call::CallView;
use crate::call::TracedCall;
use crate::libs::ascending;
use crate::libs::lines_libs;
use crate::libs::unresolved_libs;
use crate::reconcile::reconcile;
use crate::reconcile::reconciled;
use crate::scan::static_calls;
use crate::scan::static_scan;
use crate::strings::extract_ascii_strings;
use crate::strings::text_runs;
use crate::text::chars_of;
use crate::text::push_all;
use crate::text::string_of;

verus! {

/// What the analysis of a foreign image found.
pub struct Analysis {
    pub winapi_calls: Vec<TracedCall>,
    pub non_windows_libs: Vec<String>,
}

/// The calls recovered from a traced run and a raw image: the traced calls,
/// then every static-scan hit, reconciled.
pub open spec fn recovered(traced: Seq<CallView>, b: Seq<u8>) -> Seq<CallView> {
    reconciled(traced + static_calls(b))
}

/// Reconciles the traced calls, followed by the static-scan hits of the image.
pub fn recover_calls(traced: &[TracedCall], bytes: &[u8]) -> (r: Vec<TracedCall>)
    ensures
        calls_view(r@) == recovered(calls_view(traced@), bytes@),
{
    let hits = static_scan(bytes);
    let mut all: Vec<TracedCall> = Vec::new();
    let mut i: usize = 0;
    while i < traced.len()
        invariant
            i <= traced.len(),
            calls_view(all@) =~= calls_view(traced@.take(i as int)),
        decreases traced.len() - i,
    {
        let ghost before = calls_view(all@);
        let c = traced[i].copy();
        all.push(c);
        assert(calls_view(all@) =~= before.push(c@));
        assert(calls_view(traced@.take(i + 1)) =~= calls_view(traced@.take(i as int)).push(
            traced@[i as int]@,
        ));
        i += 1;
    }
    assert(traced@.take(traced.len() as int) =~= traced@);
    let ghost head = calls_view(all@);
    let mut j: usize = 0;
    while j < hits.len()
        invariant
            j <= hits.len(),
            calls_view(all@) =~= head + calls_view(hits@.take(j as int)),
        decreases hits.len() - j,
    {
        let ghost before = calls_view(all@);
        let c = hits[j].copy();
        all.push(c);
        assert(calls_view(all@) =~= before.push(c@));
        assert(calls_view(hits@.take(j + 1)) =~= calls_view(hits@.take(j as int)).push(
            hits@[j as int]@,
        ));
        j += 1;
    }
    assert(hits@.take(hits.len() as int) =~= hits@);
    reconcile(all.as_slice())
}

/// Analyses a foreign image: the calls its static scan recovers, reconciled,
/// and the shared-library names its printable strings mention.
pub fn analyze_non_native(bytes: &[u8]) -> (r: Analysis)
    ensures
        calls_view(r.winapi_calls@) == recovered(Seq::empty(), bytes@),
        ascending(views_of(r.non_windows_libs@)),
        views_of(r.non_windows_libs@).to_set() == lines_libs(text_runs(bytes@)),
{
    let none: Vec<TracedCall> = Vec::new();
    let winapi_calls = recover_calls(none.as_slice(), bytes);
    assert(calls_view(none@) =~= Seq::<CallView>::empty());
    let strings = extract_ascii_strings(bytes);
    let non_windows_libs = unresolved_libs(strings.as_slice());
    Analysis { winapi_calls, non_windows_libs }
}

/// Why the library turns a run down: a malformed invocation, or a foreign
/// image in which no catalog name was found.
#[derive(Clone, Copy, Debug, PartialEq, Eq, Structural)]
pub enum FailureKind {
    Usage,
    UnsupportedBinary,
}

/// Whether an analysis leaves calls to plan: `UnsupportedBinary` when both
/// scan strategies found no catalog name.
pub fn check_recovered(a: &Analysis) -> (r: Result<(), FailureKind>)
    ensures
        a.winapi_calls@.len() == 0 <==> r is Err,
        r is Err ==> r->Err_0 == FailureKind::UnsupportedBinary,
{
    if a.winapi_calls.len() == 0 {
        Err(FailureKind::UnsupportedBinary)
    } else {
        Ok(())
    }
}

/// The plan file's name: the target's file name with `.waygate.plan` appended.
pub fn plan_file_name(file_name: &str) -> (r: String)
    ensures
        r@ == file_name@ + ".waygate.plan"@,
{
    let mut out = chars_of(file_name);
    let tail = chars_of(".waygate.plan");
    push_all(&mut out, tail.as_slice());
    string_of(out.as_slice())
}

/// Whether the plan is carried out or only written.
#[derive(Clone, Copy, Debug, PartialEq, Eq, Structural)]
pub enum Mode {
    Run,
    CompileOnly,
}

/// A well-formed invocation: the mode, whether to report each stage, and the
/// target path.
pub struct Invocation {
    pub mode: Mode,
    pub debug: bool,
    pub target: String,
}

/// What the command-line arguments ask for: a lone path runs it; `-d` adds
/// reporting, `-c` only writes the plan, `-cd` or `-dc` does both; anything
/// else is a usage error.
pub open spec fn invocation_of(args: Seq<Seq<char>>) -> Option<(Mode, bool, Seq<char>)> {
    if args.len() == 1 {
        Some((Mode::Run, false, args[0]))
    } else if args.len() == 2 && args[0] == "-d"@ {
        Some((Mode::Run, true, args[1]))
    } else if args.len() == 2 && args[0] == "-c"@ {
        Some((Mode::CompileOnly, false, args[1]))
    } else if args.len() == 2 && (args[0] == "-cd"@ || args[0] == "-dc"@) {
        Some((Mode::CompileOnly, true, args[1]))
    } else {
        None
    }
}

/// Reads the command-line arguments (without the program name): see
/// `invocation_of`.
pub fn parse_args(args: &[String]) -> (r: Result<Invocation, FailureKind>)
    ensures
        match invocation_of(views_of(args@)) {
            Some((mode, debug, target)) => r is Ok && r->Ok_0.mode == mode && r->Ok_0.debug
                == debug && r->Ok_0.target@ == target,
            None => r == Err::<Invocation, FailureKind>(FailureKind::Usage),
        },
{
    let ghost av = views_of(args@);
    if args.len() == 1 {
        assert(av[0] == args@[0]@);
        return Ok(Invocation { mode: Mode::Run, debug: false, target: args[0].clone() });
    }
    if args.len() != 2 {
        return Err(FailureKind::Usage);
    }
    assert(av[0] == args@[0]@ && av[1] == args@[1]@);
    let flag = chars_of(args[0].as_str());
    let d = chars_of("-d");
    let c = chars_of("-c");
    let cd = chars_of("-cd");
    let dc = chars_of("-dc");
    let target = args[1].clone();
    if crate::text::same_chars(flag.as_slice(), d.as_slice()) {
        Ok(Invocation { mode: Mode::Run, debug: true, target })
    } else if crate::text::same_chars(flag.as_slice(), c.as_slice()) {
        Ok(Invocation { mode: Mode::CompileOnly, debug: false, target })
    } else if crate::text::same_chars(flag.as_slice(), cd.as_slice())
        || crate::text::same_chars(flag.as_slice(), dc.as_slice()) {
        Ok(Invocation { mode: Mode::CompileOnly, debug: true, target })
    } else {
        Err(FailureKind::Usage)
    }
}

/// The plan written for a native image, which needs no translation.
pub fn native_plan_text() -> (r: String)
    ensures
        r@ == "# native ELF: no waygate translation required\n"@,
{
    crate::text::owned("# native ELF: no waygate translation required\n")
}

} // verus!
