use vstd::prelude::*;

use crate::call::views_of;
use crate::call::TracedCall;
use crate::catalog::in_catalog;
use crate::catalog::is_catalog_name;
use crate::text::chars_of;
use crate::text::join;
use crate::text::push_all;
use crate::text::push_joined;
use crate::text::string_of;

verus! {

/// The acknowledgement of a stand-in handler called with `args`.
pub open spec fn stub_message(name: Seq<char>, args: Seq<Seq<char>>) -> Seq<char> {
    if args.len() == 0 {
        name + " stub called"@
    } else {
        name + " stub called with args: "@ + join(args, ", "@)
    }
}

/// The failure reported for a name outside the catalog.
pub open spec fn unknown_symbol_message(symbol: Seq<char>) -> Seq<char> {
    "waygate: symbol '"@ + symbol + "' is not implemented"@
}

/// The stand-in handler for `name`: it acknowledges the call and its arguments.
pub fn stub(name: &str, args: &[String]) -> (r: Result<String, String>)
    ensures
        r is Ok,
        r->Ok_0@ == stub_message(name@, views_of(args@)),
{
    let mut out = chars_of(name);
    if args.len() == 0 {
        let tail = chars_of(" stub called");
        push_all(&mut out, tail.as_slice());
    } else {
        let tail = chars_of(" stub called with args: ");
        push_all(&mut out, tail.as_slice());
        let sep = chars_of(", ");
        push_joined(&mut out, args, sep.as_slice());
    }
    Ok(string_of(out.as_slice()))
}

/// Hands a recovered call to its stand-in handler: succeeds with the
/// handler's acknowledgement for every catalog name, fails for any other.
pub fn dispatch(symbol: &str, args: &[String]) -> (r: Result<String, String>)
    ensures
        in_catalog(symbol@) ==> r is Ok && r->Ok_0@ == stub_message(symbol@, views_of(args@)),
        !in_catalog(symbol@) ==> r is Err && r->Err_0@ == unknown_symbol_message(symbol@),
{
    let s = chars_of(symbol);
    if is_catalog_name(s.as_slice()) {
        stub(symbol, args)
    } else {
        let mut out = chars_of("waygate: symbol '");
        push_all(&mut out, s.as_slice());
        let tail = chars_of("' is not implemented");
        push_all(&mut out, tail.as_slice());
        Err(string_of(out.as_slice()))
    }
}

/// Hands every call, in order, to its stand-in handler; no failure stops the
/// calls after it. Outcome `i` is what `dispatch` gives for call `i`.
pub fn dispatch_all(calls: &[TracedCall]) -> (r: Vec<Result<String, String>>)
    ensures
        r@.len() == calls@.len(),
        forall|i: int|
            0 <= i < calls@.len() ==> {
                let c = #[trigger] calls@[i]@;
                if in_catalog(c.function) {
                    r@[i] is Ok && r@[i]->Ok_0@ == stub_message(c.function, c.args)
                } else {
                    r@[i] is Err && r@[i]->Err_0@ == unknown_symbol_message(c.function)
                }
            },
{
    let mut out: Vec<Result<String, String>> = Vec::new();
    let mut i: usize = 0;
    while i < calls.len()
        invariant
            i <= calls.len(),
            out@.len() == i,
            forall|k: int|
                0 <= k < i ==> {
                    let c = #[trigger] calls@[k]@;
                    if in_catalog(c.function) {
                        out@[k] is Ok && out@[k]->Ok_0@ == stub_message(c.function, c.args)
                    } else {
                        out@[k] is Err && out@[k]->Err_0@ == unknown_symbol_message(c.function)
                    }
                },
        decreases calls.len() - i,
    {
        let c = &calls[i];
        out.push(dispatch(c.function.as_str(), c.args.as_slice()));
        i += 1;
    }
    out
}

} // verus!
