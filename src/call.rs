use vstd::prelude::*;

use crate::text::join;
use crate::text::push_joined;

verus! {

/// A recovered call to a foreign API function.
#[derive(Debug)]
pub struct TracedCall {
    pub function: String,
    pub args: Vec<String>,
    pub backtrace: Vec<String>,
}

/// The mathematical value of a `TracedCall`.
pub struct CallView {
    pub function: Seq<char>,
    pub args: Seq<Seq<char>>,
    pub backtrace: Seq<Seq<char>>,
}

pub open spec fn views_of(v: Seq<String>) -> Seq<Seq<char>> {
    v.map_values(|x: String| x@)
}

impl View for TracedCall {
    type V = CallView;

    open spec fn view(&self) -> CallView {
        CallView {
            function: self.function@,
            args: views_of(self.args@),
            backtrace: views_of(self.backtrace@),
        }
    }
}

pub open spec fn calls_view(v: Seq<TracedCall>) -> Seq<CallView> {
    v.map_values(|c: TracedCall| c@)
}

/// `function(arg1,arg2,...)`: the key by which duplicate calls are told apart.
pub open spec fn signature(c: CallView) -> Seq<char> {
    c.function + seq!['('] + join(c.args, seq![',']) + seq![')']
}

/// A copy of a list of strings.
pub fn copy_strings(v: &Vec<String>) -> (r: Vec<String>)
    ensures
        views_of(r@) == views_of(v@),
{
    let mut out: Vec<String> = Vec::new();
    let mut i: usize = 0;
    while i < v.len()
        invariant
            i <= v.len(),
            out@.len() == i,
            forall|k: int| 0 <= k < i ==> #[trigger] out@[k]@ == v@[k]@,
        decreases v.len() - i,
    {
        out.push(v[i].clone());
        i += 1;
    }
    assert(views_of(out@) =~= views_of(v@));
    out
}

impl TracedCall {
    /// A call with the given function and arguments and no backtrace.
    pub fn new(function: String, args: Vec<String>) -> (r: TracedCall)
        ensures
            r@.function == function@,
            r@.args == views_of(args@),
            r@.backtrace == Seq::<Seq<char>>::empty(),
    {
        let r = TracedCall { function, args, backtrace: Vec::new() };
        assert(r@.backtrace =~= Seq::<Seq<char>>::empty());
        r
    }

    /// A copy of this call.
    pub fn copy(&self) -> (r: TracedCall)
        ensures
            r@ == self@,
    {
        TracedCall {
            function: self.function.clone(),
            args: copy_strings(&self.args),
            backtrace: copy_strings(&self.backtrace),
        }
    }

    /// The call's signature, as characters.
    pub fn signature_chars(&self) -> (r: Vec<char>)
        ensures
            r@ == signature(self@),
    {
        let mut out = crate::text::chars_of(self.function.as_str());
        out.push('(');
        let sep = vec![','];
        push_joined(&mut out, self.args.as_slice(), sep.as_slice());
        out.push(')');
        assert(sep@ =~= seq![',']);
        assert(out@ =~= signature(self@));
        out
    }

    /// The call's signature, `function(arg1,arg2,...)`.
    pub fn signature(&self) -> (r: String)
        ensures
            r@ == signature(self@),
    {
        let v = self.signature_chars();
        crate::text::string_of(v.as_slice())
    }
}

} // verus!
