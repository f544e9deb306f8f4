use vstd::prelude::*;

use crate::call::calls_view;
use crate::call::signature;
use crate::call::CallView;
use crate::call::TracedCall;
use crate::catalog::in_catalog;
use crate::catalog::lemma_catalog_name_plain;
use crate::catalog::plain_name;
use crate::text::same_chars;

verus! {

/// Whether the reconciler accepts `c` after having accepted `prev`: its
/// signature is new, and it is not a zero-argument call of a function for
/// which a call with arguments was accepted.
pub open spec fn accepts(prev: Seq<CallView>, c: CallView) -> bool {
    &&& forall|j: int| 0 <= j < prev.len() ==> signature(#[trigger] prev[j]) != signature(c)
    &&& !(c.args.len() == 0 && exists|j: int|
        0 <= j < prev.len() && (#[trigger] prev[j]).function == c.function && prev[j].args.len()
            > 0)
}

/// The calls that the reconciler keeps, in the order they were accepted.
pub open spec fn reconciled(input: Seq<CallView>) -> Seq<CallView>
    decreases input.len(),
{
    if input.len() == 0 {
        Seq::empty()
    } else {
        let prev = reconciled(input.drop_last());
        if accepts(prev, input.last()) {
            prev.push(input.last())
        } else {
            prev
        }
    }
}

/// Whether the call at position `k` of the input is accepted.
pub open spec fn accepted_at(input: Seq<CallView>, k: int) -> bool {
    accepts(reconciled(input.take(k)), input[k])
}

fn signature_seen(seen: &Vec<Vec<char>>, sig: &Vec<char>) -> (r: bool)
    ensures
        r == exists|k: int| 0 <= k < seen@.len() && (#[trigger] seen@[k])@ == sig@,
{
    let mut i: usize = 0;
    while i < seen.len()
        invariant
            i <= seen.len(),
            forall|k: int| 0 <= k < i ==> (#[trigger] seen@[k])@ != sig@,
        decreases seen.len() - i,
    {
        if same_chars(seen[i].as_slice(), sig.as_slice()) {
            return true;
        }
        i += 1;
    }
    false
}

fn has_call_with_args(out: &Vec<TracedCall>, function: &String) -> (r: bool)
    ensures
        r == exists|j: int|
            0 <= j < out@.len() && (#[trigger] calls_view(out@)[j]).function == function@
                && calls_view(out@)[j].args.len() > 0,
{
    let mut i: usize = 0;
    while i < out.len()
        invariant
            i <= out.len(),
            forall|j: int|
                0 <= j < i ==> !((#[trigger] calls_view(out@)[j]).function == function@
                    && calls_view(out@)[j].args.len() > 0),
        decreases out.len() - i,
    {
        assert(calls_view(out@)[i as int].args.len() == out@[i as int].args@.len());
        if out[i].function == *function && out[i].args.len() > 0 {
            return true;
        }
        i += 1;
    }
    false
}

/// Merges the recovered calls into one list: a call is dropped if its
/// signature was already accepted, or if it has no arguments and a call with
/// arguments of the same function was already accepted.
pub fn reconcile(calls: &[TracedCall]) -> (r: Vec<TracedCall>)
    ensures
        calls_view(r@) == reconciled(calls_view(calls@)),
{
    let ghost input = calls_view(calls@);
    let mut out: Vec<TracedCall> = Vec::new();
    let mut seen: Vec<Vec<char>> = Vec::new();
    let mut i: usize = 0;
    while i < calls.len()
        invariant
            i <= calls.len(),
            input == calls_view(calls@),
            calls_view(out@) == reconciled(input.take(i as int)),
            seen@.len() == out@.len(),
            forall|k: int| 0 <= k < seen@.len() ==> (#[trigger] seen@[k])@ == signature(out@[k]@),
        decreases calls.len() - i,
    {
        let c = &calls[i];
        let sig = c.signature_chars();
        let dup = signature_seen(&seen, &sig);
        let suppressed = c.args.len() == 0 && has_call_with_args(&out, &c.function);
        proof {
            let prev = calls_view(out@);
            assert(input.take(i + 1).drop_last() =~= input.take(i as int));
            assert(input.take(i + 1).last() == c@);
            if dup {
                let k = choose|k: int| 0 <= k < seen@.len() && (#[trigger] seen@[k])@ == sig@;
                assert(signature(prev[k]) == signature(c@));
            } else {
                assert forall|j: int| 0 <= j < prev.len() implies signature(
                    #[trigger] prev[j],
                ) != signature(c@) by {
                    assert(seen@[j]@ == signature(prev[j]));
                }
            }
        }
        if !dup && !suppressed {
            out.push(c.copy());
            seen.push(sig);
            proof {
                assert(calls_view(out@) =~= reconciled(input.take(i + 1)));
            }
        }
        i += 1;
    }
    assert(input.take(calls.len() as int) =~= input);
    out
}

/// What the reconciler keeps from a prefix of the input is a prefix of what it
/// keeps from a longer one.
pub proof fn lemma_reconciled_prefix(input: Seq<CallView>, a: int, b: int)
    requires
        0 <= a <= b <= input.len(),
    ensures
        reconciled(input.take(a)).len() <= reconciled(input.take(b)).len(),
        forall|i: int|
            0 <= i < reconciled(input.take(a)).len() ==> #[trigger] reconciled(input.take(a))[i]
                == reconciled(input.take(b))[i],
    decreases b - a,
{
    if a < b {
        lemma_reconciled_prefix(input, a, b - 1);
        assert(input.take(b).drop_last() =~= input.take(b - 1));
    }
}

/// Every call the reconciler keeps comes from its input.
pub proof fn lemma_reconciled_from_input(input: Seq<CallView>)
    ensures
        forall|i: int|
            0 <= i < reconciled(input).len() ==> exists|j: int|
                0 <= j < input.len() && input[j] == #[trigger] reconciled(input)[i],
    decreases input.len(),
{
    if input.len() > 0 {
        let rest = input.drop_last();
        lemma_reconciled_from_input(rest);
        assert forall|i: int| 0 <= i < reconciled(input).len() implies exists|j: int|
            0 <= j < input.len() && input[j] == #[trigger] reconciled(input)[i] by {
            if i < reconciled(rest).len() {
                let j = choose|j: int| 0 <= j < rest.len() && rest[j] == reconciled(rest)[i];
                assert(input[j] == reconciled(input)[i]);
            } else {
                assert(input[input.len() - 1] == reconciled(input)[i]);
            }
        }
    }
}

/// The reconciled list never holds two calls with the same signature.
pub proof fn lemma_no_duplicate_signatures(input: Seq<CallView>)
    ensures
        forall|i: int, j: int|
            0 <= i < j < reconciled(input).len() ==> signature(#[trigger] reconciled(input)[i])
                != signature(#[trigger] reconciled(input)[j]),
    decreases input.len(),
{
    if input.len() > 0 {
        let rest = input.drop_last();
        lemma_no_duplicate_signatures(rest);
        let prev = reconciled(rest);
        let r = reconciled(input);
        assert forall|i: int, j: int| 0 <= i < j < r.len() implies signature(#[trigger] r[i])
            != signature(#[trigger] r[j]) by {
            if j < prev.len() {
                assert(r[i] == prev[i] && r[j] == prev[j]);
            } else {
                assert(r[i] == prev[i]);
                assert(r[j] == input.last());
            }
        }
    }
}

/// Once a call with arguments of a function has been accepted, a later call
/// of that function without arguments is dropped.
pub proof fn lemma_zero_arg_call_suppressed(input: Seq<CallView>, j: int, k: int)
    requires
        0 <= j < k < input.len(),
        input[j].args.len() > 0,
        input[k].args.len() == 0,
        input[j].function == input[k].function,
        accepted_at(input, j),
    ensures
        !accepted_at(input, k),
{
    assert(input.take(j + 1).drop_last() =~= input.take(j));
    assert(input.take(j + 1).last() == input[j]);
    let before = reconciled(input.take(j));
    assert(reconciled(input.take(j + 1)) == before.push(input[j]));
    lemma_reconciled_prefix(input, j + 1, k);
    let prev = reconciled(input.take(k));
    let n = before.len() as int;
    assert(reconciled(input.take(j + 1))[n] == prev[n]);
    assert(prev[n].function == input[k].function && prev[n].args.len() > 0);
}

proof fn lemma_signature_names(a: CallView, b: CallView)
    requires
        !a.function.contains('('),
        !b.function.contains('('),
        signature(a) == signature(b),
    ensures
        a.function == b.function,
{
    let sa = signature(a);
    let la = a.function.len() as int;
    let lb = b.function.len() as int;
    assert(sa[la] == '(');
    assert(sa[lb] == '(');
    if la < lb {
        assert(b.function[la] == sa[la]);
    } else if lb < la {
        assert(a.function[lb] == sa[lb]);
    } else {
        assert(a.function =~= sa.subrange(0, la));
        assert(b.function =~= sa.subrange(0, lb));
    }
}

/// A call without arguments of a function that no earlier call names is
/// kept, whatever calls with arguments of that function follow.
pub proof fn lemma_first_zero_arg_call_kept(input: Seq<CallView>, k: int)
    requires
        0 <= k < input.len(),
        input[k].args.len() == 0,
        forall|j: int| 0 <= j < k ==> (#[trigger] input[j]).function != input[k].function,
        forall|j: int| 0 <= j <= k ==> in_catalog((#[trigger] input[j]).function),
    ensures
        accepted_at(input, k),
        reconciled(input).contains(input[k]),
{
    assert forall|j: int| 0 <= j <= k implies !(#[trigger] input[j]).function.contains('(') by {
        lemma_catalog_no_paren(input[j].function);
    }
    let pre = input.take(k);
    let prev = reconciled(pre);
    lemma_reconciled_from_input(pre);
    assert forall|i: int| 0 <= i < prev.len() implies (#[trigger] prev[i]).function
        != input[k].function && signature(prev[i]) != signature(input[k]) by {
        let j = choose|j: int| 0 <= j < pre.len() && pre[j] == prev[i];
        assert(input[j] == prev[i]);
        if signature(prev[i]) == signature(input[k]) {
            lemma_signature_names(prev[i], input[k]);
        }
    }
    assert(input.take(k + 1).drop_last() =~= pre);
    assert(input.take(k + 1).last() == input[k]);
    assert(reconciled(input.take(k + 1)) == prev.push(input[k]));
    lemma_reconciled_prefix(input, k + 1, input.len() as int);
    assert(input.take(input.len() as int) =~= input);
    let n = prev.len() as int;
    assert(reconciled(input.take(k + 1))[n] == reconciled(input)[n]);
}

proof fn lemma_catalog_no_paren(f: Seq<char>)
    requires
        in_catalog(f),
    ensures
        !f.contains('('),
{
    lemma_catalog_name_plain(f);
    if f.contains('(') {
        let m = choose|m: int| 0 <= m < f.len() && f[m] == '(';
        assert(plain_name(f));
    }
}

/// Each kept call is the input call accepted at some position, and stands
/// where the calls kept before that position end.
pub proof fn lemma_reconciled_origin(input: Seq<CallView>)
    ensures
        forall|p: int|
            0 <= p < reconciled(input).len() ==> exists|k: int|
                0 <= k < input.len() && accepted_at(input, k) && input[k]
                    == #[trigger] reconciled(input)[p] && reconciled(input.take(k)).len() == p,
    decreases input.len(),
{
    if input.len() > 0 {
        let rest = input.drop_last();
        lemma_reconciled_origin(rest);
        let r = reconciled(input);
        assert forall|p: int| 0 <= p < r.len() implies exists|k: int|
            0 <= k < input.len() && accepted_at(input, k) && input[k] == #[trigger] r[p]
                && reconciled(input.take(k)).len() == p by {
            if p < reconciled(rest).len() {
                let k = choose|k: int|
                    0 <= k < rest.len() && accepted_at(rest, k) && rest[k] == reconciled(rest)[p]
                        && reconciled(rest.take(k)).len() == p;
                assert(rest.take(k) =~= input.take(k));
                assert(input[k] == rest[k]);
            } else {
                let k = input.len() - 1;
                assert(input.take(k) =~= rest);
            }
        }
    }
}

proof fn lemma_zero_arg_after_args_dropped(input: Seq<CallView>, j: int, k: int)
    requires
        0 <= j < k < input.len(),
        forall|i: int| 0 <= i < input.len() ==> in_catalog((#[trigger] input[i]).function),
        input[j].args.len() > 0,
        input[k].args.len() == 0,
        input[j].function == input[k].function,
    ensures
        !accepted_at(input, k),
{
    if accepted_at(input, j) {
        lemma_zero_arg_call_suppressed(input, j, k);
    } else {
        let pre = input.take(j);
        let prev = reconciled(pre);
        let p = choose|p: int| 0 <= p < prev.len() && signature(#[trigger] prev[p]) == signature(input[j]);
        lemma_reconciled_from_input(pre);
        let i = choose|i: int| 0 <= i < pre.len() && pre[i] == prev[p];
        assert(input[i] == prev[p]);
        lemma_catalog_no_paren(input[i].function);
        lemma_catalog_no_paren(input[j].function);
        lemma_signature_names(prev[p], input[j]);
        lemma_reconciled_prefix(input, j, k);
        let now = reconciled(input.take(k));
        assert(now[p] == prev[p]);
        if prev[p].args.len() == 0 {
            assert(prev[p].args =~= input[k].args);
            assert(signature(now[p]) == signature(input[k]));
        }
    }
}

/// Once a call with arguments of a function `F` stands in the input before
/// every call of `F` without arguments, no call of `F` without arguments is
/// kept.
pub proof fn lemma_zero_arg_calls_of_function_dropped(input: Seq<CallView>, j: int)
    requires
        0 <= j < input.len(),
        forall|i: int| 0 <= i < input.len() ==> in_catalog((#[trigger] input[i]).function),
        input[j].args.len() > 0,
        forall|i: int|
            0 <= i < j ==> !((#[trigger] input[i]).function == input[j].function
                && input[i].args.len() == 0),
    ensures
        forall|p: int|
            0 <= p < reconciled(input).len() && (#[trigger] reconciled(input)[p]).function
                == input[j].function ==> reconciled(input)[p].args.len() > 0,
{
    let r = reconciled(input);
    lemma_reconciled_origin(input);
    assert forall|p: int| 0 <= p < r.len() && (#[trigger] r[p]).function == input[j].function
        implies r[p].args.len() > 0 by {
        if r[p].args.len() == 0 {
            let k = choose|k: int|
                0 <= k < input.len() && accepted_at(input, k) && input[k] == r[p]
                    && reconciled(input.take(k)).len() == p;
            if k > j {
                lemma_zero_arg_after_args_dropped(input, j, k);
            }
        }
    }
}

proof fn lemma_first_of(input: Seq<CallView>, f: Seq<char>, j: int)
    requires
        0 <= j < input.len(),
        input[j].function == f,
    ensures
        exists|k: int|
            0 <= k <= j && input[k].function == f && forall|i: int|
                0 <= i < k ==> (#[trigger] input[i]).function != f,
    decreases j,
{
    if exists|i: int| 0 <= i < j && (#[trigger] input[i]).function == f {
        let i = choose|i: int| 0 <= i < j && (#[trigger] input[i]).function == f;
        lemma_first_of(input, f, i);
    } else {
        assert(forall|i: int| 0 <= i < j ==> (#[trigger] input[i]).function != f);
    }
}

/// A call without arguments of a function `F` that only calls without
/// arguments of `F` precede is kept: exactly one call of `F` without
/// arguments is kept, ahead of every kept call of `F` with arguments, whatever
/// such calls follow it in the input.
pub proof fn lemma_zero_arg_call_of_function_kept(input: Seq<CallView>, j: int)
    requires
        0 <= j < input.len(),
        forall|i: int| 0 <= i < input.len() ==> in_catalog((#[trigger] input[i]).function),
        input[j].args.len() == 0,
        forall|i: int|
            0 <= i < j && (#[trigger] input[i]).function == input[j].function ==> input[i].args.len()
                == 0,
    ensures
        exists|n: int|
            0 <= n < reconciled(input).len() && reconciled(input)[n].function == input[j].function
                && reconciled(input)[n].args.len() == 0 && forall|p: int|
                0 <= p < reconciled(input).len() && (#[trigger] reconciled(input)[p]).function
                    == input[j].function ==> (if reconciled(input)[p].args.len() == 0 {
                    p == n
                } else {
                    p > n
                }),
{
    let f = input[j].function;
    let r = reconciled(input);
    lemma_first_of(input, f, j);
    let k0 = choose|k: int|
        0 <= k <= j && input[k].function == f && forall|i: int|
            0 <= i < k ==> (#[trigger] input[i]).function != f;
    assert(input[k0].args.len() == 0);
    lemma_first_zero_arg_call_kept(input, k0);
    let pre = input.take(k0);
    let prev = reconciled(pre);
    let n = prev.len() as int;
    assert(input.take(k0 + 1).drop_last() =~= pre);
    assert(input.take(k0 + 1).last() == input[k0]);
    assert(reconciled(input.take(k0 + 1)) == prev.push(input[k0]));
    lemma_reconciled_prefix(input, k0 + 1, input.len() as int);
    assert(input.take(input.len() as int) =~= input);
    assert(reconciled(input.take(k0 + 1))[n] == r[n]);
    lemma_reconciled_prefix(input, k0, input.len() as int);
    lemma_reconciled_from_input(pre);
    lemma_no_duplicate_signatures(input);
    assert forall|p: int| 0 <= p < r.len() && (#[trigger] r[p]).function == f implies (if r[p].args.len()
        == 0 {
        p == n
    } else {
        p > n
    }) by {
        if p < n {
            assert(prev[p] == r[p]);
            let i = choose|i: int| 0 <= i < pre.len() && pre[i] == prev[p];
            assert(input[i] == prev[p]);
        } else if r[p].args.len() == 0 && p != n {
            assert(r[p].args =~= r[n].args);
            assert(signature(r[p]) == signature(r[n]));
        }
    }
}

} // verus!
