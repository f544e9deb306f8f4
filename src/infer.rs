use vstd::prelude::*;

use crate::scan::folded;
use crate::scan::folded_chars;
use crate::trace::is_digit;
use crate::text::contains_chars;
use crate::text::contains_seq;
use crate::text::lemma_span_is;
use crate::text::span;
use crate::text::trim;
use crate::text::trim_chars;

verus! {

/// The type inferred for a raw argument.
#[derive(Clone, Copy, Debug, PartialEq, Eq, Structural)]
pub enum ArgType {
    Bool,
    Str,
    Pointer,
    Int,
    Float,
    Path,
    Unknown,
}

/// The name under which a type is written in a plan.
pub open spec fn type_label(t: ArgType) -> Seq<char> {
    match t {
        ArgType::Bool => seq!['b', 'o', 'o', 'l'],
        ArgType::Str => seq!['s', 't', 'r', 'i', 'n', 'g'],
        ArgType::Pointer => seq!['p', 'o', 'i', 'n', 't', 'e', 'r'],
        ArgType::Int => seq!['i', 'n', 't'],
        ArgType::Float => seq!['f', 'l', 'o', 'a', 't'],
        ArgType::Path => seq!['p', 'a', 't', 'h'],
        ArgType::Unknown => seq!['u', 'n', 'k', 'n', 'o', 'w', 'n'],
    }
}

impl ArgType {
    /// The name under which the type is written in a plan.
    pub fn label(&self) -> (r: &'static str)
        ensures
            r@ == type_label(*self),
    {
        match self {
            ArgType::Bool => {
                proof {
                    reveal_strlit("bool");
                }
                let r = "bool";
                assert(r@ =~= type_label(*self));
                r
            },
            ArgType::Str => {
                proof {
                    reveal_strlit("string");
                }
                let r = "string";
                assert(r@ =~= type_label(*self));
                r
            },
            ArgType::Pointer => {
                proof {
                    reveal_strlit("pointer");
                }
                let r = "pointer";
                assert(r@ =~= type_label(*self));
                r
            },
            ArgType::Int => {
                proof {
                    reveal_strlit("int");
                }
                let r = "int";
                assert(r@ =~= type_label(*self));
                r
            },
            ArgType::Float => {
                proof {
                    reveal_strlit("float");
                }
                let r = "float";
                assert(r@ =~= type_label(*self));
                r
            },
            ArgType::Path => {
                proof {
                    reveal_strlit("path");
                }
                let r = "path";
                assert(r@ =~= type_label(*self));
                r
            },
            ArgType::Unknown => {
                proof {
                    reveal_strlit("unknown");
                }
                let r = "unknown";
                assert(r@ =~= type_label(*self));
                r
            },
        }
    }
}

pub open spec fn all_digits(s: Seq<char>) -> bool {
    forall|i: int| 0 <= i < s.len() ==> is_digit(#[trigger] s[i])
}

pub open spec fn is_hex_digit(c: char) -> bool {
    is_digit(c) || ('a' <= c <= 'f') || ('A' <= c <= 'F')
}

/// `s` without one leading `+` or `-`.
pub open spec fn unsigned(s: Seq<char>) -> Seq<char> {
    if s.len() > 0 && (s[0] == '+' || s[0] == '-') {
        s.skip(1)
    } else {
        s
    }
}

/// The number that a string of decimal digits denotes.
pub open spec fn digits_value(s: Seq<char>) -> nat
    decreases s.len(),
{
    if s.len() == 0 {
        0
    } else {
        digits_value(s.drop_last()) * 10 + ((s.last() as u32) - 48) as nat
    }
}

/// Text that `i64`'s `FromStr` accepts: an optional sign, then decimal
/// digits whose value fits.
pub open spec fn is_i64_text(v: Seq<char>) -> bool {
    let d = unsigned(v);
    &&& d.len() > 0
    &&& all_digits(d)
    &&& if v[0] == '-' {
        digits_value(d) <= 0x8000_0000_0000_0000
    } else {
        digits_value(d) <= 0x7FFF_FFFF_FFFF_FFFF
    }
}

pub open spec fn not_exp() -> spec_fn(char) -> bool {
    |c: char| c != 'e' && c != 'E'
}

/// Digits, with at most one `.` and at least one digit.
pub open spec fn is_mantissa(m: Seq<char>) -> bool {
    let d = span(m, crate::text::not_char('.'));
    if d >= m.len() {
        m.len() > 0 && all_digits(m)
    } else {
        all_digits(m.take(d)) && all_digits(m.skip(d + 1)) && m.len() >= 2
    }
}

/// A mantissa, then optionally `e` or `E`, an optional sign and digits.
pub open spec fn is_number(b: Seq<char>) -> bool {
    let e = span(b, not_exp());
    &&& is_mantissa(b.take(e))
    &&& (e >= b.len() || {
        let x = unsigned(b.skip(e + 1));
        x.len() > 0 && all_digits(x)
    })
}

/// Whether `v` equals `w` up to ASCII case.
pub open spec fn ieq(v: Seq<char>, w: Seq<char>) -> bool {
    folded(v) == folded(w)
}

/// Text that `f64`'s `FromStr` accepts: an optional sign, then `inf`,
/// `infinity` or `nan` in any case, or a decimal number.
pub open spec fn is_float_text(v: Seq<char>) -> bool {
    let b = unsigned(v);
    ieq(b, seq!['i', 'n', 'f']) || ieq(b, seq!['i', 'n', 'f', 'i', 'n', 'i', 't', 'y']) || ieq(
        b,
        seq!['n', 'a', 'n'],
    ) || is_number(b)
}

/// Wrapped in a matching pair of quotes `q`.
pub open spec fn is_quoted(v: Seq<char>, q: char) -> bool {
    v.len() >= 2 && v[0] == q && v.last() == q
}

pub open spec fn is_hex_pointer(v: Seq<char>) -> bool {
    v.len() >= 2 && v[0] == '0' && v[1] == 'x' && forall|i: int|
        2 <= i < v.len() ==> is_hex_digit(#[trigger] v[i])
}

/// The type of a raw argument, by the first rule that applies to it trimmed.
pub open spec fn arg_type_of(raw: Seq<char>) -> ArgType {
    let v = trim(raw);
    if v.len() == 0 {
        ArgType::Unknown
    } else if ieq(v, seq!['t', 'r', 'u', 'e']) || ieq(v, seq!['f', 'a', 'l', 's', 'e']) {
        ArgType::Bool
    } else if is_quoted(v, '"') || is_quoted(v, '\'') {
        ArgType::Str
    } else if is_hex_pointer(v) {
        ArgType::Pointer
    } else if is_i64_text(v) {
        ArgType::Int
    } else if is_float_text(v) {
        ArgType::Float
    } else if ieq(v, seq!['n', 'u', 'l', 'l']) || ieq(v, seq!['n', 'u', 'l', 'l', 'p', 't', 'r']) {
        ArgType::Pointer
    } else if contains_seq(v, seq!['/']) || contains_seq(v, seq!['.', 'd', 'l', 'l'])
        || contains_seq(v, seq!['.', 's', 'o']) {
        ArgType::Path
    } else {
        ArgType::Unknown
    }
}

/// Every raw argument gets a type; an empty or blank one is `Unknown`.
pub proof fn lemma_blank_arg_unknown(raw: Seq<char>)
    requires
        trim(raw).len() == 0,
    ensures
        arg_type_of(raw) == ArgType::Unknown,
{
}

fn is_digit_exec(c: char) -> (r: bool)
    ensures
        r == is_digit(c),
{
    '0' <= c && c <= '9'
}

/// Whether the characters `lo..hi` of `s` are all decimal digits.
fn digits_between(s: &[char], lo: usize, hi: usize) -> (r: bool)
    requires
        lo <= hi <= s@.len(),
    ensures
        r == all_digits(s@.subrange(lo as int, hi as int)),
{
    let mut i: usize = lo;
    while i < hi
        invariant
            lo <= i <= hi <= s@.len(),
            forall|k: int| lo <= k < i ==> is_digit(#[trigger] s@[k]),
        decreases hi - i,
    {
        if !is_digit_exec(s[i]) {
            assert(s@.subrange(lo as int, hi as int)[i - lo] == s@[i as int]);
            return false;
        }
        i += 1;
    }
    assert forall|k: int| 0 <= k < hi - lo implies is_digit(
        #[trigger] s@.subrange(lo as int, hi as int)[k],
    ) by {
        assert(s@.subrange(lo as int, hi as int)[k] == s@[lo + k]);
    }
    true
}

proof fn lemma_digits_value_grows(s: Seq<char>, k: int)
    requires
        0 <= k <= s.len(),
        all_digits(s),
    ensures
        digits_value(s.take(k)) <= digits_value(s),
    decreases s.len(),
{
    if k < s.len() {
        let t = s.drop_last();
        assert(all_digits(t)) by {
            assert forall|i: int| 0 <= i < t.len() implies is_digit(#[trigger] t[i]) by {
                assert(t[i] == s[i]);
            }
        }
        lemma_digits_value_grows(t, k);
        assert(t.take(k) =~= s.take(k));
    } else {
        assert(s.take(k) =~= s);
    }
}

/// Whether the digits `lo..` of `s` denote at most `limit`.
fn digits_at_most(s: &[char], lo: usize, limit: u128) -> (r: bool)
    requires
        lo <= s@.len(),
        all_digits(s@.skip(lo as int)),
        limit <= 0x8000_0000_0000_0000,
    ensures
        r == (digits_value(s@.skip(lo as int)) <= limit),
{
    let ghost d = s@.skip(lo as int);
    let mut acc: u128 = 0;
    let mut i: usize = lo;
    assert(d.take(0) =~= Seq::<char>::empty());
    while i < s.len()
        invariant
            lo <= i <= s@.len(),
            d == s@.skip(lo as int),
            all_digits(d),
            limit <= 0x8000_0000_0000_0000,
            acc <= limit,
            acc == digits_value(d.take(i - lo)),
        decreases s.len() - i,
    {
        let ghost pre = d.take(i - lo);
        let ghost next = d.take(i - lo + 1);
        assert(next.drop_last() =~= pre);
        assert(next.last() == s@[i as int]);
        assert(is_digit(d[i - lo]));
        let dv = (s[i] as u32 - 48) as u128;
        assert(acc * 10 <= 0x8000_0000_0000_0000 * 10) by (nonlinear_arith)
            requires
                acc <= 0x8000_0000_0000_0000,
        ;
        let nacc = acc * 10 + dv;
        if nacc > limit {
            proof {
                lemma_digits_value_grows(d, i - lo + 1);
            }
            return false;
        }
        acc = nacc;
        i += 1;
    }
    assert(d.take(i - lo) =~= d);
    true
}

/// Whether `v` is text that `i64`'s `FromStr` accepts.
fn is_i64_exec(v: &[char]) -> (r: bool)
    requires
        v@.len() > 0,
    ensures
        r == is_i64_text(v@),
{
    let start: usize = if v[0] == '+' || v[0] == '-' {
        1
    } else {
        0
    };
    assert(unsigned(v@) =~= v@.skip(start as int));
    if start >= v.len() {
        return false;
    }
    if !digits_between(v, start, v.len()) {
        assert(v@.subrange(start as int, v@.len() as int) =~= v@.skip(start as int));
        return false;
    }
    assert(v@.subrange(start as int, v@.len() as int) =~= v@.skip(start as int));
    if v[0] == '-' {
        digits_at_most(v, start, 0x8000_0000_0000_0000)
    } else {
        digits_at_most(v, start, 0x7FFF_FFFF_FFFF_FFFF)
    }
}

/// Whether `v` equals `w` up to ASCII case.
fn ieq_exec(v: &[char], w: &[char]) -> (r: bool)
    ensures
        r == ieq(v@, w@),
{
    let a = folded_chars(v);
    let b = folded_chars(w);
    if a.len() != b.len() {
        return false;
    }
    let mut i: usize = 0;
    while i < a.len()
        invariant
            a@ == folded(v@),
            b@ == folded(w@),
            a.len() == b.len(),
            i <= a.len(),
            forall|j: int| 0 <= j < i ==> a@[j] == b@[j],
        decreases a.len() - i,
    {
        if a[i] != b[i] {
            assert(a@[i as int] != b@[i as int]);
            return false;
        }
        i += 1;
    }
    assert(a@ =~= b@);
    true
}

/// The index of the first `x` or `y` at or after `from`, or the length.
fn find_either(s: &[char], from: usize, x: char, y: char) -> (r: usize)
    requires
        from <= s@.len(),
    ensures
        from <= r <= s@.len(),
        forall|k: int| from <= k < r ==> s@[k] != x && s@[k] != y,
        r < s@.len() ==> (s@[r as int] == x || s@[r as int] == y),
{
    let mut i: usize = from;
    while i < s.len() && s[i] != x && s[i] != y
        invariant
            from <= i <= s.len(),
            forall|k: int| from <= k < i ==> s@[k] != x && s@[k] != y,
        decreases s.len() - i,
    {
        i += 1;
    }
    i
}

/// Whether `b` is a decimal number as `f64`'s `FromStr` reads one.
fn is_number_exec(b: &[char]) -> (r: bool)
    ensures
        r == is_number(b@),
{
    let e = find_either(b, 0, 'e', 'E');
    proof {
        lemma_span_is(b@, not_exp(), e as int);
    }
    let m = crate::text::sub_chars(b, 0, e);
    assert(m@ =~= b@.take(e as int));
    let d = crate::text::find_char(m.as_slice(), 0, '.');
    assert(m@.skip(0) =~= m@);
    proof {
        crate::text::lemma_span(m@, crate::text::not_char('.'));
    }
    let mantissa_ok = if d >= m.len() {
        let ok = digits_between(m.as_slice(), 0, m.len());
        assert(m@.subrange(0, m@.len() as int) =~= m@);
        m.len() > 0 && ok
    } else {
        let int_ok = digits_between(m.as_slice(), 0, d);
        let frac_ok = digits_between(m.as_slice(), d + 1, m.len());
        assert(m@.subrange(0, d as int) =~= m@.take(d as int));
        assert(m@.subrange(d + 1, m@.len() as int) =~= m@.skip(d + 1));
        int_ok && frac_ok && m.len() >= 2
    };
    if !mantissa_ok {
        return false;
    }
    if e >= b.len() {
        return true;
    }
    let mut start = e + 1;
    if start < b.len() && (b[start] == '+' || b[start] == '-') {
        start = start + 1;
    }
    assert(unsigned(b@.skip(e + 1)) =~= b@.skip(start as int));
    let ok = digits_between(b, start, b.len());
    assert(b@.subrange(start as int, b@.len() as int) =~= b@.skip(start as int));
    start < b.len() && ok
}

/// Whether `v` is text that `f64`'s `FromStr` accepts.
fn is_float_exec(v: &[char]) -> (r: bool)
    ensures
        r == is_float_text(v@),
{
    let start: usize = if v.len() > 0 && (v[0] == '+' || v[0] == '-') {
        1
    } else {
        0
    };
    let b = crate::text::sub_chars(v, start, v.len());
    assert(b@ =~= unsigned(v@));
    let inf = vec!['i', 'n', 'f'];
    let infinity = vec!['i', 'n', 'f', 'i', 'n', 'i', 't', 'y'];
    let nan = vec!['n', 'a', 'n'];
    assert(inf@ =~= seq!['i', 'n', 'f']);
    assert(infinity@ =~= seq!['i', 'n', 'f', 'i', 'n', 'i', 't', 'y']);
    assert(nan@ =~= seq!['n', 'a', 'n']);
    ieq_exec(b.as_slice(), inf.as_slice()) || ieq_exec(b.as_slice(), infinity.as_slice())
        || ieq_exec(b.as_slice(), nan.as_slice()) || is_number_exec(b.as_slice())
}

fn is_hex_pointer_exec(v: &[char]) -> (r: bool)
    ensures
        r == is_hex_pointer(v@),
{
    if v.len() < 2 || v[0] != '0' || v[1] != 'x' {
        return false;
    }
    let mut i: usize = 2;
    while i < v.len()
        invariant
            2 <= i <= v.len(),
            forall|k: int| 2 <= k < i ==> is_hex_digit(#[trigger] v@[k]),
        decreases v.len() - i,
    {
        let c = v[i];
        if !(('0' <= c && c <= '9') || ('a' <= c && c <= 'f') || ('A' <= c && c <= 'F')) {
            return false;
        }
        i += 1;
    }
    true
}

/// The type of an already trimmed argument.
pub(crate) fn infer_trimmed(v: &[char]) -> (r: ArgType)
    requires
        trim(v@) == v@,
    ensures
        r == arg_type_of(v@),
{
    if v.len() == 0 {
        return ArgType::Unknown;
    }
    let t = vec!['t', 'r', 'u', 'e'];
    let f = vec!['f', 'a', 'l', 's', 'e'];
    assert(t@ =~= seq!['t', 'r', 'u', 'e']);
    assert(f@ =~= seq!['f', 'a', 'l', 's', 'e']);
    if ieq_exec(v, t.as_slice()) || ieq_exec(v, f.as_slice()) {
        return ArgType::Bool;
    }
    let n = v.len();
    if n >= 2 && ((v[0] == '"' && v[n - 1] == '"') || (v[0] == '\'' && v[n - 1] == '\'')) {
        return ArgType::Str;
    }
    if is_hex_pointer_exec(v) {
        return ArgType::Pointer;
    }
    if is_i64_exec(v) {
        return ArgType::Int;
    }
    if is_float_exec(v) {
        return ArgType::Float;
    }
    let null = vec!['n', 'u', 'l', 'l'];
    let nullptr = vec!['n', 'u', 'l', 'l', 'p', 't', 'r'];
    assert(null@ =~= seq!['n', 'u', 'l', 'l']);
    assert(nullptr@ =~= seq!['n', 'u', 'l', 'l', 'p', 't', 'r']);
    if ieq_exec(v, null.as_slice()) || ieq_exec(v, nullptr.as_slice()) {
        return ArgType::Pointer;
    }
    let slash = vec!['/'];
    let dll = vec!['.', 'd', 'l', 'l'];
    let so = vec!['.', 's', 'o'];
    assert(slash@ =~= seq!['/']);
    assert(dll@ =~= seq!['.', 'd', 'l', 'l']);
    assert(so@ =~= seq!['.', 's', 'o']);
    if contains_chars(v, slash.as_slice()) || contains_chars(v, dll.as_slice()) || contains_chars(
        v,
        so.as_slice(),
    ) {
        return ArgType::Path;
    }
    ArgType::Unknown
}

/// The type of a raw argument: see `arg_type_of`.
pub fn infer_arg_type(raw: &str) -> (r: ArgType)
    ensures
        r == arg_type_of(raw@),
{
    let c = crate::text::chars_of(raw);
    let v = trim_chars(c.as_slice());
    proof {
        crate::text::lemma_trim_idempotent(c@);
    }
    let r = infer_trimmed(v.as_slice());
    r
}

} // verus!
