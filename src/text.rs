use vstd::prelude::*;
use vstd::std_specs::iter::IteratorSpec;

verus! {

broadcast use vstd::string::group_string_axioms;

/// Relies on String::push: the character is appended at the end.
#[verifier::external_body]
pub(crate) fn push_char(s: &mut String, c: char)
    ensures
        final(s)@ == old(s)@.push(c),
{
    s.push(c)
}

/// The characters of a string slice, as a vector.
pub fn chars_of(s: &str) -> (r: Vec<char>)
    ensures
        r@ == s@,
{
    let mut it = s.chars();
    let mut out: Vec<char> = Vec::new();
    loop
        invariant
            it.obeys_prophetic_iter_laws(),
            it.decrease() is Some,
            out@ + it.remaining() == s@,
        ensures
            out@ == s@,
        decreases it.decrease()->0,
    {
        match it.next() {
            Some(c) => {
                out.push(c);
            },
            None => {
                assert(out@ =~= out@ + it.remaining());
                break;
            },
        }
    }
    out
}

/// A string holding the given characters.
pub fn string_of(v: &[char]) -> (r: String)
    ensures
        r@ == v@,
{
    let mut s = String::new();
    let mut i: usize = 0;
    while i < v.len()
        invariant
            i <= v.len(),
            s@ == v@.subrange(0, i as int),
        decreases v.len() - i,
    {
        push_char(&mut s, v[i]);
        i += 1;
        assert(s@ =~= v@.subrange(0, i as int));
    }
    assert(s@ =~= v@);
    s
}

/// The pieces joined with a separator between each neighbouring pair.
pub open spec fn join(xs: Seq<Seq<char>>, sep: Seq<char>) -> Seq<char>
    decreases xs.len(),
{
    if xs.len() == 0 {
        Seq::empty()
    } else if xs.len() == 1 {
        xs[0]
    } else {
        join(xs.drop_last(), sep) + sep + xs.last()
    }
}

/// Appends the strings to `out`, with `sep` between neighbours.
pub fn push_joined(out: &mut Vec<char>, xs: &[String], sep: &[char])
    ensures
        final(out)@ == old(out)@ + join(xs@.map_values(|x: String| x@), sep@),
{
    let ghost start = out@;
    let ghost views = xs@.map_values(|x: String| x@);
    let mut i: usize = 0;
    while i < xs.len()
        invariant
            i <= xs.len(),
            views == xs@.map_values(|x: String| x@),
            out@ == start + join(views.subrange(0, i as int), sep@),
        decreases xs.len() - i,
    {
        if i > 0 {
            push_all(out, sep);
        }
        let piece = chars_of(xs[i].as_str());
        push_all(out, &piece);
        proof {
            let pre = views.subrange(0, i as int);
            let now = views.subrange(0, i + 1);
            assert(now.drop_last() =~= pre);
            assert(now.last() == xs@[i as int]@);
            if i == 0 {
                assert(now.len() == 1);
            }
        }
        i += 1;
    }
    assert(views.subrange(0, xs.len() as int) =~= views);
}

/// Appends every character of `src` to `out`.
pub fn push_all(out: &mut Vec<char>, src: &[char])
    ensures
        final(out)@ == old(out)@ + src@,
{
    let ghost start = out@;
    let mut i: usize = 0;
    while i < src.len()
        invariant
            i <= src.len(),
            out@ == start + src@.subrange(0, i as int),
        decreases src.len() - i,
    {
        out.push(src[i]);
        i += 1;
        assert(out@ =~= start + src@.subrange(0, i as int));
    }
    assert(src@.subrange(0, src.len() as int) =~= src@);
}

/// Whether two character sequences are equal.
pub fn same_chars(a: &[char], b: &[char]) -> (r: bool)
    ensures
        r == (a@ == b@),
{
    if a.len() != b.len() {
        return false;
    }
    let mut i: usize = 0;
    while i < a.len()
        invariant
            a.len() == b.len(),
            i <= a.len(),
            forall|j: int| 0 <= j < i ==> a@[j] == b@[j],
        decreases a.len() - i,
    {
        if a[i] != b[i] {
            return false;
        }
        i += 1;
    }
    assert(a@ =~= b@);
    true
}

/// The length of the longest prefix whose characters all satisfy `p`.
pub open spec fn span(s: Seq<char>, p: spec_fn(char) -> bool) -> int
    decreases s.len(),
{
    if s.len() > 0 && p(s[0]) {
        1 + span(s.skip(1), p)
    } else {
        0
    }
}

pub proof fn lemma_span(s: Seq<char>, p: spec_fn(char) -> bool)
    ensures
        0 <= span(s, p) <= s.len(),
        forall|i: int| 0 <= i < span(s, p) ==> p(#[trigger] s[i]),
        span(s, p) < s.len() ==> !p(s[span(s, p)]),
    decreases s.len(),
{
    if s.len() > 0 && p(s[0]) {
        lemma_span(s.skip(1), p);
        assert forall|i: int| 0 <= i < span(s, p) implies p(#[trigger] s[i]) by {
            if i > 0 {
                assert(s[i] == s.skip(1)[i - 1]);
            }
        }
    }
}

pub proof fn lemma_span_is(s: Seq<char>, p: spec_fn(char) -> bool, n: int)
    requires
        0 <= n <= s.len(),
        forall|i: int| 0 <= i < n ==> p(#[trigger] s[i]),
        n < s.len() ==> !p(s[n]),
    ensures
        span(s, p) == n,
{
    lemma_span(s, p);
    let m = span(s, p);
    if m < n {
        assert(p(s[m]));
    } else if n < m {
        assert(p(s[n]));
    }
}

/// The length of the longest suffix whose characters all satisfy `p`.
pub open spec fn back_span(s: Seq<char>, p: spec_fn(char) -> bool) -> int
    decreases s.len(),
{
    if s.len() > 0 && p(s.last()) {
        1 + back_span(s.drop_last(), p)
    } else {
        0
    }
}

pub proof fn lemma_back_span_is(s: Seq<char>, p: spec_fn(char) -> bool, n: int)
    requires
        0 <= n <= s.len(),
        forall|i: int| s.len() - n <= i < s.len() ==> p(#[trigger] s[i]),
        n < s.len() ==> !p(s[s.len() - n - 1]),
    ensures
        back_span(s, p) == n,
    decreases s.len(),
{
    if n > 0 {
        assert(p(s[s.len() - 1]));
        let t = s.drop_last();
        assert forall|i: int| t.len() - (n - 1) <= i < t.len() implies p(#[trigger] t[i]) by {
            assert(t[i] == s[i]);
        }
        if n - 1 < t.len() {
            assert(t[t.len() - (n - 1) - 1] == s[s.len() - n - 1]);
        }
        lemma_back_span_is(t, p, n - 1);
    }
}

pub proof fn lemma_back_span(s: Seq<char>, p: spec_fn(char) -> bool)
    ensures
        0 <= back_span(s, p) <= s.len(),
        forall|i: int| s.len() - back_span(s, p) <= i < s.len() ==> p(#[trigger] s[i]),
        back_span(s, p) < s.len() ==> !p(s[s.len() - back_span(s, p) - 1]),
    decreases s.len(),
{
    if s.len() > 0 && p(s.last()) {
        let t = s.drop_last();
        lemma_back_span(t, p);
        assert forall|i: int| s.len() - back_span(s, p) <= i < s.len() implies p(
            #[trigger] s[i],
        ) by {
            if i < s.len() - 1 {
                assert(s[i] == t[i]);
            }
        }
        if back_span(s, p) < s.len() {
            assert(s[s.len() - back_span(s, p) - 1] == t[t.len() - back_span(t, p) - 1]);
        }
    }
}

/// Trimming twice trims no more than trimming once.
pub proof fn lemma_trim_idempotent(s: Seq<char>)
    ensures
        trim(trim(s)) == trim(s),
{
    let ws = |c: char| is_ws(c);
    let u = s.skip(span(s, ws));
    let t = trim(s);
    lemma_span(s, ws);
    lemma_back_span(u, ws);
    if t.len() > 0 {
        assert(t[0] == u[0]);
        assert(u[0] == s[span(s, ws)]);
        assert(t[t.len() - 1] == u[u.len() - back_span(u, ws) - 1]);
    }
    lemma_span_is(t, ws, 0);
    assert(t.skip(0) =~= t);
    lemma_back_span_is(t, ws, 0);
    assert(t.take(t.len() as int) =~= t);
}

/// Unicode white space, as `str::trim` understands it.
pub open spec fn is_ws(c: char) -> bool {
    let n = c as u32;
    (9 <= n <= 13) || n == 32 || n == 0x85 || n == 0xA0 || n == 0x1680 || (0x2000 <= n
        <= 0x200A) || n == 0x2028 || n == 0x2029 || n == 0x202F || n == 0x205F || n == 0x3000
}

pub fn is_ws_exec(c: char) -> (r: bool)
    ensures
        r == is_ws(c),
{
    let n = c as u32;
    (9 <= n && n <= 13) || n == 32 || n == 0x85 || n == 0xA0 || n == 0x1680 || (0x2000 <= n
        && n <= 0x200A) || n == 0x2028 || n == 0x2029 || n == 0x202F || n == 0x205F || n
        == 0x3000
}

/// `s` without leading and trailing white space.
pub open spec fn trim(s: Seq<char>) -> Seq<char> {
    let t = s.skip(span(s, |c: char| is_ws(c)));
    t.take(t.len() - back_span(t, |c: char| is_ws(c)))
}

/// The characters `lo..hi` of `v`.
pub fn sub_chars(v: &[char], lo: usize, hi: usize) -> (r: Vec<char>)
    requires
        lo <= hi <= v@.len(),
    ensures
        r@ == v@.subrange(lo as int, hi as int),
{
    let mut out: Vec<char> = Vec::new();
    let mut i: usize = lo;
    while i < hi
        invariant
            lo <= i <= hi <= v@.len(),
            out@ == v@.subrange(lo as int, i as int),
        decreases hi - i,
    {
        out.push(v[i]);
        i += 1;
        assert(out@ =~= v@.subrange(lo as int, i as int));
    }
    out
}

/// `s` without leading and trailing white space.
pub fn trim_chars(s: &[char]) -> (r: Vec<char>)
    ensures
        r@ == trim(s@),
{
    let ghost ws = |c: char| is_ws(c);
    let mut lo: usize = 0;
    while lo < s.len() && is_ws_exec(s[lo])
        invariant
            lo <= s.len(),
            forall|i: int| 0 <= i < lo ==> is_ws(#[trigger] s@[i]),
        decreases s.len() - lo,
    {
        lo += 1;
    }
    proof {
        lemma_span_is(s@, ws, lo as int);
    }
    let mut hi: usize = s.len();
    while hi > lo && is_ws_exec(s[hi - 1])
        invariant
            lo <= hi <= s.len(),
            forall|i: int| hi <= i < s.len() ==> is_ws(#[trigger] s@[i]),
        decreases hi,
    {
        hi -= 1;
    }
    proof {
        let t = s@.skip(lo as int);
        assert forall|i: int| t.len() - (s.len() - hi) <= i < t.len() implies ws(#[trigger] t[i]) by {
            assert(t[i] == s@[lo + i]);
        }
        if hi > lo {
            assert(t[t.len() - (s.len() - hi) - 1] == s@[hi - 1]);
        }
        lemma_back_span_is(t, ws, s.len() - hi);
        assert(t.take(t.len() - (s.len() - hi)) =~= s@.subrange(lo as int, hi as int));
    }
    sub_chars(s, lo, hi)
}

/// Holds of every character but `c`.
pub open spec fn not_char(c: char) -> spec_fn(char) -> bool {
    |x: char| x != c
}

/// The pieces of `s` between occurrences of `sep`.
pub open spec fn split_on(s: Seq<char>, sep: char) -> Seq<Seq<char>>
    decreases s.len(),
{
    let k = span(s, not_char(sep));
    if k < 0 || k >= s.len() {
        seq![s]
    } else {
        seq![s.take(k)] + split_on(s.skip(k + 1), sep)
    }
}

/// The index of the first `c` in `s`, if any.
pub fn find_char(s: &[char], from: usize, c: char) -> (r: usize)
    requires
        from <= s@.len(),
    ensures
        r == from + span(s@.skip(from as int), not_char(c)),
{
    let ghost p = not_char(c);
    let mut i: usize = from;
    while i < s.len() && s[i] != c
        invariant
            from <= i <= s.len(),
            forall|j: int| from <= j < i ==> s@[j] != c,
        decreases s.len() - i,
    {
        i += 1;
    }
    proof {
        let t = s@.skip(from as int);
        assert forall|j: int| 0 <= j < i - from implies p(#[trigger] t[j]) by {
            assert(t[j] == s@[from + j]);
        }
        if i < s.len() {
            assert(t[i - from] == s@[i as int]);
        }
        lemma_span_is(t, p, i - from);
    }
    i
}

/// Whether `n` occurs in `h` at position `p`.
pub open spec fn occurs_in_at(h: Seq<char>, n: Seq<char>, p: int) -> bool {
    0 <= p && p + n.len() <= h.len() && h.subrange(p, p + n.len()) == n
}

pub open spec fn contains_seq(h: Seq<char>, n: Seq<char>) -> bool {
    exists|p: int| occurs_in_at(h, n, p)
}

/// Whether `n` occurs in `h`.
pub fn contains_chars(h: &[char], n: &[char]) -> (r: bool)
    ensures
        r == contains_seq(h@, n@),
{
    if n.len() > h.len() {
        assert forall|p: int| !occurs_in_at(h@, n@, p) by {}
        return false;
    }
    let mut q: usize = 0;
    while q <= h.len() - n.len()
        invariant
            n.len() <= h.len(),
            q <= h.len() - n.len() + 1,
            forall|p: int| 0 <= p < q ==> !occurs_in_at(h@, n@, p),
        decreases h.len() - n.len() + 1 - q,
    {
        let mut j: usize = 0;
        while j < n.len() && h[q + j] == n[j]
            invariant
                q + n.len() <= h.len(),
                j <= n.len(),
                forall|k: int| 0 <= k < j ==> h@[q + k] == n@[k],
            decreases n.len() - j,
        {
            j += 1;
        }
        if j == n.len() {
            assert(h@.subrange(q as int, q + n.len()) =~= n@);
            assert(occurs_in_at(h@, n@, q as int));
            return true;
        }
        assert(h@.subrange(q as int, q + n.len())[j as int] != n@[j as int]);
        q += 1;
    }
    assert forall|p: int| !occurs_in_at(h@, n@, p) by {}
    false
}

/// The lines of `s`: the pieces between newlines, without a last empty piece.
pub open spec fn lines_of(s: Seq<char>) -> Seq<Seq<char>> {
    let ps = split_on(s, '\n');
    if ps.len() > 0 && ps.last().len() == 0 {
        ps.drop_last()
    } else {
        ps
    }
}

pub open spec fn char_views(v: Seq<Vec<char>>) -> Seq<Seq<char>> {
    v.map_values(|x: Vec<char>| x@)
}

/// The pieces of `s` between occurrences of `sep`.
pub fn split_chars(s: &[char], sep: char) -> (r: Vec<Vec<char>>)
    ensures
        char_views(r@) == split_on(s@, sep),
{
    let mut out: Vec<Vec<char>> = Vec::new();
    let mut pos: usize = 0;
    assert(s@.skip(0) =~= s@);
    assert(char_views(out@) =~= Seq::<Seq<char>>::empty());
    loop
        invariant
            pos <= s.len(),
            char_views(out@) + split_on(s@.skip(pos as int), sep) == split_on(s@, sep),
        decreases s.len() - pos,
    {
        let k = find_char(s, pos, sep);
        let ghost rest = s@.skip(pos as int);
        proof {
            lemma_span(rest, not_char(sep));
        }
        let piece = sub_chars(s, pos, k);
        let ghost old_out = char_views(out@);
        assert(rest.take(k - pos) =~= piece@);
        out.push(piece);
        assert(char_views(out@) =~= old_out.push(rest.take(k - pos)));
        if k >= s.len() {
            assert(rest =~= rest.take(k - pos));
            assert(char_views(out@) =~= old_out + split_on(rest, sep));
            return out;
        }
        assert(rest.skip(k - pos + 1) =~= s@.skip(k + 1));
        assert(split_on(rest, sep) =~= seq![rest.take(k - pos)] + split_on(s@.skip(k + 1), sep));
        assert(char_views(out@) + split_on(s@.skip(k + 1), sep) =~= old_out + split_on(rest, sep));
        pos = k + 1;
    }
}

/// The lines of `s`: see `lines_of`.
pub fn split_lines(s: &[char]) -> (r: Vec<Vec<char>>)
    ensures
        char_views(r@) == lines_of(s@),
{
    let mut ps = split_chars(s, '\n');
    let n = ps.len();
    if n > 0 && ps[n - 1].len() == 0 {
        let ghost before = char_views(ps@);
        assert(before.last() == ps@[n - 1]@);
        ps.pop();
        assert(char_views(ps@) =~= before.drop_last());
    }
    ps
}

/// A string holding the characters of a string slice.
pub fn owned(s: &str) -> (r: String)
    ensures
        r@ == s@,
{
    s.to_string()
}

pub open spec fn digit_char(d: nat) -> char {
    seq!['0', '1', '2', '3', '4', '5', '6', '7', '8', '9'][d as int]
}

/// The decimal digits of `n`, most significant first.
pub open spec fn decimal(n: nat) -> Seq<char>
    decreases n,
{
    if n < 10 {
        seq![digit_char(n)]
    } else {
        decimal(n / 10).push(digit_char(n % 10))
    }
}

fn digit_exec(d: usize) -> (r: char)
    requires
        d < 10,
    ensures
        r == digit_char(d as nat),
{
    match d {
        0 => '0',
        1 => '1',
        2 => '2',
        3 => '3',
        4 => '4',
        5 => '5',
        6 => '6',
        7 => '7',
        8 => '8',
        _ => '9',
    }
}

/// Appends the decimal digits of `n`.
pub fn push_decimal(out: &mut Vec<char>, n: usize)
    ensures
        final(out)@ == old(out)@ + decimal(n as nat),
    decreases n,
{
    if n >= 10 {
        push_decimal(out, n / 10);
    }
    out.push(digit_exec(n % 10));
    proof {
        if n < 10 {
            assert(n % 10 == n);
        }
    }
    assert(out@ =~= old(out)@ + decimal(n as nat));
}

} // verus!
