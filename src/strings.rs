use vstd::prelude::*;

use crate::call::views_of;
use crate::text::push_char;

verus! {

/// Printable ASCII or a plain space.
pub open spec fn printable(c: u8) -> bool {
    0x20u8 <= c <= 0x7Eu8
}

/// The index of the first byte that is not printable, or the length.
pub open spec fn first_break(b: Seq<u8>) -> int
    decreases b.len(),
{
    if b.len() == 0 {
        0
    } else if !printable(b[0]) {
        0
    } else {
        1 + first_break(b.skip(1))
    }
}

/// A maximal printable span is kept when it holds at least four bytes.
pub open spec fn keep(seg: Seq<u8>) -> Seq<Seq<u8>> {
    if seg.len() >= 4 {
        seq![seg]
    } else {
        Seq::empty()
    }
}

/// The printable runs of at least four bytes, in byte order.
pub open spec fn runs(b: Seq<u8>) -> Seq<Seq<u8>>
    decreases b.len(),
{
    let k = first_break(b);
    if k < 0 || k >= b.len() {
        keep(b)
    } else {
        keep(b.take(k)) + runs(b.skip(k + 1))
    }
}

/// Bytes read as ASCII characters.
pub open spec fn ascii_chars(b: Seq<u8>) -> Seq<char> {
    b.map_values(|x: u8| x as char)
}

/// Byte runs read as text.
pub open spec fn text_of(rs: Seq<Seq<u8>>) -> Seq<Seq<char>> {
    rs.map_values(|r: Seq<u8>| ascii_chars(r))
}

/// The runs of a byte buffer as text.
pub open spec fn text_runs(b: Seq<u8>) -> Seq<Seq<char>> {
    text_of(runs(b))
}

pub proof fn lemma_first_break(b: Seq<u8>)
    ensures
        0 <= first_break(b) <= b.len(),
        forall|i: int| 0 <= i < first_break(b) ==> printable(#[trigger] b[i]),
        first_break(b) < b.len() ==> !printable(b[first_break(b)]),
    decreases b.len(),
{
    if b.len() > 0 && printable(b[0]) {
        lemma_first_break(b.skip(1));
        assert forall|i: int| 0 <= i < first_break(b) implies printable(#[trigger] b[i]) by {
            if i > 0 {
                assert(b[i] == b.skip(1)[i - 1]);
            }
        }
    }
}

proof fn lemma_first_break_is(b: Seq<u8>, f: int)
    requires
        0 <= f <= b.len(),
        forall|i: int| 0 <= i < f ==> printable(#[trigger] b[i]),
        f < b.len() ==> !printable(b[f]),
    ensures
        first_break(b) == f,
{
    lemma_first_break(b);
    let g = first_break(b);
    if g < f {
        assert(printable(b[g]));
    } else if f < g {
        assert(printable(b[f]));
    }
}

proof fn lemma_all_printable_runs(b: Seq<u8>)
    requires
        forall|i: int| 0 <= i < b.len() ==> printable(#[trigger] b[i]),
    ensures
        runs(b) == keep(b),
{
    lemma_first_break_is(b, b.len() as int);
}

/// Splitting a buffer at a byte that is not printable and extracting each
/// side gives the same runs, in the same order, as extracting the whole.
pub proof fn lemma_runs_split(b: Seq<u8>, k: int)
    requires
        0 <= k < b.len(),
        !printable(b[k]),
    ensures
        runs(b) == runs(b.take(k)) + runs(b.skip(k + 1)),
    decreases b.len(),
{
    lemma_first_break(b);
    let f = first_break(b);
    if f >= k {
        assert(f == k) by {
            if f > k {
                assert(printable(b[k]));
            }
        }
        assert forall|i: int| 0 <= i < k implies printable(#[trigger] b.take(k)[i]) by {
            assert(b.take(k)[i] == b[i]);
        }
        lemma_all_printable_runs(b.take(k));
    } else {
        let rest = b.skip(f + 1);
        let k2 = k - f - 1;
        assert(rest[k2] == b[k]);
        lemma_runs_split(rest, k2);
        let c = b.take(k);
        assert forall|i: int| 0 <= i < f implies printable(#[trigger] c[i]) by {
            assert(c[i] == b[i]);
        }
        assert(c[f] == b[f]);
        lemma_first_break_is(c, f);
        assert(c.take(f) =~= b.take(f));
        assert(c.skip(f + 1) =~= rest.take(k2));
        assert(rest.skip(k2 + 1) =~= b.skip(k + 1));
        assert(runs(c) == keep(b.take(f)) + runs(rest.take(k2)));
        assert(runs(b) == keep(b.take(f)) + runs(rest));
        assert(runs(b) =~= runs(c) + runs(b.skip(k + 1)));
    }
}

fn run_text(bytes: &[u8], from: usize, to: usize) -> (r: String)
    requires
        from <= to <= bytes@.len(),
    ensures
        r@ == ascii_chars(bytes@.subrange(from as int, to as int)),
{
    let mut s = String::new();
    let mut i: usize = from;
    while i < to
        invariant
            from <= i <= to <= bytes@.len(),
            s@ =~= ascii_chars(bytes@.subrange(from as int, i as int)),
        decreases to - i,
    {
        push_char(&mut s, bytes[i] as char);
        i += 1;
        assert(s@ =~= ascii_chars(bytes@.subrange(from as int, i as int)));
    }
    s
}

/// The runs already closed when the current printable span starts at `seg`.
pub open spec fn closed_runs(b: Seq<u8>, seg: int) -> Seq<Seq<u8>> {
    if seg == 0 {
        Seq::empty()
    } else {
        runs(b.take(seg - 1))
    }
}

proof fn lemma_close_segment(b: Seq<u8>, seg: int, end: int)
    requires
        0 <= seg <= end <= b.len(),
        seg > 0 ==> !printable(b[seg - 1]),
        forall|j: int| seg <= j < end ==> printable(#[trigger] b[j]),
    ensures
        runs(b.take(end)) == closed_runs(b, seg) + keep(b.subrange(seg, end)),
{
    let c = b.take(end);
    if seg == 0 {
        assert forall|j: int| 0 <= j < c.len() implies printable(#[trigger] c[j]) by {
            assert(c[j] == b[j]);
        }
        lemma_all_printable_runs(c);
        assert(c =~= b.subrange(seg, end));
    } else {
        assert(c[seg - 1] == b[seg - 1]);
        lemma_runs_split(c, seg - 1);
        assert(c.take(seg - 1) =~= b.take(seg - 1));
        assert(c.skip(seg) =~= b.subrange(seg, end));
        assert forall|j: int| 0 <= j < c.skip(seg).len() implies printable(
            #[trigger] c.skip(seg)[j],
        ) by {
            assert(c.skip(seg)[j] == b[seg + j]);
        }
        lemma_all_printable_runs(c.skip(seg));
    }
}

/// The printable runs of at least four bytes, in byte order. A run is a
/// maximal span of printable ASCII bytes or spaces.
pub fn extract_ascii_strings(bytes: &[u8]) -> (r: Vec<String>)
    ensures
        views_of(r@) == text_runs(bytes@),
{
    let ghost b = bytes@;
    let mut out: Vec<String> = Vec::new();
    let mut seg: usize = 0;
    let mut i: usize = 0;
    while i < bytes.len()
        invariant
            b == bytes@,
            seg <= i <= bytes.len(),
            seg > 0 ==> !printable(b[seg - 1]),
            forall|j: int| seg <= j < i ==> printable(#[trigger] b[j]),
            views_of(out@) == text_of(closed_runs(b, seg as int)),
        decreases bytes.len() - i,
    {
        let c = bytes[i];
        if !(0x20 <= c && c <= 0x7E) {
            proof {
                lemma_close_segment(b, seg as int, i as int);
            }
            let ghost before = closed_runs(b, seg as int);
            let ghost piece = b.subrange(seg as int, i as int);
            let ghost old_out = out@;
            proof {
                assert(text_of(before + keep(piece)) =~= text_of(before) + text_of(keep(piece)));
            }
            if i - seg >= 4 {
                let t = run_text(bytes, seg, i);
                out.push(t);
                assert(views_of(out@) =~= views_of(old_out).push(t@));
                assert(text_of(keep(piece)) =~= seq![ascii_chars(piece)]);
            } else {
                assert(text_of(keep(piece)) =~= Seq::<Seq<char>>::empty());
            }
            seg = i + 1;
            proof {
                assert(closed_runs(b, seg as int) == before + keep(piece));
                assert(views_of(out@) =~= text_of(before + keep(piece)));
            }
        }
        i += 1;
    }
    let ghost before = closed_runs(b, seg as int);
    let ghost piece = b.subrange(seg as int, b.len() as int);
    proof {
        lemma_close_segment(b, seg as int, b.len() as int);
        assert(b.take(b.len() as int) =~= b);
    }
    let ghost old_out = out@;
    proof {
        assert(text_of(before + keep(piece)) =~= text_of(before) + text_of(keep(piece)));
    }
    if bytes.len() - seg >= 4 {
        let t = run_text(bytes, seg, bytes.len());
        out.push(t);
        assert(views_of(out@) =~= views_of(old_out).push(t@));
        assert(text_of(keep(piece)) =~= seq![ascii_chars(piece)]);
    } else {
        assert(text_of(keep(piece)) =~= Seq::<Seq<char>>::empty());
    }
    assert(views_of(out@) =~= text_of(before + keep(piece)));
    out
}

} // verus!
