use crate::line_number::LineNumber;
use crate::span::SingleLineSpan;
use vstd::prelude::*;

verus! {

/// The only line delimiter this crate recognises: a single `\n` byte.
/// A `\r` before it is ordinary line content.
pub const NEWLINE: u8 = 10;

/// How many newline bytes `bytes` holds strictly before offset `end`.
pub open spec fn newline_count(bytes: Seq<u8>, end: int) -> nat
    decreases end,
{
    if end <= 0 {
        0
    } else if bytes[end - 1] == NEWLINE {
        newline_count(bytes, end - 1) + 1
    } else {
        newline_count(bytes, end - 1)
    }
}

/// A buffer holds no more newline bytes than it holds bytes.
pub proof fn lemma_newline_count_le(bytes: Seq<u8>, end: int)
    requires
        end >= 0,
    ensures
        newline_count(bytes, end) <= end,
    decreases end,
{
    if end > 0 {
        lemma_newline_count_le(bytes, end - 1);
    }
}

/// The offset at which the line holding offset `off` begins: the
/// position just after the last newline byte before `off`.
pub open spec fn line_start_of(bytes: Seq<u8>, off: int) -> int
    decreases off,
{
    if off <= 0 {
        0
    } else if bytes[off - 1] == NEWLINE {
        off
    } else {
        line_start_of(bytes, off - 1)
    }
}

/// Whether the boundary pair `p` contains offset `off`. A line's end
/// offset (the position of its own newline byte, or one past the
/// buffer for the final line) belongs to the line.
pub open spec fn line_contains(p: (usize, usize), off: usize) -> bool {
    p.0 <= off <= p.1
}

/// Whether `ps` is the line index of `bytes`: one `(start, end)` pair
/// per line, in ascending contiguous order covering the whole buffer,
/// where each pair's `end` is the offset of the line's own newline
/// byte (or, for the final line, the buffer length). An empty buffer
/// has exactly one line `(0, 0)`, and a trailing newline produces a
/// final empty line.
pub open spec fn is_line_index(bytes: Seq<u8>, ps: Seq<(usize, usize)>) -> bool {
    &&& ps.len() >= 1
    &&& ps[0].0 == 0
    &&& ps[ps.len() - 1].1 == bytes.len()
    &&& forall|i: int| 0 <= i < ps.len() ==> #[trigger] ps[i].0 <= ps[i].1
    &&& forall|i: int| 0 <= i < ps.len() - 1 ==> #[trigger] ps[i + 1].0 == ps[i].1 + 1
    &&& forall|i: int| 0 <= i < ps.len() - 1 ==> bytes[#[trigger] ps[i].1 as int] == NEWLINE
    &&& forall|i: int, j: int|
        #![trigger ps[i], bytes[j]]
        0 <= i < ps.len() && ps[i].0 <= j < ps[i].1 ==> bytes[j] != NEWLINE
}

/// The structural half of being a line index: at least one pair, the
/// first starting at offset 0, each pair ordered, and consecutive
/// pairs contiguous. This is all a lookup needs; it does not mention
/// the buffer the index was built from.
pub open spec fn contiguous(ps: Seq<(usize, usize)>) -> bool {
    &&& ps.len() >= 1
    &&& ps[0].0 == 0
    &&& forall|i: int| 0 <= i < ps.len() ==> #[trigger] ps[i].0 <= ps[i].1
    &&& forall|i: int| 0 <= i < ps.len() - 1 ==> #[trigger] ps[i + 1].0 == ps[i].1 + 1
}

/// The index of the boundary pair in `ps` that contains `off`. For a
/// well-formed index and an in-bounds offset there is exactly one.
pub open spec fn line_containing(ps: Seq<(usize, usize)>, off: usize) -> int {
    choose|i: int| 0 <= i < ps.len() && line_contains(ps[i], off)
}

/// In a contiguous index, earlier lines end strictly before later
/// lines begin.
pub proof fn lemma_line_order(ps: Seq<(usize, usize)>, i: int, j: int)
    requires
        contiguous(ps),
        0 <= i < j < ps.len(),
    ensures
        ps[i].1 < ps[j].0,
    decreases j - i,
{
    if j == i + 1 {
        assert(ps[i + 1].0 == ps[i].1 + 1);
    } else {
        lemma_line_order(ps, i, j - 1);
        assert(ps[j - 1 + 1].0 == ps[j - 1].1 + 1);
        assert(ps[j - 1].0 <= ps[j - 1].1);
    }
}

/// In a contiguous index, at most one boundary pair contains a given
/// offset.
pub proof fn lemma_contains_unique(ps: Seq<(usize, usize)>, off: usize, i: int, j: int)
    requires
        contiguous(ps),
        0 <= i < ps.len(),
        0 <= j < ps.len(),
        line_contains(ps[i], off),
        line_contains(ps[j], off),
    ensures
        i == j,
{
    if i < j {
        lemma_line_order(ps, i, j);
    } else if j < i {
        lemma_line_order(ps, j, i);
    }
}

/// In a contiguous index, every offset up to the last line's end is
/// contained in some boundary pair.
pub proof fn lemma_contains_exists(ps: Seq<(usize, usize)>, off: usize)
    requires
        contiguous(ps),
        off <= ps[ps.len() - 1].1,
    ensures
        exists|i: int| 0 <= i < ps.len() && line_contains(#[trigger] ps[i], off),
    decreases ps.len(),
{
    let n = ps.len() as int;
    if ps[n - 1].0 <= off {
        assert(line_contains(ps[n - 1], off));
    } else {
        assert(ps[0].0 == 0);
        assert(n >= 2);
        assert(ps[n - 2 + 1].0 == ps[n - 2].1 + 1);
        let prefix = ps.take(n - 1);
        assert(prefix[n - 2] == ps[n - 2]);
        assert(contiguous(prefix)) by {
            assert forall|i: int| 0 <= i < prefix.len() implies #[trigger] prefix[i].0
                <= prefix[i].1 by {
                assert(prefix[i] == ps[i]);
            }
            assert forall|i: int| 0 <= i < prefix.len() - 1 implies #[trigger] prefix[i + 1].0
                == prefix[i].1 + 1 by {
                assert(prefix[i] == ps[i]);
                assert(prefix[i + 1] == ps[i + 1]);
            }
        }
        lemma_contains_exists(prefix, off);
        let w = choose|i: int| 0 <= i < prefix.len() && line_contains(#[trigger] prefix[i], off);
        assert(prefix[w] == ps[w]);
        assert(line_contains(ps[w], off));
    }
}

/// For a contiguous index and an in-bounds offset, `line_containing`
/// names a real line, and that line contains the offset.
pub proof fn lemma_line_containing_props(ps: Seq<(usize, usize)>, off: usize)
    requires
        contiguous(ps),
        off <= ps[ps.len() - 1].1,
    ensures
        0 <= line_containing(ps, off) < ps.len(),
        line_contains(ps[line_containing(ps, off)], off),
{
    lemma_contains_exists(ps, off);
}

/// For a contiguous index, `line_containing` is the one pair that
/// contains the offset; this pins it to any witness.
pub proof fn lemma_line_containing_is(ps: Seq<(usize, usize)>, off: usize, i: int)
    requires
        contiguous(ps),
        0 <= i < ps.len(),
        line_contains(ps[i], off),
    ensures
        line_containing(ps, off) == i,
{
    let j = line_containing(ps, off);
    assert(0 <= j < ps.len() && line_contains(ps[j], off));
    lemma_contains_unique(ps, off, i, j);
}

/// The 32-bit bounds that a line index observes: both the line count
/// and the last offset fit in a `u32`.
pub open spec fn bounded(ps: Seq<(usize, usize)>) -> bool {
    &&& ps.len() <= u32::MAX
    &&& ps[ps.len() - 1].1 <= u32::MAX
}

/// Newline counts are unchanged across a stretch with no newline.
pub proof fn lemma_newline_count_constant(bytes: Seq<u8>, a: int, b: int)
    requires
        0 <= a <= b,
        forall|l: int| a <= l < b ==> #[trigger] bytes[l] != NEWLINE,
    ensures
        newline_count(bytes, b) == newline_count(bytes, a),
    decreases b - a,
{
    if b > a {
        lemma_newline_count_constant(bytes, a, b - 1);
    }
}

/// Line starts are unchanged across a stretch with no newline.
pub proof fn lemma_line_start_constant(bytes: Seq<u8>, a: int, b: int)
    requires
        0 <= a <= b,
        forall|l: int| a <= l < b ==> #[trigger] bytes[l] != NEWLINE,
    ensures
        line_start_of(bytes, b) == line_start_of(bytes, a),
    decreases b - a,
{
    if b > a {
        lemma_line_start_constant(bytes, a, b - 1);
    }
}

/// In a line index, line `i` starts right after the `i`-th newline:
/// the buffer holds exactly `i` newlines before the line's start
/// offset, and that offset is its own line start.
pub proof fn lemma_line_boundary(bytes: Seq<u8>, ps: Seq<(usize, usize)>, i: int)
    requires
        is_line_index(bytes, ps),
        0 <= i < ps.len(),
    ensures
        newline_count(bytes, ps[i].0 as int) == i,
        line_start_of(bytes, ps[i].0 as int) == ps[i].0,
    decreases i,
{
    if i > 0 {
        lemma_line_boundary(bytes, ps, i - 1);
        assert(ps[i - 1 + 1].0 == ps[i - 1].1 + 1);
        assert(bytes[ps[i - 1].1 as int] == NEWLINE);
        lemma_newline_count_constant(bytes, ps[i - 1].0 as int, ps[i - 1].1 as int);
        assert(newline_count(bytes, ps[i].0 as int) == newline_count(bytes, ps[i - 1].1 as int)
            + 1);
    }
}

/// The line containing a valid offset `off` is the count of newline
/// bytes in the buffer before `off`, and the line's recorded start is
/// the position just after the last of them.
pub proof fn lemma_line_of_counts_newlines(bytes: Seq<u8>, ps: Seq<(usize, usize)>, off: usize)
    requires
        is_line_index(bytes, ps),
        off <= bytes.len(),
    ensures
        0 <= line_containing(ps, off) < ps.len(),
        line_contains(ps[line_containing(ps, off)], off),
        line_containing(ps, off) == newline_count(bytes, off as int),
        ps[line_containing(ps, off)].0 == line_start_of(bytes, off as int),
{
    assert(contiguous(ps));
    lemma_line_containing_props(ps, off);
    let i = line_containing(ps, off);
    lemma_line_boundary(bytes, ps, i);
    lemma_newline_count_constant(bytes, ps[i].0 as int, off as int);
    lemma_line_start_constant(bytes, ps[i].0 as int, off as int);
}

/// The whole buffer holds one newline per line but the last.
pub proof fn lemma_line_index_len(bytes: Seq<u8>, ps: Seq<(usize, usize)>)
    requires
        is_line_index(bytes, ps),
    ensures
        ps.len() == newline_count(bytes, bytes.len() as int) + 1,
{
    let n = ps.len() as int;
    lemma_line_boundary(bytes, ps, n - 1);
    lemma_newline_count_constant(bytes, ps[n - 1].0 as int, ps[n - 1].1 as int);
}

/// A buffer has exactly one line index: building twice from the same
/// buffer yields the same boundary pairs, so the same queries return
/// identical results.
pub proof fn lemma_line_index_unique(
    bytes: Seq<u8>,
    ps1: Seq<(usize, usize)>,
    ps2: Seq<(usize, usize)>,
)
    requires
        is_line_index(bytes, ps1),
        is_line_index(bytes, ps2),
    ensures
        ps1 == ps2,
{
    lemma_line_index_len(bytes, ps1);
    lemma_line_index_len(bytes, ps2);
    assert forall|i: int| 0 <= i < ps1.len() implies ps1[i] == ps2[i] by {
        lemma_line_index_elem_eq(bytes, ps1, ps2, i);
    }
    assert(ps1 =~= ps2);
}

/// Elementwise agreement of two line indexes of one buffer.
proof fn lemma_line_index_elem_eq(
    bytes: Seq<u8>,
    ps1: Seq<(usize, usize)>,
    ps2: Seq<(usize, usize)>,
    i: int,
)
    requires
        is_line_index(bytes, ps1),
        is_line_index(bytes, ps2),
        ps1.len() == ps2.len(),
        0 <= i < ps1.len(),
    ensures
        ps1[i] == ps2[i],
    decreases i,
{
    let n = ps1.len() as int;
    if i > 0 {
        lemma_line_index_elem_eq(bytes, ps1, ps2, i - 1);
        assert(ps1[i - 1 + 1].0 == ps1[i - 1].1 + 1);
        assert(ps2[i - 1 + 1].0 == ps2[i - 1].1 + 1);
    }
    assert(ps1[i].0 == ps2[i].0);
    if i < n - 1 {
        let e1 = ps1[i].1;
        let e2 = ps2[i].1;
        assert(bytes[e1 as int] == NEWLINE);
        assert(bytes[e2 as int] == NEWLINE);
        if e1 < e2 {
            assert(ps2[i].0 <= e1 < ps2[i].1);
            assert(false);
        }
        if e2 < e1 {
            assert(ps1[i].0 <= e2 < ps1[i].1);
            assert(false);
        }
    }
}

/// The span that the region `[rs, re]` covers on the line with index
/// `i`: columns are clipped to the line's own boundary pair.
pub open spec fn span_on_line(ps: Seq<(usize, usize)>, i: int, rs: usize, re: usize) -> SingleLineSpan {
    SingleLineSpan {
        line: LineNumber(i as u32),
        start_col: (if rs > ps[i].0 {
            rs - ps[i].0
        } else {
            0
        }) as u32,
        end_col: ((if re < ps[i].1 {
            re as int
        } else {
            ps[i].1 as int
        }) - ps[i].0) as u32,
    }
}

/// The ordered per-line spans of the region `[rs, re]`: one span for
/// every line from the line containing `rs` to the line containing
/// `re`, inclusive.
pub open spec fn region_spans(ps: Seq<(usize, usize)>, rs: usize, re: usize) -> Seq<SingleLineSpan> {
    let fl = line_containing(ps, rs);
    let ll = line_containing(ps, re);
    Seq::new((ll - fl + 1) as nat, |k: int| span_on_line(ps, fl + k, rs, re))
}

/// The bytes of the indexed buffer that the span `sp` covers.
pub open spec fn span_bytes(bytes: Seq<u8>, ps: Seq<(usize, usize)>, sp: SingleLineSpan) -> Seq<
    u8,
> {
    bytes.subrange(ps[sp.line.0 as int].0 + sp.start_col, ps[sp.line.0 as int].0 + sp.end_col)
}

/// The bytes the spans cover, in order, with a newline byte between
/// consecutive spans (each span break crosses one line break).
pub open spec fn joined_bytes(
    bytes: Seq<u8>,
    ps: Seq<(usize, usize)>,
    spans: Seq<SingleLineSpan>,
) -> Seq<u8>
    decreases spans.len(),
{
    if spans.len() == 0 {
        Seq::empty()
    } else if spans.len() == 1 {
        span_bytes(bytes, ps, spans[0])
    } else {
        span_bytes(bytes, ps, spans[0]) + seq![NEWLINE] + joined_bytes(
            bytes,
            ps,
            spans.drop_first(),
        )
    }
}

/// Concatenation law: the per-line spans of a region, with a newline
/// re-inserted at each span break, cover exactly the region's bytes.
pub proof fn lemma_region_concat(bytes: Seq<u8>, ps: Seq<(usize, usize)>, rs: usize, re: usize)
    requires
        is_line_index(bytes, ps),
        bounded(ps),
        rs <= re,
        re <= bytes.len(),
    ensures
        joined_bytes(bytes, ps, region_spans(ps, rs, re)) == bytes.subrange(rs as int, re as int),
    decreases line_containing(ps, re) - line_containing(ps, rs),
{
    assert(contiguous(ps));
    lemma_line_containing_props(ps, rs);
    lemma_line_containing_props(ps, re);
    let fl = line_containing(ps, rs);
    let ll = line_containing(ps, re);
    if fl > ll {
        lemma_line_order(ps, ll, fl);
        assert(false);
    }
    let n = ps.len() as int;
    assert(rs <= ps[n - 1].1 && re <= ps[n - 1].1);
    let spans = region_spans(ps, rs, re);
    let sp = spans[0];
    assert(sp == span_on_line(ps, fl, rs, re));
    assert(sp.line.0 as int == fl);
    if fl == ll {
        assert(sp.start_col == rs - ps[fl].0);
        assert(sp.end_col == re - ps[fl].0);
        assert(span_bytes(bytes, ps, sp) =~= bytes.subrange(rs as int, re as int));
    } else {
        assert(fl < n - 1);
        lemma_line_order(ps, fl, ll);
        assert(sp.start_col == rs - ps[fl].0);
        assert(sp.end_col == ps[fl].1 - ps[fl].0);
        assert(ps[fl + 1].0 == ps[fl].1 + 1);
        let rs2 = ps[fl + 1].0;
        assert(line_contains(ps[fl + 1], rs2));
        lemma_line_containing_is(ps, rs2, fl + 1);
        if fl + 1 < ll {
            lemma_line_order(ps, fl + 1, ll);
        }
        assert(rs2 <= re);
        lemma_region_concat(bytes, ps, rs2, re);
        let spans2 = region_spans(ps, rs2, re);
        assert(spans.drop_first() =~= spans2) by {
            assert forall|k: int| 0 <= k < spans2.len() implies spans.drop_first()[k]
                == spans2[k] by {
                let i = fl + 1 + k;
                assert(spans.drop_first()[k] == span_on_line(ps, i, rs, re));
                assert(spans2[k] == span_on_line(ps, i, rs2, re));
                lemma_line_order(ps, fl, i);
                if fl + 1 < i {
                    lemma_line_order(ps, fl + 1, i);
                }
                assert(!(rs > ps[i].0));
                assert(!(rs2 > ps[i].0));
            }
        }
        assert(joined_bytes(bytes, ps, spans) == span_bytes(bytes, ps, sp) + seq![NEWLINE]
            + joined_bytes(bytes, ps, spans2));
        assert(span_bytes(bytes, ps, sp) =~= bytes.subrange(rs as int, ps[fl].1 as int));
        assert(bytes[ps[fl].1 as int] == NEWLINE);
        assert(bytes.subrange(rs as int, re as int) =~= bytes.subrange(rs as int, ps[fl].1 as int)
            + seq![NEWLINE] + bytes.subrange(rs2 as int, re as int));
    }
}

/// One inner span translated into the coordinates of an enclosing
/// buffer: line numbers shift by the anchor's line, and columns on the
/// inner first line (which shares a physical line with text before the
/// anchor) shift by the anchor's start column.
pub open spec fn compose_span(anchor: SingleLineSpan, inner: SingleLineSpan) -> SingleLineSpan {
    if inner.line.0 == 0 {
        SingleLineSpan {
            line: LineNumber((inner.line.0 + anchor.line.0) as u32),
            start_col: (inner.start_col + anchor.start_col) as u32,
            end_col: (inner.end_col + anchor.start_col) as u32,
        }
    } else {
        SingleLineSpan {
            line: LineNumber((inner.line.0 + anchor.line.0) as u32),
            start_col: inner.start_col,
            end_col: inner.end_col,
        }
    }
}

/// Every span of `inner` translated by `compose_span`.
pub open spec fn compose_spans(anchor: SingleLineSpan, inner: Seq<SingleLineSpan>) -> Seq<
    SingleLineSpan,
> {
    Seq::new(inner.len(), |k: int| compose_span(anchor, inner[k]))
}

/// Newline counts and line starts of a substring agree with those of
/// the enclosing buffer, shifted by the substring's position: `k + o`
/// in the enclosing buffer sees the newlines before `k` plus those
/// the substring holds before `o`, and once the substring has crossed
/// a newline its line starts coincide with the enclosing ones.
pub proof fn lemma_substring_counts(eb: Seq<u8>, sb: Seq<u8>, k: usize, o: int)
    requires
        k + sb.len() <= eb.len(),
        sb == eb.subrange(k as int, k + sb.len()),
        0 <= o <= sb.len(),
    ensures
        newline_count(eb, k + o) == newline_count(eb, k as int) + newline_count(sb, o),
        newline_count(sb, o) == 0 ==> line_start_of(eb, k + o) == line_start_of(eb, k as int),
        newline_count(sb, o) > 0 ==> line_start_of(eb, k + o) == k + line_start_of(sb, o),
    decreases o,
{
    if o > 0 {
        lemma_substring_counts(eb, sb, k, o - 1);
        assert(sb[o - 1] == eb[k + o - 1]);
    }
}

/// One element of the composition law: the composed inner span for
/// the `j`-th spanned line equals the corresponding outer span.
proof fn lemma_compose_region_elem(
    eb: Seq<u8>,
    pso: Seq<(usize, usize)>,
    sb: Seq<u8>,
    psi: Seq<(usize, usize)>,
    k: usize,
    anchor: SingleLineSpan,
    s: usize,
    e: usize,
    j: int,
)
    requires
        is_line_index(eb, pso),
        bounded(pso),
        is_line_index(sb, psi),
        bounded(psi),
        k + sb.len() <= eb.len(),
        sb == eb.subrange(k as int, k + sb.len()),
        anchor.line.0 as int == line_containing(pso, k),
        anchor.start_col as int == k - pso[line_containing(pso, k)].0,
        s <= e,
        e <= sb.len(),
        0 <= j <= line_containing(psi, e) - line_containing(psi, s),
    ensures
        compose_span(anchor, span_on_line(psi, line_containing(psi, s) + j, s, e))
            == span_on_line(
            pso,
            line_containing(pso, k) + line_containing(psi, s) + j,
            (k + s) as usize,
            (k + e) as usize,
        ),
{
    assert(contiguous(pso));
    assert(contiguous(psi));
    let al = line_containing(pso, k);
    lemma_line_of_counts_newlines(eb, pso, k);
    lemma_line_of_counts_newlines(sb, psi, s);
    lemma_line_of_counts_newlines(sb, psi, e);
    let fli = line_containing(psi, s);
    let lli = line_containing(psi, e);
    let i = fli + j;
    let ni = psi.len() as int;
    assert(fli <= i <= lli < ni);
    let ks = (k + s) as usize;
    let ke = (k + e) as usize;
    lemma_substring_counts(eb, sb, k, s as int);
    lemma_substring_counts(eb, sb, k, e as int);
    lemma_line_of_counts_newlines(eb, pso, ks);
    lemma_line_of_counts_newlines(eb, pso, ke);
    let flo = line_containing(pso, ks);
    let llo = line_containing(pso, ke);
    assert(flo == al + fli);
    assert(llo == al + lli);
    let oi = al + i;

    // A witness offset on inner line i, and where it lands outside.
    let o_i: usize = if j == 0 {
        s
    } else {
        psi[i].0
    };
    if j > 0 {
        assert(line_contains(psi[i], psi[i].0));
    }
    if i < ni - 1 {
        lemma_line_order(psi, i, ni - 1);
    }
    assert(o_i <= sb.len());
    lemma_line_containing_is(psi, o_i, i);
    lemma_line_of_counts_newlines(sb, psi, o_i);
    assert(newline_count(sb, o_i as int) == i);
    assert(psi[i].0 == line_start_of(sb, o_i as int));
    lemma_substring_counts(eb, sb, k, o_i as int);
    let u: usize = (k + o_i) as usize;
    lemma_line_of_counts_newlines(eb, pso, u);
    assert(line_containing(pso, u) == oi);
    assert(line_contains(pso[oi], u));
    assert(0 <= oi < pso.len());

    // Line-start correspondence for line i.
    if i == 0 {
        assert(newline_count(sb, o_i as int) == 0);
        assert(pso[oi].0 == line_start_of(eb, k as int));
        assert(pso[oi].0 == pso[al].0);
        assert(psi[0].0 == 0);
    } else {
        assert(pso[oi].0 == k + line_start_of(sb, o_i as int));
        assert(pso[oi].0 == k + psi[i].0);
    }

    // Line-end correspondence for line i.
    if i < lli {
        // Line i ends at its own newline, which the substring shares
        // with the enclosing buffer.
        assert(i < ni - 1);
        assert(sb[psi[i].1 as int] == NEWLINE);
        assert(sb[psi[i].1 as int] == eb[k + psi[i].1]);
        lemma_line_boundary(sb, psi, i);
        lemma_newline_count_constant(sb, psi[i].0 as int, psi[i].1 as int);
        assert(newline_count(sb, psi[i].1 as int) == i);
        lemma_line_order(psi, i, ni - 1);
        lemma_substring_counts(eb, sb, k, psi[i].1 as int);
        let u2: usize = (k + psi[i].1) as usize;
        lemma_line_of_counts_newlines(eb, pso, u2);
        assert(line_containing(pso, u2) == oi);
        assert(line_contains(pso[oi], u2));
        if u2 < pso[oi].1 {
            assert(eb[u2 as int] != NEWLINE);
            assert(false);
        }
        assert(pso[oi].1 == k + psi[i].1);
        // The region runs past this line on both sides.
        if i + 1 < lli {
            lemma_line_order(psi, i + 1, lli);
        }
        assert(psi[i + 1].0 == psi[i].1 + 1);
        assert(e > psi[i].1);
    } else {
        // Last spanned line: the region ends inside both lines.
        assert(e <= psi[i].1);
        assert(ke <= pso[oi].1);
    }

    // The first spanned line starts at or before the region on both
    // sides; later ones start after it.
    if j == 0 {
        assert(psi[i].0 <= s);
        assert(pso[oi].0 <= ks);
    } else {
        lemma_line_order(psi, fli, i);
        assert(s <= psi[fli].1);
        assert(s < psi[i].0);
        assert(i > 0);
        assert(ks < pso[oi].0);
    }

    let inner_sp = span_on_line(psi, i, s, e);
    let outer_sp = span_on_line(pso, oi, ks, ke);
    let composed = compose_span(anchor, inner_sp);
    assert(inner_sp.line.0 as int == i);
    assert(outer_sp.line.0 as int == oi);
    assert(composed.line.0 as int == oi);
    assert(composed.start_col as int == outer_sp.start_col as int);
    assert(composed.end_col as int == outer_sp.end_col as int);
    assert(composed == outer_sp);
}

/// Composition law: indexing a substring on its own and translating
/// the resulting spans by the substring's anchor position gives the
/// same spans as querying the enclosing buffer directly. The anchor
/// is the line and column of the substring's first byte in the
/// enclosing buffer, and `[s, e]` is a region in the substring's own
/// coordinates.
pub proof fn lemma_compose_region(
    eb: Seq<u8>,
    pso: Seq<(usize, usize)>,
    sb: Seq<u8>,
    psi: Seq<(usize, usize)>,
    k: usize,
    anchor: SingleLineSpan,
    s: usize,
    e: usize,
)
    requires
        is_line_index(eb, pso),
        bounded(pso),
        is_line_index(sb, psi),
        bounded(psi),
        k + sb.len() <= eb.len(),
        sb == eb.subrange(k as int, k + sb.len()),
        anchor.line.0 as int == line_containing(pso, k),
        anchor.start_col as int == k - pso[line_containing(pso, k)].0,
        s <= e,
        e <= sb.len(),
    ensures
        compose_spans(anchor, region_spans(psi, s, e)) == region_spans(
            pso,
            (k + s) as usize,
            (k + e) as usize,
        ),
{
    assert(contiguous(pso));
    assert(contiguous(psi));
    let al = line_containing(pso, k);
    lemma_line_of_counts_newlines(eb, pso, k);
    lemma_line_of_counts_newlines(sb, psi, s);
    lemma_line_of_counts_newlines(sb, psi, e);
    let fli = line_containing(psi, s);
    let lli = line_containing(psi, e);
    if fli > lli {
        lemma_line_order(psi, lli, fli);
        assert(false);
    }
    let ks = (k + s) as usize;
    let ke = (k + e) as usize;
    lemma_substring_counts(eb, sb, k, s as int);
    lemma_substring_counts(eb, sb, k, e as int);
    lemma_line_of_counts_newlines(eb, pso, ks);
    lemma_line_of_counts_newlines(eb, pso, ke);
    assert(line_containing(pso, ks) == al + fli);
    assert(line_containing(pso, ke) == al + lli);
    let lhs = compose_spans(anchor, region_spans(psi, s, e));
    let rhs = region_spans(pso, ks, ke);
    assert(lhs.len() == rhs.len());
    assert forall|j: int| 0 <= j < lhs.len() implies lhs[j] == rhs[j] by {
        lemma_compose_region_elem(eb, pso, sb, psi, k, anchor, s, e, j);
    }
    assert(lhs =~= rhs);
}

} // verus!
