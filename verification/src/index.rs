use crate::line_number::LineNumber;
use crate::model::NEWLINE;
use crate::model::bounded;
use crate::model::compose_span;
use crate::model::compose_spans;
use crate::model::contiguous;
use crate::model::is_line_index;
use crate::model::lemma_line_containing_props;
use crate::model::lemma_line_index_unique;
use crate::model::lemma_line_containing_is;
use crate::model::lemma_line_order;
use crate::model::lemma_newline_count_le;
use crate::model::line_containing;
use crate::model::line_contains;
use crate::model::line_start_of;
use crate::model::newline_count;
use crate::model::region_spans;
use crate::model::span_on_line;
use crate::span::SingleLineSpan;
use vstd::prelude::*;
use vstd::string::StringSliceAdditionalSpecFns;

verus! {

/// A failed query, carrying the offending value and the valid bound.
#[derive(Clone, Copy, PartialEq, Eq, Hash, Debug, Structural)]
pub enum PositionError {
    /// An offset beyond the last valid offset of the indexed buffer.
    OffsetOutOfBounds { offset: usize, bound: usize },
    /// A region whose start is greater than its end.
    ReversedRegion { start: usize, end: usize },
}

/// A structure for efficiently converting absolute string positions
/// to line-relative positions. Built once from a buffer; answers
/// read-only queries from then on and never retains the buffer's
/// text, only its line boundaries.
#[derive(Debug)]
pub struct LinePositions {
    /// The start and end positions (in bytes) of all the lines in the
    /// buffer, in ascending contiguous order. A line's end position
    /// is the offset of its own newline byte; the final line, which
    /// has none, ends at the buffer length.
    positions: Vec<(usize, usize)>,
}

impl View for LinePositions {
    type V = Seq<(usize, usize)>;

    closed spec fn view(&self) -> Seq<(usize, usize)> {
        self.positions@
    }
}

impl LinePositions {
    /// Well-formedness: the boundary pairs are contiguous and
    /// ascending (what binary search depends on), and both the line
    /// count and the last offset fit in 32 bits.
    pub open spec fn wf(&self) -> bool {
        &&& contiguous(self@)
        &&& bounded(self@)
    }

    /// The largest offset that queries against this index accept: the
    /// end of the final line, which equals the indexed buffer's
    /// length.
    pub open spec fn max_offset(&self) -> usize
        recommends
            self@.len() >= 1,
    {
        self@[self@.len() - 1].1
    }

    /// Build the index for `bytes`: one boundary pair per
    /// `\n`-delimited line, including the empty final line produced
    /// by a trailing newline or by an empty buffer.
    pub fn from_bytes(bytes: &[u8]) -> (r: Self)
        requires
            bytes@.len() < u32::MAX,
        ensures
            r.wf(),
            is_line_index(bytes@, r@),
    {
        let n = bytes.len();
        let mut positions: Vec<(usize, usize)> = Vec::new();
        let mut line_start: usize = 0;
        let mut i: usize = 0;
        while i < n
            invariant
                n == bytes@.len() < u32::MAX,
                0 <= i <= n,
                line_start <= i,
                line_start == line_start_of(bytes@, i as int),
                positions@.len() == newline_count(bytes@, i as int),
                positions@.len() >= 1 ==> positions@[0].0 == 0,
                positions@.len() == 0 ==> line_start == 0,
                positions@.len() >= 1 ==> positions@[positions@.len() - 1].1 + 1 == line_start,
                forall|j: int|
                    0 <= j < positions@.len() ==> #[trigger] positions@[j].0 <= positions@[j].1
                        < i,
                forall|j: int|
                    0 <= j < positions@.len() - 1 ==> #[trigger] positions@[j + 1].0
                        == positions@[j].1 + 1,
                forall|j: int|
                    0 <= j < positions@.len() ==> bytes@[#[trigger] positions@[j].1 as int]
                        == NEWLINE,
                forall|j: int, l: int|
                    #![trigger positions@[j], bytes@[l]]
                    0 <= j < positions@.len() && positions@[j].0 <= l < positions@[j].1
                        ==> bytes@[l] != NEWLINE,
                forall|l: int| line_start <= l < i ==> #[trigger] bytes@[l] != NEWLINE,
            decreases n - i,
        {
            if bytes[i] == NEWLINE {
                positions.push((line_start, i));
                line_start = i + 1;
            }
            i = i + 1;
        }
        proof {
            lemma_newline_count_le(bytes@, n as int);
        }
        positions.push((line_start, n));
        LinePositions { positions }
    }

    /// Build the index for the UTF-8 bytes of `s`.
    pub fn from(s: &str) -> (r: Self)
        requires
            s.spec_bytes().len() < u32::MAX,
        ensures
            r.wf(),
            is_line_index(s.spec_bytes(), r@),
    {
        Self::from_bytes(s.as_bytes())
    }

    /// Return the line and column corresponding to this `offset`,
    /// both measured in bytes: the one line whose boundary pair
    /// contains `offset`, and the distance from that line's start.
    /// The column never exceeds the line's length.
    pub fn from_offset(&self, offset: usize) -> (r: (LineNumber, usize))
        requires
            self.wf(),
            offset <= self.max_offset(),
        ensures
            ({
                let i = line_containing(self@, offset);
                &&& r.0.0 as int == i
                &&& 0 <= i < self@.len()
                &&& line_contains(self@[i], offset)
                &&& self@[i].0 + r.1 == offset
                &&& r.1 <= self@[i].1 - self@[i].0
            }),
    {
        let mut lo: usize = 0;
        let mut hi: usize = self.positions.len();
        while hi - lo > 1
            invariant
                self.wf(),
                0 <= lo < hi <= self@.len(),
                self@[lo as int].0 <= offset,
                offset <= self@[hi - 1].1,
            decreases hi - lo,
        {
            let mid = lo + (hi - lo) / 2;
            if self.positions[mid].0 > offset {
                proof {
                    assert(mid >= 1);
                    assert(self@[mid - 1 + 1].0 == self@[mid - 1].1 + 1);
                }
                hi = mid;
            } else {
                lo = mid;
            }
        }
        let (line_start_offset, _) = self.positions[lo];
        let column = offset - line_start_offset;
        proof {
            assert(line_contains(self@[lo as int], offset));
            lemma_line_containing_is(self@, offset, lo as int);
        }
        (LineNumber(lo as u32), column)
    }

    /// Convert this region into line spans, one per line from the
    /// line containing `region_start` through the line containing
    /// `region_end`: if the region includes a newline, the vec will
    /// contain multiple items. `region_start` and `region_end` are
    /// measured in bytes; each span's columns are the region clipped
    /// to that line's boundaries.
    pub fn from_region(&self, region_start: usize, region_end: usize) -> (r: Vec<SingleLineSpan>)
        requires
            self.wf(),
            region_start <= region_end,
            region_end <= self.max_offset(),
        ensures
            r@ == region_spans(self@, region_start, region_end),
            r@.len() == line_containing(self@, region_end) - line_containing(self@, region_start)
                + 1,
    {
        let (first_line, _) = self.from_offset(region_start);
        let (last_line, _) = self.from_offset(region_end);
        let ghost fl = line_containing(self@, region_start);
        let ghost ll = line_containing(self@, region_end);
        proof {
            if fl > ll {
                lemma_line_order(self@, ll, fl);
            }
        }
        let mut res: Vec<SingleLineSpan> = Vec::new();
        let mut idx: usize = first_line.as_usize();
        let last: usize = last_line.as_usize();
        while idx <= last
            invariant
                self.wf(),
                region_start <= region_end <= self.max_offset(),
                0 <= fl <= ll < self@.len(),
                fl == line_containing(self@, region_start),
                ll == line_containing(self@, region_end),
                line_contains(self@[fl], region_start),
                line_contains(self@[ll], region_end),
                last == ll,
                fl <= idx <= ll + 1,
                res@ == Seq::new((idx - fl) as nat,
                    |k: int| span_on_line(self@, fl + k, region_start, region_end),
                ),
            decreases last + 1 - idx,
        {
            proof {
                if fl < idx {
                    lemma_line_order(self@, fl, idx as int);
                }
                if idx < ll {
                    lemma_line_order(self@, idx as int, ll);
                }
            }
            let (line_start, line_end) = self.positions[idx];
            let start_col: usize = if region_start >= line_start {
                region_start - line_start
            } else {
                0
            };
            let end_col: usize = if region_end < line_end {
                region_end - line_start
            } else {
                line_end - line_start
            };
            res.push(
                SingleLineSpan {
                    line: LineNumber(idx as u32),
                    start_col: start_col as u32,
                    end_col: end_col as u32,
                },
            );
            proof {
                assert(res@ =~= Seq::new((idx + 1 - fl) as nat,
                    |k: int| span_on_line(self@, fl + k, region_start, region_end),
                ));
            }
            idx = idx + 1;
        }
        proof {
            assert(res@ =~= region_spans(self@, region_start, region_end));
        }
        res
    }

    /// Like [`LinePositions::from_region`], but an invalid region —
    /// reversed, or with an endpoint out of bounds — is reported as
    /// an error instead of being excluded by precondition. A
    /// reversed region is reported first, then the earlier of the two
    /// out-of-bounds endpoints.
    pub fn try_from_region(&self, region_start: usize, region_end: usize) -> (r: Result<
        Vec<SingleLineSpan>,
        PositionError,
    >)
        requires
            self.wf(),
        ensures
            ({
                let bound = self.max_offset();
                match r {
                    Ok(v) => {
                        &&& region_start <= region_end <= bound
                        &&& v@ == region_spans(self@, region_start, region_end)
                    },
                    Err(e) => {
                        &&& !(region_start <= region_end <= bound)
                        &&& (region_start > region_end ==> e == (PositionError::ReversedRegion {
                            start: region_start,
                            end: region_end,
                        }))
                        &&& (region_start <= region_end && region_start > bound ==> e == (
                        PositionError::OffsetOutOfBounds { offset: region_start, bound }))
                        &&& (region_start <= bound < region_end ==> e == (
                        PositionError::OffsetOutOfBounds { offset: region_end, bound }))
                    },
                }
            }),
    {
        if region_start > region_end {
            return Err(PositionError::ReversedRegion { start: region_start, end: region_end });
        }
        let bound = self.positions[self.positions.len() - 1].1;
        if region_start > bound {
            return Err(PositionError::OffsetOutOfBounds { offset: region_start, bound });
        }
        if region_end > bound {
            return Err(PositionError::OffsetOutOfBounds { offset: region_end, bound });
        }
        Ok(self.from_region(region_start, region_end))
    }

    /// Convert a region in the current `LinePositions` to a series
    /// of single line spans in a larger enclosing string: `start`
    /// says on which line, and at which column, the indexed substring
    /// begins within the enclosing string. Spans on the substring's
    /// first line are shifted by `start`'s column (that line is
    /// shared with enclosing text before the substring); spans on
    /// later lines keep their columns, and every span's line number
    /// is shifted by `start`'s line.
    ///
    /// `region_start` and `region_end` are measured in bytes, in the
    /// substring's own coordinates. The two arithmetic preconditions
    /// keep the shifted line numbers and columns within 32 bits.
    pub fn from_region_relative_to(
        &self,
        start: SingleLineSpan,
        region_start: usize,
        region_end: usize,
    ) -> (r: Vec<SingleLineSpan>)
        requires
            self.wf(),
            region_start <= region_end,
            region_end <= self.max_offset(),
            start.line.0 + line_containing(self@, region_end) <= u32::MAX,
            line_containing(self@, region_start) == 0 ==> start.start_col + (if region_end
                < self@[0].1 {
                region_end as int
            } else {
                self@[0].1 as int
            }) <= u32::MAX,
        ensures
            r@ == compose_spans(start, region_spans(self@, region_start, region_end)),
    {
        let ghost fl = line_containing(self@, region_start);
        let ghost ll = line_containing(self@, region_end);
        proof {
            lemma_line_containing_props(self@, region_start);
            lemma_line_containing_props(self@, region_end);
            if fl > ll {
                lemma_line_order(self@, ll, fl);
            }
        }
        let spans = self.from_region(region_start, region_end);
        let mut res: Vec<SingleLineSpan> = Vec::new();
        let mut i: usize = 0;
        while i < spans.len()
            invariant
                self.wf(),
                region_start <= region_end <= self.max_offset(),
                0 <= fl <= ll < self@.len(),
                fl == line_containing(self@, region_start),
                ll == line_containing(self@, region_end),
                line_contains(self@[fl], region_start),
                line_contains(self@[ll], region_end),
                start.line.0 + ll <= u32::MAX,
                fl == 0 ==> start.start_col + (if region_end < self@[0].1 {
                    region_end as int
                } else {
                    self@[0].1 as int
                }) <= u32::MAX,
                spans@ == region_spans(self@, region_start, region_end),
                spans@.len() == ll - fl + 1,
                0 <= i <= spans@.len(),
                res@ == Seq::new(i as nat, |k: int| compose_span(start, spans@[k])),
            decreases spans@.len() - i,
        {
            let pos = spans[i];
            proof {
                assert(spans@[i as int] == span_on_line(self@, fl + i, region_start, region_end));
                if fl < fl + i {
                    lemma_line_order(self@, fl, fl + i);
                }
                assert(self@[0].0 == 0);
            }
            if pos.line.0 == 0 {
                res.push(
                    SingleLineSpan {
                        line: LineNumber(pos.line.0 + start.line.0),
                        start_col: pos.start_col + start.start_col,
                        end_col: pos.end_col + start.start_col,
                    },
                );
            } else {
                res.push(
                    SingleLineSpan {
                        line: LineNumber(pos.line.0 + start.line.0),
                        start_col: pos.start_col,
                        end_col: pos.end_col,
                    },
                );
            }
            proof {
                assert(res@ =~= Seq::new((i + 1) as nat,
                    |k: int| compose_span(start, spans@[k]),
                ));
            }
            i = i + 1;
        }
        proof {
            assert(res@ =~= compose_spans(start, region_spans(self@, region_start, region_end)));
        }
        res
    }

    /// Building an index twice from the same buffer yields the same
    /// boundary pairs. Every query's result is pinned by its
    /// contract to the boundary pairs and the arguments alone, so
    /// equal indexes answer every query identically.
    pub proof fn lemma_build_deterministic(a: &Self, b: &Self, bytes: Seq<u8>)
        requires
            is_line_index(bytes, a@),
            is_line_index(bytes, b@),
        ensures
            a@ == b@,
    {
        lemma_line_index_unique(bytes, a@, b@);
    }

    /// Like [`LinePositions::from_offset`], but an out-of-bounds
    /// offset is reported as an error instead of being excluded by
    /// precondition.
    pub fn try_from_offset(&self, offset: usize) -> (r: Result<(LineNumber, usize), PositionError>)
        requires
            self.wf(),
        ensures
            ({
                let bound = self.max_offset();
                match r {
                    Ok(lc) => {
                        let i = line_containing(self@, offset);
                        &&& offset <= bound
                        &&& lc.0.0 as int == i
                        &&& 0 <= i < self@.len()
                        &&& line_contains(self@[i], offset)
                        &&& self@[i].0 + lc.1 == offset
                        &&& lc.1 <= self@[i].1 - self@[i].0
                    },
                    Err(e) => {
                        &&& offset > bound
                        &&& e == (PositionError::OffsetOutOfBounds { offset, bound })
                    },
                }
            }),
    {
        let bound = self.positions[self.positions.len() - 1].1;
        if offset > bound {
            Err(PositionError::OffsetOutOfBounds { offset, bound })
        } else {
            Ok(self.from_offset(offset))
        }
    }
}

} // verus!
