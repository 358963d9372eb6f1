use crate::diagnostic::{FileId, Label, LabelRegion};
use crate::files::{
    lemma_count_before_bounds, lemma_count_before_monotone, lemma_line_breaks_shape,
    lemma_location_round_trip, location_of, Files, Location, ParsedFile, SourceCodes,
};
use crate::text::{count_digits, digit_count};
use vstd::prelude::*;

verus! {

/// The regions of a label: its primary region first, then the secondary ones.
pub open spec fn regions(l: Label) -> Seq<LabelRegion> {
    seq![l.primary] + l.secondary@
}

pub open spec fn start_loc(f: ParsedFile, r: LabelRegion) -> Location {
    location_of(f.breaks(), r.start as int)
}

pub open spec fn end_loc(f: ParsedFile, r: LabelRegion) -> Location {
    location_of(f.breaks(), r.end as int)
}

/// A region is inline when it starts and ends on the same line.
pub open spec fn is_inline(f: ParsedFile, r: LabelRegion) -> bool {
    start_loc(f, r).lines == end_loc(f, r).lines
}

/// The (start line, end line) of each multi-line region of `rs`, in order;
/// the position of a region in this sequence is its lane.
pub open spec fn multi_spans(f: ParsedFile, rs: Seq<LabelRegion>) -> Seq<(usize, usize)>
    decreases rs.len(),
{
    if rs.len() == 0 {
        Seq::empty()
    } else {
        let before = multi_spans(f, rs.drop_last());
        if is_inline(f, rs.last()) {
            before
        } else {
            before.push((start_loc(f, rs.last()).lines, end_loc(f, rs.last()).lines))
        }
    }
}

/// The lane of region `j`: how many multi-line regions come before it.
pub open spec fn lane(f: ParsedFile, rs: Seq<LabelRegion>, j: int) -> nat {
    multi_spans(f, rs.take(j)).len()
}

/// The largest line that a region of `rs` ends on, or 0 without regions.
pub open spec fn max_line(f: ParsedFile, rs: Seq<LabelRegion>) -> nat
    decreases rs.len(),
{
    if rs.len() == 0 {
        0
    } else {
        let before = max_line(f, rs.drop_last());
        let last = end_loc(f, rs.last()).lines as nat;
        if last > before {
            last
        } else {
            before
        }
    }
}

/// Whether line `line` is an end line or a start line of a region of `rs`;
/// these are the lines that are rendered.
pub open spec fn touches(f: ParsedFile, rs: Seq<LabelRegion>, line: int) -> bool
    decreases rs.len(),
{
    if rs.len() == 0 {
        false
    } else {
        touches(f, rs.drop_last(), line) || start_loc(f, rs.last()).lines == line || end_loc(
            f,
            rs.last(),
        ).lines == line
    }
}

/// Width of the line-number gutter.
pub open spec fn gutter_width(f: ParsedFile, rs: Seq<LabelRegion>) -> nat {
    digit_count(max_line(f, rs))
}

/// Width of the lane area put before every source line.
pub open spec fn lane_width(f: ParsedFile, rs: Seq<LabelRegion>) -> nat {
    2 * (multi_spans(f, rs).len() + 1)
}

/// The indices below `k` of the multi-line regions that open on `line`.
pub open spec fn open_indices(f: ParsedFile, rs: Seq<LabelRegion>, line: int, k: int) -> Seq<int>
    decreases k,
{
    if k <= 0 {
        Seq::empty()
    } else {
        let before = open_indices(f, rs, line, k - 1);
        if !is_inline(f, rs[k - 1]) && start_loc(f, rs[k - 1]).lines == line {
            before.push(k - 1)
        } else {
            before
        }
    }
}

/// The indices below `k` of the multi-line regions that close on `line`.
pub open spec fn close_indices(f: ParsedFile, rs: Seq<LabelRegion>, line: int, k: int) -> Seq<int>
    decreases k,
{
    if k <= 0 {
        Seq::empty()
    } else {
        let before = close_indices(f, rs, line, k - 1);
        if !is_inline(f, rs[k - 1]) && end_loc(f, rs[k - 1]).lines == line {
            before.push(k - 1)
        } else {
            before
        }
    }
}

/// The last index below `k` of an inline region on `line`: a later inline
/// region on the same line replaces an earlier one.
pub open spec fn inline_at(f: ParsedFile, rs: Seq<LabelRegion>, line: int, k: int) -> Option<int>
    decreases k,
{
    if k <= 0 {
        None
    } else if is_inline(f, rs[k - 1]) && start_loc(f, rs[k - 1]).lines == line {
        Some(k - 1)
    } else {
        inline_at(f, rs, line, k - 1)
    }
}

/// Whether every region of label `l` lies in its file with both ends on
/// character boundaries.
pub open spec fn label_fits(files: SourceCodes, l: Label) -> bool {
    regions_fit(files, l.id, regions(l))
}

/// Whether every region of `rs` lies in file `id` with both ends on
/// character boundaries.
pub open spec fn regions_fit(files: SourceCodes, id: FileId, rs: Seq<LabelRegion>) -> bool {
    &&& files.has(id)
    &&& forall|j: int|
        0 <= j < rs.len() ==> #[trigger] files.region_ok(
            id,
            rs[j].start as int,
            rs[j].end as int,
        )
}

/// `ls` lists, in ascending order and once each, the lines that `rs` touches.
pub open spec fn lists_touched(f: ParsedFile, rs: Seq<LabelRegion>, ls: Seq<usize>) -> bool {
    &&& forall|a: int, b: int| 0 <= a < b < ls.len() ==> ls[a] < ls[b]
    &&& forall|y: usize| ls.contains(y) <==> touches(f, rs, y as int)
}

/// Inserts `x` into the ascending `v`, unless it is there already.
fn insert_sorted(v: &mut Vec<usize>, x: usize)
    requires
        forall|a: int, b: int| 0 <= a < b < old(v)@.len() ==> old(v)@[a] < old(v)@[b],
    ensures
        forall|a: int, b: int| 0 <= a < b < final(v)@.len() ==> final(v)@[a] < final(v)@[b],
        forall|y: usize| final(v)@.contains(y) <==> (old(v)@.contains(y) || y == x),
{
    let mut i: usize = 0;
    while i < v.len() && v[i] < x
        invariant
            i <= v@.len(),
            forall|a: int| 0 <= a < i ==> v@[a] < x,
        decreases v@.len() - i,
    {
        i = i + 1;
    }
    if i < v.len() && v[i] == x {
        assert(v@.contains(x));
        return;
    }
    let ghost old_v = v@;
    v.insert(i, x);
    proof {
        let nv = v@;
        assert(forall|a: int| 0 <= a < i ==> nv[a] == old_v[a]);
        assert(nv[i as int] == x);
        assert(forall|a: int| i < a < nv.len() ==> nv[a] == old_v[a - 1]);
        assert forall|a: int, b: int| 0 <= a < b < nv.len() implies nv[a] < nv[b] by {
            if b < i {
            } else if b == i {
            } else if a < i {
                assert(old_v[a] < x);
                assert(x <= old_v[i as int]);
                assert(old_v[i as int] <= old_v[b - 1]);
            } else if a == i {
                assert(x <= old_v[i as int]);
                assert(old_v[i as int] <= old_v[b - 1]);
            } else {
            }
        }
        assert forall|y: usize| nv.contains(y) <==> (old_v.contains(y) || y == x) by {
            if old_v.contains(y) {
                let k = choose|k: int| 0 <= k < old_v.len() && old_v[k] == y;
                if k < i {
                    assert(nv[k] == y);
                } else {
                    assert(nv[k + 1] == y);
                }
            }
            if y == x {
                assert(nv[i as int] == y);
            }
            if nv.contains(y) {
                let k = choose|k: int| 0 <= k < nv.len() && nv[k] == y;
                if k < i {
                    assert(old_v[k] == y);
                } else if k > i {
                    assert(old_v[k - 1] == y);
                }
            }
        }
    }
}

/// The layout of the regions of one file: where each region starts and ends,
/// its lane, and the sizes of the gutter and the lane area.
pub struct RenderPlan {
    /// Start location of each region.
    pub starts: Vec<Location>,
    /// End location of each region.
    pub ends: Vec<Location>,
    /// Lane of each region.
    pub lanes: Vec<usize>,
    /// (start line, end line) of each multi-line region, by lane.
    pub multi: Vec<(usize, usize)>,
    /// The rendered lines, ascending: the start and end lines of the regions.
    pub lines: Vec<usize>,
    /// The largest line of a region end.
    pub max_line: usize,
    /// Width of the line-number gutter.
    pub gutter: usize,
    /// Width of the lane area.
    pub lane_width: usize,
}

impl RenderPlan {
    /// The plan describes the regions `rs` over file `f`.
    pub open spec fn describes(&self, f: ParsedFile, rs: Seq<LabelRegion>) -> bool {
        &&& self.starts@.len() == rs.len()
        &&& self.ends@.len() == rs.len()
        &&& self.lanes@.len() == rs.len()
        &&& forall|j: int| 0 <= j < rs.len() ==> #[trigger] self.starts@[j] == start_loc(f, rs[j])
        &&& forall|j: int| 0 <= j < rs.len() ==> #[trigger] self.ends@[j] == end_loc(f, rs[j])
        &&& forall|j: int| 0 <= j < rs.len() ==> #[trigger] self.lanes@[j] == lane(f, rs, j)
        &&& self.multi@ == multi_spans(f, rs)
        &&& lists_touched(f, rs, self.lines@)
        &&& forall|i: int| 0 <= i < self.lines@.len() ==> 1 <= #[trigger] self.lines@[i] <= self.max_line
        &&& self.max_line == max_line(f, rs)
        &&& self.gutter == gutter_width(f, rs)
        &&& self.lane_width == lane_width(f, rs)
    }
}

proof fn lemma_multi_spans_len(f: ParsedFile, rs: Seq<LabelRegion>)
    ensures
        multi_spans(f, rs).len() <= rs.len(),
    decreases rs.len(),
{
    if rs.len() > 0 {
        lemma_multi_spans_len(f, rs.drop_last());
    }
}

/// A multi-line region has a lane below the number of lanes, and that lane
/// holds its own start and end lines.
pub proof fn lemma_lane_bound(f: ParsedFile, rs: Seq<LabelRegion>, j: int)
    requires
        0 <= j < rs.len(),
        !is_inline(f, rs[j]),
    ensures
        lane(f, rs, j) < multi_spans(f, rs).len(),
        multi_spans(f, rs)[lane(f, rs, j) as int] == (
            start_loc(f, rs[j]).lines,
            end_loc(f, rs[j]).lines,
        ),
    decreases rs.len(),
{
    let pre = rs.drop_last();
    if j == rs.len() - 1 {
        assert(rs.take(j) =~= pre);
    } else {
        lemma_lane_bound(f, pre, j);
        assert(pre.take(j) =~= rs.take(j));
        assert(pre[j] == rs[j]);
    }
}

/// A region ends on its start line or a later one.
pub proof fn lemma_start_before_end(f: ParsedFile, r: LabelRegion)
    requires
        f.wf(),
        r.start <= r.end,
    ensures
        start_loc(f, r).lines <= end_loc(f, r).lines,
{
    lemma_line_breaks_shape(f.bytes());
    lemma_count_before_bounds(f.breaks(), r.start as int);
    lemma_count_before_bounds(f.breaks(), r.end as int);
    lemma_count_before_monotone(f.breaks(), r.start as int, r.end as int);
}

/// Both end lines of every region are rendered, and none is past `max_line`.
pub proof fn lemma_region_lines_rendered(f: ParsedFile, rs: Seq<LabelRegion>, j: int)
    requires
        f.wf(),
        0 <= j < rs.len(),
        rs[j].start <= rs[j].end,
    ensures
        touches(f, rs, start_loc(f, rs[j]).lines as int),
        touches(f, rs, end_loc(f, rs[j]).lines as int),
        start_loc(f, rs[j]).lines <= end_loc(f, rs[j]).lines <= max_line(f, rs),
    decreases rs.len(),
{
    lemma_start_before_end(f, rs[j]);
    if j < rs.len() - 1 {
        let pre = rs.drop_last();
        assert(pre[j] == rs[j]);
        lemma_region_lines_rendered(f, pre, j);
    }
}

/// Every rendered line is at most `max_line`, and `max_line` is rendered.
proof fn lemma_max_line_rendered(f: ParsedFile, rs: Seq<LabelRegion>)
    requires
        f.wf(),
        rs.len() > 0,
        forall|j: int| 0 <= j < rs.len() ==> #[trigger] rs[j].start <= rs[j].end,
    ensures
        touches(f, rs, max_line(f, rs) as int),
        forall|line: int| #[trigger] touches(f, rs, line) ==> line <= max_line(f, rs),
    decreases rs.len(),
{
    let pre = rs.drop_last();
    let last = rs.last();
    lemma_start_before_end(f, last);
    if pre.len() > 0 {
        assert forall|j: int| 0 <= j < pre.len() implies #[trigger] pre[j].start <= pre[j].end by {
            assert(pre[j] == rs[j]);
        }
        lemma_max_line_rendered(f, pre);
    }
    assert forall|line: int| #[trigger] touches(f, rs, line) implies line <= max_line(f, rs) by {
        assert(touches(f, rs, line) == (touches(f, pre, line) || start_loc(f, last).lines == line
            || end_loc(f, last).lines == line));
        assert(start_loc(f, last).lines <= end_loc(f, last).lines);
        assert(end_loc(f, last).lines as nat <= max_line(f, rs));
        assert(max_line(f, pre) <= max_line(f, rs));
        if pre.len() > 0 && touches(f, pre, line) {
            assert(line <= max_line(f, pre));
        }
    }
}

/// The gutter is as wide as the decimal digits of the largest rendered line.
pub proof fn lemma_gutter_fits_widest_line(files: SourceCodes, id: FileId, rs: Seq<LabelRegion>)
    requires
        files.wf(),
        rs.len() > 0,
        regions_fit(files, id, rs),
    ensures
        touches(files.file(id), rs, max_line(files.file(id), rs) as int),
        forall|line: int|
            #[trigger] touches(files.file(id), rs, line) ==> line <= max_line(
                files.file(id),
                rs,
            ),
        gutter_width(files.file(id), rs) == digit_count(
            max_line(files.file(id), rs),
        ),
{
    assert(files.file(id).wf());
    assert forall|j: int| 0 <= j < rs.len() implies #[trigger] rs[j].start <= rs[j].end by {
        assert(files.region_ok(id, rs[j].start as int, rs[j].end as int));
    }
    lemma_max_line_rendered(files.file(id), rs);
}

proof fn lemma_push_contains(s: Seq<int>, x: int, y: int)
    ensures
        s.push(x).contains(y) <==> (s.contains(y) || y == x),
{
    let p = s.push(x);
    if s.contains(y) {
        let i = choose|i: int| 0 <= i < s.len() && s[i] == y;
        assert(p[i] == y);
    }
    if y == x {
        assert(p[s.len() as int] == y);
    }
    if p.contains(y) {
        let i = choose|i: int| 0 <= i < p.len() && p[i] == y;
        if i < s.len() {
            assert(s[i] == y);
        }
    }
}

proof fn lemma_indices_contain(f: ParsedFile, rs: Seq<LabelRegion>, line: int, k: int, j: int)
    requires
        0 <= j,
        k <= rs.len(),
    ensures
        open_indices(f, rs, line, k).contains(j) <==> (j < k && !is_inline(f, rs[j]) && start_loc(
            f,
            rs[j],
        ).lines == line),
        close_indices(f, rs, line, k).contains(j) <==> (j < k && !is_inline(f, rs[j]) && end_loc(
            f,
            rs[j],
        ).lines == line),
    decreases k,
{
    if k > 0 {
        lemma_indices_contain(f, rs, line, k - 1, j);
        let o = open_indices(f, rs, line, k - 1);
        let c = close_indices(f, rs, line, k - 1);
        lemma_push_contains(o, k - 1, j);
        lemma_push_contains(c, k - 1, j);
    }
}

/// A multi-line region opens on its start line and closes on its end line,
/// which comes strictly later; it opens and closes on no other line, and
/// both lines are rendered.
pub proof fn lemma_multiline_open_close(files: SourceCodes, id: FileId, rs: Seq<LabelRegion>, j: int, line: int)
    requires
        files.wf(),
        regions_fit(files, id, rs),
        0 <= j < rs.len(),
        !is_inline(files.file(id), rs[j]),
    ensures
        start_loc(files.file(id), rs[j]).lines < end_loc(
            files.file(id),
            rs[j],
        ).lines,
        open_indices(files.file(id), rs, line, rs.len() as int).contains(j)
            <==> line == start_loc(files.file(id), rs[j]).lines,
        close_indices(files.file(id), rs, line, rs.len() as int).contains(j)
            <==> line == end_loc(files.file(id), rs[j]).lines,
        touches(files.file(id), rs, start_loc(files.file(id), rs[j]).lines as int),
        touches(files.file(id), rs, end_loc(files.file(id), rs[j]).lines as int),
{
    let f = files.file(id);
    assert(f.wf());
    assert(files.region_ok(id, rs[j].start as int, rs[j].end as int));
    lemma_region_lines_rendered(f, rs, j);
    lemma_indices_contain(f, rs, line, rs.len() as int, j);
}

/// The region `j` of label `l`.
pub fn region_at(l: &Label, j: usize) -> (r: &LabelRegion)
    requires
        j < regions(*l).len(),
    ensures
        *r == regions(*l)[j as int],
{
    if j == 0 {
        &l.primary
    } else {
        &l.secondary[j - 1]
    }
}

/// Plans the layout of the regions `regs` of file `id`.
pub fn plan(files: &SourceCodes, id: FileId, regs: &Vec<LabelRegion>) -> (r: RenderPlan)
    requires
        files.wf(),
        regs@.len() > 0,
        regions_fit(*files, id, regs@),
        regs@.len() < usize::MAX / 8,
    ensures
        r.describes(files.file(id), regs@),
        1 <= r.max_line <= files.file(id).line_count(),
{
    let ghost f = files.file(id);
    let ghost rs = regs@;
    let n = regs.len();
    let mut starts: Vec<Location> = Vec::new();
    let mut ends: Vec<Location> = Vec::new();
    let mut lanes: Vec<usize> = Vec::new();
    let mut multi: Vec<(usize, usize)> = Vec::new();
    let mut max: usize = 0;
    let mut lines: Vec<usize> = Vec::new();
    let mut j: usize = 0;
    while j < n
        invariant
            n == rs.len(),
            n <= usize::MAX / 8,
            files.wf(),
            regions_fit(*files, id, regs@),
            f == files.file(id),
            rs == regs@,
            j <= n,
            starts@.len() == j,
            ends@.len() == j,
            lanes@.len() == j,
            forall|i: int| 0 <= i < j ==> #[trigger] starts@[i] == start_loc(f, rs[i]),
            forall|i: int| 0 <= i < j ==> #[trigger] ends@[i] == end_loc(f, rs[i]),
            forall|i: int| 0 <= i < j ==> #[trigger] lanes@[i] == lane(f, rs, i),
            multi@ == multi_spans(f, rs.take(j as int)),
            multi@.len() <= j,
            max == max_line(f, rs.take(j as int)),
            j > 0 ==> 1 <= max <= f.line_count(),
            forall|a: int, b: int| 0 <= a < b < lines@.len() ==> lines@[a] < lines@[b],
            forall|y: usize| lines@.contains(y) <==> touches(f, rs.take(j as int), y as int),
            forall|i: int| 0 <= i < lines@.len() ==> 1 <= #[trigger] lines@[i] <= max,
        decreases n - j,
    {
        let region = &regs[j];
        assert(files.region_ok(id, rs[j as int].start as int, rs[j as int].end as int));
        let loc = files.to_location(id, &(region.start..region.end));
        proof {
            lemma_location_round_trip(*files, id, region.end as int);
            assert(rs.take(j + 1).drop_last() =~= rs.take(j as int));
            assert(rs.take(j + 1).last() == rs[j as int]);
        }
        starts.push(loc.start);
        ends.push(loc.end);
        lanes.push(multi.len());
        if loc.start.lines != loc.end.lines {
            multi.push((loc.start.lines, loc.end.lines));
        }
        if loc.end.lines > max {
            max = loc.end.lines;
        }
        proof {
            lemma_location_round_trip(*files, id, region.start as int);
            lemma_start_before_end(f, rs[j as int]);
        }
        let ghost before = lines@;
        insert_sorted(&mut lines, loc.start.lines);
        insert_sorted(&mut lines, loc.end.lines);
        proof {
            assert forall|i: int| 0 <= i < lines@.len() implies 1 <= #[trigger] lines@[i] <= max by {
                assert(lines@.contains(lines@[i]));
                if before.contains(lines@[i]) {
                    let k = choose|k: int| 0 <= k < before.len() && before[k] == lines@[i];
                    assert(1 <= before[k]);
                }
            }
        }
        j = j + 1;
    }
    proof {
        assert(rs.take(n as int) =~= rs);
        lemma_multi_spans_len(f, rs);
    }
    let gutter = count_digits(max);
    let lane_width = 2 * (multi.len() + 1);
    RenderPlan { starts, ends, lanes, multi, lines, max_line: max, gutter, lane_width }
}

} // verus!
