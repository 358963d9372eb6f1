use std::ops::Range;
use crate::diagnostic::FileId;
use vstd::prelude::*;
use vstd::string::StringSliceAdditionalSpecFns;
use vstd::utf8::*;

verus! {

broadcast use vstd::string::group_string_axioms;

/// The byte value of a line break.
pub const LINE_BREAK: u8 = 10;

/// Offsets of the line breaks of `b`, in ascending order.
pub open spec fn line_breaks(b: Seq<u8>) -> Seq<usize>
    decreases b.len(),
{
    if b.len() == 0 {
        Seq::empty()
    } else {
        let before = line_breaks(b.drop_last());
        if b.last() == LINE_BREAK {
            before.push((b.len() - 1) as usize)
        } else {
            before
        }
    }
}

/// How many of the line breaks `br` lie strictly before offset `o`.
pub open spec fn count_before(br: Seq<usize>, o: int) -> nat
    decreases br.len(),
{
    if br.len() == 0 {
        0
    } else {
        count_before(br.drop_last(), o) + if br.last() < o {
            1nat
        } else {
            0nat
        }
    }
}

/// Offset of the first byte of the 1-based line `line`.
pub open spec fn line_start(br: Seq<usize>, line: int) -> int {
    if line <= 1 {
        0
    } else {
        br[line - 2] + 1
    }
}

/// Offset one past the last byte of the 1-based line `line`, its break excluded.
pub open spec fn line_end(br: Seq<usize>, len: int, line: int) -> int {
    if line - 1 < br.len() {
        br[line - 1] as int
    } else {
        len
    }
}

/// A 1-based (line, column) position; the column counts bytes.
#[derive(Debug, PartialEq, Eq, Clone, Copy)]
pub struct Location {
    /// The line number in the source file.
    pub lines: usize,
    /// The column number in the source file.
    pub cols: usize,
}

/// The position of offset `o` in a text whose line breaks are `br`: the line
/// is one more than the number of breaks before `o`, the column counts from
/// the first byte of that line.
pub open spec fn location_of(br: Seq<usize>, o: int) -> Location {
    let line = count_before(br, o) as int + 1;
    Location { lines: line as usize, cols: (o - line_start(br, line) + 1) as usize }
}

/// The offset that a location stands for.
pub open spec fn offset_of(br: Seq<usize>, loc: Location) -> int {
    line_start(br, loc.lines as int) + loc.cols - 1
}

pub open spec fn strictly_ascending(br: Seq<usize>) -> bool {
    forall|i: int, j: int| 0 <= i < j < br.len() ==> br[i] < br[j]
}

/// Every element of `line_breaks(b)` is a line break of `b`, and they ascend.
pub proof fn lemma_line_breaks_shape(b: Seq<u8>)
    requires
        b.len() <= usize::MAX,
    ensures
        strictly_ascending(line_breaks(b)),
        forall|i: int|
            0 <= i < line_breaks(b).len() ==> #[trigger] line_breaks(b)[i] < b.len() && b[line_breaks(
                b,
            )[i] as int] == LINE_BREAK,
        line_breaks(b).len() <= b.len(),
    decreases b.len(),
{
    if b.len() > 0 {
        let pre = b.drop_last();
        lemma_line_breaks_shape(pre);
        let bp = line_breaks(pre);
        assert forall|i: int| 0 <= i < bp.len() implies bp[i] < b.len() && b[bp[i] as int]
            == LINE_BREAK by {
            assert(pre[bp[i] as int] == b[bp[i] as int]);
        }
    }
}

/// The breaks before `o` form a prefix of the ascending breaks.
pub proof fn lemma_count_before_bounds(br: Seq<usize>, o: int)
    requires
        strictly_ascending(br),
    ensures
        count_before(br, o) <= br.len(),
        count_before(br, o) == 0 || br[count_before(br, o) - 1] < o,
        count_before(br, o) == br.len() || o <= br[count_before(br, o) as int],
    decreases br.len(),
{
    if br.len() > 0 {
        let pre = br.drop_last();
        assert(strictly_ascending(pre));
        lemma_count_before_bounds(pre, o);
    }
}

/// In valid UTF-8, an offset is a character boundary exactly when it is the
/// end or does not hold a continuation byte.
pub proof fn lemma_char_boundary(b: Seq<u8>, i: int)
    requires
        valid_utf8(b),
        0 <= i <= b.len(),
    ensures
        is_char_boundary(b, i) <==> (i == b.len() || !is_continuation_byte(b[i])),
{
    is_char_boundary_start_end_of_seq(b);
    if i < b.len() {
        is_char_boundary_iff_not_is_continuation_byte(b, i);
    }
}

/// Both sides of a line break are character boundaries.
pub proof fn lemma_break_boundaries(b: Seq<u8>, k: int)
    requires
        valid_utf8(b),
        0 <= k < b.len(),
        b[k] == LINE_BREAK,
    ensures
        is_char_boundary(b, k),
        is_char_boundary(b, k + 1),
{
    lemma_char_boundary(b, k);
    valid_utf8_split(b, k);
    let tail = b.subrange(k, b.len() as int);
    assert(tail[0] == LINE_BREAK);
    assert(length_of_first_scalar(tail) == 1);
    reveal_with_fuel(is_char_boundary, 2);
    assert(is_char_boundary(pop_first_scalar(tail), 0));
    assert(is_char_boundary(tail, 1));
    lemma_char_boundary(tail, 1);
    if k + 1 < b.len() {
        assert(tail[1] == b[k + 1]);
    }
    lemma_char_boundary(b, k + 1);
}

/// A source file with the offsets of its line breaks.
pub struct ParsedFile {
    line_break_offsets: Vec<usize>,
    file_name: String,
    content: String,
}

impl ParsedFile {
    /// The bytes of the content.
    pub closed spec fn bytes(&self) -> Seq<u8> {
        encode_utf8(self.content@)
    }

    pub closed spec fn breaks(&self) -> Seq<usize> {
        self.line_break_offsets@
    }

    pub closed spec fn name(&self) -> Seq<char> {
        self.file_name@
    }

    pub open spec fn wf(&self) -> bool {
        &&& self.breaks() == line_breaks(self.bytes())
        &&& self.bytes().len() < usize::MAX
    }

    /// Number of lines: one more than the number of line breaks.
    pub open spec fn line_count(&self) -> nat {
        self.breaks().len() + 1
    }

    /// The bytes of line `line` (1-based), without its line break.
    pub open spec fn line_bytes(&self, line: int) -> Seq<u8> {
        self.bytes().subrange(
            line_start(self.breaks(), line),
            line_end(self.breaks(), self.bytes().len() as int, line),
        )
    }

    /// Indexes the line breaks of `content`.
    pub fn new(file_name: &str, content: &str) -> (r: Self)
        requires
            content.spec_bytes().len() < usize::MAX,
        ensures
            r.wf(),
            r.name() == file_name@,
            r.bytes() == content.spec_bytes(),
    {
        let bytes = content.as_bytes();
        let mut line_break_offsets: Vec<usize> = Vec::new();
        let mut idx: usize = 0;
        while idx < bytes.len()
            invariant
                bytes@ == content.spec_bytes(),
                idx <= bytes@.len(),
                line_break_offsets@ == line_breaks(bytes@.subrange(0, idx as int)),
            decreases bytes@.len() - idx,
        {
            let ghost pre = bytes@.subrange(0, idx as int);
            assert(bytes@.subrange(0, idx + 1).drop_last() =~= pre);
            if bytes[idx] == LINE_BREAK {
                line_break_offsets.push(idx);
            }
            idx = idx + 1;
        }
        assert(bytes@.subrange(0, idx as int) =~= bytes@);
        ParsedFile {
            line_break_offsets,
            content: content.to_owned(),
            file_name: file_name.to_owned(),
        }
    }

    /// The location of the byte offset `offset`.
    fn do_location(&self, offset: usize) -> (r: Location)
        requires
            self.wf(),
            offset <= self.bytes().len(),
        ensures
            r == location_of(self.breaks(), offset as int),
    {
        proof {
            lemma_line_breaks_shape(self.bytes());
            lemma_count_before_bounds(self.breaks(), offset as int);
        }
        let breaks = &self.line_break_offsets;
        let mut idx: usize = 0;
        while idx < breaks.len() && breaks[idx] < offset
            invariant
                self.wf(),
                breaks@ == self.breaks(),
                strictly_ascending(breaks@),
                idx <= breaks@.len(),
                idx == 0 || breaks@[idx - 1] < offset,
            decreases breaks@.len() - idx,
        {
            idx = idx + 1;
        }
        let ghost k = count_before(breaks@, offset as int);
        assert(k == idx) by {
            if k < idx {
                assert(breaks@[k as int] <= breaks@[idx - 1]);
            } else if idx < k {
                assert(breaks@[idx as int] <= breaks@[k - 1]);
            }
        }
        if idx == 0 {
            Location { lines: 1, cols: offset + 1 }
        } else {
            Location { lines: idx + 1, cols: offset - breaks[idx - 1] }
        }
    }

    /// The number of line breaks.
    pub fn break_count(&self) -> (r: usize)
        ensures
            r == self.breaks().len(),
    {
        self.line_break_offsets.len()
    }

    fn len(&self) -> (r: usize)
        requires
            self.wf(),
        ensures
            r == self.bytes().len(),
    {
        self.content.as_str().len()
    }

    /// Whether `offset` is the end of the content or the first byte of a character.
    fn is_boundary(&self, offset: usize) -> (r: bool)
        ensures
            r == is_char_boundary(self.bytes(), offset as int),
    {
        self.content.as_str().is_char_boundary(offset)
    }

    /// The text of the bytes `start..end`.
    fn slice(&self, start: usize, end: usize) -> (r: &str)
        requires
            self.wf(),
            start <= end <= self.bytes().len(),
            is_char_boundary(self.bytes(), start as int),
            is_char_boundary(self.bytes(), end as int),
        ensures
            r.spec_bytes() == self.bytes().subrange(start as int, end as int),
            r@ == decode_utf8(self.bytes().subrange(start as int, end as int)),
    {
        let ghost b = self.bytes();
        proof {
            encode_utf8_valid_utf8(self.content@);
        }
        let text = self.content.as_str();
        let (_, rest) = text.split_at(start);
        let ghost rb = b.subrange(start as int, b.len() as int);
        proof {
            valid_utf8_split(b, start as int);
            lemma_char_boundary(rb, end - start);
            lemma_char_boundary(b, end as int);
            if end < b.len() {
                assert(rb[end - start] == b[end as int]);
            }
        }
        let (part, _) = rest.split_at(end - start);
        proof {
            assert(part.spec_bytes() =~= b.subrange(start as int, end as int));
            encode_utf8_decode_utf8(part@);
        }
        part
    }

    /// The locations of both ends of `range`.
    fn location(&self, range: &Range<usize>) -> (r: Range<Location>)
        requires
            self.wf(),
            range.start <= range.end <= self.bytes().len(),
        ensures
            r.start == location_of(self.breaks(), range.start as int),
            r.end == location_of(self.breaks(), range.end as int),
    {
        let start = self.do_location(range.start);
        let end = self.do_location(range.end);
        start..end
    }

    /// The text of line `lines` (1-based), without its line break.
    pub fn as_str(&self, lines: usize) -> (r: &str)
        requires
            self.wf(),
            1 <= lines <= self.line_count(),
        ensures
            r.spec_bytes() == self.line_bytes(lines as int),
            r@ == decode_utf8(self.line_bytes(lines as int)),
    {
        let ghost b = self.bytes();
        let ghost br = self.breaks();
        proof {
            lemma_line_breaks_shape(b);
            encode_utf8_valid_utf8(self.content@);
        }
        let text = self.content.as_str();
        let n = lines - 1;
        let start: usize = if n == 0 {
            0
        } else {
            self.line_break_offsets[n - 1] + 1
        };
        let end: usize = if n < self.line_break_offsets.len() {
            self.line_break_offsets[n]
        } else {
            text.len()
        };
        proof {
            if n > 0 {
                lemma_break_boundaries(b, br[n - 1] as int);
                if n < br.len() {
                    assert(br[n - 1] < br[n as int]);
                }
            } else {
                lemma_char_boundary(b, 0);
            }
        }
        let (_, rest) = text.split_at(start);
        let ghost rb = b.subrange(start as int, b.len() as int);
        proof {
            valid_utf8_split(b, start as int);
            lemma_char_boundary(rb, end - start);
            if n < br.len() {
                assert(rb[end - start] == b[end as int]);
            }
        }
        let (line, _) = rest.split_at(end - start);
        proof {
            assert(line.spec_bytes() =~= self.line_bytes(lines as int));
            encode_utf8_decode_utf8(line@);
        }
        line
    }
}

/// An in-memory store of source files, each given the next [`FileId`].
pub struct SourceCodes(Vec<ParsedFile>);

impl SourceCodes {
    /// The registered files, in the order of registration.
    pub closed spec fn files(&self) -> Seq<ParsedFile> {
        self.0@
    }

    pub open spec fn wf(&self) -> bool {
        forall|i: int| 0 <= i < self.files().len() ==> #[trigger] self.files()[i].wf()
    }

    pub open spec fn has(&self, id: FileId) -> bool {
        id.0 < self.files().len()
    }

    pub open spec fn file(&self, id: FileId) -> ParsedFile {
        self.files()[id.0 as int]
    }

    /// Whether `start..end` is a range of file `id` whose ends are character boundaries.
    pub open spec fn region_ok(&self, id: FileId, start: int, end: int) -> bool {
        &&& self.has(id)
        &&& 0 <= start <= end <= self.file(id).bytes().len()
        &&& is_char_boundary(self.file(id).bytes(), start)
        &&& is_char_boundary(self.file(id).bytes(), end)
    }

    /// An empty store.
    pub fn new() -> (r: Self)
        ensures
            r.wf(),
            r.files().len() == 0,
    {
        SourceCodes(Vec::new())
    }

    /// Registers a file; its id is the number of files registered before it.
    pub fn add(&mut self, name: &str, content: &str) -> (r: FileId)
        requires
            old(self).wf(),
            content.spec_bytes().len() < usize::MAX,
        ensures
            final(self).wf(),
            r.0 == old(self).files().len(),
            final(self).files().len() == old(self).files().len() + 1,
            final(self).files().drop_last() == old(self).files(),
            final(self).file(r).bytes() == content.spec_bytes(),
            final(self).file(r).name() == name@,
    {
        let id = self.0.len();
        self.0.push(ParsedFile::new(name, content));
        proof {
            assert(final(self).files().drop_last() =~= old(self).files());
        }
        FileId(id)
    }

    /// The text of the bytes `start..end` of file `id`.
    pub fn slice(&self, id: FileId, start: usize, end: usize) -> (r: &str)
        requires
            self.wf(),
            self.region_ok(id, start as int, end as int),
        ensures
            r.spec_bytes() == self.file(id).bytes().subrange(start as int, end as int),
            r@ == decode_utf8(self.file(id).bytes().subrange(start as int, end as int)),
    {
        self.0[id.0].slice(start, end)
    }

    /// Whether `start..end` is a range of file `id` with both ends on character boundaries.
    pub fn admits(&self, id: FileId, start: usize, end: usize) -> (r: bool)
        requires
            self.wf(),
        ensures
            r == self.region_ok(id, start as int, end as int),
    {
        if id.0 >= self.0.len() || start > end {
            return false;
        }
        let file = &self.0[id.0];
        assert(self.files()[id.0 as int].wf());
        end <= file.len() && file.is_boundary(start) && file.is_boundary(end)
    }
}

/// The first byte of every line is a character boundary.
pub proof fn lemma_line_start_boundary(f: ParsedFile, line: int)
    requires
        f.wf(),
        1 <= line <= f.line_count(),
    ensures
        is_char_boundary(f.bytes(), line_start(f.breaks(), line)),
        0 <= line_start(f.breaks(), line) <= f.bytes().len(),
{
    let b = f.bytes();
    lemma_line_breaks_shape(b);
    encode_utf8_valid_utf8(f.content@);
    if line > 1 {
        lemma_break_boundaries(b, f.breaks()[line - 2] as int);
    } else {
        lemma_char_boundary(b, 0);
    }
}

/// A later offset is on the same line or a later one.
pub proof fn lemma_count_before_monotone(br: Seq<usize>, a: int, b: int)
    requires
        a <= b,
    ensures
        count_before(br, a) <= count_before(br, b),
    decreases br.len(),
{
    if br.len() > 0 {
        lemma_count_before_monotone(br.drop_last(), a, b);
    }
}

/// A store of source files that labels can point into.
pub trait Files {
    /// Whether `id` names a file of a well-formed store.
    spec fn has_file(&self, id: FileId) -> bool;

    /// The number of bytes of file `id`.
    spec fn file_len(&self, id: FileId) -> nat;

    /// The number of lines of file `id`.
    spec fn file_lines(&self, id: FileId) -> nat;

    /// The locations of both ends of `range` in file `id`.
    fn to_location(&self, id: FileId, range: &Range<usize>) -> Range<Location>
        requires
            self.has_file(id),
            range.start <= range.end <= self.file_len(id),
    ;

    /// The text of line `lines` (1-based) of file `id`, without its line break.
    fn as_str(&self, id: FileId, lines: usize) -> &str
        requires
            self.has_file(id),
            1 <= lines <= self.file_lines(id),
    ;

    /// The name of file `id`.
    fn to_file_name(&self, id: FileId) -> &str
        requires
            self.has_file(id),
    ;
}

impl Files for SourceCodes {
    open spec fn has_file(&self, id: FileId) -> bool {
        self.wf() && self.has(id)
    }

    open spec fn file_len(&self, id: FileId) -> nat {
        self.file(id).bytes().len()
    }

    open spec fn file_lines(&self, id: FileId) -> nat {
        self.file(id).line_count()
    }

    /// The locations of both ends of `range` in file `id`.
    fn to_location(&self, id: FileId, range: &Range<usize>) -> (r: Range<Location>)
        ensures
            r.start == location_of(self.file(id).breaks(), range.start as int),
            r.end == location_of(self.file(id).breaks(), range.end as int),
    {
        self.0[id.0].location(range)
    }

    /// The text of line `lines` (1-based) of file `id`, without its line break.
    fn as_str(&self, id: FileId, lines: usize) -> (r: &str)
        ensures
            r.spec_bytes() == self.file(id).line_bytes(lines as int),
            r@ == decode_utf8(self.file(id).line_bytes(lines as int)),
    {
        self.0[id.0].as_str(lines)
    }

    /// The name of file `id`.
    fn to_file_name(&self, id: FileId) -> (r: &str)
        ensures
            r@ == self.file(id).name(),
    {
        self.0[id.0].file_name.as_str()
    }
}

impl Default for SourceCodes {
    fn default() -> (r: Self)
        ensures
            r.wf(),
            r.files().len() == 0,
    {
        SourceCodes::new()
    }
}

/// Line `1` through line `k` of `f`, joined with line breaks.
pub open spec fn joined_lines(f: ParsedFile, k: int) -> Seq<u8>
    decreases k,
{
    if k <= 1 {
        f.line_bytes(1)
    } else {
        joined_lines(f, k - 1) + seq![LINE_BREAK] + f.line_bytes(k)
    }
}

proof fn lemma_joined_prefix(f: ParsedFile, k: int)
    requires
        f.wf(),
        1 <= k <= f.line_count(),
    ensures
        joined_lines(f, k) == f.bytes().subrange(0, line_end(f.breaks(), f.bytes().len() as int, k)),
    decreases k,
{
    let b = f.bytes();
    let br = f.breaks();
    lemma_line_breaks_shape(b);
    if k > 1 {
        lemma_joined_prefix(f, k - 1);
        let e = br[k - 2] as int;
        if k - 1 < br.len() {
            assert(br[k - 2] < br[k - 1]);
        }
        assert(b.subrange(0, e) + seq![LINE_BREAK] + b.subrange(e + 1, line_end(br, b.len() as int, k))
            =~= b.subrange(0, line_end(br, b.len() as int, k)));
    }
}

/// Joining every line of a file with line breaks gives back its content.
pub proof fn lemma_lines_rebuild_content(files: SourceCodes, id: FileId)
    requires
        files.wf(),
        files.has(id),
    ensures
        joined_lines(files.file(id), files.file(id).line_count() as int) == files.file(id).bytes(),
{
    let f = files.file(id);
    assert(f.wf());
    lemma_joined_prefix(f, f.line_count() as int);
    assert(f.bytes().subrange(0, f.bytes().len() as int) =~= f.bytes());
}

/// The location of an offset leads back to that offset, and lies on a line of the file.
pub proof fn lemma_location_round_trip(files: SourceCodes, id: FileId, o: int)
    requires
        files.wf(),
        files.has(id),
        0 <= o <= files.file(id).bytes().len(),
    ensures
        offset_of(files.file(id).breaks(), location_of(files.file(id).breaks(), o)) == o,
        1 <= location_of(files.file(id).breaks(), o).lines <= files.file(id).line_count(),
        1 <= location_of(files.file(id).breaks(), o).cols,
{
    let f = files.file(id);
    assert(f.wf());
    lemma_line_breaks_shape(f.bytes());
    lemma_count_before_bounds(f.breaks(), o);
}

/// In a file without line breaks every offset lies on line 1.
pub proof fn lemma_single_line(files: SourceCodes, id: FileId, o: int)
    requires
        files.wf(),
        files.has(id),
        0 <= o <= files.file(id).bytes().len(),
        forall|i: int|
            0 <= i < files.file(id).bytes().len() ==> #[trigger] files.file(id).bytes()[i]
                != LINE_BREAK,
    ensures
        location_of(files.file(id).breaks(), o).lines == 1,
        location_of(files.file(id).breaks(), o).cols == o + 1,
{
    let f = files.file(id);
    assert(f.wf());
    lemma_line_breaks_shape(f.bytes());
    if f.breaks().len() > 0 {
        assert(f.bytes()[f.breaks()[0] as int] == LINE_BREAK);
    }
}

} // verus!
