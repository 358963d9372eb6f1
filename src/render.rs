use crate::diagnostic::{Diagnostic, FileId, Label, LabelRegion, LabelStyle, Level};
use crate::files::{
    lemma_line_start_boundary, lemma_location_round_trip, line_start, location_of, Files,
    Location, ParsedFile, SourceCodes,
};
use crate::layout::{
    close_indices, end_loc, gutter_width, inline_at, is_inline, label_fits, lane, lane_width,
    lemma_gutter_fits_widest_line, regions_fit,
    lemma_lane_bound, lemma_region_lines_rendered, max_line, multi_spans, open_indices, plan,
    region_at, regions, start_loc, touches, RenderPlan,
};
use crate::text::{
    count_digits, decimal, digit_count, display_width, display_width_of, lemma_decimal_len,
    lemma_digit_count_monotone, lemma_repeat_single, lemma_spaces_len, push_decimal, push_repeat,
    repeat, spaces,
};
use vstd::prelude::*;
use vstd::string::StringExecFns;
use vstd::utf8::decode_utf8;

verus! {

/// How a span of output is meant to look on a terminal.
#[derive(Debug, PartialEq, Eq, Structural, Clone, Copy)]
pub enum Style {
    /// The severity token of a bug.
    Bug,
    /// The severity token of an error.
    Error,
    /// The severity token of a warning.
    Warning,
    /// The severity token of a note.
    Note,
    /// The severity token of a help message.
    Help,
    /// The main message of a diagnostic.
    Message,
    /// Gutter, borders, connectors and secondary annotations.
    Border,
    /// Source text and note text.
    Code,
    /// Underlines and messages of primary regions.
    Primary,
    /// Line ends.
    Plain,
}

/// A piece of output text with its style.
#[derive(Debug, Clone)]
pub struct Span {
    /// How the text looks.
    pub style: Style,
    /// The text.
    pub text: String,
}

/// The style and characters of each span.
pub open spec fn span_views(s: Seq<Span>) -> Seq<(Style, Seq<char>)> {
    s.map_values(|x: Span| (x.style, x.text@))
}

/// A line end.
pub open spec fn newline() -> Seq<(Style, Seq<char>)> {
    seq![(Style::Plain, "\n"@)]
}

fn push_span(out: &mut Vec<Span>, style: Style, text: String)
    ensures
        span_views(final(out)@) == span_views(old(out)@).push((style, text@)),
{
    out.push(Span { style, text });
    assert(span_views(out@) =~= span_views(old(out)@).push((style, text@)));
}

fn push_newline(out: &mut Vec<Span>)
    ensures
        span_views(final(out)@) == span_views(old(out)@) + newline(),
{
    push_span(out, Style::Plain, "\n".to_owned());
    assert(span_views(out@) =~= span_views(old(out)@) + newline());
}

// ---------------------------------------------------------------------------
// The header line

pub open spec fn level_style(level: Level) -> Style {
    match level {
        Level::Bug => Style::Bug,
        Level::Error => Style::Error,
        Level::Warning => Style::Warning,
        Level::Note => Style::Note,
        Level::Help => Style::Help,
    }
}

/// The severity token, padded to five columns.
pub open spec fn level_token(level: Level) -> Seq<char> {
    match level {
        Level::Bug => "  bug"@,
        Level::Error => "error"@,
        Level::Warning => " warn"@,
        Level::Note => " note"@,
        Level::Help => " help"@,
    }
}

/// A code in brackets, zero-padded to at least six digits.
pub open spec fn code_text(code: nat) -> Seq<char> {
    let pad: nat = if digit_count(code) < 6 {
        (6 - digit_count(code)) as nat
    } else {
        0
    };
    "["@ + repeat("0"@, pad) + decimal(code) + "]"@
}

pub open spec fn header_doc(d: Diagnostic) -> Seq<(Style, Seq<char>)> {
    seq![(level_style(d.level), level_token(d.level))] + match d.code {
        Some(c) => seq![(level_style(d.level), code_text(c as nat))],
        None => Seq::empty(),
    } + seq![(Style::Message, ": "@ + d.message@)] + newline()
}

fn level_parts(level: Level) -> (r: (Style, &'static str))
    ensures
        r.0 == level_style(level),
        r.1@ == level_token(level),
{
    match level {
        Level::Bug => (Style::Bug, "  bug"),
        Level::Error => (Style::Error, "error"),
        Level::Warning => (Style::Warning, " warn"),
        Level::Note => (Style::Note, " note"),
        Level::Help => (Style::Help, " help"),
    }
}

fn code_string(code: usize) -> (r: String)
    ensures
        r@ == code_text(code as nat),
{
    let mut t = String::new();
    t.append("[");
    let digits = count_digits(code);
    let pad: usize = if digits < 6 {
        6 - digits
    } else {
        0
    };
    push_repeat(&mut t, "0", pad);
    push_decimal(&mut t, code);
    t.append("]");
    assert(t@ =~= code_text(code as nat));
    t
}

fn emit_header(out: &mut Vec<Span>, d: &Diagnostic)
    ensures
        span_views(final(out)@) == span_views(old(out)@) + header_doc(*d),
{
    let (style, token) = level_parts(d.level);
    push_span(out, style, token.to_owned());
    match d.code {
        Some(c) => {
            push_span(out, style, code_string(c));
        },
        None => {},
    }
    let mut t = String::new();
    t.append(": ");
    t.append(d.message.as_str());
    push_span(out, Style::Message, t);
    push_newline(out);
    assert(span_views(out@) =~= span_views(old(out)@) + header_doc(*d));
}

// ---------------------------------------------------------------------------
// Notes

pub open spec fn notes_doc(notes: Seq<String>, gutter: nat, k: int) -> Seq<(Style, Seq<char>)>
    decreases k,
{
    if k <= 0 {
        Seq::empty()
    } else {
        notes_doc(notes, gutter, k - 1) + seq![
            (Style::Border, spaces(gutter) + " ="@),
            (Style::Code, " "@ + notes[k - 1]@),
        ] + newline()
    }
}

fn emit_notes(out: &mut Vec<Span>, notes: &Vec<String>, gutter: usize)
    ensures
        span_views(final(out)@) == span_views(old(out)@) + notes_doc(
            notes@,
            gutter as nat,
            notes@.len() as int,
        ),
{
    let mut k: usize = 0;
    while k < notes.len()
        invariant
            k <= notes@.len(),
            span_views(out@) == span_views(old(out)@) + notes_doc(notes@, gutter as nat, k as int),
        decreases notes@.len() - k,
    {
        let mut t = String::new();
        push_repeat(&mut t, " ", gutter);
        t.append(" =");
        push_span(out, Style::Border, t);
        let mut u = String::new();
        u.append(" ");
        u.append(notes[k].as_str());
        push_span(out, Style::Code, u);
        push_newline(out);
        k = k + 1;
        assert(span_views(out@) =~= span_views(old(out)@) + notes_doc(
            notes@,
            gutter as nat,
            k as int,
        ));
    }
}

// ---------------------------------------------------------------------------
// Source lines and their annotations

/// Display width of the text of a line before offset `o`.
pub open spec fn width_before(f: ParsedFile, o: int) -> nat {
    let start = line_start(f.breaks(), location_of(f.breaks(), o).lines as int);
    display_width_of(decode_utf8(f.bytes().subrange(start, o)))
}

/// Display width of the text of a region.
pub open spec fn region_width(f: ParsedFile, r: LabelRegion) -> nat {
    display_width_of(decode_utf8(f.bytes().subrange(r.start as int, r.end as int)))
}

/// Whether position `p` of the lane area of `line` holds the vertical bar of
/// a multi-line region that is open there.
pub open spec fn lane_active(m: Seq<(usize, usize)>, line: int, p: int) -> bool {
    &&& p % 2 == 1
    &&& p / 2 < m.len()
    &&& m[p / 2].0 < line <= m[p / 2].1
}

/// The first `n` characters of the lane area of `line`.
pub open spec fn lane_text(m: Seq<(usize, usize)>, line: int, n: nat) -> Seq<char>
    decreases n,
{
    if n == 0 {
        Seq::empty()
    } else {
        lane_text(m, line, (n - 1) as nat) + if lane_active(m, line, n - 1) {
            "│"@
        } else {
            " "@
        }
    }
}

/// Line number, border, lane area and the text of source line `line`.
pub open spec fn source_line(f: ParsedFile, rs: Seq<LabelRegion>, line: int) -> Seq<
    (Style, Seq<char>),
> {
    let gw = gutter_width(f, rs);
    seq![
        (Style::Border, spaces((gw - digit_count(line as nat)) as nat) + decimal(line as nat)
            + " │"@),
        (Style::Code, lane_text(multi_spans(f, rs), line, lane_width(f, rs)) + decode_utf8(
            f.line_bytes(line),
        )),
    ] + newline()
}

/// Blank gutter, border and the lane area up to the corner of region `j`.
pub open spec fn corner_lead(f: ParsedFile, rs: Seq<LabelRegion>, j: int) -> Seq<char> {
    spaces(gutter_width(f, rs)) + " │"@ + spaces(2 * lane(f, rs, j) + 1)
}

/// Connector from the corner of region `j` to the column of offset `o`.
pub open spec fn connector(f: ParsedFile, rs: Seq<LabelRegion>, j: int, o: int) -> Seq<char> {
    repeat("─"@, (lane_width(f, rs) - 2 * lane(f, rs, j) - 2) as nat) + repeat(
        "─"@,
        width_before(f, o),
    )
}

/// The line that opens multi-line region `j`.
pub open spec fn open_line(f: ParsedFile, rs: Seq<LabelRegion>, j: int) -> Seq<(Style, Seq<char>)> {
    seq![
        (Style::Border, corner_lead(f, rs, j) + "╭"@ + connector(f, rs, j, rs[j].start as int)
            + "'"@),
    ] + newline()
}

/// The line that closes multi-line region `j`, with its message.
pub open spec fn close_line(f: ParsedFile, rs: Seq<LabelRegion>, j: int) -> Seq<
    (Style, Seq<char>),
> {
    seq![
        (Style::Border, corner_lead(f, rs, j) + "╰"@ + connector(f, rs, j, rs[j].end as int)
            + "^ "@ + rs[j].message@),
    ] + newline()
}

/// The glyph that underlines a region of style `style`.
pub open spec fn glyph_of(style: LabelStyle) -> Seq<char> {
    match style {
        LabelStyle::Primary => "^"@,
        LabelStyle::Secondary => "-"@,
        LabelStyle::Tertiary => "~"@,
        LabelStyle::Quaternary => "."@,
    }
}

/// The output style of the underline of a region of style `style`.
pub open spec fn underline_style(style: LabelStyle) -> Style {
    if style == LabelStyle::Primary {
        Style::Primary
    } else {
        Style::Border
    }
}

/// An underline `width` columns wide, then a space and the message.
pub open spec fn underline_text(style: LabelStyle, width: nat, message: Seq<char>) -> Seq<char> {
    repeat(glyph_of(style), width) + " "@ + message
}

/// The underline of inline region `j`: as wide as the region's text in
/// display columns, in the glyph of its style, then its message.
pub open spec fn inline_line(f: ParsedFile, rs: Seq<LabelRegion>, j: int) -> Seq<
    (Style, Seq<char>),
> {
    seq![
        (Style::Border, spaces(gutter_width(f, rs)) + " │"@ + spaces(lane_width(f, rs)) + spaces(
            width_before(f, rs[j].start as int),
        )),
        (underline_style(rs[j].style), underline_text(
            rs[j].style,
            region_width(f, rs[j]),
            rs[j].message@,
        )),
    ] + newline()
}

/// The underline of an inline region is one glyph of its style per display
/// column of the region's text, then a space.
pub proof fn lemma_underline_width(f: ParsedFile, rs: Seq<LabelRegion>, j: int)
    ensures
        ({
            let u = inline_line(f, rs, j)[1].1;
            let w = region_width(f, rs[j]) as int;
            &&& u.len() == w + 1 + rs[j].message@.len()
            &&& forall|i: int| 0 <= i < w ==> #[trigger] u[i] == glyph_of(rs[j].style)[0]
            &&& u[w] == ' '
        }),
{
    reveal_strlit("^");
    reveal_strlit("-");
    reveal_strlit("~");
    reveal_strlit(".");
    reveal_strlit(" ");
    lemma_repeat_single(glyph_of(rs[j].style), region_width(f, rs[j]));
}

fn glyph(style: LabelStyle) -> (r: &'static str)
    ensures
        r@ == glyph_of(style),
{
    match style {
        LabelStyle::Primary => "^",
        LabelStyle::Secondary => "-",
        LabelStyle::Tertiary => "~",
        LabelStyle::Quaternary => ".",
    }
}

/// The underline of a region of style `style` whose text is `width` display
/// columns wide, followed by its message.
pub fn underline(style: LabelStyle, width: usize, message: &str) -> (r: String)
    ensures
        r@ == underline_text(style, width as nat, message@),
{
    let mut u = String::new();
    push_repeat(&mut u, glyph(style), width);
    u.append(" ");
    u.append(message);
    assert(u@ =~= underline_text(style, width as nat, message@));
    u
}

/// The open lines (or close lines) of the regions `idx`, in that order.
pub open spec fn marker_lines(f: ParsedFile, rs: Seq<LabelRegion>, idx: Seq<int>, opening: bool) -> Seq<
    (Style, Seq<char>),
>
    decreases idx.len(),
{
    if idx.len() == 0 {
        Seq::empty()
    } else {
        marker_lines(f, rs, idx.drop_last(), opening) + if opening {
            open_line(f, rs, idx.last())
        } else {
            close_line(f, rs, idx.last())
        }
    }
}

pub open spec fn inline_lines(f: ParsedFile, rs: Seq<LabelRegion>, line: int) -> Seq<
    (Style, Seq<char>),
> {
    match inline_at(f, rs, line, rs.len() as int) {
        Some(j) => inline_line(f, rs, j),
        None => Seq::empty(),
    }
}

/// Everything rendered for line `line`: the source line, the regions that
/// open there, the inline region there, and the regions that close there.
pub open spec fn line_block(f: ParsedFile, rs: Seq<LabelRegion>, line: int) -> Seq<
    (Style, Seq<char>),
> {
    source_line(f, rs, line) + marker_lines(
        f,
        rs,
        open_indices(f, rs, line, rs.len() as int),
        true,
    ) + inline_lines(f, rs, line) + marker_lines(
        f,
        rs,
        close_indices(f, rs, line, rs.len() as int),
        false,
    )
}

/// The blocks of the rendered lines among `1..=n`, in ascending order.
pub open spec fn body_upto(f: ParsedFile, rs: Seq<LabelRegion>, n: int) -> Seq<(Style, Seq<char>)>
    decreases n,
{
    if n <= 0 {
        Seq::empty()
    } else {
        body_upto(f, rs, n - 1) + if touches(f, rs, n) {
            line_block(f, rs, n)
        } else {
            Seq::empty()
        }
    }
}

/// The excerpt of one file: the file line, then the rendered lines.
pub open spec fn snippet_doc(f: ParsedFile, rs: Seq<LabelRegion>) -> Seq<(Style, Seq<char>)> {
    seq![(Style::Border, spaces(gutter_width(f, rs)) + " ┌─ "@ + f.name())] + newline()
        + body_upto(f, rs, max_line(f, rs) as int)
}

/// What every emitting step below needs.
pub open spec fn emit_ready(files: SourceCodes, id: FileId, rs: Seq<LabelRegion>, p: RenderPlan) -> bool {
    &&& files.wf()
    &&& regions_fit(files, id, rs)
    &&& rs.len() < usize::MAX / 8
    &&& p.describes(files.file(id), rs)
    &&& 1 <= p.max_line <= files.file(id).line_count()
}

proof fn lemma_lane_text(m: Seq<(usize, usize)>, line: int, n: nat, p: int)
    ensures
        lane_text(m, line, n).len() == n,
        0 <= p < n ==> lane_text(m, line, n)[p] == if lane_active(m, line, p) {
            '│'
        } else {
            ' '
        },
    decreases n,
{
    reveal_strlit("│");
    reveal_strlit(" ");
    if n > 0 {
        lemma_lane_text(m, line, (n - 1) as nat, p);
    }
}

/// The bar of a multi-line region keeps one column: the corner of its open
/// and close lines stands at the same column as the vertical bar drawn in
/// the lane area of every rendered line after its start line, up to and
/// including its end line.
pub proof fn lemma_lane_column(files: SourceCodes, id: FileId, rs: Seq<LabelRegion>, j: int, line: int)
    requires
        files.wf(),
        regions_fit(files, id, rs),
        0 <= j < rs.len(),
        !is_inline(files.file(id), rs[j]),
        start_loc(files.file(id), rs[j]).lines < line <= end_loc(
            files.file(id),
            rs[j],
        ).lines,
    ensures
        corner_lead(files.file(id), rs, j).len() == gutter_width(
            files.file(id),
            rs,
        ) + 2 + 2 * lane(files.file(id), rs, j) + 1,
        source_line(files.file(id), rs, line)[0].1.len() == gutter_width(
            files.file(id),
            rs,
        ) + 2,
        source_line(files.file(id), rs, line)[1].1[2 * lane(
            files.file(id),
            rs,
            j,
        ) as int + 1] == '│',
{
    let f = files.file(id);
    let gw = gutter_width(f, rs);
    let k = lane(f, rs, j) as int;
    let m = multi_spans(f, rs);
    assert(f.wf());
    assert(files.region_ok(id, rs[j].start as int, rs[j].end as int));
    lemma_region_lines_rendered(f, rs, j);
    lemma_lane_bound(f, rs, j);
    lemma_digit_count_monotone(line as nat, max_line(f, rs));
    lemma_decimal_len(line as nat);
    lemma_spaces_len(gw);
    lemma_spaces_len((2 * k + 1) as nat);
    lemma_spaces_len((gw - digit_count(line as nat)) as nat);
    reveal_strlit(" │");
    lemma_lane_text(m, line, lane_width(f, rs), 2 * k + 1);
    assert(lane_active(m, line, 2 * k + 1));
}

fn lane_string(m: &Vec<(usize, usize)>, line: usize, n: usize) -> (r: String)
    ensures
        r@ == lane_text(m@, line as int, n as nat),
{
    let mut t = String::new();
    let mut p: usize = 0;
    while p < n
        invariant
            p <= n,
            t@ == lane_text(m@, line as int, p as nat),
        decreases n - p,
    {
        let half = p / 2;
        if p % 2 == 1 && half < m.len() && m[half].0 < line && line <= m[half].1 {
            t.append("│");
        } else {
            t.append(" ");
        }
        p = p + 1;
    }
    t
}

fn emit_source_line(out: &mut Vec<Span>, files: &SourceCodes, id: FileId, regs: &Vec<LabelRegion>, p: &RenderPlan, line: usize)
    requires
        emit_ready(*files, id, regs@, *p),
        1 <= line <= p.max_line,
    ensures
        span_views(final(out)@) == span_views(old(out)@) + source_line(
            files.file(id),
            regs@,
            line as int,
        ),
{
    let ghost f = files.file(id);
    let ghost rs = regs@;
    proof {
        lemma_digit_count_monotone(line as nat, p.max_line as nat);
        lemma_decimal_len(line as nat);
    }
    let mut t = String::new();
    push_repeat(&mut t, " ", p.gutter - count_digits(line));
    push_decimal(&mut t, line);
    t.append(" │");
    push_span(out, Style::Border, t);
    let mut u = lane_string(&p.multi, line, p.lane_width);
    u.append(files.as_str(id, line));
    push_span(out, Style::Code, u);
    push_newline(out);
    assert(span_views(out@) =~= span_views(old(out)@) + source_line(f, rs, line as int));
}

fn width_to(files: &SourceCodes, id: FileId, o: usize, loc: Location) -> (r: usize)
    requires
        files.wf(),
        files.region_ok(id, o as int, o as int),
        loc == location_of(files.file(id).breaks(), o as int),
    ensures
        r == width_before(files.file(id), o as int),
{
    proof {
        lemma_location_round_trip(*files, id, o as int);
        lemma_line_start_boundary(files.file(id), loc.lines as int);
    }
    let start = o - (loc.cols - 1);
    display_width(files.slice(id, start, o))
}

fn emit_marker(
    out: &mut Vec<Span>,
    files: &SourceCodes,
    id: FileId, regs: &Vec<LabelRegion>,
    p: &RenderPlan,
    j: usize,
    opening: bool,
)
    requires
        emit_ready(*files, id, regs@, *p),
        j < regs@.len(),
        !is_inline(files.file(id), regs@[j as int]),
    ensures
        span_views(final(out)@) == span_views(old(out)@) + if opening {
            open_line(files.file(id), regs@, j as int)
        } else {
            close_line(files.file(id), regs@, j as int)
        },
{
    let ghost f = files.file(id);
    let ghost rs = regs@;
    proof {
        lemma_lane_bound(f, rs, j as int);
        assert(files.region_ok(id, rs[j as int].start as int, rs[j as int].end as int));
    }
    let r = &regs[j];
    let lane = p.lanes[j];
    let mut t = String::new();
    push_repeat(&mut t, " ", p.gutter);
    t.append(" │");
    push_repeat(&mut t, " ", 2 * lane + 1);
    if opening {
        t.append("╭");
    } else {
        t.append("╰");
    }
    push_repeat(&mut t, "─", p.lane_width - 2 * lane - 2);
    let w = if opening {
        width_to(files, id, r.start, p.starts[j])
    } else {
        width_to(files, id, r.end, p.ends[j])
    };
    push_repeat(&mut t, "─", w);
    let ghost o = if opening {
        rs[j as int].start as int
    } else {
        rs[j as int].end as int
    };
    assert(t@ =~= corner_lead(f, rs, j as int) + (if opening {
        "╭"@
    } else {
        "╰"@
    }) + connector(f, rs, j as int, o));
    if opening {
        t.append("'");
    } else {
        t.append("^ ");
        t.append(r.message.as_str());
    }
    push_span(out, Style::Border, t);
    push_newline(out);
    if opening {
        assert(span_views(out@) =~= span_views(old(out)@) + open_line(f, rs, j as int));
    } else {
        assert(span_views(out@) =~= span_views(old(out)@) + close_line(f, rs, j as int));
    }
}

pub open spec fn marker_indices(
    f: ParsedFile,
    rs: Seq<LabelRegion>,
    line: int,
    k: int,
    opening: bool,
) -> Seq<int> {
    if opening {
        open_indices(f, rs, line, k)
    } else {
        close_indices(f, rs, line, k)
    }
}

fn emit_markers(
    out: &mut Vec<Span>,
    files: &SourceCodes,
    id: FileId, regs: &Vec<LabelRegion>,
    p: &RenderPlan,
    line: usize,
    opening: bool,
)
    requires
        emit_ready(*files, id, regs@, *p),
    ensures
        span_views(final(out)@) == span_views(old(out)@) + marker_lines(
            files.file(id),
            regs@,
            marker_indices(files.file(id), regs@, line as int, regs@.len() as int, opening),
            opening,
        ),
{
    let ghost f = files.file(id);
    let ghost rs = regs@;
    let n = regs.len();
    let mut j: usize = 0;
    while j < n
        invariant
            emit_ready(*files, id, regs@, *p),
            f == files.file(id),
            rs == regs@,
            n == rs.len(),
            j <= n,
            span_views(out@) == span_views(old(out)@) + marker_lines(
                f,
                rs,
                marker_indices(f, rs, line as int, j as int, opening),
                opening,
            ),
        decreases n - j,
    {
        let ghost before = marker_indices(f, rs, line as int, j as int, opening);
        let s = p.starts[j];
        let e = p.ends[j];
        let hit = if opening {
            s.lines == line
        } else {
            e.lines == line
        };
        if s.lines != e.lines && hit {
            emit_marker(out, files, id, regs, p, j, opening);
            assert(marker_indices(f, rs, line as int, j + 1, opening) == before.push(j as int));
            assert(before.push(j as int).drop_last() =~= before);
        }
        j = j + 1;
    }
}

fn emit_inline(out: &mut Vec<Span>, files: &SourceCodes, id: FileId, regs: &Vec<LabelRegion>, p: &RenderPlan, line: usize)
    requires
        emit_ready(*files, id, regs@, *p),
    ensures
        span_views(final(out)@) == span_views(old(out)@) + inline_lines(
            files.file(id),
            regs@,
            line as int,
        ),
{
    let ghost f = files.file(id);
    let ghost rs = regs@;
    let n = regs.len();
    let mut found: Option<usize> = None;
    let mut j: usize = 0;
    while j < n
        invariant
            emit_ready(*files, id, regs@, *p),
            f == files.file(id),
            rs == regs@,
            n == rs.len(),
            j <= n,
            match found {
                Some(k) => inline_at(f, rs, line as int, j as int) == Some(k as int) && k < j,
                None => inline_at(f, rs, line as int, j as int) is None,
            },
        decreases n - j,
    {
        if p.starts[j].lines == p.ends[j].lines && p.starts[j].lines == line {
            found = Some(j);
        }
        j = j + 1;
    }
    match found {
        None => {},
        Some(k) => {
            proof {
                assert(files.region_ok(id, rs[k as int].start as int, rs[k as int].end as int));
            }
            let r = &regs[k];
            let mut t = String::new();
            push_repeat(&mut t, " ", p.gutter);
            t.append(" │");
            push_repeat(&mut t, " ", p.lane_width);
            let w = width_to(files, id, r.start, p.starts[k]);
            push_repeat(&mut t, " ", w);
            push_span(out, Style::Border, t);
            let uw = display_width(files.slice(id, r.start, r.end));
            let u = underline(r.style, uw, r.message.as_str());
            let style = if r.style == LabelStyle::Primary {
                Style::Primary
            } else {
                Style::Border
            };
            push_span(out, style, u);
            push_newline(out);
            assert(span_views(out@) =~= span_views(old(out)@) + inline_line(f, rs, k as int));
        },
    }
}

fn emit_block(out: &mut Vec<Span>, files: &SourceCodes, id: FileId, regs: &Vec<LabelRegion>, p: &RenderPlan, line: usize)
    requires
        emit_ready(*files, id, regs@, *p),
        1 <= line <= p.max_line,
    ensures
        span_views(final(out)@) == span_views(old(out)@) + line_block(
            files.file(id),
            regs@,
            line as int,
        ),
{
    emit_source_line(out, files, id, regs, p, line);
    emit_markers(out, files, id, regs, p, line, true);
    emit_inline(out, files, id, regs, p, line);
    emit_markers(out, files, id, regs, p, line, false);
    assert(span_views(out@) =~= span_views(old(out)@) + line_block(
        files.file(id),
        regs@,
        line as int,
    ));
}

/// The blocks of the lines `ls`, in that order.
pub open spec fn blocks_of(f: ParsedFile, rs: Seq<LabelRegion>, ls: Seq<usize>) -> Seq<
    (Style, Seq<char>),
>
    decreases ls.len(),
{
    if ls.len() == 0 {
        Seq::empty()
    } else {
        blocks_of(f, rs, ls.drop_last()) + line_block(f, rs, ls.last() as int)
    }
}

/// The blocks of the ascending touched lines up to `n` are the blocks of
/// the touched lines among `1..=n`.
proof fn lemma_blocks_of_touched(f: ParsedFile, rs: Seq<LabelRegion>, ls: Seq<usize>, n: int)
    requires
        0 <= n <= usize::MAX,
        forall|a: int, b: int| 0 <= a < b < ls.len() ==> ls[a] < ls[b],
        forall|i: int| 0 <= i < ls.len() ==> 1 <= #[trigger] ls[i] <= n,
        forall|i: int| 0 <= i < ls.len() ==> touches(f, rs, #[trigger] ls[i] as int),
        forall|y: usize| 1 <= y <= n && touches(f, rs, y as int) ==> ls.contains(y),
    ensures
        blocks_of(f, rs, ls) == body_upto(f, rs, n),
    decreases n,
{
    if n == 0 {
        if ls.len() > 0 {
            assert(1 <= ls[0] <= n);
        }
    } else {
        let pre = ls.drop_last();
        if touches(f, rs, n) {
            assert(ls.contains(n as usize));
            let k = choose|k: int| 0 <= k < ls.len() && ls[k] == n as usize;
            assert(ls.last() == n) by {
                if k < ls.len() - 1 {
                    assert(ls[k] < ls[ls.len() - 1]);
                }
            }
            assert forall|i: int| 0 <= i < pre.len() implies 1 <= #[trigger] pre[i] <= n - 1 by {
                assert(ls[i] < ls[ls.len() - 1]);
            }
            assert forall|y: usize| 1 <= y <= n - 1 && touches(f, rs, y as int) implies pre.contains(
                y,
            ) by {
                assert(ls.contains(y));
                let m = choose|m: int| 0 <= m < ls.len() && ls[m] == y;
                assert(pre[m] == y);
            }
            assert forall|i: int| 0 <= i < pre.len() implies touches(f, rs, #[trigger] pre[i] as int) by {
                assert(pre[i] == ls[i]);
            }
            lemma_blocks_of_touched(f, rs, pre, n - 1);
        } else {
            assert forall|i: int| 0 <= i < ls.len() implies 1 <= #[trigger] ls[i] <= n - 1 by {
                assert(touches(f, rs, ls[i] as int));
            }
            lemma_blocks_of_touched(f, rs, ls, n - 1);
        }
    }
}

/// Emits the excerpt of file `id` over the regions `regs` and returns its
/// gutter width.
fn emit_snippet(out: &mut Vec<Span>, files: &SourceCodes, id: FileId, regs: &Vec<LabelRegion>) -> (r: usize)
    requires
        files.wf(),
        regs@.len() > 0,
        regions_fit(*files, id, regs@),
        regs@.len() < usize::MAX / 8,
    ensures
        span_views(final(out)@) == span_views(old(out)@) + snippet_doc(
            files.file(id),
            regs@,
        ),
        r == gutter_width(files.file(id), regs@),
{
    let ghost f = files.file(id);
    let ghost rs = regs@;
    let p = plan(files, id, regs);
    let mut t = String::new();
    push_repeat(&mut t, " ", p.gutter);
    t.append(" ┌─ ");
    t.append(files.to_file_name(id));
    push_span(out, Style::Border, t);
    push_newline(out);
    let ghost head = span_views(out@);
    let mut k: usize = 0;
    while k < p.lines.len()
        invariant
            emit_ready(*files, id, regs@, p),
            f == files.file(id),
            rs == regs@,
            k <= p.lines@.len(),
            span_views(out@) == head + blocks_of(f, rs, p.lines@.take(k as int)),
        decreases p.lines@.len() - k,
    {
        let line = p.lines[k];
        assert(1 <= p.lines@[k as int] <= p.max_line);
        emit_block(out, files, id, regs, &p, line);
        assert(p.lines@.take(k + 1).drop_last() =~= p.lines@.take(k as int));
        k = k + 1;
        assert(span_views(out@) =~= head + blocks_of(f, rs, p.lines@.take(k as int)));
    }
    proof {
        let ls = p.lines@;
        assert(ls.take(ls.len() as int) =~= ls);
        lemma_gutter_fits_widest_line(*files, id, rs);
        assert forall|i: int| 0 <= i < ls.len() implies touches(f, rs, #[trigger] ls[i] as int) by {
            assert(ls.contains(ls[i]));
        }
        lemma_blocks_of_touched(f, rs, ls, p.max_line as int);
    }
    assert(span_views(out@) =~= span_views(old(out)@) + snippet_doc(f, rs));
    p.gutter
}

// ---------------------------------------------------------------------------
// Whole diagnostics

/// The regions of the labels in `labels` that point into file `id`, label
/// by label, each label's regions in order.
pub open spec fn file_regions(labels: Seq<Label>, id: FileId) -> Seq<LabelRegion>
    decreases labels.len(),
{
    if labels.len() == 0 {
        Seq::empty()
    } else {
        file_regions(labels.drop_last(), id) + if labels.last().id == id {
            regions(labels.last())
        } else {
            Seq::empty()
        }
    }
}

/// The files that `labels` point into, in the order of their first label.
pub open spec fn file_order(labels: Seq<Label>) -> Seq<FileId>
    decreases labels.len(),
{
    if labels.len() == 0 {
        Seq::empty()
    } else {
        let before = file_order(labels.drop_last());
        if before.contains(labels.last().id) {
            before
        } else {
            before.push(labels.last().id)
        }
    }
}

/// The number of regions of all of `labels`.
pub open spec fn region_total(labels: Seq<Label>) -> nat
    decreases labels.len(),
{
    if labels.len() == 0 {
        0
    } else {
        region_total(labels.drop_last()) + regions(labels.last()).len()
    }
}

/// Every label of `d` fits its file, and the regions can be counted.
pub open spec fn diagnostic_fits(files: SourceCodes, d: Diagnostic) -> bool {
    &&& forall|i: int| 0 <= i < d.labels@.len() ==> label_fits(files, #[trigger] d.labels@[i])
    &&& region_total(d.labels@) < usize::MAX / 8
}

/// The excerpts of the files `ids[..k]`, each over all its regions.
pub open spec fn excerpts_doc(
    files: SourceCodes,
    labels: Seq<Label>,
    ids: Seq<FileId>,
    k: int,
) -> Seq<(Style, Seq<char>)>
    decreases k,
{
    if k <= 0 {
        Seq::empty()
    } else {
        excerpts_doc(files, labels, ids, k - 1) + snippet_doc(
            files.file(ids[k - 1]),
            file_regions(labels, ids[k - 1]),
        )
    }
}

/// The gutter of the notes: that of the last excerpt, or 0 without labels.
pub open spec fn notes_gutter(files: SourceCodes, labels: Seq<Label>) -> nat {
    let ids = file_order(labels);
    if ids.len() == 0 {
        0
    } else {
        gutter_width(files.file(ids.last()), file_regions(labels, ids.last()))
    }
}

/// A diagnostic rendered: the header line, one excerpt per file in the
/// order of the files' first labels, then each note once.
pub open spec fn render_doc(files: SourceCodes, d: Diagnostic) -> Seq<(Style, Seq<char>)> {
    header_doc(d) + excerpts_doc(
        files,
        d.labels@,
        file_order(d.labels@),
        file_order(d.labels@).len() as int,
    ) + notes_doc(d.notes@, notes_gutter(files, d.labels@), d.notes@.len() as int)
}

proof fn lemma_region_total_prefix(labels: Seq<Label>, k: int)
    requires
        0 <= k <= labels.len(),
    ensures
        region_total(labels.take(k)) <= region_total(labels),
        k < labels.len() ==> region_total(labels.take(k)) + regions(labels[k]).len()
            <= region_total(labels),
    decreases labels.len(),
{
    if k < labels.len() {
        let pre = labels.drop_last();
        if k == labels.len() - 1 {
            assert(labels.take(k) =~= pre);
        } else {
            lemma_region_total_prefix(pre, k);
            assert(pre.take(k) =~= labels.take(k));
            assert(pre[k] == labels[k]);
        }
    } else {
        assert(labels.take(k) =~= labels);
    }
}

proof fn lemma_file_regions(files: SourceCodes, labels: Seq<Label>, id: FileId)
    requires
        forall|i: int| 0 <= i < labels.len() ==> label_fits(files, #[trigger] labels[i]),
    ensures
        forall|j: int|
            0 <= j < file_regions(labels, id).len() ==> #[trigger] files.region_ok(
                id,
                file_regions(labels, id)[j].start as int,
                file_regions(labels, id)[j].end as int,
            ),
        file_regions(labels, id).len() <= region_total(labels),
        file_order(labels).contains(id) ==> file_regions(labels, id).len() > 0,
    decreases labels.len(),
{
    if labels.len() > 0 {
        let pre = labels.drop_last();
        let last = labels.last();
        assert forall|i: int| 0 <= i < pre.len() implies label_fits(files, #[trigger] pre[i]) by {
            assert(pre[i] == labels[i]);
        }
        lemma_file_regions(files, pre, id);
        assert(label_fits(files, labels[labels.len() - 1]));
        let fr = file_regions(labels, id);
        let fp = file_regions(pre, id);
        assert forall|j: int| 0 <= j < fr.len() implies #[trigger] files.region_ok(
            id,
            fr[j].start as int,
            fr[j].end as int,
        ) by {
            if j < fp.len() {
                assert(fr[j] == fp[j]);
            } else {
                assert(fr[j] == regions(last)[j - fp.len()]);
            }
        }
        if file_order(labels).contains(id) && !file_order(pre).contains(id) {
            assert(last.id == id) by {
                let o = file_order(pre);
                let k = choose|k: int| 0 <= k < o.push(last.id).len() && o.push(last.id)[k] == id;
                if k < o.len() {
                    assert(o[k] == id);
                }
            }
        }
    }
}

/// The excerpt of a file is planned over the regions of every label of the
/// diagnostic that points into it: its gutter is as wide as the decimal
/// digits of the largest line rendered for any of those labels.
pub proof fn lemma_gutter_over_all_labels(files: SourceCodes, d: Diagnostic, id: FileId)
    requires
        files.wf(),
        diagnostic_fits(files, d),
        file_order(d.labels@).contains(id),
    ensures
        ({
            let f = files.file(id);
            let rs = file_regions(d.labels@, id);
            &&& touches(f, rs, max_line(f, rs) as int)
            &&& forall|line: int| #[trigger] touches(f, rs, line) ==> line <= max_line(f, rs)
            &&& gutter_width(f, rs) == digit_count(max_line(f, rs))
        }),
{
    let rs = file_regions(d.labels@, id);
    lemma_file_regions(files, d.labels@, id);
    assert(files.region_ok(id, rs[0].start as int, rs[0].end as int));
    lemma_gutter_fits_widest_line(files, id, rs);
}

fn copy_region(r: &LabelRegion) -> (c: LabelRegion)
    ensures
        c == *r,
{
    LabelRegion { start: r.start, end: r.end, message: r.message.clone(), style: r.style }
}

/// The regions of every label of `labels` that points into file `id`.
fn collect_regions(labels: &Vec<Label>, id: FileId) -> (r: Vec<LabelRegion>)
    requires
        region_total(labels@) < usize::MAX / 8,
    ensures
        r@ == file_regions(labels@, id),
{
    let mut out: Vec<LabelRegion> = Vec::new();
    let mut k: usize = 0;
    while k < labels.len()
        invariant
            region_total(labels@) < usize::MAX / 8,
            k <= labels@.len(),
            out@ == file_regions(labels@.take(k as int), id),
        decreases labels@.len() - k,
    {
        let l = &labels[k];
        proof {
            lemma_region_total_prefix(labels@, k as int);
            assert(labels@.take(k + 1).drop_last() =~= labels@.take(k as int));
            assert(labels@.take(k + 1).last() == labels@[k as int]);
        }
        if l.id == id {
            let ghost base = out@;
            let n = l.secondary.len() + 1;
            let mut j: usize = 0;
            while j < n
                invariant
                    n == regions(*l).len(),
                    j <= n,
                    out@ == base + regions(*l).take(j as int),
                decreases n - j,
            {
                out.push(copy_region(region_at(l, j)));
                j = j + 1;
                assert(out@ =~= base + regions(*l).take(j as int));
            }
            assert(regions(*l).take(n as int) =~= regions(*l));
        }
        k = k + 1;
    }
    assert(labels@.take(labels@.len() as int) =~= labels@);
    out
}

/// The files that `labels` point into, in the order of their first label.
fn file_ids(labels: &Vec<Label>) -> (r: Vec<FileId>)
    ensures
        r@ == file_order(labels@),
{
    let mut ids: Vec<FileId> = Vec::new();
    let mut k: usize = 0;
    while k < labels.len()
        invariant
            k <= labels@.len(),
            ids@ == file_order(labels@.take(k as int)),
        decreases labels@.len() - k,
    {
        proof {
            assert(labels@.take(k + 1).drop_last() =~= labels@.take(k as int));
            assert(labels@.take(k + 1).last() == labels@[k as int]);
        }
        let id = labels[k].id;
        let mut seen = false;
        let mut i: usize = 0;
        while i < ids.len()
            invariant
                i <= ids@.len(),
                seen == exists|m: int| 0 <= m < i && ids@[m] == id,
            decreases ids@.len() - i,
        {
            if ids[i] == id {
                seen = true;
            }
            i = i + 1;
        }
        if !seen {
            ids.push(id);
        }
        k = k + 1;
    }
    assert(labels@.take(labels@.len() as int) =~= labels@);
    ids
}

/// Renders `d` against the sources in `files`.
pub fn render_diagnostic(files: &SourceCodes, d: &Diagnostic) -> (r: Vec<Span>)
    requires
        files.wf(),
        diagnostic_fits(*files, *d),
    ensures
        span_views(r@) == render_doc(*files, *d),
{
    let mut out: Vec<Span> = Vec::new();
    emit_header(&mut out, d);
    let ids = file_ids(&d.labels);
    let ghost head = span_views(out@);
    let ghost labels = d.labels@;
    let mut gutter: usize = 0;
    let mut k: usize = 0;
    while k < ids.len()
        invariant
            files.wf(),
            diagnostic_fits(*files, *d),
            labels == d.labels@,
            ids@ == file_order(labels),
            k <= ids@.len(),
            span_views(out@) == head + excerpts_doc(*files, labels, ids@, k as int),
            gutter == if k == 0 {
                0
            } else {
                gutter_width(files.file(ids@[k - 1]), file_regions(labels, ids@[k - 1]))
            },
        decreases ids@.len() - k,
    {
        let id = ids[k];
        let regs = collect_regions(&d.labels, id);
        proof {
            lemma_file_regions(*files, labels, id);
            assert(ids@.contains(id)) by {
                assert(ids@[k as int] == id);
            }
            assert(regions_fit(*files, id, regs@)) by {
                assert(files.region_ok(id, regs@[0].start as int, regs@[0].end as int));
            }
        }
        gutter = emit_snippet(&mut out, files, id, &regs);
        k = k + 1;
        assert(span_views(out@) =~= head + excerpts_doc(*files, labels, ids@, k as int));
    }
    emit_notes(&mut out, &d.notes, gutter);
    assert(span_views(out@) =~= render_doc(*files, *d));
    out
}

/// Whether every region of label `l` lies in its file on character boundaries.
fn label_fits_exec(files: &SourceCodes, l: &Label) -> (r: bool)
    requires
        files.wf(),
        l.secondary@.len() < usize::MAX / 8,
    ensures
        r == label_fits(*files, *l),
{
    let ghost rs = regions(*l);
    let n = l.secondary.len() + 1;
    let mut j: usize = 0;
    while j < n
        invariant
            files.wf(),
            rs == regions(*l),
            n == rs.len(),
            j <= n,
            forall|i: int|
                0 <= i < j ==> #[trigger] files.region_ok(
                    l.id,
                    rs[i].start as int,
                    rs[i].end as int,
                ),
        decreases n - j,
    {
        let r = region_at(l, j);
        if !files.admits(l.id, r.start, r.end) {
            return false;
        }
        j = j + 1;
    }
    assert(files.region_ok(l.id, rs[0].start as int, rs[0].end as int));
    true
}

/// Whether `d` can be rendered against `files`: every label names a
/// registered file and every region lies in it on character boundaries.
pub fn fits(files: &SourceCodes, d: &Diagnostic) -> (r: bool)
    requires
        files.wf(),
    ensures
        r == diagnostic_fits(*files, *d),
{
    let ghost labels = d.labels@;
    let bound: usize = usize::MAX / 8;
    let mut total: usize = 0;
    let mut k: usize = 0;
    while k < d.labels.len()
        invariant
            files.wf(),
            labels == d.labels@,
            bound == usize::MAX / 8,
            k <= labels.len(),
            total == region_total(labels.take(k as int)),
            total < bound,
            forall|i: int| 0 <= i < k ==> label_fits(*files, #[trigger] labels[i]),
        decreases labels.len() - k,
    {
        let l = &d.labels[k];
        proof {
            lemma_region_total_prefix(labels, k as int);
            assert(labels.take(k + 1).drop_last() =~= labels.take(k as int));
            assert(labels.take(k + 1).last() == labels[k as int]);
        }
        if l.secondary.len() >= bound - total - 1 {
            return false;
        }
        total = total + l.secondary.len() + 1;
        if !label_fits_exec(files, l) {
            return false;
        }
        k = k + 1;
    }
    assert(labels.take(labels.len() as int) =~= labels);
    true
}


/// Turns diagnostics into styled output.
pub trait Renderer {
    /// The error returned when a diagnostic cannot be rendered.
    type Error;

    /// Renders a diagnostic against the sources in `files`.
    fn render(&self, files: &SourceCodes, diagnostic: &Diagnostic) -> Result<
        Vec<Span>,
        Self::Error,
    >
        requires
            files.wf(),
    ;
}

/// A diagnostic whose labels do not fit the sources it is rendered against.
#[derive(Debug, PartialEq, Eq, Structural, Clone, Copy)]
pub struct InvalidDiagnostic;

/// The renderer of terminal output: rustc-style excerpts with a line-number
/// gutter, underlines and brackets for multi-line regions.
#[derive(Debug, Clone, Copy)]
pub struct TerminalRenderer;

impl Renderer for TerminalRenderer {
    type Error = InvalidDiagnostic;

    fn render(&self, files: &SourceCodes, diagnostic: &Diagnostic) -> (r: Result<
        Vec<Span>,
        InvalidDiagnostic,
    >)
        ensures
            r is Err <==> !diagnostic_fits(*files, *diagnostic),
            r matches Ok(spans) ==> span_views(spans@) == render_doc(*files, *diagnostic),
    {
        if fits(files, diagnostic) {
            Ok(render_diagnostic(files, diagnostic))
        } else {
            Err(InvalidDiagnostic)
        }
    }
}

} // verus!
