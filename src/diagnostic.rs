use std::ops::Range;
use vstd::prelude::*;
use vstd::string::StringSliceAdditionalSpecFns;
use vstd::utf8::encode_utf8_decode_utf8;

verus! {

/// A reference to a registered source file.
#[derive(Debug, PartialEq, Eq, Structural, Hash, Clone, Copy)]
pub struct FileId(pub usize);

impl From<usize> for FileId {
    fn from(value: usize) -> (r: Self)
        ensures
            r.0 == value,
    {
        FileId(value)
    }
}

impl vstd::std_specs::convert::FromSpecImpl<usize> for FileId {
    open spec fn obeys_from_spec() -> bool {
        true
    }

    open spec fn from_spec(v: usize) -> Self {
        FileId(v)
    }
}

/// Severity of a diagnostic; earlier variants are more severe.
#[derive(Debug, PartialEq, Eq, Structural, Clone, Copy)]
pub enum Level {
    /// An unexpected bug.
    Bug,
    /// An error.
    Error,
    /// A warning.
    Warning,
    /// A note.
    Note,
    /// A help message.
    Help,
}

impl Level {
    /// The position of the level in the order of severity, most severe first.
    pub open spec fn spec_rank(self) -> u8 {
        match self {
            Level::Bug => 0,
            Level::Error => 1,
            Level::Warning => 2,
            Level::Note => 3,
            Level::Help => 4,
        }
    }

    #[verifier::when_used_as_spec(spec_rank)]
    pub fn rank(self) -> (r: u8)
        ensures
            r == self.spec_rank(),
    {
        match self {
            Level::Bug => 0,
            Level::Error => 1,
            Level::Warning => 2,
            Level::Note => 3,
            Level::Help => 4,
        }
    }
}

/// The phase of a pipeline that a diagnostic comes from, with a free tag.
#[derive(Debug, PartialEq, Eq, Hash, Clone, Copy)]
pub enum Stage {
    /// Parsing of some input.
    Parsing(&'static str),
    /// Semantic analysis.
    Semantic(&'static str),
    /// Code generation.
    Codegen(&'static str),
    /// Any other phase.
    Custom(&'static str),
}

impl View for Stage {
    type V = (u8, Seq<char>);

    /// The phase as a number and the tag as characters.
    open spec fn view(&self) -> (u8, Seq<char>) {
        match *self {
            Stage::Parsing(t) => (0, t@),
            Stage::Semantic(t) => (1, t@),
            Stage::Codegen(t) => (2, t@),
            Stage::Custom(t) => (3, t@),
        }
    }
}

impl Stage {
    fn parts(&self) -> (r: (u8, &'static str))
        ensures
            r.0 == self@.0,
            r.1@ == self@.1,
    {
        match *self {
            Stage::Parsing(t) => (0, t),
            Stage::Semantic(t) => (1, t),
            Stage::Codegen(t) => (2, t),
            Stage::Custom(t) => (3, t),
        }
    }

    /// Whether both stages are the same phase with the same tag.
    pub fn same(&self, other: &Stage) -> (r: bool)
        ensures
            r == (self@ == other@),
    {
        let (a, x) = self.parts();
        let (b, y) = other.parts();
        a == b && str_equal(x, y)
    }
}

/// Whether two strings hold the same characters.
fn str_equal(x: &str, y: &str) -> (r: bool)
    ensures
        r == (x@ == y@),
{
    let bx = x.as_bytes();
    let by = y.as_bytes();
    proof {
        encode_utf8_decode_utf8(x@);
        encode_utf8_decode_utf8(y@);
    }
    if bx.len() != by.len() {
        return false;
    }
    let mut i: usize = 0;
    while i < bx.len()
        invariant
            bx@ == x.spec_bytes(),
            by@ == y.spec_bytes(),
            bx@.len() == by@.len(),
            i <= bx@.len(),
            forall|k: int| 0 <= k < i ==> bx@[k] == by@[k],
        decreases bx@.len() - i,
    {
        if bx[i] != by[i] {
            return false;
        }
        i = i + 1;
    }
    assert(bx@ =~= by@);
    true
}

/// How prominently a region is marked.
#[derive(Debug, PartialEq, Eq, Structural, Clone, Copy)]
pub enum LabelStyle {
    /// The main cause.
    Primary,
    /// A related place.
    Secondary,
    /// A place of lesser note.
    Tertiary,
    /// A place of least note.
    Quaternary,
}

/// A byte range of a source and the text that describes it.
#[derive(Debug, Clone)]
pub struct LabelRegion {
    /// Offset of the first byte of the region.
    pub start: usize,
    /// Offset one past the last byte of the region.
    pub end: usize,
    /// What the region is about.
    pub message: String,
    /// How the region is marked.
    pub style: LabelStyle,
}

/// Underlined regions of one source file: a first region, usually the
/// primary one, and further regions of the same file, each with its style.
#[derive(Debug, Clone)]
pub struct Label {
    /// The file the label points into.
    pub id: FileId,
    /// The first region.
    pub primary: LabelRegion,
    /// Further regions, in the order they were added.
    pub secondary: Vec<LabelRegion>,
}

impl Label {
    /// A label with a primary region and no secondary regions.
    pub fn new(id: usize, range: Range<usize>, message: &str) -> (r: Self)
        ensures
            r.id == FileId(id),
            r.primary.start == range.start,
            r.primary.end == range.end,
            r.primary.message@ == message@,
            r.primary.style == LabelStyle::Primary,
            r.secondary@.len() == 0,
    {
        Label::styled(id, LabelStyle::Primary, range, message)
    }

    /// A label whose only region has style `style`.
    pub fn styled(id: usize, style: LabelStyle, range: Range<usize>, message: &str) -> (r: Self)
        ensures
            r.id == FileId(id),
            r.primary.start == range.start,
            r.primary.end == range.end,
            r.primary.message@ == message@,
            r.primary.style == style,
            r.secondary@.len() == 0,
    {
        Label {
            id: FileId(id),
            primary: LabelRegion {
                start: range.start,
                end: range.end,
                message: message.to_owned(),
                style,
            },
            secondary: Vec::new(),
        }
    }

    /// A label that has only its primary region; the same as [`Label::new`].
    pub fn primary(id: usize, range: Range<usize>, message: &str) -> (r: Self)
        ensures
            r.id == FileId(id),
            r.primary.start == range.start,
            r.primary.end == range.end,
            r.primary.message@ == message@,
            r.primary.style == LabelStyle::Primary,
            r.secondary@.len() == 0,
    {
        Label::new(id, range, message)
    }

    /// Appends a secondary region.
    pub fn with_secondary(self, range: Range<usize>, message: &str) -> (r: Self)
        ensures
            r.id == self.id,
            r.primary == self.primary,
            r.secondary@.len() == self.secondary@.len() + 1,
            r.secondary@.drop_last() == self.secondary@,
            r.secondary@.last().start == range.start,
            r.secondary@.last().end == range.end,
            r.secondary@.last().message@ == message@,
            r.secondary@.last().style == LabelStyle::Secondary,
    {
        self.with_region(LabelStyle::Secondary, range, message)
    }

    /// Appends a region of style `style`.
    pub fn with_region(self, style: LabelStyle, range: Range<usize>, message: &str) -> (r: Self)
        ensures
            r.id == self.id,
            r.primary == self.primary,
            r.secondary@.len() == self.secondary@.len() + 1,
            r.secondary@.drop_last() == self.secondary@,
            r.secondary@.last().start == range.start,
            r.secondary@.last().end == range.end,
            r.secondary@.last().message@ == message@,
            r.secondary@.last().style == style,
    {
        let mut label = self;
        label.secondary.push(
            LabelRegion { start: range.start, end: range.end, message: message.to_owned(), style },
        );
        proof {
            assert(label.secondary@.drop_last() =~= self.secondary@);
        }
        label
    }
}

/// A diagnostic report: severity, optional code, message, notes and labels.
#[derive(Debug, Clone)]
pub struct Diagnostic {
    /// Severity of the report.
    pub level: Level,
    /// An optional code that identifies the kind of report.
    pub code: Option<usize>,
    /// The main message.
    pub message: String,
    /// Notes shown after the excerpts, in the order they were added.
    pub notes: Vec<String>,
    /// Labels, in the order they were added.
    pub labels: Vec<Label>,
}

impl Diagnostic {
    /// A diagnostic of severity [`Level::Error`] with no code, notes or labels.
    pub fn new(message: &str) -> (r: Self)
        ensures
            r.level == Level::Error,
            r.code is None,
            r.message@ == message@,
            r.notes@.len() == 0,
            r.labels@.len() == 0,
    {
        Diagnostic {
            level: Level::Error,
            code: None,
            message: message.to_owned(),
            notes: Vec::new(),
            labels: Vec::new(),
        }
    }

    /// Sets the severity.
    pub fn with_level(self, level: Level) -> (r: Self)
        ensures
            r == (Diagnostic { level, ..self }),
    {
        let mut d = self;
        d.level = level;
        d
    }

    /// A diagnostic of severity [`Level::Bug`].
    pub fn bug(message: &str) -> (r: Self)
        ensures
            r.level == Level::Bug,
            r.code is None,
            r.message@ == message@,
            r.notes@.len() == 0,
            r.labels@.len() == 0,
    {
        Self::new(message).with_level(Level::Bug)
    }

    /// A diagnostic of severity [`Level::Error`].
    pub fn error(message: &str) -> (r: Self)
        ensures
            r.level == Level::Error,
            r.code is None,
            r.message@ == message@,
            r.notes@.len() == 0,
            r.labels@.len() == 0,
    {
        Self::new(message)
    }

    /// A diagnostic of severity [`Level::Warning`].
    pub fn warning(message: &str) -> (r: Self)
        ensures
            r.level == Level::Warning,
            r.code is None,
            r.message@ == message@,
            r.notes@.len() == 0,
            r.labels@.len() == 0,
    {
        Self::new(message).with_level(Level::Warning)
    }

    /// A diagnostic of severity [`Level::Note`].
    pub fn note(message: &str) -> (r: Self)
        ensures
            r.level == Level::Note,
            r.code is None,
            r.message@ == message@,
            r.notes@.len() == 0,
            r.labels@.len() == 0,
    {
        Self::new(message).with_level(Level::Note)
    }

    /// A diagnostic of severity [`Level::Help`].
    pub fn help(message: &str) -> (r: Self)
        ensures
            r.level == Level::Help,
            r.code is None,
            r.message@ == message@,
            r.notes@.len() == 0,
            r.labels@.len() == 0,
    {
        Self::new(message).with_level(Level::Help)
    }

    /// Sets the code.
    pub fn with_code(self, code: usize) -> (r: Self)
        ensures
            r == (Diagnostic { code: Some(code), ..self }),
    {
        let mut d = self;
        d.code = Some(code);
        d
    }

    /// Appends a note.
    pub fn with_note(self, message: &str) -> (r: Self)
        ensures
            r.level == self.level,
            r.code == self.code,
            r.message == self.message,
            r.labels == self.labels,
            r.notes@.len() == self.notes@.len() + 1,
            r.notes@.drop_last() == self.notes@,
            r.notes@.last()@ == message@,
    {
        let mut d = self;
        d.notes.push(message.to_owned());
        proof {
            assert(d.notes@.drop_last() =~= self.notes@);
        }
        d
    }

    /// Appends a label.
    pub fn with_label(self, label: Label) -> (r: Self)
        ensures
            r == (Diagnostic { labels: r.labels, ..self }),
            r.labels@ == self.labels@.push(label),
    {
        let mut d = self;
        d.labels.push(label);
        d
    }
}

} // verus!
