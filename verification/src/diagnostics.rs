//! Messages about the run: what each says, how it is laid out for a person,
//! and its JSON.

use annotate_snippets::{AnnotationKind, Level, Renderer, Snippet};

use vstd::prelude::*;
use vstd::string::*;

use crate::args::{Output, OutputView};
use crate::excerpt::{
    column_of, line_of, span_is_in, Excerpt, ExcerptView, MarkedLine, MarkedLineView,
};
use crate::json::{
    all_one_field, an_object_has_each_of_its_fields, array, array_text, field, field_text,
    lemma_decimal_is_one_field, lemma_quoted_is_one_field, object, object_text, one_field, quote,
    quoted,
};
use crate::judge::{RunUnit, RunUnitView};
use crate::number::{decimal, decimal_of};
use crate::text::{
    a_part_stands_between, has_part, holds, same, starts_with, viewed, views,
};

verus! {

/// How bad a message is.
#[derive(Clone, Copy, PartialEq, Eq, Structural)]
pub enum Severity {
    Warning,
    Error,
}

/// The severity of a lint level, as the compiler spells it.
pub open spec fn severity_of(level: Seq<char>) -> Severity {
    if level == "deny"@ || level == "forbid"@ {
        Severity::Error
    } else {
        Severity::Warning
    }
}

/// The word for a severity.
pub open spec fn severity_word(severity: Severity) -> Seq<char> {
    match severity {
        Severity::Warning => "warning"@,
        Severity::Error => "error"@,
    }
}

impl Severity {
    pub fn of(level: &str) -> (severity: Severity)
        ensures
            severity == severity_of(level@),
    {
        if same(level, "deny") || same(level, "forbid") {
            Severity::Error
        } else {
            Severity::Warning
        }
    }

    pub fn word(self) -> (word: &'static str)
        ensures
            word@ == severity_word(self),
    {
        match self {
            Severity::Warning => "warning",
            Severity::Error => "error",
        }
    }

    /// How a message of this severity is marked.
    pub fn mark(self) -> (mark: Mark)
        ensures
            mark == severity_mark(self),
    {
        match self {
            Severity::Warning => Mark::Warning,
            Severity::Error => Mark::Error,
        }
    }
}

/// One line under a message: a note, or a help, optionally pointing at the
/// source.
pub struct Remark {
    pub help: bool,
    pub text: String,
    pub at: Option<Excerpt>,
}

/// What a [`Remark`] says.
pub struct RemarkView {
    pub help: bool,
    pub text: Seq<char>,
    pub at: Option<ExcerptView>,
}

impl View for Remark {
    type V = RemarkView;

    open spec fn view(&self) -> RemarkView {
        RemarkView {
            help: self.help,
            text: self.text@,
            at: match self.at {
                Some(at) => Some(at@),
                None => None,
            },
        }
    }
}

/// A message of the run.
pub struct Message {
    pub severity: Severity,
    pub text: String,
    /// The lint that the message is of, if it is of one.
    pub code: Option<String>,
    /// Where in the source it points, if it is about one item.
    pub at: Option<Excerpt>,
    pub remarks: Vec<Remark>,
    /// The unit it is attributed to in JSON, by its place in the run.
    pub unit: Option<usize>,
    /// The last message, with no empty line behind it.
    pub closing: bool,
}

/// What a [`Message`] says.
pub struct MessageView {
    pub severity: Severity,
    pub text: Seq<char>,
    pub code: Option<Seq<char>>,
    pub at: Option<ExcerptView>,
    pub remarks: Seq<RemarkView>,
    pub unit: Option<int>,
    pub closing: bool,
}

impl View for Message {
    type V = MessageView;

    open spec fn view(&self) -> MessageView {
        MessageView {
            severity: self.severity,
            text: self.text@,
            code: match self.code {
                Some(code) => Some(code@),
                None => None,
            },
            at: match self.at {
                Some(at) => Some(at@),
                None => None,
            },
            remarks: viewed(self.remarks@),
            unit: match self.unit {
                Some(unit) => Some(unit as int),
                None => None,
            },
            closing: self.closing,
        }
    }
}

impl MessageView {
    /// Whether every excerpt of the message lies in its source.
    pub open spec fn fits(self) -> bool {
        &&& self.at matches Some(at) ==> at.fits()
        &&& forall|i: int|
            0 <= i < self.remarks.len() ==> ((#[trigger] self.remarks[i]).at matches Some(at)
                ==> at.fits())
    }
}

impl Message {
    /// Whether every excerpt of the message lies in its source. One does not
    /// when the file changed since the compilation that recorded the item.
    pub fn lies_in_source(&self) -> (r: bool)
        ensures
            r == self@.fits(),
    {
        if let Some(at) = &self.at {
            if !span_is_in(at.source.as_str(), at.lo, at.hi) {
                return false;
            }
        }
        let ghost all = viewed(self.remarks@);
        let mut i: usize = 0;
        while i < self.remarks.len()
            invariant
                all == viewed(self.remarks@),
                i <= self.remarks@.len(),
                forall|j: int|
                    0 <= j < i ==> ((#[trigger] all[j]).at matches Some(at) ==> at.fits()),
            decreases self.remarks@.len() - i,
        {
            assert(all[i as int] == self.remarks@[i as int]@);
            if let Some(at) = &self.remarks[i].at {
                if !span_is_in(at.source.as_str(), at.lo, at.hi) {
                    assert(!all[i as int].at->0.fits());
                    return false;
                }
            }
            i = i + 1;
        }
        true
    }
}

/// The word that stands before a title.
#[derive(Clone, Copy, PartialEq, Eq, Structural)]
pub enum Mark {
    Error,
    Warning,
    Note,
}

pub open spec fn severity_mark(severity: Severity) -> Mark {
    match severity {
        Severity::Warning => Mark::Warning,
        Severity::Error => Mark::Error,
    }
}

/// A line of words in a section: a help, or a note.
pub struct Line {
    pub help: bool,
    pub text: String,
}

/// What a [`Line`] is.
pub struct LineView {
    pub help: bool,
    pub text: Seq<char>,
}

impl View for Line {
    type V = LineView;

    open spec fn view(&self) -> LineView {
        LineView { help: self.help, text: self.text@ }
    }
}

/// A title and what stands under it: the source it points at, and lines of
/// words.
pub struct Section {
    pub mark: Mark,
    pub title: String,
    pub at: Option<Excerpt>,
    pub lines: Vec<Line>,
}

/// What a [`Section`] is.
pub struct SectionView {
    pub mark: Mark,
    pub title: Seq<char>,
    pub at: Option<ExcerptView>,
    pub lines: Seq<LineView>,
}

impl View for Section {
    type V = SectionView;

    open spec fn view(&self) -> SectionView {
        SectionView {
            mark: self.mark,
            title: self.title@,
            at: match self.at {
                Some(at) => Some(at@),
                None => None,
            },
            lines: viewed(self.lines@),
        }
    }
}

/// Whether every excerpt of the sections lies in its source.
pub open spec fn sections_fit(sections: Seq<SectionView>) -> bool {
    forall|i: int|
        0 <= i < sections.len() ==> ((#[trigger] sections[i]).at matches Some(at) ==> at.fits())
}

/// The text that an uncoloured `annotate_snippets` renderer gives for the
/// sections, short or in full.
pub uninterp spec fn rendered_plain(short: bool, sections: Seq<SectionView>) -> Seq<char>;

/// The text that a coloured `annotate_snippets` renderer gives for the
/// sections, short or in full, in the colours it has on Windows or in those it
/// has elsewhere.
pub uninterp spec fn rendered_styled(
    windows: bool,
    short: bool,
    sections: Seq<SectionView>,
) -> Seq<char>;

/// `annotate_snippets::Renderer::render`, with a group for each section: a
/// primary title for an error or a warning and a secondary one for a note, a
/// snippet with one primary annotation for the excerpt, and a message for each
/// line. Without colour, the text is a function of the sections and of whether
/// it is to be short. In colour it is one of two such functions: the renderer
/// is built with one set of default colours on Windows and with another
/// elsewhere, and which of the two it was built with is not stated. The
/// renderer panics on no sections and on an excerpt that is not in its source.
#[verifier::external_body]
pub(crate) fn render(styled: bool, short: bool, sections: &Vec<Section>) -> (text: String)
    requires
        sections@.len() > 0,
        sections_fit(viewed(sections@)),
    ensures
        !styled ==> text@ == rendered_plain(short, viewed(sections@)),
        styled ==> text@ == rendered_styled(true, short, viewed(sections@)) || text@
            == rendered_styled(false, short, viewed(sections@)),
{
    let groups = sections.iter().map(|Section { mark, title, at, lines }| match mark {
        Mark::Error => Level::ERROR.primary_title(title),
        Mark::Warning => Level::WARNING.primary_title(title),
        Mark::Note => Level::NOTE.secondary_title(title)
    }.elements(at.iter().map(|e| Snippet::source(&e.source).path(&e.file)
        .annotation(AnnotationKind::Primary.span(e.lo as usize..e.hi as usize))
    )).elements(lines.iter().map(
        |l| if l.help { Level::HELP } else { Level::NOTE }.message(&l.text)
    )));
    (if styled { Renderer::styled() } else { Renderer::plain() })
        .short_message(short).render(&Vec::from_iter(groups))
}

/// The remarks that point at no source, as lines under the message.
pub open spec fn lines_under(remarks: Seq<RemarkView>) -> Seq<LineView>
    decreases remarks.len(),
{
    if remarks.len() == 0 {
        Seq::empty()
    } else {
        let before = lines_under(remarks.drop_last());
        let last = remarks.last();
        if last.at is None {
            before.push(LineView { help: last.help, text: last.text })
        } else {
            before
        }
    }
}

/// The remarks that point at a source, each as a section of its own.
pub open spec fn own_sections(remarks: Seq<RemarkView>) -> Seq<SectionView>
    decreases remarks.len(),
{
    if remarks.len() == 0 {
        Seq::empty()
    } else {
        let before = own_sections(remarks.drop_last());
        let last = remarks.last();
        if last.at is Some {
            before.push(
                SectionView {
                    mark: Mark::Note,
                    title: last.text,
                    at: last.at,
                    lines: Seq::empty(),
                },
            )
        } else {
            before
        }
    }
}

/// How a message is laid out: its title, the source it points at and the
/// lines under it, and then the remarks that point at a source.
pub open spec fn laid_out(message: MessageView) -> Seq<SectionView> {
    seq![
        SectionView {
            mark: severity_mark(message.severity),
            title: message.text,
            at: message.at,
            lines: lines_under(message.remarks),
        },
    ] + own_sections(message.remarks)
}

/// A message that fits lays out sections that fit.
proof fn lemma_laid_out_fits(message: MessageView)
    requires
        message.fits(),
    ensures
        sections_fit(laid_out(message)),
{
    let sections = laid_out(message);
    lemma_own_sections_fit(message.remarks);
    assert forall|i: int| 0 <= i < sections.len() implies ((#[trigger] sections[i]).at matches Some(
        at,
    ) ==> at.fits()) by {
        if i > 0 {
            assert(sections[i] == own_sections(message.remarks)[i - 1]);
        }
    }
}

proof fn lemma_own_sections_fit(remarks: Seq<RemarkView>)
    requires
        forall|i: int|
            0 <= i < remarks.len() ==> ((#[trigger] remarks[i]).at matches Some(at) ==> at.fits()),
    ensures
        sections_fit(own_sections(remarks)),
    decreases remarks.len(),
{
    if remarks.len() > 0 {
        let front = remarks.drop_last();
        assert forall|i: int| 0 <= i < front.len() implies ((#[trigger] front[i]).at matches Some(
            at,
        ) ==> at.fits()) by {
            assert(front[i] == remarks[i]);
        }
        lemma_own_sections_fit(front);
        assert(remarks[remarks.len() - 1].at matches Some(at) ==> at.fits());
    }
}

/// Lays a message out.
pub fn lay_out(message: &Message) -> (sections: Vec<Section>)
    ensures
        viewed(sections@) == laid_out(message@),
{
    let ghost remarks = message@.remarks;
    let mut lines: Vec<Line> = Vec::new();
    let mut own: Vec<Section> = Vec::new();
    assert(viewed(lines@) =~= lines_under(remarks.take(0)));
    assert(viewed(own@) =~= own_sections(remarks.take(0)));
    let mut i: usize = 0;
    while i < message.remarks.len()
        invariant
            remarks == viewed(message.remarks@),
            i <= message.remarks@.len(),
            viewed(lines@) == lines_under(remarks.take(i as int)),
            viewed(own@) == own_sections(remarks.take(i as int)),
        decreases message.remarks@.len() - i,
    {
        let remark = &message.remarks[i];
        let ghost lines_before = viewed(lines@);
        let ghost own_before = viewed(own@);
        assert(remarks.take(i + 1).drop_last() =~= remarks.take(i as int));
        assert(remarks.take(i + 1).last() == remark@);
        match &remark.at {
            Some(at) => {
                let section = Section {
                    mark: Mark::Note,
                    title: remark.text.clone(),
                    at: Some(at.copy()),
                    lines: Vec::new(),
                };
                assert(section@.lines =~= Seq::<LineView>::empty());
                own.push(section);
                assert(viewed(own@) =~= own_before.push(section@));
            },
            None => {
                let line = Line { help: remark.help, text: remark.text.clone() };
                lines.push(line);
                assert(viewed(lines@) =~= lines_before.push(line@));
            },
        }
        i = i + 1;
    }
    assert(remarks.take(i as int) =~= remarks);
    let at = match &message.at {
        Some(at) => Some(at.copy()),
        None => None,
    };
    let main = Section { mark: message.severity.mark(), title: message.text.clone(), at, lines };
    let mut sections: Vec<Section> = Vec::new();
    sections.push(main);
    let ghost first = viewed(sections@);
    let ghost rest = viewed(own@);
    assert(first =~= seq![main@]);
    sections.append(&mut own);
    assert(viewed(sections@) =~= first + rest);
    sections
}

/// One line of an excerpt, in JSON.
pub open spec fn json_line(line: MarkedLineView) -> Seq<char> {
    object(
        seq![
            field("highlight_end"@, decimal(line.end)),
            field("highlight_start"@, decimal(line.start)),
            field("text"@, quoted(line.text)),
        ],
    )
}

/// An excerpt as a span in the compiler's JSON: lines and columns from one,
/// columns in characters, and the lines it is on.
pub open spec fn json_span(at: ExcerptView) -> Seq<char> {
    object(
        seq![
            field("byte_end"@, decimal(at.hi as nat)),
            field("byte_start"@, decimal(at.lo as nat)),
            field("column_end"@, decimal(column_of(at.source, at.hi))),
            field("column_start"@, decimal(column_of(at.source, at.lo))),
            field("expansion"@, "null"@),
            field("file_name"@, quoted(at.file)),
            field("is_primary"@, "true"@),
            field("label"@, "null"@),
            field("line_end"@, decimal(line_of(at.source, at.hi))),
            field("line_start"@, decimal(line_of(at.source, at.lo))),
            field("suggested_replacement"@, "null"@),
            field("suggestion_applicability"@, "null"@),
            field("text"@, array(at.marked_lines().map_values(|l: MarkedLineView| json_line(l)))),
        ],
    )
}

/// The spans of what points at a source or does not.
pub open spec fn json_spans(at: Option<ExcerptView>) -> Seq<char> {
    array(
        match at {
            Some(at) => seq![json_span(at)],
            None => Seq::empty(),
        },
    )
}

/// A remark, in JSON.
pub open spec fn json_remark(remark: RemarkView) -> Seq<char> {
    object(
        seq![
            field("children"@, "[]"@),
            field("code"@, "null"@),
            field(
                "level"@,
                if remark.help {
                    "\"help\""@
                } else {
                    "\"note\""@
                },
            ),
            field("message"@, quoted(remark.text)),
            field("rendered"@, "null"@),
            field("spans"@, json_spans(remark.at)),
        ],
    )
}

/// The lint of a message, in JSON.
pub open spec fn json_code(code: Option<Seq<char>>) -> Seq<char> {
    match code {
        Some(code) => object(
            seq![field("code"@, quoted(code)), field("explanation"@, "null"@)],
        ),
        None => "null"@,
    }
}

/// A message with its rendered text, in the compiler's JSON.
pub open spec fn json_diagnostic(message: MessageView, rendered: Seq<char>) -> Seq<char> {
    object(
        seq![
            field("$message_type"@, "\"diagnostic\""@),
            field(
                "children"@,
                array(message.remarks.map_values(|r: RemarkView| json_remark(r))),
            ),
            field("code"@, json_code(message.code)),
            field("level"@, "\""@ + severity_word(message.severity) + "\""@),
            field("message"@, quoted(message.text)),
            field("rendered"@, quoted(rendered)),
            field("spans"@, json_spans(message.at)),
        ],
    )
}

/// A message as cargo's `compiler-message`, for the package whose unit it is
/// about.
pub open spec fn compiler_message(
    unit: RunUnitView,
    message: MessageView,
    rendered: Seq<char>,
) -> Seq<char> {
    object(
        seq![
            field("manifest_path"@, quoted(unit.manifest_path)),
            field("message"@, json_diagnostic(message, rendered)),
            field("package_id"@, quoted(unit.package_id)),
            field("reason"@, "\"compiler-message\""@),
            field("target"@, unit.target),
        ],
    )
}

/// Adds a field to those of an object.
fn push_field(fields: &mut Vec<String>, name: &str, value: &str)
    ensures
        views(final(fields)@) == views(old(fields)@).push(field(name@, value@)),
        all_one_field(views(old(fields)@)) && one_field(name@) && one_field(value@)
            ==> all_one_field(views(final(fields)@)),
{
    let ghost before = views(fields@);
    let text = field_text(name, value);
    fields.push(text);
    assert(views(fields@) =~= before.push(text@));
    assert forall|i: int| 0 <= i < views(fields@).len() && i != before.len() implies
        #[trigger] views(fields@)[i] == before[i] by {}
}

/// Adds a number to the fields of an object.
fn push_number(fields: &mut Vec<String>, name: &str, value: u64)
    ensures
        views(final(fields)@) == views(old(fields)@).push(field(name@, decimal(value as nat))),
        all_one_field(views(old(fields)@)) && one_field(name@) ==> all_one_field(
            views(final(fields)@),
        ),
{
    proof {
        lemma_decimal_is_one_field(value as nat);
    }
    let text = decimal_of(value);
    push_field(fields, name, text.as_str());
}

/// Adds a string to the fields of an object.
fn push_quoted(fields: &mut Vec<String>, name: &str, value: &str)
    ensures
        views(final(fields)@) == views(old(fields)@).push(field(name@, quoted(value@))),
        all_one_field(views(old(fields)@)) && one_field(name@) ==> all_one_field(
            views(final(fields)@),
        ),
{
    let text = quote(value);
    proof {
        lemma_quoted_is_one_field(value@);
    }
    push_field(fields, name, text.as_str());
}

fn line_text(line: &MarkedLine) -> (text: String)
    ensures
        text@ == json_line(line@),
        one_field(text@),
{
    proof {
        reveal_strlit("highlight_end");
        reveal_strlit("highlight_start");
        reveal_strlit("text");
    }
    let mut fields: Vec<String> = Vec::new();
    push_number(&mut fields, "highlight_end", line.end);
    push_number(&mut fields, "highlight_start", line.start);
    push_quoted(&mut fields, "text", line.text.as_str());
    let text = object_text(&fields);
    assert(views(fields@) =~= seq![
        field("highlight_end"@, decimal(line@.end)),
        field("highlight_start"@, decimal(line@.start)),
        field("text"@, quoted(line@.text)),
    ]);
    text
}

/// The lines of an excerpt, in JSON.
fn lines_text(at: &Excerpt) -> (text: String)
    requires
        at@.fits(),
    ensures
        text@ == array(at@.marked_lines().map_values(|l: MarkedLineView| json_line(l))),
        one_field(text@),
{
    let lines = at.marked_lines();
    let ghost want = viewed(lines@).map_values(|l: MarkedLineView| json_line(l));
    let mut items: Vec<String> = Vec::new();
    let mut i: usize = 0;
    assert(views(items@) =~= want.take(0));
    while i < lines.len()
        invariant
            i <= lines@.len(),
            want == viewed(lines@).map_values(|l: MarkedLineView| json_line(l)),
            views(items@) == want.take(i as int),
            all_one_field(views(items@)),
        decreases lines@.len() - i,
    {
        let ghost before = views(items@);
        let item = line_text(&lines[i]);
        items.push(item);
        assert(want[i as int] == item@);
        assert(views(items@) =~= before.push(item@));
        assert(want.take(i + 1) =~= want.take(i as int).push(item@));
        i = i + 1;
    }
    assert(want.take(i as int) =~= want);
    array_text(&items)
}

/// The fields of a span up to its file.
spec fn first_fields(at: ExcerptView) -> Seq<Seq<char>> {
    seq![
        field("byte_end"@, decimal(at.hi as nat)),
        field("byte_start"@, decimal(at.lo as nat)),
        field("column_end"@, decimal(column_of(at.source, at.hi))),
        field("column_start"@, decimal(column_of(at.source, at.lo))),
        field("expansion"@, "null"@),
        field("file_name"@, quoted(at.file)),
    ]
}

/// The fields of a span behind its file, with its lines.
spec fn last_fields(at: ExcerptView, lines: Seq<char>) -> Seq<Seq<char>> {
    seq![
        field("is_primary"@, "true"@),
        field("label"@, "null"@),
        field("line_end"@, decimal(line_of(at.source, at.hi))),
        field("line_start"@, decimal(line_of(at.source, at.lo))),
        field("suggested_replacement"@, "null"@),
        field("suggestion_applicability"@, "null"@),
        field("text"@, lines),
    ]
}

fn push_first_fields(fields: &mut Vec<String>, at: &Excerpt)
    requires
        at@.fits(),
        old(fields)@.len() == 0,
    ensures
        views(final(fields)@) == first_fields(at@),
        all_one_field(views(final(fields)@)),
{
    proof {
        reveal_strlit("byte_end");
        reveal_strlit("byte_start");
        reveal_strlit("column_end");
        reveal_strlit("column_start");
        reveal_strlit("expansion");
        reveal_strlit("file_name");
        reveal_strlit("null");
    }
    push_number(fields, "byte_end", at.hi as u64);
    push_number(fields, "byte_start", at.lo as u64);
    push_number(fields, "column_end", at.column(at.hi));
    push_number(fields, "column_start", at.column(at.lo));
    push_field(fields, "expansion", "null");
    push_quoted(fields, "file_name", at.file.as_str());
    assert(views(fields@) =~= first_fields(at@));
}

fn push_last_fields(fields: &mut Vec<String>, at: &Excerpt, lines: &str)
    requires
        at@.fits(),
        one_field(lines@),
    ensures
        views(final(fields)@) == views(old(fields)@) + last_fields(at@, lines@),
        all_one_field(views(old(fields)@)) ==> all_one_field(views(final(fields)@)),
{
    proof {
        reveal_strlit("is_primary");
        reveal_strlit("true");
        reveal_strlit("label");
        reveal_strlit("null");
        reveal_strlit("line_end");
        reveal_strlit("line_start");
        reveal_strlit("suggested_replacement");
        reveal_strlit("suggestion_applicability");
        reveal_strlit("text");
    }
    let ghost before = views(fields@);
    push_field(fields, "is_primary", "true");
    push_field(fields, "label", "null");
    push_number(fields, "line_end", at.line(at.hi));
    push_number(fields, "line_start", at.line(at.lo));
    push_field(fields, "suggested_replacement", "null");
    push_field(fields, "suggestion_applicability", "null");
    push_field(fields, "text", lines);
    assert(views(fields@) =~= before + last_fields(at@, lines@));
}

/// An excerpt as a span in the compiler's JSON.
pub fn span(at: &Excerpt) -> (text: String)
    requires
        at@.fits(),
    ensures
        text@ == json_span(at@),
        one_field(text@),
{
    let lines = lines_text(at);
    let mut fields: Vec<String> = Vec::new();
    push_first_fields(&mut fields, at);
    push_last_fields(&mut fields, at, lines.as_str());
    let text = object_text(&fields);
    proof {
        lemma_span_fields(at@, lines@);
    }
    text
}

proof fn lemma_span_fields(at: ExcerptView, lines: Seq<char>)
    requires
        lines == array(at.marked_lines().map_values(|l: MarkedLineView| json_line(l))),
    ensures
        object(first_fields(at) + last_fields(at, lines)) == json_span(at),
{
    let all = first_fields(at) + last_fields(at, lines);
    assert(all =~= seq![
        field("byte_end"@, decimal(at.hi as nat)),
        field("byte_start"@, decimal(at.lo as nat)),
        field("column_end"@, decimal(column_of(at.source, at.hi))),
        field("column_start"@, decimal(column_of(at.source, at.lo))),
        field("expansion"@, "null"@),
        field("file_name"@, quoted(at.file)),
        field("is_primary"@, "true"@),
        field("label"@, "null"@),
        field("line_end"@, decimal(line_of(at.source, at.hi))),
        field("line_start"@, decimal(line_of(at.source, at.lo))),
        field("suggested_replacement"@, "null"@),
        field("suggestion_applicability"@, "null"@),
        field("text"@, lines),
    ]);
}

/// The spans of what points at a source or does not.
fn spans_text(at: Option<&Excerpt>) -> (text: String)
    requires
        at matches Some(at) ==> at@.fits(),
    ensures
        text@ == json_spans(
            match at {
                Some(at) => Some(at@),
                None => None,
            },
        ),
        one_field(text@),
{
    let mut items: Vec<String> = Vec::new();
    match at {
        Some(at) => {
            let item = span(at);
            items.push(item);
            assert(views(items@) =~= seq![json_span(at@)]);
        },
        None => {
            assert(views(items@) =~= Seq::<Seq<char>>::empty());
        },
    }
    array_text(&items)
}

/// A remark, in JSON.
pub fn child(remark: &Remark) -> (text: String)
    requires
        remark@.at matches Some(at) ==> at.fits(),
    ensures
        text@ == json_remark(remark@),
        one_field(text@),
{
    proof {
        reveal_strlit("children");
        reveal_strlit("[]");
        reveal_strlit("code");
        reveal_strlit("null");
        reveal_strlit("level");
        reveal_strlit("message");
        reveal_strlit("rendered");
        reveal_strlit("spans");
        reveal_strlit("\"help\"");
        reveal_strlit("\"note\"");
    }
    let spans = spans_text(
        match &remark.at {
            Some(at) => Some(at),
            None => None,
        },
    );
    let mut fields: Vec<String> = Vec::new();
    push_field(&mut fields, "children", "[]");
    push_field(&mut fields, "code", "null");
    push_field(
        &mut fields,
        "level",
        if remark.help {
            "\"help\""
        } else {
            "\"note\""
        },
    );
    push_quoted(&mut fields, "message", remark.text.as_str());
    push_field(&mut fields, "rendered", "null");
    push_field(&mut fields, "spans", spans.as_str());
    let text = object_text(&fields);
    assert(views(fields@) =~= seq![
        field("children"@, "[]"@),
        field("code"@, "null"@),
        field(
            "level"@,
            if remark.help {
                "\"help\""@
            } else {
                "\"note\""@
            },
        ),
        field("message"@, quoted(remark@.text)),
        field("rendered"@, "null"@),
        field("spans"@, json_spans(remark@.at)),
    ]);
    text
}

fn code_text(code: Option<&String>) -> (text: String)
    ensures
        text@ == json_code(
            match code {
                Some(code) => Some(code@),
                None => None,
            },
        ),
        one_field(text@),
{
    proof {
        reveal_strlit("code");
        reveal_strlit("explanation");
        reveal_strlit("null");
    }
    match code {
        Some(code) => {
            let mut fields: Vec<String> = Vec::new();
            push_quoted(&mut fields, "code", code.as_str());
            push_field(&mut fields, "explanation", "null");
            let text = object_text(&fields);
            assert(views(fields@) =~= seq![
                field("code"@, quoted(code@)),
                field("explanation"@, "null"@),
            ]);
            text
        },
        None => "null".to_owned(),
    }
}

fn children_text(remarks: &Vec<Remark>) -> (text: String)
    requires
        forall|i: int|
            0 <= i < viewed(remarks@).len() ==> ((#[trigger] viewed(remarks@)[i]).at matches Some(
                at,
            ) ==> at.fits()),
    ensures
        text@ == array(viewed(remarks@).map_values(|r: RemarkView| json_remark(r))),
        one_field(text@),
{
    let ghost all = viewed(remarks@);
    let ghost want = all.map_values(|r: RemarkView| json_remark(r));
    let mut items: Vec<String> = Vec::new();
    let mut i: usize = 0;
    assert(views(items@) =~= want.take(0));
    while i < remarks.len()
        invariant
            i <= remarks@.len(),
            all == viewed(remarks@),
            forall|i: int|
                0 <= i < all.len() ==> ((#[trigger] all[i]).at matches Some(at) ==> at.fits()),
            want == all.map_values(|r: RemarkView| json_remark(r)),
            views(items@) == want.take(i as int),
            all_one_field(views(items@)),
        decreases remarks@.len() - i,
    {
        let ghost before = views(items@);
        assert(all[i as int] == remarks@[i as int]@);
        let item = child(&remarks[i]);
        items.push(item);
        assert(want[i as int] == item@);
        assert(views(items@) =~= before.push(item@));
        assert(want.take(i + 1) =~= want.take(i as int).push(item@));
        i = i + 1;
    }
    assert(want.take(i as int) =~= want);
    array_text(&items)
}

/// A message with its rendered text, in the compiler's JSON.
pub fn diagnostic(message: &Message, rendered: &str) -> (text: String)
    requires
        message@.fits(),
    ensures
        text@ == json_diagnostic(message@, rendered@),
        one_field(text@),
{
    proof {
        reveal_strlit("$message_type");
        reveal_strlit("children");
        reveal_strlit("code");
        reveal_strlit("level");
        reveal_strlit("message");
        reveal_strlit("rendered");
        reveal_strlit("spans");
        reveal_strlit("\"diagnostic\"");
        reveal_strlit("\"");
        reveal_strlit("warning");
        reveal_strlit("error");
    }
    let children = children_text(&message.remarks);
    let code = code_text(
        match &message.code {
            Some(code) => Some(code),
            None => None,
        },
    );
    let spans = spans_text(
        match &message.at {
            Some(at) => Some(at),
            None => None,
        },
    );
    let level = "\"".to_owned().concat(message.severity.word()).concat("\"");
    let mut fields: Vec<String> = Vec::new();
    push_field(&mut fields, "$message_type", "\"diagnostic\"");
    push_field(&mut fields, "children", children.as_str());
    push_field(&mut fields, "code", code.as_str());
    push_field(&mut fields, "level", level.as_str());
    push_quoted(&mut fields, "message", message.text.as_str());
    push_quoted(&mut fields, "rendered", rendered);
    push_field(&mut fields, "spans", spans.as_str());
    let text = object_text(&fields);
    assert(views(fields@) =~= seq![
        field("$message_type"@, "\"diagnostic\""@),
        field("children"@, children@),
        field("code"@, json_code(message@.code)),
        field("level"@, "\""@ + severity_word(message@.severity) + "\""@),
        field("message"@, quoted(message@.text)),
        field("rendered"@, quoted(rendered@)),
        field("spans"@, json_spans(message@.at)),
    ]);
    text
}

/// A message as cargo's `compiler-message`, for the package whose unit it is
/// about. It is one line when cargo's own JSON for the target is.
pub fn emit(unit: &RunUnit, message: &Message, rendered: &str) -> (text: String)
    requires
        message@.fits(),
    ensures
        text@ == compiler_message(unit@, message@, rendered@),
        one_field(unit.target@) ==> one_field(text@),
{
    proof {
        reveal_strlit("manifest_path");
        reveal_strlit("message");
        reveal_strlit("package_id");
        reveal_strlit("reason");
        reveal_strlit("target");
        reveal_strlit("\"compiler-message\"");
    }
    let inner = diagnostic(message, rendered);
    let mut fields: Vec<String> = Vec::new();
    push_quoted(&mut fields, "manifest_path", unit.manifest_path.as_str());
    push_field(&mut fields, "message", inner.as_str());
    push_quoted(&mut fields, "package_id", unit.package_id.as_str());
    push_field(&mut fields, "reason", "\"compiler-message\"");
    push_field(&mut fields, "target", unit.target.as_str());
    let text = object_text(&fields);
    assert(views(fields@) =~= seq![
        field("manifest_path"@, quoted(unit@.manifest_path)),
        field("message"@, json_diagnostic(message@, rendered@)),
        field("package_id"@, quoted(unit@.package_id)),
        field("reason"@, "\"compiler-message\""@),
        field("target"@, unit@.target),
    ]);
    text
}

/// What is printed: where to, and the text.
pub struct Printed {
    pub stdout: bool,
    pub text: String,
}

/// What a [`Printed`] is.
pub struct PrintedView {
    pub stdout: bool,
    pub text: Seq<char>,
}

impl View for Printed {
    type V = PrintedView;

    open spec fn view(&self) -> PrintedView {
        PrintedView { stdout: self.stdout, text: self.text@ }
    }
}

/// Whether a message is printed as JSON: when JSON was asked for and there is
/// a unit to attribute it to.
pub open spec fn is_json(message: MessageView, output: OutputView) -> bool {
    output is Json && message.unit is Some
}

/// What a message prints, given its rendered text: a `compiler-message` on
/// stdout, or else the rendered text on stderr, with an empty line behind it
/// unless it is the last.
pub open spec fn printed(
    message: MessageView,
    units: Seq<RunUnitView>,
    output: OutputView,
    rendered: Seq<char>,
) -> PrintedView {
    if is_json(message, output) {
        PrintedView {
            stdout: true,
            text: compiler_message(units[message.unit->0], message, rendered) + "\n"@,
        }
    } else {
        PrintedView {
            stdout: false,
            text: rendered + if message.closing {
                "\n"@
            } else {
                "\n\n"@
            },
        }
    }
}

/// How a message is rendered: whether in colour, and whether short. The
/// `rendered` text in JSON is plain unless the format asked for colour.
pub open spec fn rendering(message: MessageView, output: OutputView, styled: bool) -> (bool, bool) {
    match output {
        OutputView::Json(value) => if message.unit is Some {
            (holds(value, "rendered-ansi"@), holds(value, "diagnostic-short"@))
        } else {
            (styled, false)
        },
        OutputView::Human => (styled, false),
        OutputView::Short => (styled, true),
    }
}

/// How a message is rendered: whether in colour, and whether short.
pub fn how_rendered(message: &Message, output: &Output, styled: bool) -> (how: (bool, bool))
    ensures
        how == rendering(message@, output@, styled),
{
    match output {
        Output::Json(value) => if message.unit.is_some() {
            (
                has_part(value.as_str(), "rendered-ansi"),
                has_part(value.as_str(), "diagnostic-short"),
            )
        } else {
            (styled, false)
        },
        Output::Human => (styled, false),
        Output::Short => (styled, true),
    }
}

/// Whether `text` is what the renderer gives for the sections: its plain text,
/// or in colour its text in the one set of colours or the other.
pub open spec fn is_rendered(
    text: Seq<char>,
    styled: bool,
    short: bool,
    sections: Seq<SectionView>,
) -> bool {
    if styled {
        text == rendered_styled(true, short, sections) || text == rendered_styled(
            false,
            short,
            sections,
        )
    } else {
        text == rendered_plain(short, sections)
    }
}

/// What a message prints, given its rendered text.
pub fn print_rendered(
    message: &Message,
    units: &Vec<RunUnit>,
    output: &Output,
    rendered: &str,
) -> (out: Printed)
    requires
        message@.fits(),
        message@.unit matches Some(unit) ==> unit < units@.len(),
    ensures
        out@ == printed(message@, viewed(units@), output@, rendered@),
        out.stdout && one_field(units@[message@.unit->0].target@) ==> one_field(
            out.text@.drop_last(),
        ) && out.text@.last() == '\n',
{
    if let (Output::Json(_), Some(unit)) = (output, message.unit) {
        let text = emit(&units[unit], message, rendered);
        proof {
            assert(viewed(units@)[unit as int] == units@[unit as int]@);
            reveal_strlit("\n");
            assert((text@ + "\n"@).drop_last() =~= text@);
        }
        return Printed { stdout: true, text: text.concat("\n") };
    }
    let end = if message.closing {
        "\n"
    } else {
        "\n\n"
    };
    Printed { stdout: false, text: rendered.to_owned().concat(end) }
}

/// What a message prints: the renderer's text for the message's own sections,
/// in colour or plain and short or in full as the output asks.
pub fn print_message(
    message: &Message,
    units: &Vec<RunUnit>,
    output: &Output,
    styled: bool,
) -> (out: Printed)
    requires
        message@.fits(),
        message@.unit matches Some(unit) ==> unit < units@.len(),
    ensures
        exists|rendered: Seq<char>| #[trigger]
            printed(message@, viewed(units@), output@, rendered) == out@ && is_rendered(
                rendered,
                rendering(message@, output@, styled).0,
                rendering(message@, output@, styled).1,
                laid_out(message@),
            ),
        out.stdout && one_field(units@[message@.unit->0].target@) ==> one_field(
            out.text@.drop_last(),
        ) && out.text@.last() == '\n',
{
    let (styled, short) = how_rendered(message, output, styled);
    let sections = lay_out(message);
    proof {
        lemma_laid_out_fits(message@);
        assert(viewed(sections@).len() > 0);
    }
    let rendered = render(styled, short, &sections);
    print_rendered(message, units, output, rendered.as_str())
}

/// A message is laid out with everything it says: its own text, mark and
/// source first, with the remarks that point at no source under it, and then
/// the remarks that point at one, each a note of its own, both in their order.
pub proof fn a_message_is_laid_out_whole(message: MessageView)
    ensures
        ({
            let sections = laid_out(message);
            let bare = message.remarks.filter(|r: RemarkView| r.at is None);
            let placed = message.remarks.filter(|r: RemarkView| r.at is Some);
            &&& sections.len() == 1 + placed.len()
            &&& sections[0].title == message.text
            &&& sections[0].at == message.at
            &&& sections[0].mark == Mark::Error <==> message.severity == Severity::Error
            &&& sections[0].mark == Mark::Warning <==> message.severity == Severity::Warning
            &&& sections[0].lines.len() == bare.len()
            &&& forall|i: int|
                0 <= i < bare.len() ==> (#[trigger] sections[0].lines[i]).text == bare[i].text
                    && sections[0].lines[i].help == bare[i].help
            &&& forall|i: int|
                0 <= i < placed.len() ==> (#[trigger] sections[i + 1]).title == placed[i].text
                    && sections[i + 1].at == placed[i].at && sections[i + 1].mark == Mark::Note
                    && sections[i + 1].lines.len() == 0
            &&& bare.len() + placed.len() == message.remarks.len()
        }),
{
    lemma_lines_under(message.remarks);
    lemma_own_sections(message.remarks);
    let sections = laid_out(message);
    let placed = message.remarks.filter(|r: RemarkView| r.at is Some);
    assert forall|i: int| 0 <= i < placed.len() implies (#[trigger] sections[i + 1]).title
        == placed[i].text && sections[i + 1].at == placed[i].at && sections[i + 1].mark
        == Mark::Note && sections[i + 1].lines.len() == 0 by {
        assert(sections[i + 1] == own_sections(message.remarks)[i]);
    }
}

proof fn lemma_lines_under(remarks: Seq<RemarkView>)
    ensures
        ({
            let bare = remarks.filter(|r: RemarkView| r.at is None);
            let placed = remarks.filter(|r: RemarkView| r.at is Some);
            &&& lines_under(remarks).len() == bare.len()
            &&& forall|i: int|
                0 <= i < bare.len() ==> (#[trigger] lines_under(remarks)[i]).text == bare[i].text
                    && lines_under(remarks)[i].help == bare[i].help
            &&& bare.len() + placed.len() == remarks.len()
        }),
    decreases remarks.len(),
{
    reveal(Seq::filter);
    if remarks.len() > 0 {
        lemma_lines_under(remarks.drop_last());
    }
}

proof fn lemma_own_sections(remarks: Seq<RemarkView>)
    ensures
        ({
            let placed = remarks.filter(|r: RemarkView| r.at is Some);
            let sections = own_sections(remarks);
            &&& sections.len() == placed.len()
            &&& forall|i: int|
                0 <= i < placed.len() ==> (#[trigger] sections[i]).title == placed[i].text
                    && sections[i].at == placed[i].at && sections[i].mark == Mark::Note
                    && sections[i].lines.len() == 0
        }),
    decreases remarks.len(),
{
    reveal(Seq::filter);
    if remarks.len() > 0 {
        lemma_own_sections(remarks.drop_last());
    }
}

/// The rendered text in JSON does not depend on the terminal; everything else
/// is in colour exactly when the terminal is to be, and short exactly when
/// short output was asked for.
pub proof fn only_what_a_person_reads_is_coloured_for_the_terminal(
    message: MessageView,
    output: OutputView,
)
    ensures
        output is Json && message.unit is Some ==> rendering(message, output, true) == rendering(
            message,
            output,
            false,
        ),
        !(output is Json && message.unit is Some) ==> rendering(message, output, true).0
            && !rendering(message, output, false).0,
        output is Short ==> rendering(message, output, true).1 && rendering(
            message,
            output,
            false,
        ).1,
        output is Human ==> !rendering(message, output, true).1 && !rendering(
            message,
            output,
            false,
        ).1,
{
}

/// What is printed goes to stdout exactly when it is JSON about a unit, and is
/// then one line; else it is the rendered text with the end of its line, and
/// an empty line behind it unless it closes the run.
pub proof fn what_is_printed_holds_the_rendered_text(
    message: MessageView,
    units: Seq<RunUnitView>,
    output: OutputView,
    rendered: Seq<char>,
)
    ensures
        ({
            let out = printed(message, units, output, rendered);
            &&& out.stdout <==> output is Json && message.unit is Some
            &&& !out.stdout ==> starts_with(out.text, rendered) && out.text.len()
                == rendered.len() + if message.closing {
                1int
            } else {
                2int
            } && forall|i: int| rendered.len() <= i < out.text.len() ==> out.text[i] == '\n'
            &&& out.text.len() > 0 && out.text.last() == '\n'
        }),
{
    reveal_strlit("\n");
    reveal_strlit("\n\n");
    let out = printed(message, units, output, rendered);
    if !out.stdout {
        assert(out.text.take(rendered.len() as int) =~= rendered);
    }
}

/// A span in JSON says where the excerpt starts and ends, by byte, by line and
/// by column, and in which file.
pub proof fn a_span_says_where_it_starts_and_ends(at: ExcerptView)
    ensures
        holds(json_span(at), "\"byte_start\":"@ + decimal(at.lo as nat) + ","@),
        holds(json_span(at), "\"byte_end\":"@ + decimal(at.hi as nat) + ","@),
        holds(json_span(at), "\"line_start\":"@ + decimal(line_of(at.source, at.lo)) + ","@),
        holds(json_span(at), "\"line_end\":"@ + decimal(line_of(at.source, at.hi)) + ","@),
        holds(json_span(at), "\"column_start\":"@ + decimal(column_of(at.source, at.lo)) + ","@),
        holds(json_span(at), "\"column_end\":"@ + decimal(column_of(at.source, at.hi)) + ","@),
        holds(json_span(at), "\"file_name\":"@ + quoted(at.file) + ","@),
        holds(json_span(at), "\"is_primary\":true,"@),
{
    let lines = array(at.marked_lines().map_values(|l: MarkedLineView| json_line(l)));
    let fields = seq![
        field("byte_end"@, decimal(at.hi as nat)),
        field("byte_start"@, decimal(at.lo as nat)),
        field("column_end"@, decimal(column_of(at.source, at.hi))),
        field("column_start"@, decimal(column_of(at.source, at.lo))),
        field("expansion"@, "null"@),
        field("file_name"@, quoted(at.file)),
        field("is_primary"@, "true"@),
        field("label"@, "null"@),
        field("line_end"@, decimal(line_of(at.source, at.hi))),
        field("line_start"@, decimal(line_of(at.source, at.lo))),
        field("suggested_replacement"@, "null"@),
        field("suggestion_applicability"@, "null"@),
        field("text"@, lines),
    ];
    assert(json_span(at) == object(fields));
    lemma_span_numbers(fields, at);
    reveal_strlit("is_primary");
    reveal_strlit("true");
    reveal_strlit("\"is_primary\":true,");
    reveal_strlit("\"");
    reveal_strlit("\":");
    reveal_strlit(",");
    an_object_has_each_of_its_fields(fields, 6);
    assert("\"is_primary\":true,"@ =~= fields[6] + ","@);
}

proof fn lemma_span_numbers(fields: Seq<Seq<char>>, at: ExcerptView)
    requires
        fields.len() == 13,
        fields[0] == field("byte_end"@, decimal(at.hi as nat)),
        fields[1] == field("byte_start"@, decimal(at.lo as nat)),
        fields[2] == field("column_end"@, decimal(column_of(at.source, at.hi))),
        fields[3] == field("column_start"@, decimal(column_of(at.source, at.lo))),
        fields[5] == field("file_name"@, quoted(at.file)),
        fields[8] == field("line_end"@, decimal(line_of(at.source, at.hi))),
        fields[9] == field("line_start"@, decimal(line_of(at.source, at.lo))),
    ensures
        ({
            let span = object(fields);
            &&& holds(span, "\"byte_start\":"@ + decimal(at.lo as nat) + ","@)
            &&& holds(span, "\"byte_end\":"@ + decimal(at.hi as nat) + ","@)
            &&& holds(span, "\"line_start\":"@ + decimal(line_of(at.source, at.lo)) + ","@)
            &&& holds(span, "\"line_end\":"@ + decimal(line_of(at.source, at.hi)) + ","@)
            &&& holds(span, "\"column_start\":"@ + decimal(column_of(at.source, at.lo)) + ","@)
            &&& holds(span, "\"column_end\":"@ + decimal(column_of(at.source, at.hi)) + ","@)
            &&& holds(span, "\"file_name\":"@ + quoted(at.file) + ","@)
        }),
{
    reveal_strlit("\"");
    reveal_strlit("\":");
    reveal_strlit("byte_start");
    reveal_strlit("byte_end");
    reveal_strlit("line_start");
    reveal_strlit("line_end");
    reveal_strlit("column_start");
    reveal_strlit("column_end");
    reveal_strlit("file_name");
    reveal_strlit("\"byte_start\":");
    reveal_strlit("\"byte_end\":");
    reveal_strlit("\"line_start\":");
    reveal_strlit("\"line_end\":");
    reveal_strlit("\"column_start\":");
    reveal_strlit("\"column_end\":");
    reveal_strlit("\"file_name\":");
    assert("\""@ + "byte_start"@ + "\":"@ =~= "\"byte_start\":"@);
    assert("\""@ + "byte_end"@ + "\":"@ =~= "\"byte_end\":"@);
    assert("\""@ + "line_start"@ + "\":"@ =~= "\"line_start\":"@);
    assert("\""@ + "line_end"@ + "\":"@ =~= "\"line_end\":"@);
    assert("\""@ + "column_start"@ + "\":"@ =~= "\"column_start\":"@);
    assert("\""@ + "column_end"@ + "\":"@ =~= "\"column_end\":"@);
    assert("\""@ + "file_name"@ + "\":"@ =~= "\"file_name\":"@);
    an_object_has_each_of_its_fields(fields, 0);
    an_object_has_each_of_its_fields(fields, 1);
    an_object_has_each_of_its_fields(fields, 2);
    an_object_has_each_of_its_fields(fields, 3);
    an_object_has_each_of_its_fields(fields, 5);
    an_object_has_each_of_its_fields(fields, 8);
    an_object_has_each_of_its_fields(fields, 9);
}

/// A marked line in JSON says between which columns it is marked, and the
/// line.
pub proof fn a_marked_line_says_where_it_is_marked(line: MarkedLineView)
    ensures
        holds(json_line(line), field("highlight_start"@, decimal(line.start)) + ","@),
        holds(json_line(line), field("highlight_end"@, decimal(line.end)) + ","@),
        holds(json_line(line), field("text"@, quoted(line.text)) + "}"@),
{
    let fields = seq![
        field("highlight_end"@, decimal(line.end)),
        field("highlight_start"@, decimal(line.start)),
        field("text"@, quoted(line.text)),
    ];
    an_object_has_each_of_its_fields(fields, 0);
    an_object_has_each_of_its_fields(fields, 1);
    an_object_has_each_of_its_fields(fields, 2);
}

/// A message in JSON says its text, its level, its lint, its rendered text and
/// where it points, and has each remark among its children.
pub proof fn a_message_says_all_of_it_in_json(message: MessageView, rendered: Seq<char>)
    ensures
        ({
            let json = json_diagnostic(message, rendered);
            &&& holds(json, field("message"@, quoted(message.text)) + ","@)
            &&& holds(json, field("rendered"@, quoted(rendered)) + ","@)
            &&& message.severity == Severity::Error ==> holds(
                json,
                field("level"@, "\""@ + "error"@ + "\""@) + ","@,
            )
            &&& message.severity == Severity::Warning ==> holds(
                json,
                field("level"@, "\""@ + "warning"@ + "\""@) + ","@,
            )
            &&& message.code is None ==> holds(json, field("code"@, "null"@) + ","@)
            &&& message.at is None ==> holds(json, field("spans"@, array(Seq::empty())) + "}"@)
            &&& message.at matches Some(at) ==> holds(
                json,
                field("spans"@, array(seq![json_span(at)])) + "}"@,
            )
            &&& holds(
                json,
                field(
                    "children"@,
                    array(message.remarks.map_values(|r: RemarkView| json_remark(r))),
                ) + ","@,
            )
        }),
{
    let fields = seq![
        field("$message_type"@, "\"diagnostic\""@),
        field("children"@, array(message.remarks.map_values(|r: RemarkView| json_remark(r)))),
        field("code"@, json_code(message.code)),
        field("level"@, "\""@ + severity_word(message.severity) + "\""@),
        field("message"@, quoted(message.text)),
        field("rendered"@, quoted(rendered)),
        field("spans"@, json_spans(message.at)),
    ];
    an_object_has_each_of_its_fields(fields, 1);
    an_object_has_each_of_its_fields(fields, 2);
    an_object_has_each_of_its_fields(fields, 3);
    an_object_has_each_of_its_fields(fields, 4);
    an_object_has_each_of_its_fields(fields, 5);
    an_object_has_each_of_its_fields(fields, 6);
}

/// A `compiler-message` is for the package of its unit: it names the package,
/// its manifest and its target, and holds the message.
pub proof fn a_compiler_message_names_its_unit(
    unit: RunUnitView,
    message: MessageView,
    rendered: Seq<char>,
)
    ensures
        ({
            let json = compiler_message(unit, message, rendered);
            &&& holds(json, field("package_id"@, quoted(unit.package_id)) + ","@)
            &&& holds(json, field("manifest_path"@, quoted(unit.manifest_path)) + ","@)
            &&& holds(json, field("target"@, unit.target) + "}"@)
            &&& holds(json, field("message"@, json_diagnostic(message, rendered)) + ","@)
            &&& holds(json, field("reason"@, "\"compiler-message\""@) + ","@)
        }),
{
    let fields = seq![
        field("manifest_path"@, quoted(unit.manifest_path)),
        field("message"@, json_diagnostic(message, rendered)),
        field("package_id"@, quoted(unit.package_id)),
        field("reason"@, "\"compiler-message\""@),
        field("target"@, unit.target),
    ];
    an_object_has_each_of_its_fields(fields, 0);
    an_object_has_each_of_its_fields(fields, 1);
    an_object_has_each_of_its_fields(fields, 2);
    an_object_has_each_of_its_fields(fields, 3);
    an_object_has_each_of_its_fields(fields, 4);
}

/// A remark in JSON says its words, whether it is a help or a note, and where
/// it points.
pub proof fn a_remark_says_all_of_it_in_json(remark: RemarkView)
    ensures
        holds(json_remark(remark), field("message"@, quoted(remark.text)) + ","@),
        remark.help ==> holds(json_remark(remark), field("level"@, "\"help\""@) + ","@),
        !remark.help ==> holds(json_remark(remark), field("level"@, "\"note\""@) + ","@),
        remark.at matches Some(at) ==> holds(
            json_remark(remark),
            field("spans"@, array(seq![json_span(at)])) + "}"@,
        ),
        remark.at is None ==> holds(
            json_remark(remark),
            field("spans"@, array(Seq::empty())) + "}"@,
        ),
{
    let level = if remark.help {
        "\"help\""@
    } else {
        "\"note\""@
    };
    let fields = seq![
        field("children"@, "[]"@),
        field("code"@, "null"@),
        field("level"@, level),
        field("message"@, quoted(remark.text)),
        field("rendered"@, "null"@),
        field("spans"@, json_spans(remark.at)),
    ];
    an_object_has_each_of_its_fields(fields, 2);
    an_object_has_each_of_its_fields(fields, 3);
    an_object_has_each_of_its_fields(fields, 5);
}

/// The rendered text in JSON is in colour exactly when the format asks for
/// it by name, wherever in the value that stands, and short in the same way.
pub proof fn json_is_rendered_as_its_format_asks(
    message: MessageView,
    before: Seq<char>,
    after: Seq<char>,
    value: Seq<char>,
    styled: bool,
)
    requires
        message.unit is Some,
    ensures
        rendering(
            message,
            OutputView::Json(before + "rendered-ansi"@ + after),
            styled,
        ).0,
        rendering(
            message,
            OutputView::Json(before + "diagnostic-short"@ + after),
            styled,
        ).1,
        !holds(value, "rendered-ansi"@) ==> !rendering(
            message,
            OutputView::Json(value),
            styled,
        ).0,
        !holds(value, "diagnostic-short"@) ==> !rendering(
            message,
            OutputView::Json(value),
            styled,
        ).1,
{
    a_part_stands_between(before, "rendered-ansi"@, after);
    a_part_stands_between(before, "diagnostic-short"@, after);
}

} // verus!
