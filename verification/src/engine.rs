//! The lint engine: the tokenizer's events become findings, and findings become a file report.
use std::convert::Infallible;

use html5gum::emitters::callback::{CallbackEmitter, CallbackEvent};
use html5gum::{Span, Tokenizer};
use vstd::prelude::*;
use vstd::string::StringSliceAdditionalSpecFns;
use vstd::utf8::encode_utf8;

use crate::model::{
    Diagnostic, DiagnosticDraft, FileReport, OperationalError, Report, RuleSet, any_truncated,
    is_line_index, min_offset, nondecreasing, rule_bit, status_for, total_bytes, total_findings,
};
use crate::order::{
    bytes_le, insert_ordered, insertion_sorted, law_insertion_sorted, lemma_filter_map_values,
    lemma_insert_ordered_at, lemma_insertion_sorted_filter, lemma_lex_le_total,
    lemma_lex_le_transitive, law_lex_le_first_difference, law_lex_le_prefix_first, lex_le, sorted_by,
    total_preorder,
};
use crate::text::{ascii_case_eq, bytes_eq, eq_ignore_ascii_case};

verus! {

/// One event of the HTML tokenizer, with the byte offsets that the scanner reads.
#[derive(Debug)]
pub enum TokenEvent {
    /// The `<name` that opens a start tag; `start` is the offset of its `<`.
    OpenStartTag { name: Vec<u8>, start: usize },
    /// An attribute name inside a tag.
    AttributeName { name: Vec<u8> },
    /// The `>` that closes a start tag; `end` is the offset just after it.
    CloseStartTag { end: usize },
    /// A doctype with its name.
    Doctype { name: Vec<u8> },
    /// A tokenizer error, by the name of its variant in html5gum's `Error`, at the span where
    /// it was met.
    Error { code: String, start: usize, end: usize },
    /// Any other event: text, comments, end tags, attribute values.
    Other,
}

/// The events that the html5gum tokenizer emits for `input`, with state switching by tag name.
pub uninterp spec fn html_token_events(input: Seq<u8>) -> Seq<TokenEvent>;

/// Runs the html5gum tokenizer (`Tokenizer::new_with_emitter` with a `CallbackEmitter` that
/// switches states naively by tag name, then `finish`) over `input` and returns its events in
/// the order that the callback received them, each with the parts of its span that the scanner
/// reads. The contract only names the result: the event sequence is whatever html5gum emits for
/// these bytes, which depends on nothing else.
#[verifier::external_body]
fn tokenize(input: &[u8]) -> (events: Vec<TokenEvent>)
    ensures
        events@ == html_token_events(input@),
{
    let mut events = Vec::new();
    let mut emitter = CallbackEmitter::new(|event: CallbackEvent<'_>, span: Span<usize>| -> Option<Infallible> {
        events.push(match event {
            CallbackEvent::OpenStartTag { name } => TokenEvent::OpenStartTag { name: name.to_vec(), start: span.start },
            CallbackEvent::AttributeName { name } => TokenEvent::AttributeName { name: name.to_vec() },
            CallbackEvent::CloseStartTag { .. } => TokenEvent::CloseStartTag { end: span.end },
            CallbackEvent::Doctype { name, .. } => TokenEvent::Doctype { name: name.to_vec() },
            CallbackEvent::Error(error) => TokenEvent::Error { code: format!("{error:?}"), start: span.start, end: span.end },
            _ => TokenEvent::Other,
        });
        None
    });
    emitter.naively_switch_states(true);
    let _ = Tokenizer::new_with_emitter(input, emitter).finish();
    events
}

/// The elements that some rule looks at.
#[derive(Clone, Copy, Debug, PartialEq, Eq, Structural)]
pub enum TagKind {
    Other,
    Img,
    Html,
    Button,
    Iframe,
}

/// The start tag being read: its kind, where it began and which attributes it has shown.
#[derive(Clone, Copy, Debug, PartialEq, Eq, Structural)]
pub struct OpenTag {
    pub kind: TagKind,
    pub start: usize,
    pub has_alt: bool,
    pub has_lang: bool,
    pub has_type: bool,
    pub has_title: bool,
}

/// A finding, by the views of its parts.
pub struct FindingView {
    pub rule: Seq<char>,
    pub severity: Seq<char>,
    pub message: Seq<char>,
    pub byte_start: usize,
    pub byte_end: usize,
    pub help: Option<Seq<char>>,
}

/// The view of a draft.
pub open spec fn draft_view(d: DiagnosticDraft) -> FindingView {
    FindingView {
        rule: d.rule@,
        severity: d.severity@,
        message: d.message@,
        byte_start: d.byte_start,
        byte_end: d.byte_end,
        help: match d.help {
            Some(h) => Some(h@),
            None => None,
        },
    }
}

/// The views of a sequence of drafts.
pub open spec fn draft_views(s: Seq<DiagnosticDraft>) -> Seq<FindingView> {
    s.map_values(|d: DiagnosticDraft| draft_view(d))
}

/// What the scanner knows after some events.
pub struct ScanView {
    pub current: OpenTag,
    pub saw_html_doctype: bool,
    pub findings: Seq<FindingView>,
}

/// The tag that nothing has opened yet.
pub open spec fn no_tag() -> OpenTag {
    OpenTag {
        kind: TagKind::Other,
        start: 0,
        has_alt: false,
        has_lang: false,
        has_type: false,
        has_title: false,
    }
}

/// The kind of element that a (lower-case) tag name names.
pub open spec fn tag_kind_of(name: Seq<u8>) -> TagKind {
    if name == "img".spec_bytes() {
        TagKind::Img
    } else if name == "html".spec_bytes() {
        TagKind::Html
    } else if name == "button".spec_bytes() {
        TagKind::Button
    } else if name == "iframe".spec_bytes() {
        TagKind::Iframe
    } else {
        TagKind::Other
    }
}

/// The tag after it showed an attribute named `name`.
pub open spec fn with_attribute(tag: OpenTag, name: Seq<u8>) -> OpenTag {
    if name == "alt".spec_bytes() {
        OpenTag { has_alt: true, ..tag }
    } else if name == "lang".spec_bytes() {
        OpenTag { has_lang: true, ..tag }
    } else if name == "type".spec_bytes() {
        OpenTag { has_type: true, ..tag }
    } else if name == "title".spec_bytes() {
        OpenTag { has_title: true, ..tag }
    } else {
        tag
    }
}

/// An error finding of `rule` over `start..end`.
pub open spec fn finding(
    rule: Seq<char>,
    message: Seq<char>,
    start: usize,
    end: usize,
    help: Option<Seq<char>>,
) -> FindingView {
    FindingView { rule, severity: "error"@, message, byte_start: start, byte_end: end, help }
}

/// The findings that closing `tag` at `end` yields under `rules`: at most one.
pub open spec fn close_tag_findings(tag: OpenTag, end: usize, rules: RuleSet) -> Seq<FindingView> {
    match tag.kind {
        TagKind::Img => if rules.mask() & RuleSet::IMG_ALT != 0 && !tag.has_alt {
            seq![
                finding(
                    "img-alt"@,
                    "Image elements must have an alt attribute"@,
                    tag.start,
                    end,
                    Some("Add alt text, or use alt=\"\" for a decorative image."@),
                ),
            ]
        } else {
            seq![]
        },
        TagKind::Html => if rules.mask() & RuleSet::HTML_LANG != 0 && !tag.has_lang {
            seq![
                finding(
                    "html-lang"@,
                    "The html element must have a lang attribute"@,
                    tag.start,
                    end,
                    Some("Set lang to the document's primary language."@),
                ),
            ]
        } else {
            seq![]
        },
        TagKind::Button => if rules.mask() & RuleSet::BUTTON_TYPE != 0 && !tag.has_type {
            seq![
                finding(
                    "button-type"@,
                    "Button elements must have an explicit type attribute"@,
                    tag.start,
                    end,
                    Some("Use type=\"button\", type=\"submit\", or type=\"reset\"."@),
                ),
            ]
        } else {
            seq![]
        },
        TagKind::Iframe => if rules.mask() & RuleSet::IFRAME_TITLE != 0 && !tag.has_title {
            seq![
                finding(
                    "iframe-title"@,
                    "Iframe elements must have a title attribute"@,
                    tag.start,
                    end,
                    Some("Add a concise title describing the embedded content."@),
                ),
            ]
        } else {
            seq![]
        },
        TagKind::Other => seq![],
    }
}

/// The scanner's state after one more event.
pub open spec fn scan_step(s: ScanView, event: TokenEvent, rules: RuleSet) -> ScanView {
    match event {
        TokenEvent::OpenStartTag { name, start } => ScanView {
            current: OpenTag { kind: tag_kind_of(name@), start, ..no_tag() },
            ..s
        },
        TokenEvent::AttributeName { name } => ScanView {
            current: with_attribute(s.current, name@),
            ..s
        },
        TokenEvent::CloseStartTag { end } => ScanView {
            findings: s.findings + close_tag_findings(s.current, end, rules),
            ..s
        },
        TokenEvent::Doctype { name } => ScanView {
            saw_html_doctype: ascii_case_eq(name@, "html".spec_bytes()),
            ..s
        },
        TokenEvent::Error { code, start, end } => if rules.mask() & RuleSet::PARSE_ERROR != 0 {
            ScanView {
                findings: s.findings.push(
                    finding("parse-error"@, "HTML tokenizer error: "@ + code@, start, end, None),
                ),
                ..s
            }
        } else {
            s
        },
        TokenEvent::Other => s,
    }
}

/// The scanner's state after `events`, starting with no tag and no doctype.
pub open spec fn scan_events(events: Seq<TokenEvent>, rules: RuleSet) -> ScanView
    decreases events.len(),
{
    if events.len() == 0 {
        ScanView { current: no_tag(), saw_html_doctype: false, findings: seq![] }
    } else {
        scan_step(scan_events(events.drop_last(), rules), events.last(), rules)
    }
}

/// The findings at the end of the input: the missing doctype, when that rule is on.
pub open spec fn finish_findings(s: ScanView, rules: RuleSet) -> Seq<FindingView> {
    if rules.mask() & RuleSet::DOCTYPE_HTML != 0 && !s.saw_html_doctype {
        seq![
            finding(
                "doctype-html"@,
                "Document must begin with an HTML doctype"@,
                0,
                0,
                Some("Add <!doctype html> before the html element."@),
            ),
        ]
    } else {
        seq![]
    }
}

/// Every finding of `events` under `rules`, in the order the scanner meets them.
pub open spec fn all_findings(events: Seq<TokenEvent>, rules: RuleSet) -> Seq<FindingView> {
    let s = scan_events(events, rules);
    s.findings + finish_findings(s, rules)
}

/// The first `max` of `findings`.
pub open spec fn capped(findings: Seq<FindingView>, max: usize) -> Seq<FindingView> {
    if findings.len() <= max {
        findings
    } else {
        findings.take(max as int)
    }
}

/// The scanner: the state of `ScanView`, with its findings capped at `max_diagnostics`.
struct Scanner {
    rules: RuleSet,
    max_diagnostics: usize,
    diagnostics: Vec<DiagnosticDraft>,
    truncated: bool,
    current: OpenTag,
    saw_html_doctype: bool,
    findings: Ghost<Seq<FindingView>>,
}

impl Scanner {
    /// The kept drafts are the first findings up to the cap; `truncated` says some were dropped.
    spec fn wf(&self) -> bool {
        &&& draft_views(self.diagnostics@) == capped(self.findings@, self.max_diagnostics)
        &&& self.truncated == (self.findings@.len() > self.max_diagnostics)
    }

    spec fn state(&self) -> ScanView {
        ScanView {
            current: self.current,
            saw_html_doctype: self.saw_html_doctype,
            findings: self.findings@,
        }
    }

    fn new(rules: RuleSet, max_diagnostics: usize) -> (s: Scanner)
        ensures
            s.wf(),
            s.state() == scan_events(Seq::<TokenEvent>::empty(), rules),
            s.rules == rules,
            s.max_diagnostics == max_diagnostics,
    {
        let s = Scanner {
            rules,
            max_diagnostics,
            diagnostics: Vec::new(),
            truncated: false,
            current: OpenTag {
                kind: TagKind::Other,
                start: 0,
                has_alt: false,
                has_lang: false,
                has_type: false,
                has_title: false,
            },
            saw_html_doctype: false,
            findings: Ghost(Seq::empty()),
        };
        assert(draft_views(s.diagnostics@) =~= capped(s.findings@, max_diagnostics));
        s
    }

    /// Keeps `draft` if the cap allows, else marks the scan as truncated.
    fn push(&mut self, draft: DiagnosticDraft)
        requires
            old(self).wf(),
        ensures
            final(self).wf(),
            final(self).findings@ == old(self).findings@.push(draft_view(draft)),
            old(self).diagnostics@.len() < old(self).max_diagnostics ==> {
                &&& final(self).diagnostics@ == old(self).diagnostics@.push(draft)
                &&& final(self).truncated == old(self).truncated
            },
            old(self).diagnostics@.len() >= old(self).max_diagnostics ==> {
                &&& final(self).diagnostics@ == old(self).diagnostics@
                &&& final(self).truncated
            },
            final(self).diagnostics@.len() <= final(self).max_diagnostics,
            final(self).rules == old(self).rules,
            final(self).max_diagnostics == old(self).max_diagnostics,
            final(self).current == old(self).current,
            final(self).saw_html_doctype == old(self).saw_html_doctype,
    {
        let ghost before = self.findings@;
        let ghost view = draft_view(draft);
        let ghost kept = self.diagnostics@;
        if self.diagnostics.len() < self.max_diagnostics {
            assert(draft_views(kept).len() == kept.len());
            assert(before.len() <= self.max_diagnostics);
            assert(capped(before, self.max_diagnostics) == before);
            self.diagnostics.push(draft);
            self.findings = Ghost(before.push(view));
            assert(draft_views(kept.push(draft)) =~= draft_views(kept).push(view));
            assert(draft_views(self.diagnostics@) =~= capped(self.findings@, self.max_diagnostics));
        } else {
            self.truncated = true;
            self.findings = Ghost(before.push(view));
            assert(capped(before, self.max_diagnostics) =~= capped(
                self.findings@,
                self.max_diagnostics,
            ));
        }
    }

    /// Reports the tag being closed at `end` if it lacks the attribute its rule asks for.
    fn close_tag(&mut self, end: usize)
        requires
            old(self).wf(),
        ensures
            final(self).wf(),
            final(self).findings@ == old(self).findings@ + close_tag_findings(
                old(self).current,
                end,
                old(self).rules,
            ),
            final(self).rules == old(self).rules,
            final(self).max_diagnostics == old(self).max_diagnostics,
            final(self).current == old(self).current,
            final(self).saw_html_doctype == old(self).saw_html_doctype,
    {
        let ghost before = self.findings@;
        let tag = self.current;
        match tag.kind {
            TagKind::Img => {
                if self.rules.contains(RuleSet::IMG_ALT) && !tag.has_alt {
                    self.push(
                        DiagnosticDraft {
                            rule: "img-alt",
                            severity: "error",
                            message: "Image elements must have an alt attribute".to_owned(),
                            byte_start: tag.start,
                            byte_end: end,
                            help: Some("Add alt text, or use alt=\"\" for a decorative image."),
                        },
                    );
                }
            },
            TagKind::Html => {
                if self.rules.contains(RuleSet::HTML_LANG) && !tag.has_lang {
                    self.push(
                        DiagnosticDraft {
                            rule: "html-lang",
                            severity: "error",
                            message: "The html element must have a lang attribute".to_owned(),
                            byte_start: tag.start,
                            byte_end: end,
                            help: Some("Set lang to the document's primary language."),
                        },
                    );
                }
            },
            TagKind::Button => {
                if self.rules.contains(RuleSet::BUTTON_TYPE) && !tag.has_type {
                    self.push(
                        DiagnosticDraft {
                            rule: "button-type",
                            severity: "error",
                            message: "Button elements must have an explicit type attribute".to_owned(),
                            byte_start: tag.start,
                            byte_end: end,
                            help: Some("Use type=\"button\", type=\"submit\", or type=\"reset\"."),
                        },
                    );
                }
            },
            TagKind::Iframe => {
                if self.rules.contains(RuleSet::IFRAME_TITLE) && !tag.has_title {
                    self.push(
                        DiagnosticDraft {
                            rule: "iframe-title",
                            severity: "error",
                            message: "Iframe elements must have a title attribute".to_owned(),
                            byte_start: tag.start,
                            byte_end: end,
                            help: Some("Add a concise title describing the embedded content."),
                        },
                    );
                }
            },
            TagKind::Other => {},
        }
        assert(self.findings@ =~= before + close_tag_findings(tag, end, self.rules));
    }

    /// Takes one event of the tokenizer.
    fn event(&mut self, event: &TokenEvent)
        requires
            old(self).wf(),
        ensures
            final(self).wf(),
            final(self).state() == scan_step(old(self).state(), *event, old(self).rules),
            final(self).rules == old(self).rules,
            final(self).max_diagnostics == old(self).max_diagnostics,
    {
        match event {
            TokenEvent::OpenStartTag { name, start } => {
                let kind = if bytes_eq(name.as_slice(), "img".as_bytes()) {
                    TagKind::Img
                } else if bytes_eq(name.as_slice(), "html".as_bytes()) {
                    TagKind::Html
                } else if bytes_eq(name.as_slice(), "button".as_bytes()) {
                    TagKind::Button
                } else if bytes_eq(name.as_slice(), "iframe".as_bytes()) {
                    TagKind::Iframe
                } else {
                    TagKind::Other
                };
                self.current = OpenTag {
                    kind,
                    start: *start,
                    has_alt: false,
                    has_lang: false,
                    has_type: false,
                    has_title: false,
                };
            },
            TokenEvent::AttributeName { name } => {
                if bytes_eq(name.as_slice(), "alt".as_bytes()) {
                    self.current.has_alt = true;
                } else if bytes_eq(name.as_slice(), "lang".as_bytes()) {
                    self.current.has_lang = true;
                } else if bytes_eq(name.as_slice(), "type".as_bytes()) {
                    self.current.has_type = true;
                } else if bytes_eq(name.as_slice(), "title".as_bytes()) {
                    self.current.has_title = true;
                }
            },
            TokenEvent::CloseStartTag { end } => {
                self.close_tag(*end);
            },
            TokenEvent::Doctype { name } => {
                self.saw_html_doctype = eq_ignore_ascii_case(name.as_slice(), "html".as_bytes());
            },
            TokenEvent::Error { code, start, end } => {
                if self.rules.contains(RuleSet::PARSE_ERROR) {
                    let mut message = "HTML tokenizer error: ".to_owned();
                    message.append(code.as_str());
                    self.push(
                        DiagnosticDraft {
                            rule: "parse-error",
                            severity: "error",
                            message,
                            byte_start: *start,
                            byte_end: *end,
                            help: None,
                        },
                    );
                }
            },
            TokenEvent::Other => {},
        }
    }

    /// Reports a missing doctype, when that rule is on.
    fn finish(&mut self)
        requires
            old(self).wf(),
        ensures
            final(self).wf(),
            final(self).findings@ == old(self).findings@ + finish_findings(
                old(self).state(),
                old(self).rules,
            ),
            final(self).rules == old(self).rules,
            final(self).max_diagnostics == old(self).max_diagnostics,
            final(self).current == old(self).current,
            final(self).saw_html_doctype == old(self).saw_html_doctype,
            finish_findings(old(self).state(), old(self).rules).len() == 0 ==> *final(self) == *old(
                self,
            ),
            finish_findings(old(self).state(), old(self).rules).len() == 1 ==> {
                &&& old(self).diagnostics@.len() < old(self).max_diagnostics ==> {
                    &&& final(self).diagnostics@.len() == old(self).diagnostics@.len() + 1
                    &&& final(self).diagnostics@.drop_last() == old(self).diagnostics@
                    &&& draft_view(final(self).diagnostics@.last()) == finish_findings(
                        old(self).state(),
                        old(self).rules,
                    )[0]
                    &&& final(self).truncated == old(self).truncated
                }
                &&& old(self).diagnostics@.len() >= old(self).max_diagnostics ==> {
                    &&& final(self).diagnostics@ == old(self).diagnostics@
                    &&& final(self).truncated
                }
            },
    {
        let ghost before = self.findings@;
        if self.rules.contains(RuleSet::DOCTYPE_HTML) && !self.saw_html_doctype {
            self.push(
                DiagnosticDraft {
                    rule: "doctype-html",
                    severity: "error",
                    message: "Document must begin with an HTML doctype".to_owned(),
                    byte_start: 0,
                    byte_end: 0,
                    help: Some("Add <!doctype html> before the html element."),
                },
            );
        }
        assert(self.findings@ =~= before + finish_findings(old(self).state(), self.rules));
        assert(self.findings@ =~= before ==> self.findings == old(self).findings);
    }
}


/// Whether finding `a` starts no later than finding `b`.
pub open spec fn starts_no_later(a: FindingView, b: FindingView) -> bool {
    a.byte_start <= b.byte_start
}

/// `s` sorted by start offset, findings with equal starts kept in their order.
pub open spec fn sort_by_start(s: Seq<FindingView>) -> Seq<FindingView> {
    insertion_sorted(s, |a: FindingView, b: FindingView| starts_no_later(a, b))
}

/// The drafts sorted by start offset; drafts with equal starts keep their order.
fn sort_drafts(drafts: Vec<DiagnosticDraft>) -> (r: Vec<DiagnosticDraft>)
    ensures
        draft_views(r@) == sort_by_start(draft_views(drafts@)),
{
    let ghost unsorted = draft_views(drafts@);
    let mut v = drafts;
    let mut i: usize = 0;
    while i < v.len()
        invariant
            i <= v@.len(),
            v@.len() == unsorted.len(),
            draft_views(v@).take(i as int) == sort_by_start(unsorted.take(i as int)),
            draft_views(v@).skip(i as int) == unsorted.skip(i as int),
        decreases v@.len() - i,
    {
        let ghost sorted = draft_views(v@).take(i as int);
        let ghost f = draft_view(v@[i as int]);
        assert(unsorted[i as int] == f) by {
            assert(draft_views(v@).skip(i as int)[0] == unsorted.skip(i as int)[0]);
        }
        let ghost whole = v@;
        let d = v.remove(i);
        let mut j: usize = i;
        while j > 0 && v[j - 1].byte_start > d.byte_start
            invariant
                j <= i,
                i < v@.len() + 1,
                forall|k: int| j <= k < i ==> v@[k].byte_start > d.byte_start,
            decreases j,
        {
            j = j - 1;
        }
        proof {
            assert(draft_views(v@).take(i as int) =~= sorted);
            lemma_insert_ordered_at(
                sorted,
                f,
                |a: FindingView, b: FindingView| starts_no_later(a, b),
                j as int,
            );
            assert(unsorted.take(i + 1).drop_last() =~= unsorted.take(i as int));
        }
        v.insert(j, d);
        proof {
            assert(draft_views(v@).take(i + 1) =~= sorted.insert(j as int, f));
            assert(v@.skip(i + 1) =~= whole.skip(i + 1));
            assert(draft_views(v@).skip(i + 1) =~= draft_views(whole).skip(i + 1));
            assert(draft_views(whole).skip(i + 1) =~= draft_views(whole).skip(i as int).skip(1));
            assert(draft_views(v@).skip(i + 1) =~= unsorted.skip(i + 1));
        }
        i = i + 1;
    }
    assert(unsorted.take(i as int) =~= unsorted);
    assert(draft_views(v@).take(i as int) =~= draft_views(v@));
    v
}


/// Where the lines of `text` begin: offset 0 and every offset just after a newline.
pub open spec fn line_starts_of(text: Seq<u8>) -> Seq<usize>
    decreases text.len(),
{
    if text.len() == 0 {
        seq![0usize]
    } else {
        let prior = line_starts_of(text.drop_last());
        if text.last() == 10u8 {
            prior.push(text.len() as usize)
        } else {
            prior
        }
    }
}

/// The line, counted from 1, on which `offset` of `text` lies: one more than the number of
/// newlines before it.
pub open spec fn line_number(text: Seq<u8>, offset: int) -> int {
    line_starts_of(text.take(offset)).len() as int
}

/// The column, counted from 1, of `offset` in `text`: its distance from the start of its line,
/// plus one.
pub open spec fn column_number(text: Seq<u8>, offset: int) -> int {
    offset - line_starts_of(text.take(offset)).last() + 1
}

/// Line starts begin at 0, rise strictly and stay within the text.
pub proof fn lemma_line_starts_shape(text: Seq<u8>)
    requires
        text.len() <= usize::MAX,
    ensures
        line_starts_of(text).len() >= 1,
        line_starts_of(text).len() <= text.len() + 1,
        line_starts_of(text)[0] == 0,
        forall|i: int, j: int|
            0 <= i < j < line_starts_of(text).len() ==> line_starts_of(text)[i] < line_starts_of(
                text,
            )[j],
        forall|i: int| 0 <= i < line_starts_of(text).len() ==> line_starts_of(text)[i] <= text.len(),
    decreases text.len(),
{
    if text.len() > 0 {
        lemma_line_starts_shape(text.drop_last());
    }
}

/// The line starts of a prefix are the line starts of the whole text up to the prefix's end.
pub proof fn lemma_line_starts_prefix(text: Seq<u8>, offset: int)
    requires
        0 <= offset <= text.len() <= usize::MAX,
    ensures
        line_starts_of(text.take(offset)).len() <= line_starts_of(text).len(),
        line_starts_of(text).take(line_starts_of(text.take(offset)).len() as int)
            == line_starts_of(text.take(offset)),
        line_starts_of(text.take(offset)).len() < line_starts_of(text).len() ==> line_starts_of(
            text,
        )[line_starts_of(text.take(offset)).len() as int] > offset,
    decreases text.len(),
{
    let n: int = line_starts_of(text.take(offset)).len() as int;
    if offset == text.len() {
        assert(text.take(offset) =~= text);
        assert(line_starts_of(text).take(n) =~= line_starts_of(text));
    } else {
        let shorter = text.drop_last();
        assert(shorter.take(offset) =~= text.take(offset));
        lemma_line_starts_prefix(shorter, offset);
        assert(line_starts_of(text).take(n) =~= line_starts_of(shorter).take(n));
    }
}

/// In the line starts of `text`, the line index of `offset` is one less than its line number.
proof fn lemma_line_index_is_line_number(text: Seq<u8>, offset: int, k: int)
    requires
        0 <= offset <= text.len() < usize::MAX,
        is_line_index(line_starts_of(text), offset, k),
    ensures
        k + 1 == line_number(text, offset),
        line_starts_of(text)[k] == line_starts_of(text.take(offset)).last(),
{
    let starts = line_starts_of(text);
    let prefix = line_starts_of(text.take(offset));
    lemma_line_starts_shape(text);
    lemma_line_starts_shape(text.take(offset));
    lemma_line_starts_prefix(text, offset);
    let n: int = prefix.len() as int;
    assert(starts[n - 1] == prefix[n - 1]);
    if k < n - 1 {
        assert(starts[k + 1] <= starts[n - 1]);
    } else if k > n - 1 {
        assert(starts[k] >= starts[n]);
    }
}

/// Computes where the lines of `input` begin.
fn line_starts(input: &[u8]) -> (r: Vec<usize>)
    requires
        input@.len() < usize::MAX,
    ensures
        r@ == line_starts_of(input@),
{
    let mut r: Vec<usize> = Vec::new();
    r.push(0);
    let mut i: usize = 0;
    while i < input.len()
        invariant
            i <= input@.len() < usize::MAX,
            r@ == line_starts_of(input@.take(i as int)),
        decreases input@.len() - i,
    {
        assert(input@.take(i + 1).drop_last() =~= input@.take(i as int));
        if input[i] == 10u8 {
            r.push(i + 1);
        }
        i = i + 1;
    }
    assert(input@.take(i as int) =~= input@);
    r
}

/// A located finding, by the views of its parts.
pub struct DiagnosticView {
    pub rule: Seq<char>,
    pub severity: Seq<char>,
    pub message: Seq<char>,
    pub byte_start: usize,
    pub byte_end: usize,
    pub line: int,
    pub column: int,
    pub help: Option<Seq<char>>,
}

/// The view of a diagnostic.
pub open spec fn diagnostic_view(d: Diagnostic) -> DiagnosticView {
    DiagnosticView {
        rule: d.rule@,
        severity: d.severity@,
        message: d.message@,
        byte_start: d.byte_start,
        byte_end: d.byte_end,
        line: d.line as int,
        column: d.column as int,
        help: match d.help {
            Some(h) => Some(h@),
            None => None,
        },
    }
}

/// A finding located in `input`: line and column of its start, clamped to the input.
pub open spec fn located(f: FindingView, input: Seq<u8>) -> DiagnosticView {
    let offset: int = if f.byte_start <= input.len() {
        f.byte_start as int
    } else {
        input.len() as int
    };
    DiagnosticView {
        rule: f.rule,
        severity: f.severity,
        message: f.message,
        byte_start: f.byte_start,
        byte_end: f.byte_end,
        line: line_number(input, offset),
        column: column_number(input, offset),
        help: f.help,
    }
}

/// The diagnostics of a file: the first `max` findings, sorted by start, located in `input`.
pub open spec fn report_diagnostics(
    input: Seq<u8>,
    events: Seq<TokenEvent>,
    rules: RuleSet,
    max: usize,
) -> Seq<DiagnosticView> {
    sort_by_start(capped(all_findings(events, rules), max)).map_values(
        |f: FindingView| located(f, input),
    )
}

/// Lints `input`, given the tokenizer's events for it: every finding of the rules in `rules`,
/// at most `max_diagnostics` of them (the first ones met), sorted by start offset and located
/// by line and column.
pub fn lint_events(
    path: String,
    input: &[u8],
    events: &Vec<TokenEvent>,
    rules: RuleSet,
    max_diagnostics: usize,
) -> (r: FileReport)
    requires
        input@.len() < usize::MAX,
    ensures
        r.path == path,
        r.bytes == input@.len(),
        r.truncated == (all_findings(events@, rules).len() > max_diagnostics),
        r.diagnostics@.map_values(|d: Diagnostic| diagnostic_view(d)) == report_diagnostics(
            input@,
            events@,
            rules,
            max_diagnostics,
        ),
{
    let mut scanner = Scanner::new(rules, max_diagnostics);
    let mut i: usize = 0;
    while i < events.len()
        invariant
            i <= events@.len(),
            scanner.wf(),
            scanner.state() == scan_events(events@.take(i as int), rules),
            scanner.rules == rules,
            scanner.max_diagnostics == max_diagnostics,
        decreases events@.len() - i,
    {
        assert(events@.take(i + 1).drop_last() =~= events@.take(i as int));
        scanner.event(&events[i]);
        i = i + 1;
    }
    assert(events@.take(i as int) =~= events@);
    scanner.finish();
    assert(scanner.findings@ == all_findings(events@, rules));
    let truncated = scanner.truncated;
    let drafts = sort_drafts(scanner.diagnostics);
    let ghost sorted = drafts@;
    let mut starts: Vec<usize> = Vec::new();
    starts.push(0);
    if drafts.len() != 0 {
        starts = line_starts(input);
    }
    proof {
        lemma_line_starts_shape(input@);
    }
    let mut diagnostics: Vec<Diagnostic> = Vec::new();
    proof {
        broadcast use vstd::std_specs::vec::axiom_spec_into_iter;
    }
    for d in it: drafts.into_iter()
        invariant
            it.seq() == sorted,
            input@.len() < usize::MAX,
            sorted.len() > 0 ==> starts@ == line_starts_of(input@),
            diagnostics@.len() == it.index(),
            forall|k: int|
                0 <= k < it.index() ==> diagnostic_view(#[trigger] diagnostics@[k]) == located(
                    draft_view(sorted[k]),
                    input@,
                ),
    {
        let ghost offset: usize = min_offset(d.byte_start, input.len());
        proof {
            lemma_line_starts_shape(input@);
        }
        let located_diagnostic = d.resolve(input.len(), starts.as_slice());
        proof {
            lemma_line_index_is_line_number(input@, offset as int, located_diagnostic.line - 1);
        }
        diagnostics.push(located_diagnostic);
    }
    let ghost expected = report_diagnostics(input@, events@, rules, max_diagnostics);
    assert(diagnostics@.map_values(|d: Diagnostic| diagnostic_view(d)) =~= expected);
    FileReport { path, bytes: input.len() as u64, diagnostics, truncated }
}

/// Lints `input` as `lint_events` does, over the events that the html5gum tokenizer emits for
/// it.
pub fn lint_bytes(path: String, input: &[u8], rules: RuleSet, max_diagnostics: usize) -> (r:
    FileReport)
    requires
        input@.len() < usize::MAX,
    ensures
        r.path == path,
        r.bytes == input@.len(),
        r.truncated == (all_findings(html_token_events(input@), rules).len() > max_diagnostics),
        r.diagnostics@.map_values(|d: Diagnostic| diagnostic_view(d)) == report_diagnostics(
            input@,
            html_token_events(input@),
            rules,
            max_diagnostics,
        ),
{
    let events = tokenize(input);
    lint_events(path, input, &events, rules, max_diagnostics)
}


/// The file reports of the results that succeeded, in order.
pub open spec fn succeeded(results: Seq<Result<FileReport, OperationalError>>) -> Seq<FileReport>
    decreases results.len(),
{
    if results.len() == 0 {
        seq![]
    } else {
        match results.last() {
            Ok(file) => succeeded(results.drop_last()).push(file),
            Err(_) => succeeded(results.drop_last()),
        }
    }
}

/// The errors of the results that failed, in order.
pub open spec fn failed(results: Seq<Result<FileReport, OperationalError>>) -> Seq<
    OperationalError,
>
    decreases results.len(),
{
    if results.len() == 0 {
        seq![]
    } else {
        match results.last() {
            Ok(_) => failed(results.drop_last()),
            Err(e) => failed(results.drop_last()).push(e),
        }
    }
}

/// Whether the path of `a` comes no later than that of `b`, in the byte order of strings.
pub open spec fn path_no_later(a: FileReport, b: FileReport) -> bool {
    lex_le(encode_utf8(a.path@), encode_utf8(b.path@))
}

/// `files` sorted by path; files with equal paths keep their order.
pub open spec fn sort_by_path(files: Seq<FileReport>) -> Seq<FileReport> {
    insertion_sorted(files, |a: FileReport, b: FileReport| path_no_later(a, b))
}

/// Inserting a file report adds its size and its findings to the totals.
proof fn lemma_insert_ordered_totals(
    s: Seq<FileReport>,
    f: FileReport,
    le: spec_fn(FileReport, FileReport) -> bool,
)
    ensures
        total_bytes(insert_ordered(s, f, le)) == total_bytes(s) + f.bytes,
        total_findings(insert_ordered(s, f, le)) == total_findings(s) + f.diagnostics@.len(),
    decreases s.len(),
{
    if s.len() > 0 && !le(s.last(), f) {
        lemma_insert_ordered_totals(s.drop_last(), f, le);
        assert(insert_ordered(s, f, le).drop_last() =~= insert_ordered(s.drop_last(), f, le));
    } else if s.len() > 0 {
        assert(insert_ordered(s, f, le).drop_last() =~= s);
    } else {
        assert(insert_ordered(s, f, le).drop_last() =~= s);
    }
}

/// Sorting keeps the totals of sizes and findings.
pub proof fn lemma_sorting_keeps_totals(
    s: Seq<FileReport>,
    le: spec_fn(FileReport, FileReport) -> bool,
)
    ensures
        total_bytes(insertion_sorted(s, le)) == total_bytes(s),
        total_findings(insertion_sorted(s, le)) == total_findings(s),
    decreases s.len(),
{
    if s.len() > 0 {
        lemma_sorting_keeps_totals(s.drop_last(), le);
        lemma_insert_ordered_totals(insertion_sorted(s.drop_last(), le), s.last(), le);
    }
}

/// The file reports sorted by path, in the byte order of strings; equal paths keep their order.
fn sort_files(files: Vec<FileReport>) -> (r: Vec<FileReport>)
    ensures
        r@ == sort_by_path(files@),
{
    let ghost unsorted = files@;
    let ghost le = |a: FileReport, b: FileReport| path_no_later(a, b);
    let mut v = files;
    let mut i: usize = 0;
    while i < v.len()
        invariant
            i <= v@.len(),
            v@.len() == unsorted.len(),
            le == (|a: FileReport, b: FileReport| path_no_later(a, b)),
            v@.take(i as int) == insertion_sorted(unsorted.take(i as int), le),
            v@.skip(i as int) == unsorted.skip(i as int),
        decreases v@.len() - i,
    {
        let ghost sorted = v@.take(i as int);
        let ghost whole = v@;
        assert(unsorted[i as int] == v@[i as int]) by {
            assert(v@.skip(i as int)[0] == unsorted.skip(i as int)[0]);
        }
        let f = v.remove(i);
        let mut j: usize = i;
        while j > 0 && !bytes_le(v[j - 1].path.as_str().as_bytes(), f.path.as_str().as_bytes())
            invariant
                j <= i,
                i < v@.len() + 1,
                v@.take(i as int) == sorted,
                le == (|a: FileReport, b: FileReport| path_no_later(a, b)),
                forall|k: int| j <= k < i ==> !le(#[trigger] v@[k], f),
            decreases j,
        {
            j = j - 1;
        }
        proof {
            assert(v@.take(i as int) =~= sorted);
            lemma_insert_ordered_at(sorted, f, le, j as int);
            assert(unsorted.take(i + 1).drop_last() =~= unsorted.take(i as int));
        }
        v.insert(j, f);
        proof {
            assert(v@.take(i + 1) =~= sorted.insert(j as int, f));
            assert(v@.skip(i + 1) =~= whole.skip(i + 1));
            assert(whole.skip(i + 1) =~= whole.skip(i as int).skip(1));
        }
        i = i + 1;
    }
    assert(unsorted.take(i as int) =~= unsorted);
    assert(v@.take(i as int) =~= v@);
    v
}

/// The report of a run with nothing to lint: the errors met, or else that no HTML file was found.
pub fn report_without_inputs(errors: Vec<OperationalError>) -> (r: Report)
    ensures
        r.schema_version == 1,
        r.files@.len() == 0,
        errors@.len() > 0 ==> r.errors == errors,
        errors@.len() == 0 ==> r.errors@.len() == 1 && r.errors@[0].path is None
            && r.errors@[0].message@ == "no HTML files found"@,
        r.summary.files == 0,
        r.summary.bytes == 0,
        r.summary.findings == 0,
        r.summary.operational_errors == r.errors@.len(),
        !r.summary.truncated,
        r.status@ == "error"@,
{
    let mut errors = errors;
    if errors.len() == 0 {
        errors.push(OperationalError { path: None, message: "no HTML files found".to_owned() });
    }
    let r = Report::from_parts(Vec::new(), errors);
    assert(!any_truncated(r.files@));
    r
}

/// The report of a run: the files of the results that succeeded, sorted by path, and the
/// errors met before, followed by those of the results that failed.
pub fn report_from_results(
    errors: Vec<OperationalError>,
    results: Vec<Result<FileReport, OperationalError>>,
) -> (r: Report)
    requires
        total_bytes(succeeded(results@)) <= u64::MAX,
        total_findings(succeeded(results@)) <= u64::MAX,
    ensures
        r.schema_version == 1,
        r.files@ == sort_by_path(succeeded(results@)),
        r.errors@ == errors@ + failed(results@),
        r.summary.files == r.files@.len(),
        r.summary.bytes == total_bytes(succeeded(results@)),
        r.summary.findings == total_findings(succeeded(results@)),
        r.summary.operational_errors == r.errors@.len(),
        r.summary.truncated == any_truncated(r.files@),
        forall|i: int| 0 <= i < r.files@.len() && #[trigger] r.files@[i].truncated ==> r.summary.truncated,
        r.summary.truncated ==> exists|i: int| 0 <= i < r.files@.len() && #[trigger] r.files@[i].truncated,
        r.status@ == status_for(r.errors@.len() as int, total_findings(succeeded(results@))),
{
    let ghost all = results@;
    let mut files: Vec<FileReport> = Vec::new();
    let mut errors = errors;
    let ghost first_errors = errors@;
    proof {
        broadcast use vstd::std_specs::vec::axiom_spec_into_iter;
    }
    for result in it: results.into_iter()
        invariant
            it.seq() == all,
            files@ == succeeded(all.take(it.index() as int)),
            errors@ == first_errors + failed(all.take(it.index() as int)),
    {
        assert(all.take(it.index() + 1).drop_last() =~= all.take(it.index() as int));
        match result {
            Ok(file) => {
                files.push(file);
            },
            Err(error) => {
                errors.push(error);
                assert(errors@ =~= first_errors + failed(all.take(it.index() + 1)));
            },
        }
    }
    assert(all.take(all.len() as int) =~= all);
    let files = sort_files(files);
    proof {
        lemma_sorting_keeps_totals(
            succeeded(all),
            |a: FileReport, b: FileReport| path_no_later(a, b),
        );
    }
    Report::from_parts(files, errors)
}


/// Whether `f` reports a rule that `rules` holds.
pub open spec fn finding_of_enabled_rule(f: FindingView, rules: RuleSet) -> bool {
    match rule_bit(f.rule) {
        Some(bit) => rules.mask() & bit != 0,
        None => false,
    }
}

/// The rule names are told apart by `rule_bit`.
proof fn lemma_rule_names_distinct()
    ensures
        rule_bit("img-alt"@) == Some(RuleSet::IMG_ALT),
        rule_bit("html-lang"@) == Some(RuleSet::HTML_LANG),
        rule_bit("button-type"@) == Some(RuleSet::BUTTON_TYPE),
        rule_bit("iframe-title"@) == Some(RuleSet::IFRAME_TITLE),
        rule_bit("doctype-html"@) == Some(RuleSet::DOCTYPE_HTML),
        rule_bit("parse-error"@) == Some(RuleSet::PARSE_ERROR),
{
    reveal_strlit("img-alt");
    reveal_strlit("html-lang");
    reveal_strlit("button-type");
    reveal_strlit("iframe-title");
    reveal_strlit("doctype-html");
    reveal_strlit("parse-error");
    assert("html-lang"@ != "img-alt"@) by {
        assert("html-lang"@[0] != "img-alt"@[0]);
    }
    assert("button-type"@ != "img-alt"@) by {
        assert("button-type"@[0] != "img-alt"@[0]);
    }
    assert("button-type"@ != "html-lang"@) by {
        assert("button-type"@[0] != "html-lang"@[0]);
    }
    assert("iframe-title"@ != "img-alt"@) by {
        assert("iframe-title"@[1] != "img-alt"@[1]);
    }
    assert("iframe-title"@ != "html-lang"@) by {
        assert("iframe-title"@[0] != "html-lang"@[0]);
    }
    assert("iframe-title"@ != "button-type"@) by {
        assert("iframe-title"@[0] != "button-type"@[0]);
    }
    assert("doctype-html"@ != "img-alt"@) by {
        assert("doctype-html"@[0] != "img-alt"@[0]);
    }
    assert("doctype-html"@ != "html-lang"@) by {
        assert("doctype-html"@[0] != "html-lang"@[0]);
    }
    assert("doctype-html"@ != "button-type"@) by {
        assert("doctype-html"@[0] != "button-type"@[0]);
    }
    assert("doctype-html"@ != "iframe-title"@) by {
        assert("doctype-html"@[0] != "iframe-title"@[0]);
    }
    assert("parse-error"@ != "img-alt"@) by {
        assert("parse-error"@[0] != "img-alt"@[0]);
    }
    assert("parse-error"@ != "html-lang"@) by {
        assert("parse-error"@[0] != "html-lang"@[0]);
    }
    assert("parse-error"@ != "button-type"@) by {
        assert("parse-error"@[0] != "button-type"@[0]);
    }
    assert("parse-error"@ != "iframe-title"@) by {
        assert("parse-error"@[0] != "iframe-title"@[0]);
    }
    assert("parse-error"@ != "doctype-html"@) by {
        assert("parse-error"@[0] != "doctype-html"@[0]);
    }
}

/// Every finding of the scan so far reports an enabled rule, as an error.
proof fn lemma_scan_findings_enabled(events: Seq<TokenEvent>, rules: RuleSet)
    ensures
        forall|i: int|
            0 <= i < scan_events(events, rules).findings.len() ==> {
                &&& finding_of_enabled_rule(#[trigger] scan_events(events, rules).findings[i], rules)
                &&& scan_events(events, rules).findings[i].severity == "error"@
            },
    decreases events.len(),
{
    lemma_rule_names_distinct();
    if events.len() > 0 {
        lemma_scan_findings_enabled(events.drop_last(), rules);
    }
}

/// A rule left out of the set reports nothing: every finding names a rule of the set, and
/// every finding is an error.
pub proof fn law_findings_follow_rules(events: Seq<TokenEvent>, rules: RuleSet)
    ensures
        forall|i: int|
            0 <= i < all_findings(events, rules).len() ==> {
                &&& finding_of_enabled_rule(#[trigger] all_findings(events, rules)[i], rules)
                &&& all_findings(events, rules)[i].severity == "error"@
            },
{
    lemma_rule_names_distinct();
    lemma_scan_findings_enabled(events, rules);
}

/// The common profile reports nothing but missing alt text.
pub proof fn law_common_profile_checks_only_alt_text(events: Seq<TokenEvent>, rules: RuleSet)
    requires
        rules.mask() == RuleSet::IMG_ALT,
    ensures
        forall|i: int|
            0 <= i < all_findings(events, rules).len() ==> (#[trigger] all_findings(
                events,
                rules,
            )[i]).rule == "img-alt"@,
{
    law_findings_follow_rules(events, rules);
    lemma_rule_names_distinct();
    assert(1u8 & 2u8 == 0 && 1u8 & 4u8 == 0 && 1u8 & 8u8 == 0 && 1u8 & 16u8 == 0 && 1u8 & 32u8
        == 0) by (bit_vector);
    assert forall|i: int| 0 <= i < all_findings(events, rules).len() implies (
    #[trigger] all_findings(events, rules)[i]).rule == "img-alt"@ by {
        let f = all_findings(events, rules)[i];
        assert(finding_of_enabled_rule(f, rules));
    }
}

/// Starting no later is total and transitive.
proof fn lemma_starts_no_later_total_preorder()
    ensures
        total_preorder(|a: FindingView, b: FindingView| starts_no_later(a, b)),
{
}

/// A file's diagnostics are its first findings, up to the cap, in order of their start
/// offsets: as many as there are findings up to `max`, sorted, and the same findings.
pub proof fn law_report_diagnostics_capped_and_sorted(
    input: Seq<u8>,
    events: Seq<TokenEvent>,
    rules: RuleSet,
    max: usize,
)
    ensures
        report_diagnostics(input, events, rules, max).len() == if all_findings(
            events,
            rules,
        ).len() <= max {
            all_findings(events, rules).len() as int
        } else {
            max as int
        },
        forall|i: int, j: int|
            0 <= i < j < report_diagnostics(input, events, rules, max).len() ==> (
            #[trigger] report_diagnostics(input, events, rules, max)[i]).byte_start <= (
            #[trigger] report_diagnostics(input, events, rules, max)[j]).byte_start,
        sort_by_start(capped(all_findings(events, rules), max)).to_multiset() == capped(
            all_findings(events, rules),
            max,
        ).to_multiset(),
{
    let kept = capped(all_findings(events, rules), max);
    lemma_starts_no_later_total_preorder();
    law_insertion_sorted(kept, |a: FindingView, b: FindingView| starts_no_later(a, b));
    let sorted = sort_by_start(kept);
    let diagnostics = report_diagnostics(input, events, rules, max);
    assert forall|i: int, j: int| 0 <= i < j < diagnostics.len() implies (
    #[trigger] diagnostics[i]).byte_start <= (#[trigger] diagnostics[j]).byte_start by {
        assert(starts_no_later(sorted[i], sorted[j]));
    }
}

/// Lines and columns count from 1, and a column never passes its offset.
pub proof fn law_locations_count_from_one(text: Seq<u8>, offset: int)
    requires
        0 <= offset <= text.len() <= usize::MAX,
    ensures
        line_number(text, offset) >= 1,
        1 <= column_number(text, offset) <= offset + 1,
{
    lemma_line_starts_shape(text.take(offset));
}

/// A line number is one more than the number of newlines before the offset.
pub proof fn law_line_number_counts_newlines(text: Seq<u8>, offset: int)
    requires
        0 <= offset <= text.len() <= usize::MAX,
    ensures
        line_number(text, offset) == 1 + text.take(offset).filter(|b: u8| b == 10u8).len(),
{
    lemma_line_starts_count(text.take(offset));
}

/// The line starts are one more than the newlines.
proof fn lemma_line_starts_count(text: Seq<u8>)
    requires
        text.len() <= usize::MAX,
    ensures
        line_starts_of(text).len() == 1 + text.filter(|b: u8| b == 10u8).len(),
    decreases text.len(),
{
    broadcast use vstd::seq_lib::group_filter_ensures;

    if text.len() > 0 {
        lemma_line_starts_count(text.drop_last());
        assert(text.drop_last().push(text.last()) =~= text);
        text.drop_last().lemma_filter_push(text.last(), |b: u8| b == 10u8);
    }
}

/// Comparing paths by their bytes is total and transitive.
proof fn lemma_path_no_later_total_preorder()
    ensures
        total_preorder(|a: FileReport, b: FileReport| path_no_later(a, b)),
{
    let le = |a: FileReport, b: FileReport| path_no_later(a, b);
    assert forall|a: FileReport, b: FileReport| #![trigger le(a, b)] le(a, b) || le(b, a) by {
        lemma_lex_le_total(encode_utf8(a.path@), encode_utf8(b.path@));
    }
    assert forall|a: FileReport, b: FileReport, c: FileReport|
        #![trigger le(a, b), le(b, c)]
        le(a, b) && le(b, c) implies le(a, c) by {
        lemma_lex_le_transitive(encode_utf8(a.path@), encode_utf8(b.path@), encode_utf8(c.path@));
    }
}

/// A run's report lists the files that were linted, each once, in the byte order of their
/// paths.
pub proof fn law_run_files_sorted_by_path(results: Seq<Result<FileReport, OperationalError>>)
    ensures
        sorted_by(
            sort_by_path(succeeded(results)),
            |a: FileReport, b: FileReport| path_no_later(a, b),
        ),
        sort_by_path(succeeded(results)).to_multiset() == succeeded(results).to_multiset(),
{
    lemma_path_no_later_total_preorder();
    law_insertion_sorted(succeeded(results), |a: FileReport, b: FileReport| path_no_later(a, b));
}


/// The files of a run come in the byte order of their paths: where two paths first differ,
/// the earlier file has the smaller byte, and no file comes after a proper prefix of its path.
pub proof fn law_run_files_in_byte_order(results: Seq<Result<FileReport, OperationalError>>)
    ensures
        forall|i: int, j: int, k: int|
            0 <= i < j < sort_by_path(succeeded(results)).len() && 0 <= k < encode_utf8(
                sort_by_path(succeeded(results))[i].path@,
            ).len() && k < encode_utf8(sort_by_path(succeeded(results))[j].path@).len()
                && #[trigger] encode_utf8(sort_by_path(succeeded(results))[i].path@).take(k)
                == #[trigger] encode_utf8(sort_by_path(succeeded(results))[j].path@).take(k)
                ==> encode_utf8(sort_by_path(succeeded(results))[i].path@)[k] <= encode_utf8(
                sort_by_path(succeeded(results))[j].path@,
            )[k],
        forall|i: int, j: int|
            0 <= i < j < sort_by_path(succeeded(results)).len() && encode_utf8(
                #[trigger] sort_by_path(succeeded(results))[j].path@,
            ).len() < encode_utf8(#[trigger] sort_by_path(succeeded(results))[i].path@).len()
                ==> encode_utf8(sort_by_path(succeeded(results))[i].path@).take(
                encode_utf8(sort_by_path(succeeded(results))[j].path@).len() as int,
            ) != encode_utf8(sort_by_path(succeeded(results))[j].path@),
{
    law_run_files_sorted_by_path(results);
    let files = sort_by_path(succeeded(results));
    assert forall|i: int, j: int, k: int|
        0 <= i < j < files.len() && 0 <= k < encode_utf8(files[i].path@).len() && k < encode_utf8(
            files[j].path@,
        ).len() && #[trigger] encode_utf8(files[i].path@).take(k) == #[trigger] encode_utf8(
            files[j].path@,
        ).take(k) implies encode_utf8(files[i].path@)[k] <= encode_utf8(files[j].path@)[k] by {
        assert(path_no_later(files[i], files[j]));
        let a = encode_utf8(files[i].path@);
        let b = encode_utf8(files[j].path@);
        if a[k] > b[k] {
            law_lex_le_first_difference(b, a, k);
        }
    }
    assert forall|i: int, j: int|
        0 <= i < j < files.len() && encode_utf8(#[trigger] files[j].path@).len() < encode_utf8(
            #[trigger] files[i].path@,
        ).len() implies encode_utf8(files[i].path@).take(encode_utf8(files[j].path@).len() as int)
        != encode_utf8(files[j].path@) by {
        assert(path_no_later(files[i], files[j]));
        let a = encode_utf8(files[i].path@);
        let b = encode_utf8(files[j].path@);
        if a.take(b.len() as int) == b {
            law_lex_le_prefix_first(a, b.len() as int);
        }
    }
}

/// The events of one start tag: its opening with `name` at `start`, the names of the
/// attributes it shows, in order, and its closing at `end`.
pub open spec fn start_tag_events(
    name: Vec<u8>,
    start: usize,
    attributes: Seq<Vec<u8>>,
    end: usize,
) -> Seq<TokenEvent> {
    seq![TokenEvent::OpenStartTag { name, start }] + attributes.map_values(
        |a: Vec<u8>| TokenEvent::AttributeName { name: a },
    ) + seq![TokenEvent::CloseStartTag { end }]
}

/// Whether one of `attributes` is named `attribute`.
pub open spec fn shows_attribute(attributes: Seq<Vec<u8>>, attribute: Seq<u8>) -> bool {
    exists|i: int| 0 <= i < attributes.len() && #[trigger] attributes[i]@ == attribute
}

/// Whether a start tag named `name` that shows `attributes` lacks the attribute that an enabled
/// rule asks of it: `alt` of an image, `lang` of `html`, `type` of a button, `title` of an
/// iframe.
pub open spec fn lacks_required_attribute(
    name: Seq<u8>,
    attributes: Seq<Vec<u8>>,
    rules: RuleSet,
) -> bool {
    ||| name == "img".spec_bytes() && rules.mask() & RuleSet::IMG_ALT != 0 && !shows_attribute(
        attributes,
        "alt".spec_bytes(),
    )
    ||| name == "html".spec_bytes() && rules.mask() & RuleSet::HTML_LANG != 0 && !shows_attribute(
        attributes,
        "lang".spec_bytes(),
    )
    ||| name == "button".spec_bytes() && rules.mask() & RuleSet::BUTTON_TYPE != 0
        && !shows_attribute(attributes, "type".spec_bytes())
    ||| name == "iframe".spec_bytes() && rules.mask() & RuleSet::IFRAME_TITLE != 0
        && !shows_attribute(attributes, "title".spec_bytes())
}

/// The bytes of the tag and attribute names that the rules look at.
proof fn lemma_name_bytes()
    ensures
        "img".spec_bytes() == seq![105u8, 109u8, 103u8],
        "html".spec_bytes() == seq![104u8, 116u8, 109u8, 108u8],
        "button".spec_bytes() == seq![98u8, 117u8, 116u8, 116u8, 111u8, 110u8],
        "iframe".spec_bytes() == seq![105u8, 102u8, 114u8, 97u8, 109u8, 101u8],
        "alt".spec_bytes() == seq![97u8, 108u8, 116u8],
        "lang".spec_bytes() == seq![108u8, 97u8, 110u8, 103u8],
        "type".spec_bytes() == seq![116u8, 121u8, 112u8, 101u8],
        "title".spec_bytes() == seq![116u8, 105u8, 116u8, 108u8, 101u8],
{
    broadcast use vstd::string::is_ascii_spec_bytes;

    reveal_strlit("img");
    reveal_strlit("html");
    reveal_strlit("button");
    reveal_strlit("iframe");
    reveal_strlit("alt");
    reveal_strlit("lang");
    reveal_strlit("type");
    reveal_strlit("title");
    assert(vstd::string::is_ascii("img"));
    assert(vstd::string::is_ascii("html"));
    assert(vstd::string::is_ascii("button"));
    assert(vstd::string::is_ascii("iframe"));
    assert(vstd::string::is_ascii("alt"));
    assert(vstd::string::is_ascii("lang"));
    assert(vstd::string::is_ascii("type"));
    assert(vstd::string::is_ascii("title"));
    assert("img".spec_bytes() =~= seq![105u8, 109u8, 103u8]);
    assert("html".spec_bytes() =~= seq![104u8, 116u8, 109u8, 108u8]);
    assert("button".spec_bytes() =~= seq![98u8, 117u8, 116u8, 116u8, 111u8, 110u8]);
    assert("iframe".spec_bytes() =~= seq![105u8, 102u8, 114u8, 97u8, 109u8, 101u8]);
    assert("alt".spec_bytes() =~= seq![97u8, 108u8, 116u8]);
    assert("lang".spec_bytes() =~= seq![108u8, 97u8, 110u8, 103u8]);
    assert("type".spec_bytes() =~= seq![116u8, 121u8, 112u8, 101u8]);
    assert("title".spec_bytes() =~= seq![116u8, 105u8, 116u8, 108u8, 101u8]);
}

/// One more event extends the scan by one step.
proof fn lemma_scan_push(events: Seq<TokenEvent>, event: TokenEvent, rules: RuleSet)
    ensures
        scan_events(events.push(event), rules) == scan_step(scan_events(events, rules), event, rules),
{
    assert(events.push(event).drop_last() =~= events);
}

/// A list of attributes shows a name exactly when its front part does or its last one is it.
proof fn lemma_shows_attribute_last(attributes: Seq<Vec<u8>>, attribute: Seq<u8>)
    requires
        attributes.len() > 0,
    ensures
        shows_attribute(attributes, attribute) == (shows_attribute(
            attributes.drop_last(),
            attribute,
        ) || attributes.last()@ == attribute),
{
    let front = attributes.drop_last();
    if shows_attribute(attributes, attribute) {
        let i = choose|i: int| 0 <= i < attributes.len() && #[trigger] attributes[i]@ == attribute;
        if i < front.len() {
            assert(front[i] == attributes[i]);
        }
    }
    if shows_attribute(front, attribute) {
        let i = choose|i: int| 0 <= i < front.len() && #[trigger] front[i]@ == attribute;
        assert(front[i] == attributes[i]);
    }
    if attributes.last()@ == attribute {
        assert(attributes[attributes.len() - 1]@ == attribute);
    }
}

/// After a tag opens and shows its attributes, the scanner holds that tag, marked with exactly
/// the attributes shown since it opened, and nothing else has changed.
proof fn lemma_open_tag_attributes(
    prefix: Seq<TokenEvent>,
    name: Vec<u8>,
    start: usize,
    attributes: Seq<Vec<u8>>,
    rules: RuleSet,
)
    ensures
        ({
            let s = scan_events(
                prefix + seq![TokenEvent::OpenStartTag { name, start }] + attributes.map_values(
                    |a: Vec<u8>| TokenEvent::AttributeName { name: a },
                ),
                rules,
            );
            &&& s.findings == scan_events(prefix, rules).findings
            &&& s.saw_html_doctype == scan_events(prefix, rules).saw_html_doctype
            &&& s.current == OpenTag {
                kind: tag_kind_of(name@),
                start,
                has_alt: shows_attribute(attributes, "alt".spec_bytes()),
                has_lang: shows_attribute(attributes, "lang".spec_bytes()),
                has_type: shows_attribute(attributes, "type".spec_bytes()),
                has_title: shows_attribute(attributes, "title".spec_bytes()),
            }
        }),
    decreases attributes.len(),
{
    lemma_name_bytes();
    let f = |a: Vec<u8>| TokenEvent::AttributeName { name: a };
    let opened = prefix + seq![TokenEvent::OpenStartTag { name, start }];
    assert(opened =~= prefix.push(TokenEvent::OpenStartTag { name, start }));
    lemma_scan_push(prefix, TokenEvent::OpenStartTag { name, start }, rules);
    if attributes.len() == 0 {
        assert(opened + attributes.map_values(f) =~= opened);
    } else {
        let front = attributes.drop_last();
        let last = attributes.last();
        lemma_open_tag_attributes(prefix, name, start, front, rules);
        assert(opened + attributes.map_values(f) =~= (opened + front.map_values(f)).push(
            TokenEvent::AttributeName { name: last },
        ));
        lemma_scan_push(opened + front.map_values(f), TokenEvent::AttributeName { name: last }, rules);
        lemma_shows_attribute_last(attributes, "alt".spec_bytes());
        lemma_shows_attribute_last(attributes, "lang".spec_bytes());
        lemma_shows_attribute_last(attributes, "type".spec_bytes());
        lemma_shows_attribute_last(attributes, "title".spec_bytes());
    }
}

/// The findings of a start tag depend only on its own name and attributes: scanning one more
/// start tag keeps the findings so far, changes nothing about the doctype, and adds exactly
/// one finding, over the tag's span and under the rule of its name, when the tag lacks the
/// attribute that an enabled rule asks of it, and none otherwise.
pub proof fn law_start_tag_findings(
    prefix: Seq<TokenEvent>,
    name: Vec<u8>,
    start: usize,
    attributes: Seq<Vec<u8>>,
    end: usize,
    rules: RuleSet,
)
    ensures
        scan_events(prefix + start_tag_events(name, start, attributes, end), rules).findings.take(
            scan_events(prefix, rules).findings.len() as int,
        ) == scan_events(prefix, rules).findings,
        scan_events(prefix + start_tag_events(name, start, attributes, end), rules).findings.len()
            == scan_events(prefix, rules).findings.len() + if lacks_required_attribute(
            name@,
            attributes,
            rules,
        ) {
            1int
        } else {
            0int
        },
        scan_events(prefix + start_tag_events(name, start, attributes, end), rules).saw_html_doctype
            == scan_events(prefix, rules).saw_html_doctype,
        lacks_required_attribute(name@, attributes, rules) ==> {
            let added = scan_events(
                prefix + start_tag_events(name, start, attributes, end),
                rules,
            ).findings.last();
            &&& added.byte_start == start
            &&& added.byte_end == end
            &&& added.severity == "error"@
            &&& name@ == "img".spec_bytes() ==> {
                &&& added.rule == "img-alt"@
                &&& added.message == "Image elements must have an alt attribute"@
                &&& added.help == Some("Add alt text, or use alt=\"\" for a decorative image."@)
            }
            &&& name@ == "html".spec_bytes() ==> {
                &&& added.rule == "html-lang"@
                &&& added.message == "The html element must have a lang attribute"@
                &&& added.help == Some("Set lang to the document's primary language."@)
            }
            &&& name@ == "button".spec_bytes() ==> {
                &&& added.rule == "button-type"@
                &&& added.message == "Button elements must have an explicit type attribute"@
                &&& added.help == Some(
                    "Use type=\"button\", type=\"submit\", or type=\"reset\"."@,
                )
            }
            &&& name@ == "iframe".spec_bytes() ==> {
                &&& added.rule == "iframe-title"@
                &&& added.message == "Iframe elements must have a title attribute"@
                &&& added.help == Some("Add a concise title describing the embedded content."@)
            }
        },
{
    lemma_name_bytes();
    let f = |a: Vec<u8>| TokenEvent::AttributeName { name: a };
    let opened = prefix + seq![TokenEvent::OpenStartTag { name, start }] + attributes.map_values(f);
    lemma_open_tag_attributes(prefix, name, start, attributes, rules);
    assert(prefix + start_tag_events(name, start, attributes, end) =~= opened.push(
        TokenEvent::CloseStartTag { end },
    ));
    lemma_scan_push(opened, TokenEvent::CloseStartTag { end }, rules);
    let before = scan_events(prefix, rules).findings;
    let after = scan_events(prefix + start_tag_events(name, start, attributes, end), rules).findings;
    let tag = scan_events(opened, rules).current;
    assert(after == before + close_tag_findings(tag, end, rules));
    assert(after.take(before.len() as int) =~= before);
}

/// Events other than the close of a start tag report only tokenizer errors: an error event
/// adds one finding over its span, naming the error, when the parse-error rule is on, and any
/// other event adds none; the findings so far stay as they were.
pub proof fn law_event_findings(prefix: Seq<TokenEvent>, event: TokenEvent, rules: RuleSet)
    requires
        !(event is CloseStartTag),
    ensures
        scan_events(prefix.push(event), rules).findings.take(
            scan_events(prefix, rules).findings.len() as int,
        ) == scan_events(prefix, rules).findings,
        scan_events(prefix.push(event), rules).findings.len() == scan_events(
            prefix,
            rules,
        ).findings.len() + if event is Error && rules.mask() & RuleSet::PARSE_ERROR != 0 {
            1int
        } else {
            0int
        },
        event matches TokenEvent::Error { code, start, end } ==> rules.mask()
            & RuleSet::PARSE_ERROR != 0 ==> scan_events(prefix.push(event), rules).findings.last()
            == (FindingView {
            rule: "parse-error"@,
            severity: "error"@,
            message: "HTML tokenizer error: "@ + code@,
            byte_start: start,
            byte_end: end,
            help: None,
        }),
{
    lemma_scan_push(prefix, event, rules);
    let before = scan_events(prefix, rules).findings;
    let after = scan_events(prefix.push(event), rules).findings;
    assert(after.take(before.len() as int) =~= before);
}

/// Whether `events` declare an HTML document: some doctype event names `html`, in any ASCII
/// case, and no doctype event comes after it.
pub open spec fn declares_html(events: Seq<TokenEvent>) -> bool {
    exists|i: int|
        0 <= i < events.len() && (#[trigger] events[i] matches TokenEvent::Doctype { name }
            && ascii_case_eq(name@, "html".spec_bytes())) && forall|j: int|
            i < j < events.len() ==> !(events[j] is Doctype)
}

/// The scanner remembers whether the last doctype met names `html`.
proof fn lemma_saw_html_doctype(events: Seq<TokenEvent>, rules: RuleSet)
    ensures
        scan_events(events, rules).saw_html_doctype == declares_html(events),
    decreases events.len(),
{
    if events.len() > 0 {
        let p = events.drop_last();
        let e = events.last();
        lemma_saw_html_doctype(p, rules);
        assert(events == p.push(e));
        lemma_scan_push(p, e, rules);
        if declares_html(events) {
            let i = choose|i: int|
                0 <= i < events.len() && (#[trigger] events[i] matches TokenEvent::Doctype { name }
                    && ascii_case_eq(name@, "html".spec_bytes())) && forall|j: int|
                    i < j < events.len() ==> !(events[j] is Doctype);
            if i < p.len() {
                assert(!(events[events.len() - 1] is Doctype));
                assert(p[i] == events[i]);
                assert forall|j: int| i < j < p.len() implies !(p[j] is Doctype) by {
                    assert(p[j] == events[j]);
                }
                assert(declares_html(p));
            }
        }
        if !(e is Doctype) && declares_html(p) {
            let i = choose|i: int|
                0 <= i < p.len() && (#[trigger] p[i] matches TokenEvent::Doctype { name }
                    && ascii_case_eq(name@, "html".spec_bytes())) && forall|j: int|
                    i < j < p.len() ==> !(p[j] is Doctype);
            assert(events[i] == p[i]);
            assert forall|j: int| i < j < events.len() implies !(events[j] is Doctype) by {
                if j < p.len() {
                    assert(events[j] == p[j]);
                }
            }
            assert(declares_html(events));
        }
        if let TokenEvent::Doctype { name } = e {
            if ascii_case_eq(name@, "html".spec_bytes()) {
                assert(events[events.len() - 1] == e);
                assert(declares_html(events));
            }
        }
    }
}

/// The doctype rule reports exactly when the document declares no HTML doctype: after the
/// findings of its events comes one doctype finding at the document's start when the rule is
/// on and no last doctype names `html`, and nothing otherwise.
pub proof fn law_missing_doctype(events: Seq<TokenEvent>, rules: RuleSet)
    ensures
        all_findings(events, rules) == scan_events(events, rules).findings + if rules.mask()
            & RuleSet::DOCTYPE_HTML != 0 && !declares_html(events) {
            seq![
                FindingView {
                    rule: "doctype-html"@,
                    severity: "error"@,
                    message: "Document must begin with an HTML doctype"@,
                    byte_start: 0,
                    byte_end: 0,
                    help: Some("Add <!doctype html> before the html element."@),
                },
            ]
        } else {
            Seq::<FindingView>::empty()
        },
{
    lemma_saw_html_doctype(events, rules);
}

/// Whether every rule of `narrow` is a rule of `wide`.
pub open spec fn rules_within(narrow: RuleSet, wide: RuleSet) -> bool {
    narrow.mask() & wide.mask() == narrow.mask()
}

/// A rule bit of the narrower set is a rule bit of the wider one.
proof fn lemma_bit_within(bit: u8, narrow: u8, wide: u8)
    requires
        narrow & wide == narrow,
        narrow & bit != 0,
    ensures
        wide & bit != 0,
{
    assert(narrow & wide == narrow && narrow & bit != 0 ==> wide & bit != 0) by (bit_vector);
}

/// The finding that one rule makes when `missing` holds, filtered by the narrower set, is the
/// finding that the narrower set makes.
proof fn lemma_filter_one(f: FindingView, bit: u8, missing: bool, narrow: RuleSet, wide: RuleSet)
    requires
        rules_within(narrow, wide),
        rule_bit(f.rule) == Some(bit),
    ensures
        (if narrow.mask() & bit != 0 && missing {
            seq![f]
        } else {
            Seq::<FindingView>::empty()
        }) == (if wide.mask() & bit != 0 && missing {
            seq![f]
        } else {
            Seq::<FindingView>::empty()
        }).filter(|g: FindingView| finding_of_enabled_rule(g, narrow)),
{
    reveal_with_fuel(Seq::filter, 2);
    if narrow.mask() & bit != 0 {
        lemma_bit_within(bit, narrow.mask(), wide.mask());
    }
    let one: Seq<FindingView> = seq![f];
    assert(one.drop_last() =~= Seq::<FindingView>::empty());
}

/// Closing a tag under the narrower set reports what the wider set reports, filtered.
proof fn lemma_close_tag_findings_within(tag: OpenTag, end: usize, narrow: RuleSet, wide: RuleSet)
    requires
        rules_within(narrow, wide),
    ensures
        close_tag_findings(tag, end, narrow) == close_tag_findings(tag, end, wide).filter(
            |g: FindingView| finding_of_enabled_rule(g, narrow),
        ),
{
    lemma_rule_names_distinct();
    reveal_with_fuel(Seq::filter, 1);
    match tag.kind {
        TagKind::Img => lemma_filter_one(
            finding(
                "img-alt"@,
                "Image elements must have an alt attribute"@,
                tag.start,
                end,
                Some("Add alt text, or use alt=\"\" for a decorative image."@),
            ),
            RuleSet::IMG_ALT,
            !tag.has_alt,
            narrow,
            wide,
        ),
        TagKind::Html => lemma_filter_one(
            finding(
                "html-lang"@,
                "The html element must have a lang attribute"@,
                tag.start,
                end,
                Some("Set lang to the document's primary language."@),
            ),
            RuleSet::HTML_LANG,
            !tag.has_lang,
            narrow,
            wide,
        ),
        TagKind::Button => lemma_filter_one(
            finding(
                "button-type"@,
                "Button elements must have an explicit type attribute"@,
                tag.start,
                end,
                Some("Use type=\"button\", type=\"submit\", or type=\"reset\"."@),
            ),
            RuleSet::BUTTON_TYPE,
            !tag.has_type,
            narrow,
            wide,
        ),
        TagKind::Iframe => lemma_filter_one(
            finding(
                "iframe-title"@,
                "Iframe elements must have a title attribute"@,
                tag.start,
                end,
                Some("Add a concise title describing the embedded content."@),
            ),
            RuleSet::IFRAME_TITLE,
            !tag.has_title,
            narrow,
            wide,
        ),
        TagKind::Other => {
            assert(Seq::<FindingView>::empty().filter(
                |g: FindingView| finding_of_enabled_rule(g, narrow),
            ) =~= Seq::<FindingView>::empty());
        },
    }
}


/// Scanning under the narrower set follows the same tags and doctype, and keeps the findings of
/// the wider set that report its rules.
proof fn lemma_scan_within(events: Seq<TokenEvent>, narrow: RuleSet, wide: RuleSet)
    requires
        rules_within(narrow, wide),
    ensures
        scan_events(events, narrow).current == scan_events(events, wide).current,
        scan_events(events, narrow).saw_html_doctype == scan_events(events, wide).saw_html_doctype,
        scan_events(events, narrow).findings == scan_events(events, wide).findings.filter(
            |g: FindingView| finding_of_enabled_rule(g, narrow),
        ),
    decreases events.len(),
{
    lemma_rule_names_distinct();
    if events.len() > 0 {
        lemma_scan_within(events.drop_last(), narrow, wide);
        let w = scan_events(events.drop_last(), wide);
        let p = |g: FindingView| finding_of_enabled_rule(g, narrow);
        match events.last() {
            TokenEvent::CloseStartTag { end } => {
                lemma_close_tag_findings_within(w.current, end, narrow, wide);
                Seq::filter_distributes_over_add(
                    w.findings,
                    close_tag_findings(w.current, end, wide),
                    p,
                );
            },
            TokenEvent::Error { code, start, end } => {
                let f = finding("parse-error"@, "HTML tokenizer error: "@ + code@, start, end, None);
                lemma_filter_one(f, RuleSet::PARSE_ERROR, true, narrow, wide);
                let added = if wide.mask() & RuleSet::PARSE_ERROR != 0 {
                    seq![f]
                } else {
                    Seq::<FindingView>::empty()
                };
                Seq::filter_distributes_over_add(w.findings, added, p);
                assert(w.findings.push(f) =~= w.findings + seq![f]);
                assert(w.findings =~= w.findings + Seq::<FindingView>::empty());
                let n = scan_events(events.drop_last(), narrow);
                assert(n.findings.push(f) =~= n.findings + seq![f]);
                assert(n.findings =~= n.findings + Seq::<FindingView>::empty());
            },
            _ => {},
        }
    }
}

/// Choosing fewer rules only drops findings: under a set of rules within a wider set, a
/// document's findings are those of the wider set that report the chosen rules, in the same
/// order.
pub proof fn law_rule_selection_only_filters(
    events: Seq<TokenEvent>,
    narrow: RuleSet,
    wide: RuleSet,
)
    requires
        rules_within(narrow, wide),
    ensures
        all_findings(events, narrow) == all_findings(events, wide).filter(
            |g: FindingView| finding_of_enabled_rule(g, narrow),
        ),
{
    lemma_rule_names_distinct();
    lemma_scan_within(events, narrow, wide);
    let w = scan_events(events, wide);
    let p = |g: FindingView| finding_of_enabled_rule(g, narrow);
    let f = finding(
        "doctype-html"@,
        "Document must begin with an HTML doctype"@,
        0,
        0,
        Some("Add <!doctype html> before the html element."@),
    );
    lemma_filter_one(f, RuleSet::DOCTYPE_HTML, !w.saw_html_doctype, narrow, wide);
    Seq::filter_distributes_over_add(w.findings, finish_findings(w, wide), p);
}

/// A cap only ever drops diagnostics: under a cap of `max` a file has the smaller of `max` and
/// the number it has under the largest cap, and any cap of at least the number of findings
/// gives exactly the diagnostics of the largest cap.
pub proof fn law_caps_only_drop(input: Seq<u8>, events: Seq<TokenEvent>, rules: RuleSet, max: usize)
    ensures
        report_diagnostics(input, events, rules, max).len() == if max <= report_diagnostics(
            input,
            events,
            rules,
            usize::MAX,
        ).len() {
            max as int
        } else {
            report_diagnostics(input, events, rules, usize::MAX).len() as int
        },
        all_findings(events, rules).len() <= max ==> report_diagnostics(input, events, rules, max)
            == report_diagnostics(input, events, rules, usize::MAX),
{
    law_report_diagnostics_capped_and_sorted(input, events, rules, max);
    law_report_diagnostics_capped_and_sorted(input, events, rules, usize::MAX);
}

/// Whether a finding reports missing alt text.
pub open spec fn reports_alt_text(f: FindingView) -> bool {
    f.rule == "img-alt"@
}

/// Whether a diagnostic reports missing alt text.
pub open spec fn diagnoses_alt_text(d: DiagnosticView) -> bool {
    d.rule == "img-alt"@
}

/// The common profile finds exactly the images without alt text that all the rules find: its
/// findings are those of all the rules that report missing alt text, in the same order, and
/// under a cap that drops none of them its diagnostics are likewise those of all the rules that
/// report missing alt text, at the same offsets, lines and columns.
pub proof fn law_common_profile_finds_the_same_images(
    input: Seq<u8>,
    events: Seq<TokenEvent>,
    common: RuleSet,
    all: RuleSet,
    max: usize,
)
    requires
        common.mask() == RuleSet::IMG_ALT,
        all.mask() == RuleSet::ALL_MASK,
    ensures
        all_findings(events, common) == all_findings(events, all).filter(
            |f: FindingView| reports_alt_text(f),
        ),
        all_findings(events, all).len() <= max ==> report_diagnostics(input, events, common, max)
            == report_diagnostics(input, events, all, max).filter(
            |d: DiagnosticView| diagnoses_alt_text(d),
        ),
{
    lemma_rule_names_distinct();
    assert(1u8 & 63u8 == 1u8) by (bit_vector);
    law_rule_selection_only_filters(events, common, all);
    let enabled = |g: FindingView| finding_of_enabled_rule(g, common);
    let alt = |f: FindingView| reports_alt_text(f);
    assert(enabled =~= alt) by {
        assert(1u8 & 2u8 == 0 && 1u8 & 4u8 == 0 && 1u8 & 8u8 == 0 && 1u8 & 16u8 == 0 && 1u8
            & 32u8 == 0 && 1u8 & 1u8 != 0) by (bit_vector);
    }
    let found = all_findings(events, all);
    if found.len() <= max {
        found.lemma_filter_len(alt);
        let le = |a: FindingView, b: FindingView| starts_no_later(a, b);
        let loc = |f: FindingView| located(f, input);
        let diag = |d: DiagnosticView| diagnoses_alt_text(d);
        lemma_starts_no_later_total_preorder();
        lemma_insertion_sorted_filter(found, le, alt);
        lemma_filter_map_values(insertion_sorted(found, le), loc, alt, diag);
    }
}

} // verus!
