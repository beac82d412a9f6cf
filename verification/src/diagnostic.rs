use vstd::prelude::*;

use crate::source::{
    SourceFile, Span, char_at, column_number, lemma_offset_line, line_exists, line_number, line_start,
    next_newline, nth_line_start,
};
use crate::text::{
    decimal, push_chars, push_decimal, push_repeated, push_str, repeated, string_from_chars,
};

verus! {

broadcast use vstd::string::group_string_axioms;

#[derive(Clone, Copy, Debug, PartialEq, Eq, Structural)]
pub enum Severity {
    Error,
}

impl Severity {
    pub open spec fn spec_name(self) -> Seq<char> {
        match self {
            Severity::Error => "error"@,
        }
    }

    fn push_name(self, out: &mut Vec<char>)
        ensures
            final(out)@ == old(out)@ + self.spec_name(),
    {
        match self {
            Severity::Error => push_str(out, "error"),
        }
    }
}

#[derive(Clone, Debug, PartialEq, Eq)]
pub struct Label {
    pub span: Span,
    pub message: String,
}

#[derive(Clone, Debug, PartialEq, Eq)]
pub struct Diagnostic {
    pub severity: Severity,
    pub message: String,
    pub primary: Option<Label>,
    pub notes: Vec<String>,
}

/// The note lines of a rendered diagnostic.
pub open spec fn rendered_notes(notes: Seq<String>) -> Seq<char>
    decreases notes.len(),
{
    if notes.len() == 0 {
        Seq::empty()
    } else {
        rendered_notes(notes.drop_last()) + "note: "@ + notes.last()@ + "\n"@
    }
}

/// The line that renders one note.
pub open spec fn note_line(note: String) -> Seq<char> {
    "note: "@ + note@ + "\n"@
}

/// Rendering notes distributes over concatenation: the lines of `first + second` are the lines
/// of `first` followed by the lines of `second`.
pub proof fn lemma_rendered_notes_concat(first: Seq<String>, second: Seq<String>)
    ensures
        rendered_notes(first + second) == rendered_notes(first) + rendered_notes(second),
    decreases second.len(),
{
    if second.len() == 0 {
        assert(first + second =~= first);
        assert(rendered_notes(first) + rendered_notes(second) =~= rendered_notes(first));
    } else {
        assert((first + second).drop_last() =~= first + second.drop_last());
        assert((first + second).last() == second.last());
        lemma_rendered_notes_concat(first, second.drop_last());
        assert(rendered_notes(first) + rendered_notes(second.drop_last()) + "note: "@
            + second.last()@ + "\n"@ =~= rendered_notes(first) + (rendered_notes(
            second.drop_last()) + "note: "@ + second.last()@ + "\n"@));
    }
}

/// Notes are rendered in the order they were added, one line each: note `k` is rendered as
/// `note: ` and its text, after the lines of the notes before it and before the lines of the
/// notes after it; no notes render as nothing.
pub proof fn lemma_rendered_notes_in_order(notes: Seq<String>, k: int)
    requires
        0 <= k < notes.len(),
    ensures
        rendered_notes(Seq::<String>::empty()) == Seq::<char>::empty(),
        rendered_notes(notes) == rendered_notes(notes.take(k)) + note_line(notes[k])
            + rendered_notes(notes.skip(k + 1)),
{
    let single = seq![notes[k]];
    assert(notes =~= notes.take(k) + single + notes.skip(k + 1));
    lemma_rendered_notes_concat(notes.take(k) + single, notes.skip(k + 1));
    lemma_rendered_notes_concat(notes.take(k), single);
    assert(single.drop_last() =~= Seq::<String>::empty());
    assert(rendered_notes(Seq::<String>::empty()) == Seq::<char>::empty());
    assert(rendered_notes(single) == rendered_notes(single.drop_last()) + "note: "@ + single.last()@
        + "\n"@);
    assert(rendered_notes(single) =~= note_line(notes[k]));
}

/// Number of carets under a label: the characters of the span on its first line, at least one.
pub open spec fn underline_width(start: int, end: int, line_end: int) -> int {
    let end_on_line = if end < line_end {
        end
    } else {
        line_end
    };
    if end_on_line - start >= 1 {
        end_on_line - start
    } else {
        1
    }
}

/// The location line of a label excerpt.
pub open spec fn location_part(path: Seq<char>, line: nat, column: nat) -> Seq<char> {
    " --> "@ + path + ":"@ + decimal(line) + ":"@ + decimal(column) + "\n"@
}

/// The empty gutter line of a label excerpt.
pub open spec fn gutter_part(gutter: nat) -> Seq<char> {
    repeated(' ', gutter) + " |\n"@
}

/// The quoted source line of a label excerpt.
pub open spec fn source_line_part(line: nat, text: Seq<char>) -> Seq<char> {
    decimal(line) + " | "@ + text + "\n"@
}

/// The caret line of a label excerpt.
pub open spec fn underline_part(gutter: nat, column: nat, width: nat, message: Seq<char>) -> Seq<
    char,
> {
    repeated(' ', gutter) + " | "@ + repeated(' ', (column - 1) as nat) + repeated('^', width)
        + " "@ + message + "\n"@
}

/// The source excerpt rendered for a label.
pub open spec fn rendered_label(source: SourceFile, label: Label) -> Seq<char> {
    if !source.spec_contains(label.span) {
        " --> "@ + source.spec_path() + ":<invalid span>\n"@
    } else {
        let t = source.spec_text();
        let start = char_at(t, label.span.start as int);
        let end = char_at(t, label.span.end as int);
        let line = line_number(t, start);
        let column = column_number(t, start);
        let line_begin = nth_line_start(t, line);
        let line_end = next_newline(t, line_begin);
        let gutter = decimal(line as nat).len();
        location_part(source.spec_path(), line as nat, column as nat) + gutter_part(gutter)
            + source_line_part(line as nat, t.subrange(line_begin, line_end)) + underline_part(
            gutter,
            column as nat,
            underline_width(start, end, line_end) as nat,
            label.message@,
        )
    }
}

/// The full text of a rendered diagnostic.
pub open spec fn rendered(diagnostic: Diagnostic, source: SourceFile) -> Seq<char> {
    diagnostic.severity.spec_name() + ": "@ + diagnostic.message@ + "\n"@ + match diagnostic.primary {
        Some(label) => rendered_label(source, label),
        None => Seq::empty(),
    } + rendered_notes(diagnostic.notes@)
}

impl Diagnostic {
    pub fn error(message: &str) -> (diagnostic: Diagnostic)
        ensures
            diagnostic.severity == Severity::Error,
            diagnostic.message@ == message@,
            diagnostic.primary is None,
            diagnostic.notes@.len() == 0,
    {
        let mut text = String::new();
        text.append(message);
        Diagnostic { severity: Severity::Error, message: text, primary: None, notes: Vec::new() }
    }

    pub fn with_primary(self, span: Span, message: &str) -> (diagnostic: Diagnostic)
        ensures
            diagnostic.severity == self.severity,
            diagnostic.message == self.message,
            diagnostic.notes == self.notes,
            diagnostic.primary matches Some(label) && label.span == span && label.message@
                == message@,
    {
        let mut text = String::new();
        text.append(message);
        let mut diagnostic = self;
        diagnostic.primary = Some(Label { span, message: text });
        diagnostic
    }

    pub fn with_note(self, note: &str) -> (diagnostic: Diagnostic)
        ensures
            diagnostic.severity == self.severity,
            diagnostic.message == self.message,
            diagnostic.primary == self.primary,
            diagnostic.notes@.len() == self.notes@.len() + 1,
            diagnostic.notes@.drop_last() == self.notes@,
            diagnostic.notes@.last()@ == note@,
    {
        let mut text = String::new();
        text.append(note);
        let mut diagnostic = self;
        diagnostic.notes.push(text);
        diagnostic
    }

    /// Renders the diagnostic with a source excerpt under its primary label.
    pub fn render(&self, source: &SourceFile) -> (text: String)
        requires
            source.wf(),
            source.spec_text().len() < usize::MAX,
        ensures
            text@ == rendered(*self, *source),
    {
        let mut out: Vec<char> = Vec::new();
        self.severity.push_name(&mut out);
        push_str(&mut out, ": ");
        push_str(&mut out, self.message.as_str());
        push_str(&mut out, "\n");
        let ghost header = out@;
        match &self.primary {
            Some(label) => render_label(&mut out, source, label),
            None => {},
        }
        let ghost with_label = out@;
        let mut index: usize = 0;
        while index < self.notes.len()
            invariant
                index <= self.notes.len(),
                out@ == with_label + rendered_notes(self.notes@.take(index as int)),
            decreases self.notes.len() - index,
        {
            push_str(&mut out, "note: ");
            push_str(&mut out, self.notes[index].as_str());
            push_str(&mut out, "\n");
            index = index + 1;
            assert(self.notes@.take(index as int).drop_last() == self.notes@.take(index - 1));
        }
        assert(self.notes@.take(self.notes.len() as int) == self.notes@);
        string_from_chars(&out)
    }
}

#[verifier::rlimit(60)]
fn render_label(out: &mut Vec<char>, source: &SourceFile, label: &Label)
    requires
        source.wf(),
        source.spec_text().len() < usize::MAX,
    ensures
        final(out)@ == old(out)@ + rendered_label(*source, *label),
{
    if !source.contains(label.span) {
        push_str(out, " --> ");
        push_str(out, source.path());
        push_str(out, ":<invalid span>\n");
        return ;
    }
    let ghost t = source.spec_text();
    let first = match source.char_position(label.span.start()) {
        Some(index) => index,
        None => {
            assert(false);
            return ;
        },
    };
    let last = match source.char_position(label.span.end()) {
        Some(index) => index,
        None => {
            assert(false);
            return ;
        },
    };
    proof {
        lemma_offset_line(t, first as int);
    }
    let start = match source.char_location(first) {
        Some(location) => location,
        None => {
            assert(false);
            return ;
        },
    };
    let line = match source.char_line(start.line) {
        Some(line) => line,
        None => {
            assert(false);
            return ;
        },
    };
    let line_end = line.start + line.text.len();
    let end_on_line = if last < line_end {
        last
    } else {
        line_end
    };
    let underline = if end_on_line > first && end_on_line - first >= 1 {
        end_on_line - first
    } else {
        1
    };
    let ghost before = out@;
    push_location(out, source.path(), start.line, start.column);
    let ghost after_location = out@;
    let mut numeral: Vec<char> = Vec::new();
    push_decimal(&mut numeral, start.line);
    let gutter_width = numeral.len();
    push_repeated(out, ' ', gutter_width);
    push_str(out, " |\n");
    assert(out@ =~= after_location + gutter_part(gutter_width as nat));
    let ghost after_gutter = out@;
    push_chars(out, &numeral);
    push_str(out, " | ");
    push_chars(out, &line.text);
    push_str(out, "\n");
    assert(out@ =~= after_gutter + source_line_part(start.line as nat, line.text@));
    let ghost after_source = out@;
    push_underline(out, gutter_width, start.column, underline, label.message.as_str());
    assert(out@ =~= before + location_part(source.spec_path(), start.line as nat, start.column as nat)
        + gutter_part(gutter_width as nat) + source_line_part(start.line as nat, line.text@)
        + underline_part(gutter_width as nat, start.column as nat, underline as nat, label.message@));
}

fn push_location(out: &mut Vec<char>, path: &str, line: usize, column: usize)
    ensures
        final(out)@ == old(out)@ + location_part(path@, line as nat, column as nat),
{
    let ghost before = out@;
    push_str(out, " --> ");
    push_str(out, path);
    push_str(out, ":");
    push_decimal(out, line);
    push_str(out, ":");
    push_decimal(out, column);
    push_str(out, "\n");
    assert(out@ =~= before + location_part(path@, line as nat, column as nat));
}

fn push_underline(out: &mut Vec<char>, gutter: usize, column: usize, width: usize, message: &str)
    requires
        column >= 1,
    ensures
        final(out)@ == old(out)@ + underline_part(gutter as nat, column as nat, width as nat, message@),
{
    let ghost before = out@;
    push_repeated(out, ' ', gutter);
    push_str(out, " | ");
    push_repeated(out, ' ', column - 1);
    push_repeated(out, '^', width);
    push_str(out, " ");
    push_str(out, message);
    push_str(out, "\n");
    assert(out@ =~= before + underline_part(gutter as nat, column as nat, width as nat, message@));
}

} // verus!
