use vstd::prelude::*;

use crate::text::{char_width, lemma_utf8_len_append, push_str, utf8_len, utf8_width};

verus! {

broadcast use vstd::string::group_string_axioms;

/// Identifies one loaded source file.
#[derive(Clone, Copy, Debug, PartialEq, Eq, Hash, Structural)]
pub struct FileId(pub u32);

impl FileId {
    pub fn new(index: u32) -> (id: FileId)
        ensures
            id.0 == index,
    {
        FileId(index)
    }
}

/// A half-open range of byte offsets `[start, end)` into the UTF-8 text of one file.
#[derive(Clone, Copy, Debug, PartialEq, Eq, Hash, Structural)]
pub struct Span {
    pub file: FileId,
    pub start: usize,
    pub end: usize,
}

impl Span {
    pub fn new(file: FileId, start: usize, end: usize) -> (span: Span)
        ensures
            span.file == file,
            span.start == start,
            span.end == end,
    {
        Span { file, start, end }
    }

    pub fn file(&self) -> (file: FileId)
        ensures
            file == self.file,
    {
        self.file
    }

    pub fn start(&self) -> (start: usize)
        ensures
            start == self.start,
    {
        self.start
    }

    pub fn end(&self) -> (end: usize)
        ensures
            end == self.end,
    {
        self.end
    }
}

/// A one-based line and column of a place in a file; the column counts characters.
#[derive(Clone, Copy, Debug, PartialEq, Eq, Structural)]
pub struct Location {
    pub line: usize,
    pub column: usize,
}

/// One line of a source text, without its terminating newline.
#[derive(Clone, Debug, PartialEq, Eq)]
pub struct Line {
    pub start: usize,
    pub text: Vec<char>,
}

/// The text of one source file with the path it was read from.
#[derive(Clone, Debug)]
pub struct SourceFile {
    id: FileId,
    path: String,
    text: String,
    chars: Vec<char>,
    starts: Vec<usize>,
}

/// The byte offset in UTF-8 of character `k` of `t`.
pub open spec fn byte_offset(t: Seq<char>, k: int) -> int {
    utf8_len(t.take(k)) as int
}

/// Byte offset `b` starts a character of `t`, or is the end of `t`.
pub open spec fn is_boundary(t: Seq<char>, b: int) -> bool {
    exists|k: int| 0 <= k <= t.len() && #[trigger] byte_offset(t, k) == b
}

/// The character index at byte offset `b` of `t`, where `b` is a boundary.
pub open spec fn char_at(t: Seq<char>, b: int) -> int {
    choose|k: int| 0 <= k <= t.len() && #[trigger] byte_offset(t, k) == b
}

proof fn lemma_byte_offset_step(t: Seq<char>, k: int)
    requires
        0 <= k < t.len(),
    ensures
        byte_offset(t, k + 1) == byte_offset(t, k) + char_width(t[k]),
        char_width(t[k]) >= 1,
{
    assert(t.take(k + 1).drop_last() =~= t.take(k));
}

/// Byte offsets grow with the characters.
pub proof fn lemma_byte_offset_increases(t: Seq<char>, j: int, k: int)
    requires
        0 <= j < k <= t.len(),
    ensures
        byte_offset(t, j) < byte_offset(t, k),
    decreases k - j,
{
    lemma_byte_offset_step(t, k - 1);
    if j < k - 1 {
        lemma_byte_offset_increases(t, j, k - 1);
    }
}

/// The character at the byte offset of character `k` is `k`.
pub proof fn lemma_char_at(t: Seq<char>, k: int)
    requires
        0 <= k <= t.len(),
    ensures
        is_boundary(t, byte_offset(t, k)),
        char_at(t, byte_offset(t, k)) == k,
{
    assert(byte_offset(t, k) == byte_offset(t, k));
    let c = char_at(t, byte_offset(t, k));
    if c < k {
        lemma_byte_offset_increases(t, c, k);
    } else if k < c {
        lemma_byte_offset_increases(t, k, c);
    }
}

/// A boundary is the byte offset of the character at it.
pub proof fn lemma_boundary(t: Seq<char>, b: int)
    requires
        is_boundary(t, b),
    ensures
        0 <= char_at(t, b) <= t.len(),
        byte_offset(t, char_at(t, b)) == b,
{
}


/// Number of newline characters in `t`.
pub open spec fn count_newlines(t: Seq<char>) -> nat
    decreases t.len(),
{
    if t.len() == 0 {
        0
    } else {
        count_newlines(t.drop_last()) + if t.last() == '\n' {
            1nat
        } else {
            0nat
        }
    }
}

/// Start offset of the line that holds `offset`.
pub open spec fn line_start(t: Seq<char>, offset: int) -> int
    decreases offset,
{
    if offset <= 0 {
        0
    } else if t[offset - 1] == '\n' {
        offset
    } else {
        line_start(t, offset - 1)
    }
}

/// One-based line number of `offset`.
pub open spec fn line_number(t: Seq<char>, offset: int) -> int {
    count_newlines(t.take(offset)) + 1int
}

/// One-based column of `offset`, counted in characters.
pub open spec fn column_number(t: Seq<char>, offset: int) -> int {
    offset - line_start(t, offset) + 1
}

/// Offset of the first newline at or after `from`, or the length of `t`.
pub open spec fn next_newline(t: Seq<char>, from: int) -> int
    decreases t.len() - from,
{
    if from >= t.len() {
        t.len() as int
    } else if t[from] == '\n' {
        from
    } else {
        next_newline(t, from + 1)
    }
}

/// Start offset of the one-based line `n`.
pub open spec fn nth_line_start(t: Seq<char>, n: int) -> int
    decreases n,
{
    if n <= 1 {
        0
    } else {
        next_newline(t, nth_line_start(t, n - 1)) + 1
    }
}

/// Line `n` exists when every line before it ends with a newline.
pub open spec fn line_exists(t: Seq<char>, n: int) -> bool
    decreases n,
{
    if n < 1 {
        false
    } else if n == 1 {
        true
    } else {
        line_exists(t, n - 1) && next_newline(t, nth_line_start(t, n - 1)) < t.len()
    }
}

pub proof fn lemma_next_newline_bounds(t: Seq<char>, from: int)
    requires
        0 <= from,
    ensures
        from <= t.len() ==> from <= next_newline(t, from) <= t.len(),
        next_newline(t, from) < t.len() ==> t[next_newline(t, from)] == '\n',
        forall|i: int| from <= i < next_newline(t, from) ==> t[i] != '\n',
    decreases t.len() - from,
{
    if from < t.len() && t[from] != '\n' {
        lemma_next_newline_bounds(t, from + 1);
    }
}

proof fn lemma_next_newline_at(t: Seq<char>, from: int, at: int)
    requires
        0 <= from <= at < t.len(),
        t[at] == '\n',
        forall|i: int| from <= i < at ==> t[i] != '\n',
    ensures
        next_newline(t, from) == at,
    decreases at - from,
{
    if from < at {
        lemma_next_newline_at(t, from + 1, at);
    }
}

proof fn lemma_line_start_bounds(t: Seq<char>, offset: int)
    requires
        0 <= offset <= t.len(),
    ensures
        0 <= line_start(t, offset) <= offset,
        forall|i: int| line_start(t, offset) <= i < offset ==> t[i] != '\n',
    decreases offset,
{
    if offset > 0 && t[offset - 1] != '\n' {
        lemma_line_start_bounds(t, offset - 1);
    }
}

proof fn lemma_count_take_step(t: Seq<char>, offset: int)
    requires
        0 < offset <= t.len(),
    ensures
        count_newlines(t.take(offset)) == count_newlines(t.take(offset - 1)) + if t[offset - 1]
            == '\n' {
            1nat
        } else {
            0nat
        },
{
    assert(t.take(offset).drop_last() == t.take(offset - 1));
}

/// The line number of an offset names an existing line that starts where the offset's line starts.
proof fn lemma_line_of_offset(t: Seq<char>, offset: int)
    requires
        0 <= offset <= t.len(),
    ensures
        line_exists(t, line_number(t, offset)),
        nth_line_start(t, line_number(t, offset)) == line_start(t, offset),
    decreases offset,
{
    if offset == 0 {
        assert(t.take(0) =~= Seq::<char>::empty());
    } else {
        lemma_line_of_offset(t, offset - 1);
        lemma_count_take_step(t, offset);
        if t[offset - 1] == '\n' {
            let previous = line_number(t, offset - 1);
            lemma_line_start_bounds(t, offset - 1);
            lemma_next_newline_at(t, line_start(t, offset - 1), offset - 1);
            assert(line_number(t, offset) == previous + 1);
        }
    }
}

proof fn lemma_count_take_monotonic(t: Seq<char>, offset: int)
    requires
        0 <= offset <= t.len(),
    ensures
        count_newlines(t.take(offset)) <= count_newlines(t),
    decreases t.len() - offset,
{
    if offset < t.len() {
        lemma_count_take_monotonic(t, offset + 1);
        lemma_count_take_step(t, offset + 1);
    } else {
        assert(t.take(offset) == t);
    }
}

impl SourceFile {
    pub closed spec fn spec_id(&self) -> FileId {
        self.id
    }

    pub closed spec fn spec_path(&self) -> Seq<char> {
        self.path@
    }

    /// The characters of the file.
    pub closed spec fn spec_text(&self) -> Seq<char> {
        self.text@
    }

    pub closed spec fn wf(&self) -> bool {
        &&& self.chars@ == self.text@
        &&& self.starts@.len() == self.chars@.len() + 1
        &&& forall|k: int| 0 <= k <= self.chars@.len() ==> #[trigger] self.starts@[k] == byte_offset(self.chars@, k)
    }

    pub fn new(id: FileId, path: &str, text: String) -> (source: SourceFile)
        requires
            utf8_len(text@) <= usize::MAX,
        ensures
            source.wf(),
            source.spec_id() == id,
            source.spec_path() == path@,
            source.spec_text() == text@,
    {
        let mut chars: Vec<char> = Vec::new();
        push_str(&mut chars, text.as_str());
        let mut path_text = String::new();
        path_text.append(path);
        let mut starts: Vec<usize> = Vec::new();
        let mut offset: usize = 0;
        let mut index: usize = 0;
        while index < chars.len()
            invariant
                chars@ == text@,
                utf8_len(chars@) <= usize::MAX,
                index <= chars@.len(),
                starts@.len() == index,
                offset == byte_offset(chars@, index as int),
                forall|k: int| 0 <= k < index ==> #[trigger] starts@[k] == byte_offset(chars@, k),
            decreases chars@.len() - index,
        {
            proof {
                lemma_byte_offset_step(chars@, index as int);
                lemma_utf8_len_append(chars@.take(index + 1), chars@.skip(index + 1));
                assert(chars@.take(index + 1) + chars@.skip(index + 1) =~= chars@);
            }
            starts.push(offset);
            offset = offset + utf8_width(chars[index]);
            index = index + 1;
        }
        starts.push(offset);
        SourceFile { id, path: path_text, text, chars, starts }
    }

    pub fn id(&self) -> (id: FileId)
        ensures
            id == self.spec_id(),
    {
        self.id
    }

    pub fn path(&self) -> (path: &str)
        ensures
            path@ == self.spec_path(),
    {
        self.path.as_str()
    }

    pub fn text(&self) -> (text: &str)
        ensures
            text@ == self.spec_text(),
    {
        self.text.as_str()
    }

    /// The characters of the file, one per entry.
    pub fn chars(&self) -> (chars: &Vec<char>)
        requires
            self.wf(),
        ensures
            chars@ == self.spec_text(),
    {
        &self.chars
    }

    /// A span lies in this file, in order, and both its ends fall between characters.
    pub open spec fn spec_contains(&self, span: Span) -> bool {
        &&& span.file == self.spec_id()
        &&& span.start <= span.end
        &&& is_boundary(self.spec_text(), span.start as int)
        &&& is_boundary(self.spec_text(), span.end as int)
    }

    /// A span lies in this file and inside its text.
    pub fn contains(&self, span: Span) -> (inside: bool)
        requires
            self.wf(),
        ensures
            inside == self.spec_contains(span),
    {
        span.file == self.id && span.start <= span.end && self.char_position(span.start).is_some()
            && self.char_position(span.end).is_some()
    }

    /// The index of the character that starts at byte `offset`; the number of characters at the
    /// end of the text; `None` elsewhere.
    pub fn char_position(&self, offset: usize) -> (found: Option<usize>)
        requires
            self.wf(),
        ensures
            found is Some <==> is_boundary(self.spec_text(), offset as int),
            found matches Some(k) ==> k == char_at(self.spec_text(), offset as int) && k
                <= self.spec_text().len(),
    {
        let ghost t = self.chars@;
        let mut k: usize = 0;
        while k < self.starts.len()
            invariant
                self.wf(),
                t == self.chars@,
                k <= self.starts@.len(),
                forall|j: int| 0 <= j < k ==> byte_offset(t, j) != offset,
            decreases self.starts@.len() - k,
        {
            if self.starts[k] == offset {
                proof {
                    lemma_char_at(t, k as int);
                }
                return Some(k);
            }
            k = k + 1;
        }
        proof {
            if is_boundary(t, offset as int) {
                let j = char_at(t, offset as int);
                assert(byte_offset(t, j) == offset);
            }
        }
        None
    }

    /// The byte offset of character `index`.
    pub fn byte_position(&self, index: usize) -> (offset: usize)
        requires
            self.wf(),
            index <= self.spec_text().len(),
        ensures
            offset == byte_offset(self.spec_text(), index as int),
    {
        self.starts[index]
    }

    /// Line and column of byte `offset`; `None` where no character starts there and it is not
    /// the end of the text.
    pub fn location(&self, offset: usize) -> (location: Option<Location>)
        requires
            self.wf(),
            self.spec_text().len() < usize::MAX,
        ensures
            location is Some <==> is_boundary(self.spec_text(), offset as int),
            location matches Some(found) ==> found == (Location {
                line: line_number(self.spec_text(), char_at(self.spec_text(), offset as int))
                    as usize,
                column: column_number(self.spec_text(), char_at(self.spec_text(), offset as int))
                    as usize,
            }),
    {
        match self.char_position(offset) {
            Some(index) => self.char_location(index),
            None => None,
        }
    }

    /// Line and column of character `offset`; `None` beyond the end of the text.
    pub(crate) fn char_location(&self, offset: usize) -> (location: Option<Location>)
        requires
            self.wf(),
            self.spec_text().len() < usize::MAX,
        ensures
            offset > self.spec_text().len() ==> location is None,
            offset <= self.spec_text().len() ==> location == Some(
                Location {
                    line: line_number(self.spec_text(), offset as int) as usize,
                    column: column_number(self.spec_text(), offset as int) as usize,
                },
            ),
    {
        if offset > self.chars.len() {
            return None;
        }
        let ghost t = self.chars@;
        let mut line: usize = 1;
        let mut start: usize = 0;
        let mut index: usize = 0;
        while index < offset
            invariant
                t == self.chars@,
                offset <= t.len(),
                t.len() < usize::MAX,
                index <= offset,
                line == count_newlines(t.take(index as int)) + 1,
                line <= index + 1,
                start == line_start(t, index as int),
                start <= index,
            decreases offset - index,
        {
            proof {
                lemma_count_take_step(t, index + 1);
            }
            if self.chars[index] == '\n' {
                line = line + 1;
                start = index + 1;
            }
            index = index + 1;
        }
        Some(Location { line, column: offset - start + 1 })
    }

    /// The one-based line `number` without its newline, with the byte offset where it starts;
    /// `None` when the text has fewer lines.
    pub fn line(&self, number: usize) -> (line: Option<Line>)
        requires
            self.wf(),
        ensures
            line is Some <==> line_exists(self.spec_text(), number as int),
            line matches Some(l) ==> {
                let first = nth_line_start(self.spec_text(), number as int);
                &&& l.start == byte_offset(self.spec_text(), first)
                &&& l.text@ == self.spec_text().subrange(first, next_newline(self.spec_text(), first))
            },
    {
        match self.char_line(number) {
            Some(found) => {
                proof {
                    lemma_nth_line_start_bound(self.spec_text(), number as int);
                }
                Some(Line { start: self.byte_position(found.start), text: found.text })
            },
            None => None,
        }
    }

    /// The one-based line `number` without its newline, with the index of its first character.
    pub(crate) fn char_line(&self, number: usize) -> (line: Option<Line>)
        requires
            self.wf(),
        ensures
            line is Some <==> line_exists(self.spec_text(), number as int),
            line matches Some(l) ==> {
                &&& l.start == nth_line_start(self.spec_text(), number as int)
                &&& l.text@ == self.spec_text().subrange(
                    l.start as int,
                    next_newline(self.spec_text(), l.start as int),
                )
            },
    {
        let ghost t = self.chars@;
        if number == 0 {
            return None;
        }
        let mut current: usize = 1;
        let mut start: usize = 0;
        while current < number
            invariant
                self.wf(),
                t == self.chars@,
                1 <= current <= number,
                line_exists(t, current as int),
                start == nth_line_start(t, current as int),
                start <= t.len(),
            decreases number - current,
        {
            let end = self.next_newline(start);
            if end >= self.chars.len() {
                proof {
                    assert(next_newline(t, nth_line_start(t, current as int)) >= t.len());
                    assert forall|k: int| k > current implies !line_exists(t, k) by {
                        lemma_line_missing_after(t, current as int, k);
                    }
                }
                return None;
            }
            start = end + 1;
            current = current + 1;
        }
        let end = self.next_newline(start);
        let mut text: Vec<char> = Vec::new();
        let mut index = start;
        while index < end
            invariant
                t == self.chars@,
                start <= index <= end <= t.len(),
                text@ == t.subrange(start as int, index as int),
            decreases end - index,
        {
            text.push(self.chars[index]);
            assert(t.subrange(start as int, index + 1) == t.subrange(start as int, index as int).push(
                t[index as int],
            ));
            index = index + 1;
        }
        Some(Line { start, text })
    }

    fn next_newline(&self, from: usize) -> (at: usize)
        requires
            self.wf(),
            from <= self.spec_text().len(),
        ensures
            at == next_newline(self.spec_text(), from as int),
            from <= at <= self.spec_text().len(),
    {
        let ghost t = self.chars@;
        proof {
            lemma_next_newline_bounds(t, from as int);
        }
        let mut index = from;
        while index < self.chars.len() && self.chars[index] != '\n'
            invariant
                t == self.chars@,
                from <= index <= t.len(),
                next_newline(t, index as int) == next_newline(t, from as int),
            decreases t.len() - index,
        {
            index = index + 1;
        }
        index
    }
}

proof fn lemma_nth_line_start_bound(t: Seq<char>, n: int)
    requires
        line_exists(t, n),
    ensures
        0 <= nth_line_start(t, n) <= t.len(),
    decreases n,
{
    if n > 1 {
        lemma_nth_line_start_bound(t, n - 1);
        lemma_next_newline_bounds(t, nth_line_start(t, n - 1));
    }
}

proof fn lemma_count_bound(t: Seq<char>)
    ensures
        count_newlines(t) <= t.len(),
    decreases t.len(),
{
    if t.len() > 0 {
        lemma_count_bound(t.drop_last());
    }
}

proof fn lemma_line_missing_after(t: Seq<char>, n: int, k: int)
    requires
        1 <= n < k,
        line_exists(t, n),
        next_newline(t, nth_line_start(t, n)) >= t.len(),
    ensures
        !line_exists(t, k),
    decreases k - n,
{
    if k > n + 1 {
        lemma_line_missing_after(t, n, k - 1);
    }
}

/// The line that holds `offset` exists and starts where that offset's line starts.
pub proof fn lemma_offset_line(t: Seq<char>, offset: int)
    requires
        0 <= offset <= t.len(),
    ensures
        line_exists(t, line_number(t, offset)),
        nth_line_start(t, line_number(t, offset)) == line_start(t, offset),
        0 <= line_start(t, offset) <= offset,
        offset <= next_newline(t, line_start(t, offset)) <= t.len(),
        line_number(t, offset) <= count_newlines(t) + 1,
        line_number(t, offset) <= offset + 1,
{
    lemma_count_bound(t.take(offset));
    lemma_line_of_offset(t, offset);
    lemma_line_start_bounds(t, offset);
    lemma_count_take_monotonic(t, offset);
    lemma_next_newline_bounds(t, line_start(t, offset));
    if next_newline(t, line_start(t, offset)) < offset {
        assert(t[next_newline(t, line_start(t, offset))] == '\n');
    }
}

} // verus!
