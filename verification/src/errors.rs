//! Errors of an indexed log.
//!
//! An `Error` carries messages, the errors that caused it, and whether it
//! was caused by a corruption of the data: callers test that to decide
//! whether to remove bad data and try to recover.

use vstd::prelude::*;
use vstd::string::{StrSliceExecFns, StringExecFns};

verus! {

/// The number of characters of `text` from `from` up to the next line
/// feed, or to the end where there is none.
pub open spec fn line_length(text: Seq<char>, from: int) -> nat
    decreases text.len() - from,
{
    if from < 0 || from >= text.len() || text[from] == '\n' {
        0
    } else {
        1 + line_length(text, from + 1)
    }
}

/// The place of the first line feed in `text` at `from` or after it; the
/// length of `text` where there is none.
pub open spec fn line_end(text: Seq<char>, from: int) -> int {
    from + line_length(text, from)
}

/// A line without the carriage return at its end, if it has one.
pub open spec fn without_return(line: Seq<char>) -> Seq<char> {
    if line.len() > 0 && line.last() == '\r' {
        line.drop_last()
    } else {
        line
    }
}

/// The lines of `text` from `from` on.
pub open spec fn lines_from(text: Seq<char>, from: int) -> Seq<Seq<char>>
    decreases text.len() - from,
{
    if from >= text.len() || from < 0 {
        Seq::empty()
    } else {
        let end = line_end(text, from);
        if end < text.len() {
            seq![without_return(text.subrange(from, end))] + lines_from(text, end + 1)
        } else {
            seq![text.subrange(from, end)]
        }
    }
}

/// The lines of a text: the text cut at its line endings, without them. A
/// line ends with a line feed, or with a carriage return and a line feed;
/// the last line need not end.
pub open spec fn lines_of(text: Seq<char>) -> Seq<Seq<char>> {
    lines_from(text, 0)
}

/// The character for a digit.
pub open spec fn digit(d: nat) -> char {
    if d == 0 {
        '0'
    } else if d == 1 {
        '1'
    } else if d == 2 {
        '2'
    } else if d == 3 {
        '3'
    } else if d == 4 {
        '4'
    } else if d == 5 {
        '5'
    } else if d == 6 {
        '6'
    } else if d == 7 {
        '7'
    } else if d == 8 {
        '8'
    } else {
        '9'
    }
}

/// The decimal digits of a number.
pub open spec fn decimal(n: nat) -> Seq<char>
    decreases n,
{
    if n < 10 {
        seq![digit(n)]
    } else {
        decimal(n / 10) + seq![digit(n % 10)]
    }
}

/// The text of a path for debugging: the path between quotes, with what
/// cannot be printed written out.
pub uninterp spec fn path_debug(path: Seq<char>) -> Seq<char>;

/// The texts of some strings.
pub open spec fn texts(strings: Seq<String>) -> Seq<Seq<char>> {
    strings.map_values(|s: String| s@)
}

/// The lines with `separator` between each two of them.
pub open spec fn joined(lines: Seq<Seq<char>>, separator: Seq<char>) -> Seq<char>
    decreases lines.len(),
{
    if lines.len() == 0 {
        Seq::empty()
    } else if lines.len() == 1 {
        lines[0]
    } else {
        joined(lines.drop_last(), separator) + separator + lines.last()
    }
}

/// The texts of some strings and one more.
pub proof fn lemma_texts_push(strings: Seq<String>, s: String)
    ensures
        texts(strings.push(s)) == texts(strings).push(s@),
{
    assert(texts(strings.push(s)) =~= texts(strings).push(s@));
}

/// The texts of some strings and some more.
pub proof fn lemma_texts_add(a: Seq<String>, b: Seq<String>)
    ensures
        texts(a + b) == texts(a) + texts(b),
{
    assert(texts(a + b) =~= texts(a) + texts(b));
}

/// `n` spaces.
pub open spec fn blanks(n: nat) -> Seq<char> {
    Seq::new(n, |i: int| ' ')
}

/// The text moved right by `spaces`, with `first_line_prefix` in the first
/// column of the first line.
pub open spec fn indented(text: Seq<char>, spaces: nat, first_line_prefix: char) -> Seq<char> {
    if spaces == 0 {
        text
    } else {
        seq![first_line_prefix] + blanks((spaces - 1) as nat) + joined(
            lines_of(text),
            seq!['\n'] + blanks(spaces),
        )
    }
}

/// The line that comes before the causes of an error.
pub open spec fn caused_by(count: nat) -> Seq<char> {
    "Caused by "@ + decimal(count) + " errors:"@
}

/// The lines that the causes of an error take in its text.
pub open spec fn cause_lines(causes: Seq<Seq<char>>) -> Seq<Seq<char>> {
    if causes.len() == 0 {
        Seq::empty()
    } else {
        seq![caused_by(causes.len())] + causes.map_values(|t: Seq<char>| indented(t, 2, '-'))
    }
}

/// What an error reads of one of its causes.
#[derive(Debug)]
pub struct ErrorSource {
    /// The text of the cause.
    pub display: String,
    /// The text of the cause for debugging.
    pub debug: String,
    /// Whether the cause is an error of this module that was caused by a
    /// corruption of the data.
    pub is_corruption: bool,
}

/// The mathematical content of an `ErrorSource`.
pub struct SourceView {
    pub display: Seq<char>,
    pub debug: Seq<char>,
    pub is_corruption: bool,
}

impl View for ErrorSource {
    type V = SourceView;

    open spec fn view(&self) -> SourceView {
        SourceView {
            display: self.display@,
            debug: self.debug@,
            is_corruption: self.is_corruption,
        }
    }
}

/// The kinds of failure of input and output that this module tells apart.
#[derive(Clone, Copy, PartialEq, Eq, Structural, Debug)]
pub enum IoFailure {
    /// The data ended before it was expected to.
    UnexpectedEof,
    /// The data is not valid.
    InvalidData,
    /// Any other failure.
    Other,
}

struct Inner {
    sources: Vec<ErrorSource>,
    messages: Vec<String>,
    is_corruption: bool,
}

/// An error of an indexed log.
pub struct Error {
    inner: Box<Inner>,
}

/// The mathematical content of an `Error`.
pub struct ErrorView {
    pub messages: Seq<Seq<char>>,
    pub sources: Seq<SourceView>,
    pub is_corruption: bool,
}

impl ErrorView {
    /// The text of the error: its messages, one to a line, then its causes.
    pub open spec fn display(self) -> Seq<char> {
        joined(
            self.messages + cause_lines(self.sources.map_values(|s: SourceView| s.display)),
            seq!['\n'],
        )
    }

    /// The text of the error for debugging: its messages, a note where it
    /// was caused by a corruption, then its causes.
    pub open spec fn debug(self) -> Seq<char> {
        joined(
            self.messages + (if self.is_corruption {
                seq!["(This error is considered as a data corruption)"@]
            } else {
                Seq::empty()
            }) + cause_lines(self.sources.map_values(|s: SourceView| s.debug)),
            seq!['\n'],
        )
    }

    /// The error with one more message.
    pub open spec fn with_message(self, message: Seq<char>) -> ErrorView {
        ErrorView { messages: self.messages.push(message), ..self }
    }

    /// The error with one more cause. A cause that is a corruption makes the
    /// error one.
    pub open spec fn with_source(self, source: SourceView) -> ErrorView {
        ErrorView {
            sources: self.sources.push(source),
            is_corruption: self.is_corruption || source.is_corruption,
            ..self
        }
    }

    /// The error, as one that was caused by a corruption.
    pub open spec fn corrupt(self) -> ErrorView {
        ErrorView { is_corruption: true, ..self }
    }

    /// The error with no message and no cause.
    pub open spec fn blank() -> ErrorView {
        ErrorView { messages: Seq::empty(), sources: Seq::empty(), is_corruption: false }
    }

    /// The error as a cause of another.
    pub open spec fn as_source(self) -> SourceView {
        SourceView {
            display: self.display(),
            debug: self.debug(),
            is_corruption: self.is_corruption,
        }
    }
}

/// The message of an error about `path`.
pub open spec fn about_path(path: Seq<char>, message: Seq<char>) -> Seq<char> {
    path + ": "@ + message
}

impl View for Error {
    type V = ErrorView;

    closed spec fn view(&self) -> ErrorView {
        ErrorView {
            messages: texts(self.inner.messages@),
            sources: self.inner.sources@.map_values(|s: ErrorSource| s@),
            is_corruption: self.inner.is_corruption,
        }
    }
}

/// The lines of a text.
pub fn split_lines(text: &str) -> (lines: Vec<String>)
    ensures
        texts(lines@) == lines_of(text@),
{
    let n = text.unicode_len();
    let mut lines: Vec<String> = Vec::new();
    let mut from: usize = 0;
    proof {
        assert(texts(lines@) =~= Seq::<Seq<char>>::empty());
    }
    while from < n
        invariant
            from <= n,
            n == text@.len(),
            lines_of(text@) == texts(lines@) + lines_from(text@, from as int),
        decreases n - from,
    {
        let mut end: usize = from;
        while end < n && text.get_char(end) != '\n'
            invariant
                from <= end <= n,
                n == text@.len(),
                line_end(text@, from as int) == line_end(text@, end as int),
            decreases n - end,
        {
            end += 1;
        }
        proof {
            assert(line_end(text@, end as int) == end);
        }
        let ghost before = lines@;
        if end < n {
            let mut stop: usize = end;
            if stop > from && text.get_char(stop - 1) == '\r' {
                stop -= 1;
            }
            let line = String::from_str(text.substring_char(from, stop));
            lines.push(line);
            proof {
                let whole = text@.subrange(from as int, end as int);
                assert(line@ =~= without_return(whole));
                lemma_texts_push(before, line);
                assert(texts(lines@) + lines_from(text@, end + 1) =~= texts(before) + (seq![
                    without_return(whole),
                ] + lines_from(text@, end + 1)));
            }
            from = end + 1;
        } else {
            let line = String::from_str(text.substring_char(from, end));
            lines.push(line);
            proof {
                lemma_texts_push(before, line);
                assert(texts(lines@) + lines_from(text@, end as int) =~= texts(before) + seq![
                    text@.subrange(from as int, end as int),
                ]);
            }
            from = end;
        }
    }
    proof {
        assert(texts(lines@) + lines_from(text@, from as int) =~= texts(lines@));
    }
    lines
}

/// The character for a digit, as a string.
fn digit_string(d: usize) -> (s: String)
    requires
        d < 10,
    ensures
        s@ == seq![digit(d as nat)],
{
    proof {
        reveal_strlit("0");
        reveal_strlit("1");
        reveal_strlit("2");
        reveal_strlit("3");
        reveal_strlit("4");
        reveal_strlit("5");
        reveal_strlit("6");
        reveal_strlit("7");
        reveal_strlit("8");
        reveal_strlit("9");
    }
    let text = if d == 0 {
        "0"
    } else if d == 1 {
        "1"
    } else if d == 2 {
        "2"
    } else if d == 3 {
        "3"
    } else if d == 4 {
        "4"
    } else if d == 5 {
        "5"
    } else if d == 6 {
        "6"
    } else if d == 7 {
        "7"
    } else if d == 8 {
        "8"
    } else {
        "9"
    };
    let s = String::from_str(text);
    proof {
        assert(s@ =~= seq![digit(d as nat)]);
    }
    s
}

/// The decimal digits of a number.
pub fn decimal_string(n: usize) -> (digits: String)
    ensures
        digits@ == decimal(n as nat),
{
    let mut digits = digit_string(n % 10);
    let mut rest = n / 10;
    while rest > 0
        invariant
            rest > 0 ==> decimal(n as nat) == decimal(rest as nat) + digits@,
            rest == 0 ==> decimal(n as nat) == digits@,
        decreases rest,
    {
        let mut longer = digit_string(rest % 10);
        longer.append(digits.as_str());
        proof {
            if rest >= 10 {
                assert(decimal(rest as nat) + digits@ =~= decimal((rest / 10) as nat) + longer@);
            }
        }
        digits = longer;
        rest = rest / 10;
    }
    digits
}

/// The string of one character, as `char::to_string` gives it.
#[verifier::external_body]
fn char_string(c: char) -> (s: String)
    ensures
        s@ == seq![c],
{
    c.to_string()
}

/// The text of a path for debugging, as `Debug` writes it for `Path`.
#[verifier::external_body]
fn path_text(path: &str) -> (text: String)
    ensures
        text@ == path_debug(path@),
{
    format!("{:?}", std::path::Path::new(path))
}

/// The text of a failure of input or output, as `Display` writes it for
/// `std::io::Error`.
#[verifier::external_body]
fn io_error_display(err: &std::io::Error) -> (text: String) {
    format!("{}", err)
}

/// The text of a failure of input or output for debugging, as `Debug`
/// writes it for `std::io::Error`.
#[verifier::external_body]
fn io_error_debug(err: &std::io::Error) -> (text: String) {
    format!("{:?}", err)
}

/// The kind of a failure of input or output, from `std::io::Error::kind`.
#[verifier::external_body]
fn io_error_kind(err: &std::io::Error) -> (kind: IoFailure) {
    match err.kind() {
        std::io::ErrorKind::UnexpectedEof => IoFailure::UnexpectedEof,
        std::io::ErrorKind::InvalidData => IoFailure::InvalidData,
        _ => IoFailure::Other,
    }
}

/// A failure of input or output, `std::io::Error`: carried through, never
/// looked into.
#[verifier::external_type_specification]
#[verifier::external_body]
pub struct ExIoError(std::io::Error);

/// `n` spaces.
pub fn repeat_space(n: usize) -> (s: String)
    ensures
        s@ == blanks(n as nat),
{
    let mut s = String::new();
    let mut i: usize = 0;
    while i < n
        invariant
            i <= n,
            s@ == blanks(i as nat),
        decreases n - i,
    {
        s.append(" ");
        proof {
            reveal_strlit(" ");
            assert(" "@ =~= seq![' ']);
            assert(s@ =~= blanks((i + 1) as nat));
        }
        i += 1;
    }
    s
}

/// The lines with `separator` between each two of them.
pub fn join(lines: &Vec<String>, separator: &str) -> (text: String)
    ensures
        text@ == joined(texts(lines@), separator@),
{
    let mut text = String::new();
    let mut i: usize = 0;
    proof {
        assert(texts(lines@).subrange(0, 0) =~= Seq::<Seq<char>>::empty());
    }
    while i < lines.len()
        invariant
            i <= lines.len(),
            text@ == joined(texts(lines@).subrange(0, i as int), separator@),
        decreases lines.len() - i,
    {
        let ghost before = text@;
        if i > 0 {
            text.append(separator);
        }
        text.append(lines[i].as_str());
        proof {
            let all = texts(lines@);
            let longer = all.subrange(0, i + 1);
            assert(longer.drop_last() =~= all.subrange(0, i as int));
            assert(longer.last() == lines@[i as int]@);
            if i == 0 {
                assert(before =~= Seq::<char>::empty());
                assert(text@ =~= longer[0]);
            }
        }
        i += 1;
    }
    proof {
        assert(texts(lines@).subrange(0, i as int) =~= texts(lines@));
    }
    text
}

/// Moves a text right by `spaces`, and puts `first_line_prefix` in the
/// first column of the first line.
pub fn indent(s: String, spaces: usize, first_line_prefix: char) -> (text: String)
    ensures
        text@ == indented(s@, spaces as nat, first_line_prefix),
{
    if spaces == 0 {
        s
    } else {
        let lines = split_lines(s.as_str());
        let mut separator = String::from_str("\n");
        separator.append(repeat_space(spaces).as_str());
        let mut text = char_string(first_line_prefix);
        text.append(repeat_space(spaces - 1).as_str());
        text.append(join(&lines, separator.as_str()).as_str());
        proof {
            reveal_strlit("\n");
            assert("\n"@ =~= seq!['\n']);
        }
        text
    }
}

/// The lines that the causes of an error take in its text.
fn render_causes(sources: &Vec<ErrorSource>, debug: bool) -> (lines: Vec<String>)
    ensures
        texts(lines@) == cause_lines(
            sources@.map_values(
                |s: ErrorSource|
                    if debug {
                        s@.debug
                    } else {
                        s@.display
                    },
            ),
        ),
{
    let ghost causes = sources@.map_values(
        |s: ErrorSource|
            if debug {
                s@.debug
            } else {
                s@.display
            },
    );
    let mut lines: Vec<String> = Vec::new();
    if sources.len() == 0 {
        proof {
            assert(texts(lines@) =~= cause_lines(causes));
        }
        return lines;
    }
    let mut first = String::from_str("Caused by ");
    first.append(decimal_string(sources.len()).as_str());
    first.append(" errors:");
    lines.push(first);
    proof {
        assert(texts(lines@) =~= seq![caused_by(sources.len() as nat)] + causes.subrange(
            0,
            0,
        ).map_values(|t: Seq<char>| indented(t, 2, '-')));
    }
    let mut i: usize = 0;
    while i < sources.len()
        invariant
            i <= sources.len(),
            sources.len() > 0,
            causes == sources@.map_values(
                |s: ErrorSource|
                    if debug {
                        s@.debug
                    } else {
                        s@.display
                    },
            ),
            texts(lines@) == seq![caused_by(sources.len() as nat)] + causes.subrange(
                0,
                i as int,
            ).map_values(|t: Seq<char>| indented(t, 2, '-')),
        decreases sources.len() - i,
    {
        let text = if debug {
            sources[i].debug.clone()
        } else {
            sources[i].display.clone()
        };
        let ghost before = lines@;
        let ghost raw = text@;
        let line = indent(text, 2, '-');
        lines.push(line);
        proof {
            lemma_texts_push(before, line);
            assert(raw == causes[i as int]);
            let done = causes.subrange(0, i as int).map_values(|t: Seq<char>| indented(t, 2, '-'));
            let more = causes.subrange(0, i + 1).map_values(|t: Seq<char>| indented(t, 2, '-'));
            assert(more =~= done.push(indented(causes[i as int], 2, '-')));
            assert(texts(lines@) =~= seq![caused_by(sources.len() as nat)] + more);
        }
        i += 1;
    }
    proof {
        assert(causes.subrange(0, i as int) =~= causes);
    }
    lines
}

/// A copy of some strings.
fn copy_strings(strings: &Vec<String>) -> (copy: Vec<String>)
    ensures
        texts(copy@) == texts(strings@),
{
    let mut copy: Vec<String> = Vec::new();
    let mut i: usize = 0;
    while i < strings.len()
        invariant
            i <= strings.len(),
            texts(copy@) == texts(strings@).subrange(0, i as int),
        decreases strings.len() - i,
    {
        let ghost before = copy@;
        let one = strings[i].clone();
        copy.push(one);
        proof {
            lemma_texts_push(before, one);
            assert(one@ == strings@[i as int]@);
            assert(texts(strings@).subrange(0, i + 1) =~= texts(strings@).subrange(
                0,
                i as int,
            ).push(strings@[i as int]@));
        }
        i += 1;
    }
    proof {
        assert(texts(strings@).subrange(0, i as int) =~= texts(strings@));
    }
    copy
}

impl Error {
    /// Whether the error was caused by a corruption of the data.
    pub fn is_corruption(&self) -> (r: bool)
        ensures
            r == self@.is_corruption,
    {
        self.inner.is_corruption
    }

    /// The error with one more message.
    pub fn message(self, message: &str) -> (e: Error)
        ensures
            e@ == self@.with_message(message@),
    {
        let mut inner = self.inner;
        inner.messages.push(String::from_str(message));
        let e = Error { inner };
        proof {
            assert(e@.messages =~= self@.messages.push(message@));
        }
        e
    }

    /// The error with another error of this module as one more cause.
    pub fn source(self, source: Error) -> (e: Error)
        ensures
            e@ == self@.with_source(source@.as_source()),
    {
        let cause = source.as_source();
        self.source_dyn(cause)
    }

    /// The error with one more cause.
    pub fn source_dyn(self, source: ErrorSource) -> (e: Error)
        ensures
            e@ == self@.with_source(source@),
    {
        let mut inner = self.inner;
        // Inherit the data corruption flag.
        if source.is_corruption {
            inner.is_corruption = true;
        }
        inner.sources.push(source);
        let e = Error { inner };
        proof {
            assert(e@.sources =~= self@.sources.push(source@));
        }
        e
    }

    /// The error, as one that was caused by a corruption of the data.
    pub fn mark_corruption(self) -> (e: Error)
        ensures
            e@ == self@.corrupt(),
    {
        let mut inner = self.inner;
        inner.is_corruption = true;
        Error { inner }
    }

    /// The error with no message and no cause.
    pub fn blank() -> (e: Error)
        ensures
            e@ == ErrorView::blank(),
    {
        let e = Error {
            inner: Box::new(Inner { sources: Vec::new(), messages: Vec::new(), is_corruption: false }),
        };
        proof {
            assert(e@.messages =~= Seq::<Seq<char>>::empty());
            assert(e@.sources =~= Seq::<SourceView>::empty());
        }
        e
    }

    /// An error of the program itself: something that it took for granted
    /// does not hold, such as an argument that is not valid.
    pub fn programming(message: &str) -> (e: Error)
        ensures
            e@ == ErrorView::blank().with_message("ProgrammingError: "@ + message@),
    {
        let mut text = String::from_str("ProgrammingError: ");
        text.append(message);
        Error::blank().message(text.as_str())
    }

    /// An error about data at `path` that is corrupt.
    pub fn corruption(path: &str, message: &str) -> (e: Error)
        ensures
            e@ == ErrorView::blank().corrupt().with_message(
                about_path(path_debug(path@), message@),
            ),
    {
        let mut text = path_text(path);
        text.append(": ");
        text.append(message);
        Error::blank().mark_corruption().message(text.as_str())
    }

    /// An error about `path` that is not about corrupt data.
    pub fn path(path: &str, message: &str) -> (e: Error)
        ensures
            e@ == ErrorView::blank().with_message(about_path(path_debug(path@), message@)),
    {
        let mut text = path_text(path);
        text.append(": ");
        text.append(message);
        Error::blank().message(text.as_str())
    }

    /// An error with one message and one cause.
    pub fn wrap<M: LazyToString>(err: ErrorSource, message: M) -> (e: Error)
        requires
            message.ready(),
        ensures
            exists|text: String|
                #[trigger] message.makes(text) && e@ == ErrorView::blank().with_message(
                    text@,
                ).with_source(err@),
    {
        let text = message.to_string_costly();
        Error::blank().message(text.as_str()).source_dyn(err)
    }

    /// The text of the error.
    pub fn to_display_string(&self) -> (text: String)
        ensures
            text@ == self@.display(),
    {
        let mut lines = copy_strings(&self.inner.messages);
        let mut causes = render_causes(&self.inner.sources, false);
        let ghost messages = lines@;
        let ghost tail = causes@;
        lines.append(&mut causes);
        proof {
            lemma_texts_add(messages, tail);
            assert(self.inner.sources@.map_values(
                |s: ErrorSource|
                    if false {
                        s@.debug
                    } else {
                        s@.display
                    },
            ) =~= self@.sources.map_values(|s: SourceView| s.display));
            reveal_strlit("\n");
            assert("\n"@ =~= seq!['\n']);
            assert(texts(lines@) == self@.messages + cause_lines(
                self@.sources.map_values(|s: SourceView| s.display),
            ));
        }
        join(&lines, "\n")
    }

    /// The text of the error for debugging.
    pub fn to_debug_string(&self) -> (text: String)
        ensures
            text@ == self@.debug(),
    {
        let mut lines = copy_strings(&self.inner.messages);
        let ghost messages = lines@;
        if self.is_corruption() {
            lines.push(String::from_str("(This error is considered as a data corruption)"));
        }
        let ghost head = lines@;
        let mut causes = render_causes(&self.inner.sources, true);
        let ghost tail = causes@;
        lines.append(&mut causes);
        proof {
            if self@.is_corruption {
                lemma_texts_push(
                    messages,
                    head[head.len() - 1],
                );
                assert(head =~= messages.push(head[head.len() - 1]));
            }
            assert(texts(head) =~= texts(messages) + (if self@.is_corruption {
                seq!["(This error is considered as a data corruption)"@]
            } else {
                Seq::empty()
            }));
            lemma_texts_add(head, tail);
            assert(self.inner.sources@.map_values(
                |s: ErrorSource|
                    if true {
                        s@.debug
                    } else {
                        s@.display
                    },
            ) =~= self@.sources.map_values(|s: SourceView| s.debug));
            reveal_strlit("\n");
            assert("\n"@ =~= seq!['\n']);
            assert(texts(lines@) == self@.messages + (if self@.is_corruption {
                seq!["(This error is considered as a data corruption)"@]
            } else {
                Seq::empty()
            }) + cause_lines(self@.sources.map_values(|s: SourceView| s.debug)));
        }
        join(&lines, "\n")
    }

    /// The error as a cause of another.
    pub fn as_source(&self) -> (source: ErrorSource)
        ensures
            source@ == self@.as_source(),
    {
        ErrorSource {
            display: self.to_display_string(),
            debug: self.to_debug_string(),
            is_corruption: self.is_corruption(),
        }
    }

    /// The error for a failure of input or output about `path`: the failure
    /// is its cause, and it is a corruption where the data ended too early
    /// or is not valid.
    pub fn from_io_failure(
        kind: IoFailure,
        display: String,
        debug: String,
        path: &str,
        message: &str,
    ) -> (e: Error)
        ensures
            e@ == (ErrorView {
                messages: seq![about_path(path_debug(path@), message@)],
                sources: seq![SourceView { display: display@, debug: debug@, is_corruption: false }],
                is_corruption: kind == IoFailure::UnexpectedEof || kind == IoFailure::InvalidData,
            }),
    {
        let corruption = match kind {
            // For example, try to map 200 bytes of a file that has only
            // 100. This is unlikely to come from anything but corrupt data.
            IoFailure::UnexpectedEof | IoFailure::InvalidData => true,
            IoFailure::Other => false,
        };
        let mut text = path_text(path);
        text.append(": ");
        text.append(message);
        let source = ErrorSource { display, debug, is_corruption: false };
        let mut err = Error::blank().source_dyn(source).message(text.as_str());
        if corruption {
            err = err.mark_corruption();
        }
        proof {
            assert(err@.messages =~= seq![about_path(path_debug(path@), message@)]);
            assert(err@.sources =~= seq![
                SourceView { display: display@, debug: debug@, is_corruption: false },
            ]);
        }
        err
    }
}

/// A message that may be costly to make, and is made only when it is needed.
pub trait LazyToString {
    /// The message can be made.
    spec fn ready(&self) -> bool;

    /// `text` is what making the message may give.
    spec fn makes(&self, text: String) -> bool;

    fn to_string_costly(&self) -> (text: String)
        requires
            self.ready(),
        ensures
            self.makes(text),
    ;
}

impl LazyToString for &'static str {
    open spec fn ready(&self) -> bool {
        true
    }

    open spec fn makes(&self, text: String) -> bool {
        text@ == self@
    }

    fn to_string_costly(&self) -> (text: String) {
        String::from_str(self)
    }
}

impl<F: Fn() -> String> LazyToString for F {
    open spec fn ready(&self) -> bool {
        call_requires(*self, ())
    }

    open spec fn makes(&self, text: String) -> bool {
        call_ensures(*self, (), text)
    }

    fn to_string_costly(&self) -> (text: String) {
        self()
    }
}

/// The result of an operation of an indexed log.
pub type Result<T> = std::result::Result<T, Error>;

/// Adding to the error of a result.
pub trait ResultExt<T>: Sized {
    /// Marks the error as caused by a corruption of the data.
    fn corruption(self) -> Self;

    /// Adds a message to the error.
    fn context<M: LazyToString>(self, message: M) -> Self
        requires
            message.ready(),
    ;

    /// Adds a cause to the error.
    fn source(self, source: Error) -> Self;
}

impl<T> ResultExt<T> for Result<T> {
    fn corruption(self) -> (r: Self)
        ensures
            match (self, r) {
                (Ok(a), Ok(b)) => a == b,
                (Err(e), Err(f)) => f@ == e@.corrupt(),
                _ => false,
            },
    {
        match self {
            Ok(value) => Ok(value),
            Err(err) => Err(err.mark_corruption()),
        }
    }

    fn context<M: LazyToString>(self, message: M) -> (r: Self)
        ensures
            match (self, r) {
                (Ok(a), Ok(b)) => a == b,
                (Err(e), Err(f)) => exists|text: String|
                    #[trigger] message.makes(text) && f@ == e@.with_message(text@),
                _ => false,
            },
    {
        match self {
            Ok(value) => Ok(value),
            Err(err) => {
                let text = message.to_string_costly();
                Err(err.message(text.as_str()))
            },
        }
    }

    fn source(self, source: Error) -> (r: Self)
        ensures
            match (self, r) {
                (Ok(a), Ok(b)) => a == b,
                (Err(e), Err(f)) => f@ == e@.with_source(source@.as_source()),
                _ => false,
            },
    {
        match self {
            Ok(value) => Ok(value),
            Err(err) => Err(err.source(source)),
        }
    }
}

/// Turning the result of input or output into a result of an indexed log.
pub trait IoResultExt<T>: Sized {
    /// Wraps the failure with the path and the operation that failed. A
    /// failure because the data ended too early or is not valid is marked
    /// as a corruption.
    fn context<M: LazyToString>(self, path: &str, message: M) -> Result<T>
        requires
            message.ready(),
    ;

    /// Wraps a failure that is not expected, such as one of writing to memory.
    fn infallible(self) -> Result<T>;
}

impl<T> IoResultExt<T> for std::result::Result<T, std::io::Error> {
    fn context<M: LazyToString>(self, path: &str, message: M) -> (r: Result<T>)
        ensures
            match (self, r) {
                (Ok(a), Ok(b)) => a == b,
                (Err(_), Err(e)) => exists|text: String|
                    #[trigger] message.makes(text) && e@.messages == seq![
                        about_path(path_debug(path@), text@),
                    ] && e@.sources.len() == 1 && !e@.sources[0].is_corruption,
                _ => false,
            },
    {
        match self {
            Ok(value) => Ok(value),
            Err(err) => {
                let text = message.to_string_costly();
                Err(
                    Error::from_io_failure(
                        io_error_kind(&err),
                        io_error_display(&err),
                        io_error_debug(&err),
                        path,
                        text.as_str(),
                    ),
                )
            },
        }
    }

    fn infallible(self) -> (r: Result<T>)
        ensures
            match (self, r) {
                (Ok(a), Ok(b)) => a == b,
                (Err(_), Err(e)) => e@.messages == seq!["Unexpected failure"@] && e@.sources.len()
                    == 1 && !e@.is_corruption,
                _ => false,
            },
    {
        match self {
            Ok(value) => Ok(value),
            Err(err) => {
                let source = ErrorSource {
                    display: io_error_display(&err),
                    debug: io_error_debug(&err),
                    is_corruption: false,
                };
                let e = Error::blank().source_dyn(source).message("Unexpected failure");
                proof {
                    assert(e@.messages =~= seq!["Unexpected failure"@]);
                }
                Err(e)
            },
        }
    }
}

} // verus!
