//! Reading a window's rectangle out of the text that `xwininfo` prints.
//!
//! The text is cut into lines at line feeds. A line counts where, once
//! trimmed, it starts with the label of a field; what follows the label is
//! trimmed again and read as an `i64`. Lines are taken from first to last:
//! the first number that cannot be read ends the reading with an error, and
//! where several lines give the same field the last one stands. Only when all
//! lines have been read are the four fields asked for, in the order X, Y,
//! width, height, and the first one that no line gave is reported.

use crate::error::{FieldError, ParseError};
use crate::field::{label_of, lemma_label_ends, lemma_labels_exclusive, rank_of, Field};
use crate::number::{
    integer_value, is_integer_text, lemma_parsed_i64_value, parse_i64, parsed_i64,
    NumberErrorKind,
};
use crate::text::{
    all_spaces, chars_of, is_space, lemma_trimmed_range, lines_of, split_lines, starts_with,
    texts_of, trim, trimmed,
};
use vstd::prelude::*;
use vstd::slice::slice_subrange;

verus! {

/// The rectangle of a window: the absolute position of its upper-left corner
/// and its size.
#[derive(Clone, Copy, Debug, PartialEq, Eq, Structural)]
pub struct WindowInfo {
    /// Horizontal position of the upper-left corner on the screen.
    pub x: i64,
    /// Vertical position of the upper-left corner on the screen.
    pub y: i64,
    /// Width of the window.
    pub width: i64,
    /// Height of the window.
    pub height: i64,
}

/// What has been read of each field so far: nothing, or the number of the
/// last line that gave the field.
#[derive(Clone, Copy, Debug)]
pub struct Readings {
    pub x: Option<i64>,
    pub y: Option<i64>,
    pub width: Option<i64>,
    pub height: Option<i64>,
}

impl Readings {
    /// Nothing read yet.
    pub open spec fn none() -> Readings {
        Readings { x: None, y: None, width: None, height: None }
    }

    /// What has been read of `field`.
    pub open spec fn get(self, field: Field) -> Option<i64> {
        match field {
            Field::X => self.x,
            Field::Y => self.y,
            Field::Width => self.width,
            Field::Height => self.height,
        }
    }

    /// These readings with `value` in the place of what was read of `field`.
    pub open spec fn with(self, field: Field, value: i64) -> Readings {
        match field {
            Field::X => Readings { x: Some(value), ..self },
            Field::Y => Readings { y: Some(value), ..self },
            Field::Width => Readings { width: Some(value), ..self },
            Field::Height => Readings { height: Some(value), ..self },
        }
    }

    /// The rectangle that the readings make up, or the first field, in the
    /// order X, Y, width, height, of which nothing was read.
    pub open spec fn window(self) -> Result<WindowInfo, ParseError> {
        if self.x is None {
            Err(ParseError::MissingField(FieldError { field: Field::X }))
        } else if self.y is None {
            Err(ParseError::MissingField(FieldError { field: Field::Y }))
        } else if self.width is None {
            Err(ParseError::MissingField(FieldError { field: Field::Width }))
        } else if self.height is None {
            Err(ParseError::MissingField(FieldError { field: Field::Height }))
        } else {
            Ok(
                WindowInfo {
                    x: self.x->Some_0,
                    y: self.y->Some_0,
                    width: self.width->Some_0,
                    height: self.height->Some_0,
                },
            )
        }
    }

    /// Readings with nothing read yet.
    pub fn new() -> (r: Readings)
        ensures
            r == Readings::none(),
    {
        Readings { x: None, y: None, width: None, height: None }
    }

    /// Puts `value` in the place of what was read of `field`.
    pub fn record(&mut self, field: Field, value: i64)
        ensures
            *final(self) == old(self).with(field, value),
    {
        match field {
            Field::X => {
                self.x = Some(value);
            },
            Field::Y => {
                self.y = Some(value);
            },
            Field::Width => {
                self.width = Some(value);
            },
            Field::Height => {
                self.height = Some(value);
            },
        }
    }

    /// Makes the rectangle out of the readings, or names the first field, in
    /// the order X, Y, width, height, of which nothing was read.
    pub fn finish(&self) -> (r: Result<WindowInfo, ParseError>)
        ensures
            r == self.window(),
    {
        let x = match self.x {
            Some(x) => x,
            None => {
                return Err(ParseError::MissingField(FieldError::new(Field::X)));
            },
        };
        let y = match self.y {
            Some(y) => y,
            None => {
                return Err(ParseError::MissingField(FieldError::new(Field::Y)));
            },
        };
        let width = match self.width {
            Some(width) => width,
            None => {
                return Err(ParseError::MissingField(FieldError::new(Field::Width)));
            },
        };
        let height = match self.height {
            Some(height) => height,
            None => {
                return Err(ParseError::MissingField(FieldError::new(Field::Height)));
            },
        };
        Ok(WindowInfo { x, y, width, height })
    }
}

/// The field that `line` gives: the first one, in the order X, Y, width,
/// height, with whose label the trimmed line starts.
pub open spec fn line_field(line: Seq<char>) -> Option<Field> {
    let t = trimmed(line);
    if label_of(Field::X).is_prefix_of(t) {
        Some(Field::X)
    } else if label_of(Field::Y).is_prefix_of(t) {
        Some(Field::Y)
    } else if label_of(Field::Width).is_prefix_of(t) {
        Some(Field::Width)
    } else if label_of(Field::Height).is_prefix_of(t) {
        Some(Field::Height)
    } else {
        None
    }
}

/// What `line` says after the label of `field`, trimmed.
pub open spec fn line_value(line: Seq<char>, field: Field) -> Seq<char> {
    trimmed(trimmed(line).skip(label_of(field).len() as int))
}

/// What `line` gives: nothing, or a field with the number read for it or the
/// reason why none could be read.
pub open spec fn line_reading(line: Seq<char>) -> Option<(Field, Result<i64, NumberErrorKind>)> {
    match line_field(line) {
        None => None,
        Some(field) => Some((field, parsed_i64(line_value(line, field)))),
    }
}

/// Whether `line` gives a field with something that is not an `i64`.
pub open spec fn is_bad_line(line: Seq<char>) -> bool {
    line_reading(line) matches Some((_, Err(_)))
}

/// What reading `lines` from first to last gives: the last number read for
/// each field, or the error of the first line whose number cannot be read.
pub open spec fn readings_of(lines: Seq<Seq<char>>) -> Result<Readings, ParseError>
    decreases lines.len(),
{
    if lines.len() == 0 {
        Ok(Readings::none())
    } else {
        match readings_of(lines.drop_last()) {
            Err(error) => Err(error),
            Ok(readings) => match line_reading(lines.last()) {
                None => Ok(readings),
                Some((field, Ok(value))) => Ok(readings.with(field, value)),
                Some((field, Err(kind))) => Err(ParseError::NumberFormat { field, kind }),
            },
        }
    }
}

/// The rectangle that `text` gives, or why it gives none.
pub open spec fn window_of(text: Seq<char>) -> Result<WindowInfo, ParseError> {
    match readings_of(lines_of(text)) {
        Err(error) => Err(error),
        Ok(readings) => readings.window(),
    }
}

/// No line of `lines` gives `field`.
pub open spec fn absent(lines: Seq<Seq<char>>, field: Field) -> bool {
    forall|j: int| 0 <= j < lines.len() ==> line_field(#[trigger] lines[j]) != Some(field)
}

/// Line `i` is the last line of `lines` that gives `field`.
pub open spec fn is_last_of(lines: Seq<Seq<char>>, i: int, field: Field) -> bool {
    &&& 0 <= i < lines.len()
    &&& line_field(lines[i]) == Some(field)
    &&& forall|j: int| i < j < lines.len() ==> line_field(#[trigger] lines[j]) != Some(field)
}

/// Line `i` is the only line of `lines` that gives `field`.
pub open spec fn is_only_of(lines: Seq<Seq<char>>, i: int, field: Field) -> bool {
    &&& 0 <= i < lines.len()
    &&& line_field(lines[i]) == Some(field)
    &&& forall|j: int|
        0 <= j < lines.len() && j != i ==> line_field(#[trigger] lines[j]) != Some(field)
}

/// Line `i` is the first line of `lines` whose number cannot be read.
pub open spec fn is_first_bad(lines: Seq<Seq<char>>, i: int) -> bool {
    &&& 0 <= i < lines.len()
    &&& is_bad_line(lines[i])
    &&& forall|j: int| 0 <= j < i ==> !is_bad_line(#[trigger] lines[j])
}

/// No line of `lines` has a number that cannot be read.
pub open spec fn all_readable(lines: Seq<Seq<char>>) -> bool {
    forall|j: int| 0 <= j < lines.len() ==> !is_bad_line(#[trigger] lines[j])
}

/// The order in which the labels are tried does not matter: a line gives
/// `field` exactly where, trimmed, it starts with that field's label.
pub proof fn lemma_line_field(line: Seq<char>, field: Field)
    ensures
        line_field(line) == Some(field) <==> label_of(field).is_prefix_of(trimmed(line)),
{
    let t = trimmed(line);
    if label_of(field).is_prefix_of(t) {
        if label_of(Field::X).is_prefix_of(t) {
            lemma_labels_exclusive(t, field, Field::X);
        }
        if label_of(Field::Y).is_prefix_of(t) {
            lemma_labels_exclusive(t, field, Field::Y);
        }
        if label_of(Field::Width).is_prefix_of(t) {
            lemma_labels_exclusive(t, field, Field::Width);
        }
        if label_of(Field::Height).is_prefix_of(t) {
            lemma_labels_exclusive(t, field, Field::Height);
        }
    }
}

/// A line that is made of a label and a value, with any whitespace before,
/// between and after them, gives the field of that label with that value.
/// The value is any text that neither starts nor ends with whitespace.
pub proof fn lemma_labelled_line(
    before: Seq<char>,
    field: Field,
    between: Seq<char>,
    value: Seq<char>,
    after: Seq<char>,
)
    requires
        all_spaces(before),
        all_spaces(between),
        all_spaces(after),
        value.len() > 0 ==> !is_space(value[0]) && !is_space(value.last()),
    ensures
        line_field(before + label_of(field) + between + value + after) == Some(field),
        line_value(before + label_of(field) + between + value + after, field) == value,
{
    let label = label_of(field);
    let line = before + label + between + value + after;
    let lo = before.len() as int;
    lemma_label_ends(field);
    assert(line[lo] == label[0]);
    if value.len() > 0 {
        let hi = lo + label.len() + between.len() + value.len();
        assert(line[hi - 1] == value.last());
        assert forall|i: int| hi <= i < line.len() implies is_space(#[trigger] line[i]) by {
            assert(line[i] == after[i - hi]);
        }
        lemma_trimmed_range(line, lo, hi);
        assert(line.subrange(lo, hi) =~= label + between + value);
        let rest = trimmed(line).skip(label.len() as int);
        assert(rest =~= between + value);
        lemma_trimmed_range(rest, between.len() as int, rest.len() as int);
        assert(rest.subrange(between.len() as int, rest.len() as int) =~= value);
    } else {
        let hi = lo + label.len();
        assert(line[hi - 1] == label.last());
        assert forall|i: int| hi <= i < line.len() implies is_space(#[trigger] line[i]) by {
            if i < hi + between.len() {
                assert(line[i] == between[i - hi]);
            } else {
                assert(line[i] == after[i - hi - between.len()]);
            }
        }
        lemma_trimmed_range(line, lo, hi);
        assert(line.subrange(lo, hi) =~= label);
        let rest = trimmed(line).skip(label.len() as int);
        assert(rest =~= value);
        lemma_trimmed_range(rest, 0, 0);
        assert(rest.subrange(0, 0) =~= value);
    }
    assert(trimmed(line).subrange(0, label.len() as int) =~= label);
    lemma_line_field(line, field);
}

/// Once a number could not be read, the lines that follow change nothing.
pub proof fn lemma_readings_stop(lines: Seq<Seq<char>>, k: int)
    requires
        0 <= k <= lines.len(),
        readings_of(lines.take(k)) is Err,
    ensures
        readings_of(lines) == readings_of(lines.take(k)),
    decreases lines.len() - k,
{
    if k == lines.len() {
        assert(lines.take(k) =~= lines);
    } else {
        assert(lines.drop_last().take(k) =~= lines.take(k));
        lemma_readings_stop(lines.drop_last(), k);
    }
}

/// Where every number can be read, so can every number of the first `k`
/// lines.
pub proof fn lemma_readable_prefix(lines: Seq<Seq<char>>, k: int)
    requires
        0 <= k <= lines.len(),
        all_readable(lines),
    ensures
        all_readable(lines.take(k)),
{
    let prefix = lines.take(k);
    assert forall|j: int| 0 <= j < prefix.len() implies !is_bad_line(#[trigger] prefix[j]) by {
        assert(prefix[j] == lines[j]);
    }
}

/// Where every number can be read, reading the lines succeeds.
pub proof fn lemma_readable(lines: Seq<Seq<char>>)
    requires
        all_readable(lines),
    ensures
        readings_of(lines) is Ok,
    decreases lines.len(),
{
    if lines.len() > 0 {
        lemma_readable_prefix(lines, lines.len() - 1);
        lemma_readable(lines.drop_last());
        assert(!is_bad_line(lines[lines.len() - 1]));
    }
}

/// Where every number can be read, nothing is read of a field that no line
/// gives.
pub proof fn lemma_absent_is_unread(lines: Seq<Seq<char>>, field: Field)
    requires
        all_readable(lines),
        absent(lines, field),
    ensures
        readings_of(lines) is Ok,
        readings_of(lines)->Ok_0.get(field) is None,
    decreases lines.len(),
{
    if lines.len() > 0 {
        let rest = lines.drop_last();
        lemma_readable_prefix(lines, lines.len() - 1);
        assert forall|j: int| 0 <= j < rest.len() implies line_field(#[trigger] rest[j]) != Some(
            field,
        ) by {
            assert(rest[j] == lines[j]);
        }
        lemma_absent_is_unread(rest, field);
        assert(!is_bad_line(lines[lines.len() - 1]));
        assert(line_field(lines[lines.len() - 1]) != Some(field));
    }
}

/// Where every number can be read, a field that some line gives is read.
pub proof fn lemma_present_is_read(lines: Seq<Seq<char>>, field: Field)
    requires
        all_readable(lines),
        !absent(lines, field),
    ensures
        readings_of(lines) is Ok,
        readings_of(lines)->Ok_0.get(field) is Some,
    decreases lines.len(),
{
    let n = lines.len() - 1;
    let rest = lines.drop_last();
    lemma_readable_prefix(lines, n);
    lemma_readable(rest);
    assert(!is_bad_line(lines[n]));
    if line_field(lines[n]) != Some(field) {
        let j = choose|j: int|
            0 <= j < lines.len() && line_field(#[trigger] lines[j]) == Some(field);
        assert(rest[j] == lines[j]);
        lemma_present_is_read(rest, field);
    }
}

/// Where every number can be read, what is read of a field is the number
/// on the last line that gives it.
pub proof fn lemma_last_line_stands(lines: Seq<Seq<char>>, i: int, field: Field)
    requires
        all_readable(lines),
        is_last_of(lines, i, field),
    ensures
        readings_of(lines) is Ok,
        parsed_i64(line_value(lines[i], field)) is Ok,
        readings_of(lines)->Ok_0.get(field) == Some(parsed_i64(line_value(lines[i], field))->Ok_0),
    decreases lines.len(),
{
    let n = lines.len() - 1;
    let rest = lines.drop_last();
    lemma_readable_prefix(lines, n);
    lemma_readable(rest);
    assert(!is_bad_line(lines[n]));
    assert(!is_bad_line(lines[i]));
    if i < n {
        assert(line_field(lines[n]) != Some(field));
        assert(rest[i] == lines[i]);
        assert forall|j: int| i < j < rest.len() implies line_field(#[trigger] rest[j]) != Some(
            field,
        ) by {
            assert(rest[j] == lines[j]);
        }
        lemma_last_line_stands(rest, i, field);
    }
}

/// The first line whose number cannot be read ends the reading: the error
/// names that line's field and says why its number could not be read.
pub proof fn lemma_first_bad_line(
    lines: Seq<Seq<char>>,
    i: int,
    field: Field,
    kind: NumberErrorKind,
)
    requires
        is_first_bad(lines, i),
        line_reading(lines[i]) == Some((field, Err::<i64, NumberErrorKind>(kind))),
    ensures
        readings_of(lines) == Err::<Readings, ParseError>(
            ParseError::NumberFormat { field, kind },
        ),
{
    let before = lines.take(i);
    assert forall|j: int| 0 <= j < before.len() implies !is_bad_line(#[trigger] before[j]) by {
        assert(before[j] == lines[j]);
    }
    lemma_readable(before);
    let upto = lines.take(i + 1);
    assert(upto.drop_last() =~= before);
    assert(upto.last() == lines[i]);
    lemma_readings_stop(lines, i + 1);
}

/// A text in which a number cannot be read is refused for that, before any
/// field is asked for, whatever else the text holds or lacks: the error is
/// that of the first such line.
pub proof fn lemma_bad_number(text: Seq<char>, i: int, field: Field, kind: NumberErrorKind)
    requires
        is_first_bad(lines_of(text), i),
        line_reading(lines_of(text)[i]) == Some((field, Err::<i64, NumberErrorKind>(kind))),
    ensures
        window_of(text) == Err::<WindowInfo, ParseError>(ParseError::NumberFormat { field, kind }),
{
    lemma_first_bad_line(lines_of(text), i, field, kind);
}

/// A text with a line whose number cannot be read gives neither a rectangle
/// nor a missing field, but a number error.
pub proof fn lemma_bad_number_wins(text: Seq<char>, i: int)
    requires
        0 <= i < lines_of(text).len(),
        is_bad_line(lines_of(text)[i]),
    ensures
        window_of(text) is Err,
        window_of(text)->Err_0 is NumberFormat,
    decreases i,
{
    let lines = lines_of(text);
    if is_first_bad(lines, i) {
        let reading = line_reading(lines[i])->Some_0;
        lemma_bad_number(text, i, reading.0, reading.1->Err_0);
    } else {
        let j = choose|j: int| 0 <= j < i && is_bad_line(#[trigger] lines[j]);
        lemma_bad_number_wins(text, j);
    }
}

/// Where several lines give a field, the last of them stands: a text in
/// which every number can be read and every field has a line gives the
/// rectangle of the numbers on the last line of each field.
pub proof fn lemma_last_match_wins(text: Seq<char>, ix: int, iy: int, iw: int, ih: int)
    requires
        all_readable(lines_of(text)),
        is_last_of(lines_of(text), ix, Field::X),
        is_last_of(lines_of(text), iy, Field::Y),
        is_last_of(lines_of(text), iw, Field::Width),
        is_last_of(lines_of(text), ih, Field::Height),
    ensures
        window_of(text) == Ok::<WindowInfo, ParseError>(
            WindowInfo {
                x: parsed_i64(line_value(lines_of(text)[ix], Field::X))->Ok_0,
                y: parsed_i64(line_value(lines_of(text)[iy], Field::Y))->Ok_0,
                width: parsed_i64(line_value(lines_of(text)[iw], Field::Width))->Ok_0,
                height: parsed_i64(line_value(lines_of(text)[ih], Field::Height))->Ok_0,
            },
        ),
{
    let lines = lines_of(text);
    lemma_last_line_stands(lines, ix, Field::X);
    lemma_last_line_stands(lines, iy, Field::Y);
    lemma_last_line_stands(lines, iw, Field::Width);
    lemma_last_line_stands(lines, ih, Field::Height);
}

/// A text in which each of the four fields has exactly one line, each with an
/// integer in the range of `i64`, gives the rectangle of those four integers,
/// whatever the order of the four lines and whatever other lines stand
/// around them.
pub proof fn lemma_well_formed(text: Seq<char>, ix: int, iy: int, iw: int, ih: int)
    requires
        is_only_of(lines_of(text), ix, Field::X),
        is_only_of(lines_of(text), iy, Field::Y),
        is_only_of(lines_of(text), iw, Field::Width),
        is_only_of(lines_of(text), ih, Field::Height),
        is_integer_text(line_value(lines_of(text)[ix], Field::X)),
        is_integer_text(line_value(lines_of(text)[iy], Field::Y)),
        is_integer_text(line_value(lines_of(text)[iw], Field::Width)),
        is_integer_text(line_value(lines_of(text)[ih], Field::Height)),
        i64::MIN <= integer_value(line_value(lines_of(text)[ix], Field::X)) <= i64::MAX,
        i64::MIN <= integer_value(line_value(lines_of(text)[iy], Field::Y)) <= i64::MAX,
        i64::MIN <= integer_value(line_value(lines_of(text)[iw], Field::Width)) <= i64::MAX,
        i64::MIN <= integer_value(line_value(lines_of(text)[ih], Field::Height)) <= i64::MAX,
    ensures
        window_of(text) == Ok::<WindowInfo, ParseError>(
            WindowInfo {
                x: integer_value(line_value(lines_of(text)[ix], Field::X)) as i64,
                y: integer_value(line_value(lines_of(text)[iy], Field::Y)) as i64,
                width: integer_value(line_value(lines_of(text)[iw], Field::Width)) as i64,
                height: integer_value(line_value(lines_of(text)[ih], Field::Height)) as i64,
            },
        ),
{
    let lines = lines_of(text);
    lemma_parsed_i64_value(line_value(lines[ix], Field::X));
    lemma_parsed_i64_value(line_value(lines[iy], Field::Y));
    lemma_parsed_i64_value(line_value(lines[iw], Field::Width));
    lemma_parsed_i64_value(line_value(lines[ih], Field::Height));
    assert forall|j: int| 0 <= j < lines.len() implies !is_bad_line(#[trigger] lines[j]) by {
        match line_field(lines[j]) {
            None => {},
            Some(Field::X) => {
                assert(j == ix);
            },
            Some(Field::Y) => {
                assert(j == iy);
            },
            Some(Field::Width) => {
                assert(j == iw);
            },
            Some(Field::Height) => {
                assert(j == ih);
            },
        }
    }
    lemma_last_match_wins(text, ix, iy, iw, ih);
}

/// A text in which every number can be read, and which has a line for each
/// field that comes before `field` in the order X, Y, width, height but none
/// for `field` itself, is refused for the lack of `field`: of the fields
/// that are missing, the first in that order is named.
pub proof fn lemma_missing_field(text: Seq<char>, field: Field)
    requires
        all_readable(lines_of(text)),
        absent(lines_of(text), field),
        forall|g: Field| rank_of(g) < rank_of(field) ==> !absent(lines_of(text), g),
    ensures
        window_of(text) == Err::<WindowInfo, ParseError>(
            ParseError::MissingField(FieldError { field }),
        ),
{
    let lines = lines_of(text);
    lemma_absent_is_unread(lines, field);
    assert forall|g: Field| rank_of(g) < rank_of(field) implies readings_of(lines)->Ok_0.get(g)
        is Some by {
        lemma_present_is_read(lines, g);
    }
    assert(rank_of(Field::X) == 0 && rank_of(Field::Y) == 1 && rank_of(Field::Width) == 2);
}

/// The empty text lacks every field, and X is the first to be asked for.
pub proof fn lemma_empty_text()
    ensures
        window_of(Seq::<char>::empty()) == Err::<WindowInfo, ParseError>(
            ParseError::MissingField(FieldError { field: Field::X }),
        ),
{
    let text = Seq::<char>::empty();
    let lines = lines_of(text);
    assert(lines =~= seq![text]);
    assert(trimmed(text) =~= text);
    assert(line_field(text) is None) by {
        if line_field(text) is Some {
            let f = line_field(text)->Some_0;
            lemma_labels_exclusive(trimmed(text), f, f);
        }
    }
    assert(lines.drop_last() =~= Seq::<Seq<char>>::empty());
    assert(readings_of(lines.drop_last()) == Ok::<Readings, ParseError>(Readings::none()));
    assert(lines.last() == text);
}

/// The outcome depends on the characters of the text and on nothing else:
/// whatever is returned for two texts of the same characters is the same.
pub proof fn lemma_same_text_same_outcome(
    first: String,
    second: String,
    r1: Result<WindowInfo, ParseError>,
    r2: Result<WindowInfo, ParseError>,
)
    requires
        first@ == second@,
        r1 == window_of(first@),
        r2 == window_of(second@),
    ensures
        r1 == r2,
{
}

/// Reads one line: the field it gives, if any, with its number or the reason
/// why the number could not be read.
pub fn read_line(line: &[char]) -> (r: Option<(Field, Result<i64, NumberErrorKind>)>)
    ensures
        r == line_reading(line@),
{
    let t = trim(line);
    let field = if starts_with(t, Field::X.label()) {
        Field::X
    } else if starts_with(t, Field::Y.label()) {
        Field::Y
    } else if starts_with(t, Field::Width.label()) {
        Field::Width
    } else if starts_with(t, Field::Height.label()) {
        Field::Height
    } else {
        return None;
    };
    let skip = field.label().unicode_len();
    let rest = slice_subrange(t, skip, t.len());
    Some((field, parse_i64(trim(rest))))
}

/// Reads the rectangle of a window from the text that `xwininfo` printed.
///
/// Every line that starts with the label of a field, whitespace aside, must
/// hold an `i64` after the label; the first that does not is the error. Then
/// each of the four fields must have been given by some line; the first that
/// was not, in the order X, Y, width, height, is the error. Where a field is
/// given more than once, its last line counts.
pub fn parse_xwininfo(source: String) -> (r: Result<WindowInfo, ParseError>)
    ensures
        r == window_of(source@),
        source@.len() == 0 ==> r == Err::<WindowInfo, ParseError>(
            ParseError::MissingField(FieldError { field: Field::X }),
        ),
{
    proof {
        if source@.len() == 0 {
            assert(source@ =~= Seq::<char>::empty());
            lemma_empty_text();
        }
    }
    let text = chars_of(source.as_str());
    let lines = split_lines(text.as_slice());
    let mut readings = Readings::new();
    let mut i: usize = 0;
    while i < lines.len()
        invariant
            i <= lines.len(),
            texts_of(lines@) == lines_of(source@),
            readings_of(lines_of(source@).take(i as int)) == Ok::<Readings, ParseError>(readings),
            source@.len() == 0 ==> window_of(source@) == Err::<WindowInfo, ParseError>(
                ParseError::MissingField(FieldError { field: Field::X }),
            ),
        decreases lines.len() - i,
    {
        let ghost seen = lines_of(source@).take(i + 1);
        proof {
            assert(seen.drop_last() =~= lines_of(source@).take(i as int));
            assert(seen.last() == lines@[i as int]@);
        }
        match read_line(lines[i]) {
            None => {},
            Some((field, Ok(value))) => {
                readings.record(field, value);
            },
            Some((field, Err(kind))) => {
                proof {
                    lemma_readings_stop(lines_of(source@), i + 1);
                }
                return Err(ParseError::NumberFormat { field, kind });
            },
        }
        i += 1;
    }
    proof {
        assert(lines_of(source@).take(i as int) =~= lines_of(source@));
    }
    readings.finish()
}

} // verus!
