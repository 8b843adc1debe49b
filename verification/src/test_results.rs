//! The execution history of a test suite, and its text form: one line per
//! test, holding the name of the test and then, after commas, `1` for each
//! execution in which the test passed and `0` for each in which it failed.
//! Every line holds as many outcomes as the first.

use vstd::prelude::*;
use vstd::string::*;

verus! {

/// One test: its identifier, its name and its outcome in each execution.
#[derive(Debug, PartialEq, Eq)]
pub struct Test {
    pub id: i32,
    pub name: String,
    pub executions: Vec<bool>,
}

impl Test {
    /// A test with the given identifier, name and outcomes.
    pub fn new(id: i32, name: String, executions: Vec<bool>) -> (test: Test)
        ensures
            test.id == id,
            test.name == name,
            test.executions == executions,
    {
        Test { id, name, executions }
    }
}

/// The tests of a suite, in the order of their identifiers.
#[derive(Debug, PartialEq, Eq)]
pub struct AllTestResults {
    pub results: Vec<Test>,
}

impl AllTestResults {
    /// The suite made of `results`.
    pub fn new(results: Vec<Test>) -> (all: AllTestResults)
        ensures
            all.results == results,
    {
        AllTestResults { results }
    }
}

/// Something that the execution history can be read from.
pub trait TestSource {
    /// Reads the history, or says why it could not be read.
    fn read_tests(&self) -> Result<AllTestResults, String>;
}

/// A file that holds the execution history in its text form.
pub struct CsvTestSource<'a> {
    filename: &'a str,
}

impl<'a> CsvTestSource<'a> {
    /// The name of the file, as a sequence of characters.
    pub closed spec fn path(self) -> Seq<char> {
        self.filename@
    }

    /// The source that reads from the file named `filename`.
    pub fn new(filename: &'a str) -> (source: CsvTestSource<'a>)
        ensures
            source.path() == filename@,
    {
        CsvTestSource { filename }
    }

    /// The name of the file.
    pub fn filename(&self) -> (filename: &'a str)
        ensures
            filename@ == self.path(),
    {
        self.filename
    }
}

/// Why the text form of an execution history was not accepted.
#[derive(Debug, PartialEq, Eq, Clone, Copy, Structural)]
pub enum ParseError {
    /// The text could not be read.
    Io,
    /// A line holds a name and no outcome.
    NoTestExecutions,
    /// An outcome is neither `0` nor `1`, or a line does not hold as many
    /// outcomes as the first line.
    InvalidFormat,
}

/// Whether `c` is white space, as `char::is_whitespace` tells.
pub uninterp spec fn is_white_space(c: char) -> bool;

/// Tells whether `c` is white space by asking `char::is_whitespace`, which
/// goes by the Unicode property of that name.
#[verifier::external_body]
fn is_space(c: char) -> (space: bool)
    ensures
        space == is_white_space(c),
{
    c.is_whitespace()
}

/// The index of the first `c` in `text` from `from` on and before `to`, or `to`.
pub open spec fn next_index(text: Seq<char>, c: char, from: int, to: int) -> int
    decreases to - from,
{
    if from >= to {
        to
    } else if text[from] == c {
        from
    } else {
        next_index(text, c, from + 1, to)
    }
}

/// The fields of `line[from..to]`: the parts between its commas.
pub open spec fn fields_from(line: Seq<char>, from: int, to: int) -> Seq<Seq<char>>
    decreases to - from,
{
    let comma = next_index(line, ',', from, to);
    if from <= comma < to {
        seq![line.subrange(from, comma)] + fields_from(line, comma + 1, to)
    } else {
        seq![line.subrange(from, to)]
    }
}

/// The fields of a line.
pub open spec fn fields(line: Seq<char>) -> Seq<Seq<char>> {
    fields_from(line, 0, line.len() as int)
}

/// The lines of `text` from `from` on. A line ends before a line feed, or
/// before a carriage return and a line feed, or at the end of the text; after
/// the last line feed only a part that is not empty is a line.
pub open spec fn lines_from(text: Seq<char>, from: int) -> Seq<Seq<char>>
    decreases text.len() - from,
{
    if from < 0 || from >= text.len() {
        Seq::empty()
    } else {
        let feed = next_index(text, '\n', from, text.len() as int);
        if from <= feed < text.len() {
            let end = if feed > from && text[feed - 1] == '\r' {
                feed - 1
            } else {
                feed
            };
            seq![text.subrange(from, end)] + lines_from(text, feed + 1)
        } else {
            seq![text.subrange(from, text.len() as int)]
        }
    }
}

/// The lines of a text.
pub open spec fn text_lines(text: Seq<char>) -> Seq<Seq<char>> {
    lines_from(text, 0)
}

/// Whether `field` is the digit `digit` with nothing around it but
/// characters that `space` flags: `space[i]` tells whether `field[i]` counts
/// as white space, and the digit itself does not.
pub open spec fn is_marker_among(field: Seq<char>, space: Seq<bool>, digit: char) -> bool {
    &&& space.len() == field.len()
    &&& exists|i: int|
        0 <= i < field.len() && #[trigger] field[i] == digit && !space[i] && forall|j: int|
            0 <= j < field.len() && j != i ==> #[trigger] space[j]
}

/// For each character of `field`, whether it is white space.
pub open spec fn white_flags(field: Seq<char>) -> Seq<bool> {
    Seq::new(field.len(), |i: int| is_white_space(field[i]))
}

/// Whether `field` is the digit `digit` with nothing but white space around it.
pub open spec fn is_marker(field: Seq<char>, digit: char) -> bool {
    is_marker_among(field, white_flags(field), digit)
}

/// What is wrong with a line, if anything: it has no field after the name,
/// or one of these fields is neither `0` nor `1`.
pub open spec fn line_error(line: Seq<char>) -> Option<ParseError> {
    let all = fields(line);
    if all.len() == 1 {
        Some(ParseError::NoTestExecutions)
    } else if exists|i: int|
        1 <= i < all.len() && !is_marker(#[trigger] all[i], '0') && !is_marker(all[i], '1') {
        Some(ParseError::InvalidFormat)
    } else {
        None
    }
}

/// The name of the test on a line: its first field.
pub open spec fn line_name(line: Seq<char>) -> Seq<char> {
    fields(line)[0]
}

/// The outcomes on a line: for each field after the name, whether it is `1`.
pub open spec fn line_executions(line: Seq<char>) -> Seq<bool> {
    Seq::new((fields(line).len() - 1) as nat, |i: int| is_marker(fields(line)[i + 1], '1'))
}

/// What is wrong with line `number` of `lines`, if anything: what is wrong
/// with the line by itself, or else a number of outcomes that is not that of
/// the first line.
pub open spec fn line_error_in(lines: Seq<Seq<char>>, number: int) -> Option<ParseError> {
    if line_error(lines[number]) is Some {
        line_error(lines[number])
    } else if line_executions(lines[number]).len() != line_executions(lines[0]).len() {
        Some(ParseError::InvalidFormat)
    } else {
        None
    }
}

/// `test` is what line `number` of `lines` says.
pub open spec fn is_test_of_line(test: Test, lines: Seq<Seq<char>>, number: int) -> bool {
    &&& line_error_in(lines, number) is None
    &&& test.id == number
    &&& test.name@ == line_name(lines[number])
    &&& test.executions@ == line_executions(lines[number])
}

/// The characters of a text.
pub fn text_chars(input: &str) -> (chars: Vec<char>)
    ensures
        chars@ == input@,
{
    let mut chars = Vec::<char>::new();
    for c in it: input.chars()
        invariant
            it.seq() == input@,
            chars@ == it.seq().take(it.index() as int),
    {
        chars.push(c);
        assert(it.seq().take(it.index() + 1) =~= it.seq().take(it.index() as int).push(c));
    }
    assert(input@.take(input@.len() as int) =~= input@);
    chars
}

/// The index of the first `c` in `text` from `from` on and before `to`, or `to`.
pub fn find(text: &Vec<char>, c: char, from: usize, to: usize) -> (index: usize)
    requires
        from <= to <= text@.len(),
    ensures
        index == next_index(text@, c, from as int, to as int),
        from <= index <= to,
        index < to ==> text@[index as int] == c,
{
    let mut i: usize = from;
    while i < to
        invariant
            from <= i <= to <= text@.len(),
            next_index(text@, c, from as int, to as int) == next_index(text@, c, i as int, to as int),
        decreases to - i,
    {
        if text[i] == c {
            return i;
        }
        i += 1;
    }
    i
}

/// A copy of `text[from..to]`.
pub fn copy_range(text: &Vec<char>, from: usize, to: usize) -> (part: Vec<char>)
    requires
        from <= to <= text@.len(),
    ensures
        part@ == text@.subrange(from as int, to as int),
{
    let mut part = Vec::<char>::new();
    let mut i: usize = from;
    while i < to
        invariant
            from <= i <= to <= text@.len(),
            part@ == text@.subrange(from as int, i as int),
        decreases to - i,
    {
        part.push(text[i]);
        assert(text@.subrange(from as int, i + 1) =~= text@.subrange(from as int, i as int).push(
            text@[i as int],
        ));
        i += 1;
    }
    part
}

/// Reads `field` as an outcome, `space[i]` telling whether `field[i]` counts
/// as white space: `Some(true)` for `1` and `Some(false)` for `0`, with
/// nothing but flagged characters around it; `None` for anything else, and
/// where the flags are not as many as the characters.
pub fn marker_of(field: &Vec<char>, space: &Vec<bool>) -> (value: Option<bool>)
    ensures
        value == Some(true) <==> is_marker_among(field@, space@, '1'),
        value == Some(false) <==> is_marker_among(field@, space@, '0'),
{
    if space.len() != field.len() {
        return None;
    }
    let mut found: Option<char> = None;
    let mut at: usize = 0;
    let mut i: usize = 0;
    while i < field.len()
        invariant
            i <= field@.len(),
            space@.len() == field@.len(),
            match found {
                None => forall|j: int| 0 <= j < i ==> #[trigger] space@[j],
                Some(c) => at < i && field@[at as int] == c && !space@[at as int] && forall|j: int|
                    0 <= j < i && j != at ==> #[trigger] space@[j],
            },
        decreases field@.len() - i,
    {
        if !space[i] {
            match found {
                Some(first) => {
                    proof {
                        assert forall|digit: char| !is_marker_among(field@, space@, digit) by {
                            if is_marker_among(field@, space@, digit) {
                                assert(!space@[at as int]);
                                assert(!space@[i as int]);
                            }
                        }
                    }
                    return None;
                },
                None => {
                    found = Some(field[i]);
                    at = i;
                },
            }
        }
        i += 1;
    }
    match found {
        None => {
            proof {
                assert forall|digit: char| !is_marker_among(field@, space@, digit) by {
                    if is_marker_among(field@, space@, digit) {
                        let k = choose|k: int|
                            0 <= k < field@.len() && #[trigger] field@[k] == digit && !space@[k];
                        assert(space@[k]);
                    }
                }
            }
            None
        },
        Some(c) => {
            proof {
                assert(field@[at as int] == c);
                assert(is_marker_among(field@, space@, c));
                assert forall|digit: char| digit != c implies !is_marker_among(
                    field@,
                    space@,
                    digit,
                ) by {
                    if is_marker_among(field@, space@, digit) {
                        let k = choose|k: int|
                            0 <= k < field@.len() && #[trigger] field@[k] == digit && !space@[k]
                                && forall|j: int|
                                0 <= j < field@.len() && j != k ==> #[trigger] space@[j];
                        assert(!space@[at as int]);
                        assert(k == at);
                    }
                }
            }
            if c == '1' {
                Some(true)
            } else if c == '0' {
                Some(false)
            } else {
                None
            }
        },
    }
}

/// For each character of `field`, whether it is white space.
pub fn space_flags(field: &Vec<char>) -> (space: Vec<bool>)
    ensures
        space@ == white_flags(field@),
{
    let mut space = Vec::<bool>::new();
    let mut i: usize = 0;
    while i < field.len()
        invariant
            i <= field@.len(),
            space@.len() == i,
            forall|j: int| 0 <= j < i ==> space@[j] == is_white_space(field@[j]),
        decreases field@.len() - i,
    {
        space.push(is_space(field[i]));
        i += 1;
    }
    assert(space@ =~= white_flags(field@));
    space
}

/// Reads `line[from..to]` as an outcome: `Some(true)` for `1` and
/// `Some(false)` for `0`, with any white space around it; `None` for anything else.
pub fn marker_value(line: &Vec<char>, from: usize, to: usize) -> (value: Option<bool>)
    requires
        from <= to <= line@.len(),
    ensures
        value == Some(true) <==> is_marker(line@.subrange(from as int, to as int), '1'),
        value == Some(false) <==> is_marker(line@.subrange(from as int, to as int), '0'),
{
    let field = copy_range(line, from, to);
    let space = space_flags(&field);
    marker_of(&field, &space)
}

/// Reads one line: the length of the name, and the outcomes that follow it.
pub fn line_fields(line: &Vec<char>) -> (read: Result<(usize, Vec<bool>), ParseError>)
    ensures
        match read {
            Ok((name_length, executions)) => {
                &&& line_error(line@) is None
                &&& name_length <= line@.len()
                &&& line@.subrange(0, name_length as int) == line_name(line@)
                &&& executions@ == line_executions(line@)
            },
            Err(e) => line_error(line@) == Some(e),
        },
{
    let length = line.len();
    let comma = find(line, ',', 0, length);
    if comma == length {
        assert(fields(line@) =~= seq![line@.subrange(0, length as int)]);
        return Err(ParseError::NoTestExecutions);
    }
    let ghost name = line@.subrange(0, comma as int);
    let mut executions = Vec::<bool>::new();
    let mut from: usize = comma + 1;
    let mut finished = false;
    let ghost mut done: Seq<Seq<char>> = Seq::empty();
    while !finished
        invariant
            length == line@.len(),
            comma < length,
            name == line@.subrange(0, comma as int),
            from <= length,
            !finished ==> fields(line@) == seq![name] + done + fields_from(
                line@,
                from as int,
                length as int,
            ),
            finished ==> fields(line@) == seq![name] + done,
            finished ==> done.len() > 0,
            executions@.len() == done.len(),
            forall|i: int|
                0 <= i < done.len() ==> (is_marker(#[trigger] done[i], '0') || is_marker(
                    done[i],
                    '1',
                )) && executions@[i] == is_marker(done[i], '1'),
        decreases length - from + if finished { 0int } else { 1int },
    {
        let to = find(line, ',', from, length);
        let ghost field = line@.subrange(from as int, to as int);
        let ghost rest = fields_from(line@, from as int, length as int);
        let ghost all = fields(line@);
        proof {
            if to < length {
                assert(rest == seq![field] + fields_from(line@, to + 1, length as int));
                assert(all =~= seq![name] + done.push(field) + fields_from(
                    line@,
                    to + 1,
                    length as int,
                ));
            } else {
                assert(rest == seq![field]);
                assert(all =~= seq![name] + done.push(field));
            }
            assert(all[done.len() as int + 1] == field);
        }
        match marker_value(line, from, to) {
            None => {
                assert(!is_marker(all[done.len() as int + 1], '0') && !is_marker(
                    all[done.len() as int + 1],
                    '1',
                ));
                return Err(ParseError::InvalidFormat);
            },
            Some(passed) => {
                executions.push(passed);
            },
        }
        proof {
            done = done.push(field);
        }
        if to == length {
            finished = true;
        } else {
            from = to + 1;
        }
    }
    proof {
        let all = fields(line@);
        assert(all.len() == 1 + done.len());
        assert forall|i: int| 1 <= i < all.len() implies is_marker(#[trigger] all[i], '0')
            || is_marker(all[i], '1') by {
            assert(all[i] == done[i - 1]);
        }
        assert(all[0] == name);
        assert forall|i: int| 0 <= i < executions@.len() implies executions@[i]
            == line_executions(line@)[i] by {
            assert(all[i + 1] == done[i]);
        }
        assert(executions@ =~= line_executions(line@));
    }
    Ok((comma, executions))
}

/// The number of lines of a text.
pub fn line_count(input: &str) -> (count: usize)
    ensures
        count == text_lines(input@).len(),
{
    let chars = text_chars(input);
    let length = chars.len();
    let mut count: usize = 0;
    let mut start: usize = 0;
    while start < length
        invariant
            chars@ == input@,
            length == chars@.len(),
            start <= length,
            count <= start,
            text_lines(input@).len() == count + lines_from(input@, start as int).len(),
        decreases length - start,
    {
        let feed = find(&chars, '\n', start, length);
        let next = if feed < length {
            feed + 1
        } else {
            length
        };
        count += 1;
        start = next;
    }
    count
}

/// Reads the execution history from its text form. The tests are numbered
/// from zero in the order of their lines.
///
/// The first line that holds no outcome, or an outcome that is neither `0`
/// nor `1`, or not as many outcomes as the first line holds, ends the
/// reading with its error: every test that is read reports on the same
/// number of executions.
pub fn parse(input: &str) -> (parsed: Result<Vec<Test>, ParseError>)
    requires
        text_lines(input@).len() <= i32::MAX,
    ensures
        match parsed {
            Ok(tests) => {
                &&& tests@.len() == text_lines(input@).len()
                &&& forall|l: int|
                    0 <= l < tests@.len() ==> is_test_of_line(
                        #[trigger] tests@[l],
                        text_lines(input@),
                        l,
                    )
                &&& forall|l: int|
                    0 <= l < tests@.len() ==> (#[trigger] tests@[l]).executions@.len()
                        == tests@[0].executions@.len()
            },
            Err(e) => exists|l: int|
                0 <= l < text_lines(input@).len() && #[trigger] line_error_in(text_lines(input@), l)
                    == Some(e) && forall|m: int|
                    0 <= m < l ==> #[trigger] line_error_in(text_lines(input@), m) is None,
        },
{
    let chars = text_chars(input);
    let length = chars.len();
    let mut all_results = Vec::<Test>::new();
    let mut next_test_id: i32 = 0;
    let mut start: usize = 0;
    while start < length
        invariant
            chars@ == input@,
            length == chars@.len(),
            text_lines(input@).len() <= i32::MAX,
            start <= length,
            all_results@.len() == next_test_id,
            text_lines(input@) == Seq::new(
                all_results@.len(),
                |l: int| text_lines(input@)[l],
            ) + lines_from(input@, start as int),
            forall|l: int|
                0 <= l < all_results@.len() ==> is_test_of_line(
                    #[trigger] all_results@[l],
                    text_lines(input@),
                    l,
                ),
        decreases length - start,
    {
        let feed = find(&chars, '\n', start, length);
        let end = if feed < length && feed > start && chars[feed - 1] == '\r' {
            feed - 1
        } else {
            feed
        };
        let next = if feed < length {
            feed + 1
        } else {
            length
        };
        let ghost lines = text_lines(input@);
        let ghost before = Seq::new(all_results@.len(), |l: int| lines[l]);
        let ghost line_text = input@.subrange(start as int, end as int);
        let ghost number = all_results@.len() as int;
        proof {
            assert(lines_from(input@, start as int) =~= seq![line_text] + lines_from(
                input@,
                next as int,
            ));
            assert(lines =~= before.push(line_text) + lines_from(input@, next as int));
            assert(lines[number] == line_text);
            assert forall|m: int| 0 <= m < number implies #[trigger] line_error_in(lines, m) is None by {
                assert(is_test_of_line(all_results@[m], lines, m));
            }
        }
        let line = copy_range(&chars, start, end);
        match line_fields(&line) {
            Err(e) => {
                assert(lines[number] == line@);
                assert(line_error_in(lines, number) == Some(e));
                return Err(e);
            },
            Ok((name_length, executions)) => {
                assert(lines[number] == line@);
                if all_results.len() > 0 && executions.len() != all_results[0].executions.len() {
                    proof {
                        assert(is_test_of_line(all_results@[0], lines, 0));
                        assert(line_error_in(lines, number) == Some(ParseError::InvalidFormat));
                    }
                    return Err(ParseError::InvalidFormat);
                }
                proof {
                    if number > 0 {
                        assert(is_test_of_line(all_results@[0], lines, 0));
                    }
                    assert(line_error_in(lines, number) is None);
                }
                let name = String::from_str(input.substring_char(start, start + name_length));
                assert(name@ =~= line@.subrange(0, name_length as int));
                all_results.push(Test::new(next_test_id, name, executions));
            },
        }
        proof {
            assert(before.push(line_text) =~= Seq::new(all_results@.len(), |l: int| lines[l]));
        }
        next_test_id += 1;
        start = next;
    }
    proof {
        assert(text_lines(input@) =~= Seq::new(
            all_results@.len(),
            |l: int| text_lines(input@)[l],
        ));
        assert forall|l: int| 0 <= l < all_results@.len() implies (
        #[trigger] all_results@[l]).executions@.len() == all_results@[0].executions@.len() by {
            assert(is_test_of_line(all_results@[l], text_lines(input@), l));
            assert(is_test_of_line(all_results@[0], text_lines(input@), 0));
        }
    }
    Ok(all_results)
}

} // verus!
