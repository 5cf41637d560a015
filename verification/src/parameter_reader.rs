//! Reader for parameter files: lines of the form `name: value`.

use vstd::prelude::*;
use vstd::string::StringExecFns;

verus! {

/// `String::push` of the standard library appends the character to the end
/// of the string, as its documentation says.
pub assume_specification[ String::push ](text: &mut String, c: char)
    ensures
        final(text)@ == old(text)@.push(c),
;

/// White space as Unicode defines it.
pub open spec fn is_whitespace(c: char) -> bool {
    let code = c as u32;
    ||| 0x09 <= code <= 0x0D
    ||| code == 0x20
    ||| code == 0x85
    ||| code == 0xA0
    ||| code == 0x1680
    ||| 0x2000 <= code <= 0x200A
    ||| code == 0x2028
    ||| code == 0x2029
    ||| code == 0x202F
    ||| code == 0x205F
    ||| code == 0x3000
}

/// Whether `c` is white space.
pub fn char_is_whitespace(c: char) -> (space: bool)
    ensures
        space == is_whitespace(c),
{
    let code: u32 = c as u32;
    (0x09 <= code && code <= 0x0D) || code == 0x20 || code == 0x85 || code == 0xA0 || code
        == 0x1680 || (0x2000 <= code && code <= 0x200A) || code == 0x2028 || code == 0x2029
        || code == 0x202F || code == 0x205F || code == 0x3000
}

/// The characters of `text`.
pub fn to_chars(text: &str) -> (chars: Vec<char>)
    ensures
        chars@ == text@,
{
    let mut chars: Vec<char> = Vec::new();
    for c in it: text.chars()
        invariant
            chars@ == it.seq().take(it.index()),
    {
        chars.push(c);
    }
    chars
}

/// The text made of `chars`.
pub fn to_text(chars: &Vec<char>) -> (text: String)
    ensures
        text@ == chars@,
{
    let mut text = String::new();
    let mut i: usize = 0;
    while i < chars.len()
        invariant
            i <= chars.len(),
            text@ == chars@.take(i as int),
        decreases chars.len() - i,
    {
        text.push(chars[i]);
        i += 1;
    }
    text
}

/// The characters of `text` from `from` up to, not including, `to`.
pub fn slice(text: &Vec<char>, from: usize, to: usize) -> (part: Vec<char>)
    requires
        from <= to <= text.len(),
    ensures
        part@ == text@.subrange(from as int, to as int),
{
    let mut part: Vec<char> = Vec::new();
    let mut i: usize = from;
    while i < to
        invariant
            from <= i <= to <= text.len(),
            part@ == text@.subrange(from as int, i as int),
        decreases to - i,
    {
        part.push(text[i]);
        i += 1;
    }
    part
}

/// `pattern` stands in `text` at the offset `at`.
pub open spec fn occurs_at(text: Seq<char>, pattern: Seq<char>, at: int) -> bool {
    &&& 0 <= at <= text.len() - pattern.len()
    &&& forall|k: int| 0 <= k < pattern.len() ==> text[at + k] == #[trigger] pattern[k]
}

/// `pattern` stands somewhere in `text`.
pub open spec fn mentions(text: Seq<char>, pattern: Seq<char>) -> bool {
    exists|at: int| #[trigger] occurs_at(text, pattern, at)
}

/// `at` is the first offset at which `pattern` stands in `text`.
pub open spec fn is_first_occurrence(text: Seq<char>, pattern: Seq<char>, at: int) -> bool {
    &&& occurs_at(text, pattern, at)
    &&& forall|earlier: int| 0 <= earlier < at ==> !#[trigger] occurs_at(text, pattern, earlier)
}

/// The first offset at which `pattern` stands in `text`, where it stands in
/// it at all.
pub open spec fn first_occurrence(text: Seq<char>, pattern: Seq<char>) -> int {
    choose|at: int| is_first_occurrence(text, pattern, at)
}

/// Whether `pattern` stands in `text` at the offset `at`.
fn matches_at(text: &Vec<char>, pattern: &Vec<char>, at: usize) -> (found: bool)
    requires
        at + pattern.len() <= text.len(),
    ensures
        found == occurs_at(text@, pattern@, at as int),
{
    let mut k: usize = 0;
    while k < pattern.len()
        invariant
            k <= pattern.len(),
            at + pattern.len() <= text.len(),
            forall|j: int| 0 <= j < k ==> text@[at + j] == #[trigger] pattern@[j],
        decreases pattern.len() - k,
    {
        if text[at + k] != pattern[k] {
            return false;
        }
        k += 1;
    }
    true
}

/// The first offset at which `pattern` stands in `text`, if any.
pub fn find_first(text: &Vec<char>, pattern: &Vec<char>) -> (found: Option<usize>)
    ensures
        match found {
            Some(at) => is_first_occurrence(text@, pattern@, at as int),
            None => !mentions(text@, pattern@),
        },
{
    if pattern.len() > text.len() {
        return None;
    }
    let last: usize = text.len() - pattern.len();
    let mut at: usize = 0;
    while at <= last
        invariant
            at <= last + 1,
            last == text.len() - pattern.len(),
            forall|earlier: int|
                0 <= earlier < at ==> !#[trigger] occurs_at(text@, pattern@, earlier),
        decreases last + 1 - at,
    {
        if matches_at(text, pattern, at) {
            return Some(at);
        }
        at += 1;
    }
    None
}

/// `text` without the white space at its start.
pub open spec fn trim_start(text: Seq<char>) -> Seq<char>
    decreases text.len(),
{
    if text.len() > 0 && is_whitespace(text[0]) {
        trim_start(text.drop_first())
    } else {
        text
    }
}

/// `text` without the white space at its end.
pub open spec fn trim_end(text: Seq<char>) -> Seq<char>
    decreases text.len(),
{
    if text.len() > 0 && is_whitespace(text.last()) {
        trim_end(text.drop_last())
    } else {
        text
    }
}

/// `text` without the white space at its start and at its end.
pub open spec fn trim(text: Seq<char>) -> Seq<char> {
    trim_end(trim_start(text))
}

/// Dropping leading white space up to the first other character.
proof fn lemma_trim_start_skips(text: Seq<char>, count: int)
    requires
        0 <= count <= text.len(),
        forall|i: int| 0 <= i < count ==> is_whitespace(#[trigger] text[i]),
        count == text.len() || !is_whitespace(text[count]),
    ensures
        trim_start(text) == text.skip(count),
    decreases count,
{
    if count > 0 {
        let rest = text.drop_first();
        lemma_trim_start_skips(rest, count - 1);
    }
}

/// Dropping trailing white space back to the last other character.
proof fn lemma_trim_end_takes(text: Seq<char>, keep: int)
    requires
        0 <= keep <= text.len(),
        forall|i: int| keep <= i < text.len() ==> is_whitespace(#[trigger] text[i]),
        keep == 0 || !is_whitespace(text[keep - 1]),
    ensures
        trim_end(text) == text.take(keep),
    decreases text.len() - keep,
{
    if keep < text.len() {
        let rest = text.drop_last();
        lemma_trim_end_takes(rest, keep);
    }
}

/// The characters of `text` from `from` on, without the white space at
/// their start and at their end.
pub fn trimmed(text: &Vec<char>, from: usize) -> (value: Vec<char>)
    requires
        from <= text.len(),
    ensures
        value@ == trim(text@.skip(from as int)),
{
    let ghost tail = text@.skip(from as int);
    let mut start: usize = from;
    while start < text.len() && char_is_whitespace(text[start])
        invariant
            from <= start <= text.len(),
            forall|i: int| from <= i < start ==> is_whitespace(#[trigger] text@[i]),
        decreases text.len() - start,
    {
        start += 1;
    }
    let mut end: usize = text.len();
    while end > start && char_is_whitespace(text[end - 1])
        invariant
            start <= end <= text.len(),
            forall|i: int| end <= i < text.len() ==> is_whitespace(#[trigger] text@[i]),
        decreases end,
    {
        end -= 1;
    }
    proof {
        lemma_trim_start_skips(tail, start - from);
        let inner = tail.skip(start - from);
        lemma_trim_end_takes(inner, end - start);
    }
    slice(text, start, end)
}

/// Offset of the first line feed in `text`, or its length if it has none.
pub open spec fn line_feed_at(text: Seq<char>) -> int
    decreases text.len(),
{
    if text.len() == 0 || text[0] == '\n' {
        0
    } else {
        1 + line_feed_at(text.drop_first())
    }
}

/// `line` without the carriage return at its end, if it has one.
pub open spec fn strip_carriage_return(line: Seq<char>) -> Seq<char> {
    if line.len() > 0 && line.last() == '\r' {
        line.drop_last()
    } else {
        line
    }
}

/// The lines of `text`.  A line ends at a line feed, which together with a
/// carriage return before it is not part of the line; the last line needs no
/// line feed, and a text that ends in one has no empty line after it.
pub open spec fn lines(text: Seq<char>) -> Seq<Seq<char>>
    decreases text.len(),
    via lines_terminates
{
    if text.len() == 0 {
        Seq::empty()
    } else {
        let end = line_feed_at(text);
        if end >= text.len() {
            seq![text]
        } else {
            seq![strip_carriage_return(text.take(end))] + lines(text.skip(end + 1))
        }
    }
}

#[via_fn]
proof fn lines_terminates(text: Seq<char>) {
    if text.len() > 0 {
        lemma_line_feed_at_bounds(text);
    }
}

/// The first line feed lies inside the text or at its end.
pub proof fn lemma_line_feed_at_bounds(text: Seq<char>)
    ensures
        0 <= line_feed_at(text) <= text.len(),
    decreases text.len(),
{
    if text.len() > 0 && text[0] != '\n' {
        lemma_line_feed_at_bounds(text.drop_first());
    }
}

/// The offset before which no line feed stands and at which one does, or the
/// text ends, is the offset of the first line feed.
proof fn lemma_line_feed_at_is(text: Seq<char>, end: int)
    requires
        0 <= end <= text.len(),
        forall|i: int| 0 <= i < end ==> #[trigger] text[i] != '\n',
        end == text.len() || text[end] == '\n',
    ensures
        line_feed_at(text) == end,
    decreases end,
{
    if end > 0 {
        let rest = text.drop_first();
        lemma_line_feed_at_is(rest, end - 1);
    }
}

/// The texts that the vectors of `parts` hold.
pub open spec fn views_of(parts: Seq<Vec<char>>) -> Seq<Seq<char>> {
    Seq::new(parts.len(), |i: int| parts[i]@)
}

/// The lines of `text`, each as a vector of its own.
pub fn split_lines(text: &Vec<char>) -> (parts: Vec<Vec<char>>)
    ensures
        views_of(parts@) == lines(text@),
{
    let mut parts: Vec<Vec<char>> = Vec::new();
    let mut start: usize = 0;
    assert(text@.skip(0) =~= text@);
    while start < text.len()
        invariant
            start <= text.len(),
            lines(text@) == views_of(parts@) + lines(text@.skip(start as int)),
        decreases text.len() - start,
    {
        let ghost rest = text@.skip(start as int);
        let mut end: usize = start;
        while end < text.len() && text[end] != '\n'
            invariant
                start <= end <= text.len(),
                forall|i: int| start <= i < end ==> #[trigger] text@[i] != '\n',
            decreases text.len() - end,
        {
            end += 1;
        }
        proof {
            lemma_line_feed_at_is(rest, end - start);
        }
        if end == text.len() {
            let line = slice(text, start, end);
            parts.push(line);
            start = end;
        } else {
            let stop: usize = if end > start && text[end - 1] == '\r' {
                end - 1
            } else {
                end
            };
            let line = slice(text, start, stop);
            parts.push(line);
            proof {
                let raw = rest.take(end - start);
                assert(strip_carriage_return(raw) =~= text@.subrange(start as int, stop as int));
                assert(rest.skip(end - start + 1) =~= text@.skip(end + 1));
            }
            start = end + 1;
        }
    }
    parts
}

/// The texts that the strings of `parts` hold.
pub open spec fn texts_of(parts: Seq<String>) -> Seq<Seq<char>> {
    Seq::new(parts.len(), |i: int| parts[i]@)
}

/// Index of the last of the first `upto` lines that mentions `name`, or -1
/// if none of them does.
pub open spec fn last_mention(lines: Seq<Seq<char>>, name: Seq<char>, upto: int) -> int
    decreases upto,
{
    if upto <= 0 {
        -1
    } else if mentions(lines[upto - 1], name) {
        upto - 1
    } else {
        last_mention(lines, name, upto - 1)
    }
}

/// Some line mentions a parameter and holds no delimiter.
pub open spec fn has_bad_line(
    lines: Seq<Seq<char>>,
    names: Seq<Seq<char>>,
    delimiter: Seq<char>,
) -> bool {
    exists|l: int, i: int|
        0 <= l < lines.len() && 0 <= i < names.len() && #[trigger] mentions(lines[l], names[i])
            && !mentions(lines[l], delimiter)
}

/// Index of the first parameter from `from` on that no line mentions, or the
/// number of parameters if every one is mentioned.
pub open spec fn first_missing(lines: Seq<Seq<char>>, names: Seq<Seq<char>>, from: int) -> int
    decreases names.len() - from,
{
    if from >= names.len() {
        names.len() as int
    } else if last_mention(lines, names[from], lines.len() as int) < 0 {
        from
    } else {
        first_missing(lines, names, from + 1)
    }
}

/// The value that `line` gives: what follows its first delimiter, without
/// the white space around it.
pub open spec fn value_in(line: Seq<char>, delimiter: Seq<char>) -> Seq<char> {
    trim(line.skip(first_occurrence(line, delimiter) + delimiter.len()))
}

/// What reading the parameters `names` from `content` yields.
///
/// A line that mentions a parameter must hold the delimiter; every
/// parameter must be mentioned by some line, and the first one that is not
/// is reported; the value of a parameter is the one given by the last line
/// that mentions it.
pub open spec fn parsed(content: Seq<char>, names: Seq<Seq<char>>, delimiter: Seq<char>) -> Result<
    Seq<Seq<char>>,
    Seq<char>,
> {
    let all = lines(content);
    let missing = first_missing(all, names, 0);
    if has_bad_line(all, names, delimiter) {
        Err("Bad delimiter"@)
    } else if missing < names.len() {
        Err("Missing parameter: "@ + names[missing])
    } else {
        Ok(
            Seq::new(
                names.len(),
                |i: int| value_in(all[last_mention(all, names[i], all.len() as int)], delimiter),
            ),
        )
    }
}

/// A parameter file held in memory, and the parameters expected in it.
pub struct ParameterReader {
    content: String,
    parameters: Vec<String>,
}

impl ParameterReader {
    /// The text of the file.
    pub closed spec fn content(&self) -> Seq<char> {
        self.content@
    }

    /// The names of the expected parameters.
    pub closed spec fn names(&self) -> Seq<Seq<char>> {
        texts_of(self.parameters@)
    }

    /// A reader for the text `content` of a parameter file, which is to
    /// hold the parameters named in `parameters`.
    pub fn build(content: String, parameters: Vec<String>) -> (reader: Self)
        ensures
            reader.content() == content@,
            reader.names() == texts_of(parameters@),
    {
        Self { content, parameters }
    }

    /// The names of the expected parameters, as characters.
    fn names_as_chars(&self) -> (names: Vec<Vec<char>>)
        ensures
            views_of(names@) == self.names(),
    {
        let mut names: Vec<Vec<char>> = Vec::new();
        let mut i: usize = 0;
        while i < self.parameters.len()
            invariant
                i <= self.parameters.len(),
                names@.len() == i,
                forall|j: int| 0 <= j < i ==> (#[trigger] names@[j])@ == self.parameters@[j]@,
            decreases self.parameters.len() - i,
        {
            names.push(to_chars(self.parameters[i].as_str()));
            i += 1;
        }
        names
    }

    /// Reads the value of every expected parameter, in the order of the
    /// parameters.
    pub fn parse_parameters(&self, delimiter: &str) -> (outcome: Result<Vec<String>, String>)
        ensures
            match outcome {
                Ok(values) => parsed(self.content(), self.names(), delimiter@) == Ok::<
                    Seq<Seq<char>>,
                    Seq<char>,
                >(texts_of(values@)),
                Err(message) => parsed(self.content(), self.names(), delimiter@) == Err::<
                    Seq<Seq<char>>,
                    Seq<char>,
                >(message@),
            },
    {
        let text = to_chars(self.content.as_str());
        let mark = to_chars(delimiter);
        let all = split_lines(&text);
        let names = self.names_as_chars();
        let ghost line_texts = views_of(all@);
        let ghost name_texts = views_of(names@);

        let mut found: Vec<Option<Vec<char>>> = Vec::new();
        let mut i: usize = 0;
        while i < names.len()
            invariant
                i <= names.len(),
                found@.len() == i,
                forall|j: int| 0 <= j < i ==> (#[trigger] found@[j]).is_none(),
            decreases names.len() - i,
        {
            found.push(None);
            i += 1;
        }

        let mut l: usize = 0;
        while l < all.len()
            invariant
                l <= all.len(),
                line_texts == views_of(all@),
                line_texts == lines(self.content()),
                name_texts == views_of(names@),
                name_texts == self.names(),
                mark@ == delimiter@,
                found@.len() == names@.len(),
                forall|l0: int, i0: int|
                    0 <= l0 < l && 0 <= i0 < name_texts.len() && #[trigger] mentions(
                        line_texts[l0],
                        name_texts[i0],
                    ) ==> mentions(line_texts[l0], mark@),
                forall|i0: int|
                    0 <= i0 < name_texts.len() ==> match #[trigger] found@[i0] {
                        None => last_mention(line_texts, name_texts[i0], l as int) < 0,
                        Some(value) => 0 <= last_mention(line_texts, name_texts[i0], l as int)
                            && value@ == value_in(
                            line_texts[last_mention(line_texts, name_texts[i0], l as int)],
                            mark@,
                        ),
                    },
            decreases all.len() - l,
        {
            let line = &all[l];
            let mut i: usize = 0;
            while i < names.len()
                invariant
                    i <= names.len(),
                    l < all.len(),
                    line@ == line_texts[l as int],
                    line_texts == views_of(all@),
                    line_texts == lines(self.content()),
                    name_texts == views_of(names@),
                    name_texts == self.names(),
                    mark@ == delimiter@,
                    found@.len() == names@.len(),
                    forall|l0: int, i0: int|
                        0 <= l0 < l && 0 <= i0 < name_texts.len() && #[trigger] mentions(
                            line_texts[l0],
                            name_texts[i0],
                        ) ==> mentions(line_texts[l0], mark@),
                    forall|i0: int|
                        0 <= i0 < i && #[trigger] mentions(line_texts[l as int], name_texts[i0])
                            ==> mentions(line_texts[l as int], mark@),
                    forall|i0: int|
                        0 <= i0 < name_texts.len() ==> match #[trigger] found@[i0] {
                            None => last_mention(
                                line_texts,
                                name_texts[i0],
                                if i0 < i {
                                    l + 1
                                } else {
                                    l as int
                                },
                            ) < 0,
                            Some(value) => 0 <= last_mention(
                                line_texts,
                                name_texts[i0],
                                if i0 < i {
                                    l + 1
                                } else {
                                    l as int
                                },
                            ) && value@ == value_in(
                                line_texts[last_mention(
                                    line_texts,
                                    name_texts[i0],
                                    if i0 < i {
                                        l + 1
                                    } else {
                                        l as int
                                    },
                                )],
                                mark@,
                            ),
                        },
                decreases names.len() - i,
            {
                let name = &names[i];
                if find_first(line, name).is_some() {
                    match find_first(line, &mark) {
                        None => {
                            proof {
                                reveal_strlit("Bad delimiter");
                                assert(mentions(line_texts[l as int], name_texts[i as int]));
                            }
                            return Err(String::from_str("Bad delimiter"));
                        },
                        Some(at) => {
                            assert(at + mark.len() <= line.len());
                            let value = trimmed(line, at + mark.len());
                            found.set(i, Some(value));
                        },
                    }
                }
                i += 1;
            }
            l += 1;
        }

        let mut values: Vec<String> = Vec::new();
        let mut i: usize = 0;
        while i < names.len()
            invariant
                i <= names.len(),
                l == all.len(),
                line_texts == views_of(all@),
                line_texts == lines(self.content()),
                name_texts == views_of(names@),
                name_texts == self.names(),
                mark@ == delimiter@,
                name_texts == self.names(),
                found@.len() == names@.len(),
                values@.len() == i,
                forall|l0: int, i0: int|
                    0 <= l0 < l && 0 <= i0 < name_texts.len() && #[trigger] mentions(
                        line_texts[l0],
                        name_texts[i0],
                    ) ==> mentions(line_texts[l0], mark@),
                first_missing(line_texts, name_texts, 0) == first_missing(
                    line_texts,
                    name_texts,
                    i as int,
                ),
                forall|i0: int|
                    0 <= i0 < name_texts.len() ==> match #[trigger] found@[i0] {
                        None => last_mention(line_texts, name_texts[i0], l as int) < 0,
                        Some(value) => 0 <= last_mention(line_texts, name_texts[i0], l as int)
                            && value@ == value_in(
                            line_texts[last_mention(line_texts, name_texts[i0], l as int)],
                            mark@,
                        ),
                    },
                forall|i0: int|
                    0 <= i0 < i ==> (#[trigger] values@[i0])@ == value_in(
                        line_texts[last_mention(line_texts, name_texts[i0], l as int)],
                        mark@,
                    ),
            decreases names.len() - i,
        {
            match &found[i] {
                None => {
                    let mut message = String::from_str("Missing parameter: ");
                    message.append(self.parameters[i].as_str());
                    return Err(message);
                },
                Some(value) => {
                    values.push(to_text(value));
                },
            }
            i += 1;
        }
        proof {
            assert(texts_of(values@) =~= Seq::new(
                name_texts.len(),
                |i: int|
                    value_in(
                        line_texts[last_mention(
                            line_texts,
                            name_texts[i],
                            line_texts.len() as int,
                        )],
                        mark@,
                    ),
            ));
        }
        Ok(values)
    }
}

} // verus!
