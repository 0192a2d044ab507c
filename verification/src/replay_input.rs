//! The lines of a recorded session, and what its settings mean.
use vstd::prelude::*;
use crate::labels::copy_labels;
use crate::line_crossing::{
    all_prepared, can_end, ends_as, law_every_drawn_line_is_there, DetectionLineInput,
    LineDirectionFilter, LineEnds, PreparedLine,
};
use crate::reading::{at_least_zero, Level, Stamp};
use crate::track::WorldConfig;
use crate::types::{can_span, spans_as, Point, Shift, UiPoint};
use crate::world::CameraWorld;
use crate::world_model::WorldState;
use crate::zone_filter::{
    can_scale, closed_outline, law_every_drawn_zone_is_there, scales_as, PreparedZone,
    PreparedZones, ZoneFilterMode, ZoneInput, ZoneMatchType,
};

verus! {

/// The characters with the Unicode property White_Space.
pub open spec fn white_char(c: char) -> bool {
    ||| '\u{9}' <= c <= '\u{d}'
    ||| c == '\u{20}' || c == '\u{85}' || c == '\u{a0}' || c == '\u{1680}'
    ||| '\u{2000}' <= c <= '\u{200a}'
    ||| c == '\u{2028}' || c == '\u{2029}' || c == '\u{202f}' || c == '\u{205f}'
    ||| c == '\u{3000}'
}

/// `char::is_whitespace`, which tells the characters with the Unicode property White_Space
/// from all others.
pub assume_specification[ char::is_whitespace ](c: char) -> (white: bool)
    ensures
        white == white_char(c),
;

/// `String::push`, which appends a character to a text.
pub assume_specification[ String::push ](text: &mut String, c: char)
    ensures
        final(text)@ == old(text)@.push(c),
;

/// The text without the white space it begins with.
pub open spec fn trimmed_left(text: Seq<char>) -> Seq<char>
    decreases text.len(),
{
    if text.len() > 0 && white_char(text[0]) {
        trimmed_left(text.skip(1))
    } else {
        text
    }
}

/// The text without the white space it ends with.
pub open spec fn trimmed_right(text: Seq<char>) -> Seq<char>
    decreases text.len(),
{
    if text.len() > 0 && white_char(text.last()) {
        trimmed_right(text.drop_last())
    } else {
        text
    }
}

/// The text without the white space around it.
pub open spec fn trimmed(text: Seq<char>) -> Seq<char> {
    trimmed_right(trimmed_left(text))
}

/// The lines with one more, if there is something in it but white space.
pub open spec fn with_line(lines: Seq<Seq<char>>, line: Seq<char>) -> Seq<Seq<char>> {
    if trimmed(line).len() > 0 {
        lines.push(trimmed(line))
    } else {
        lines
    }
}

/// The lines that end among the first `n` characters, and the beginning of the next one.
pub open spec fn lines_within(text: Seq<char>, n: int) -> (Seq<Seq<char>>, Seq<char>)
    decreases n,
{
    if n <= 0 {
        (Seq::empty(), Seq::empty())
    } else {
        let (lines, line) = lines_within(text, n - 1);
        if text[n - 1] == '\n' {
            (with_line(lines, line), Seq::empty())
        } else {
            (lines, line.push(text[n - 1]))
        }
    }
}

/// The lines of a text, without the white space around them and without empty ones.
pub open spec fn filled_lines(text: Seq<char>) -> Seq<Seq<char>> {
    let (lines, line) = lines_within(text, text.len() as int);
    with_line(lines, line)
}

/// The text of a line without the white space around it.
pub fn trim(line: &Vec<char>) -> (text: String)
    ensures
        text@ == trimmed(line@),
{
    let n: usize = line.len();
    let mut from: usize = 0;
    assert(line@.skip(0) == line@);
    while from < n && line[from].is_whitespace()
        invariant
            from <= n,
            n == line@.len(),
            trimmed_left(line@) == trimmed_left(line@.skip(from as int)),
        decreases n - from,
    {
        assert(line@.skip(from as int).skip(1) == line@.skip(from + 1));
        from += 1;
    }
    let ghost rest = line@.skip(from as int);
    assert(trimmed_left(line@) == rest) by {
        if from < n {
            assert(rest[0] == line@[from as int]);
        }
    }
    let mut to: usize = n;
    assert(rest == line@.subrange(from as int, n as int));
    while to > from && line[to - 1].is_whitespace()
        invariant
            from <= to <= n,
            n == line@.len(),
            trimmed_right(rest) == trimmed_right(line@.subrange(from as int, to as int)),
        decreases to,
    {
        assert(line@.subrange(from as int, to as int).drop_last() == line@.subrange(
            from as int,
            to - 1,
        ));
        to -= 1;
    }
    let ghost kept = line@.subrange(from as int, to as int);
    assert(trimmed_right(rest) == kept) by {
        if from < to {
            assert(kept.last() == line@[to - 1]);
        }
    }
    let mut text = String::new();
    let mut i: usize = from;
    while i < to
        invariant
            from <= i <= to <= n,
            n == line@.len(),
            text@ == line@.subrange(from as int, i as int),
        decreases to - i,
    {
        text.push(line[i]);
        i += 1;
        assert(line@.subrange(from as int, i as int) == line@.subrange(from as int, i - 1).push(
            line@[i - 1],
        ));
    }
    text
}

/// The texts of a list.
spec fn texts(list: Seq<String>) -> Seq<Seq<char>> {
    list.map_values(|s: String| s@)
}

/// The lines of a text, without the white space around them and without empty ones.
pub fn split_lines(input: &String) -> (lines: Vec<String>)
    ensures
        lines@.map_values(|s: String| s@) == filled_lines(input@),
{
    let mut lines: Vec<String> = Vec::new();
    let mut line: Vec<char> = Vec::new();
    assert(texts(lines@) =~= Seq::empty());
    for c in iter: input.chars()
        invariant
            iter.seq() == input@,
            (texts(lines@), line@) == lines_within(input@, iter.index()),
    {
        if c == '\n' {
            let text = trim(&line);
            if !text.as_str().is_empty() {
                let ghost before = lines@;
                lines.push(text);
                assert(texts(lines@) =~= texts(before).push(text@));
            }
            line = Vec::new();
        } else {
            line.push(c);
        }
    }
    let text = trim(&line);
    if !text.as_str().is_empty() {
        let ghost before = lines@;
        lines.push(text);
        assert(texts(lines@) =~= texts(before).push(text@));
    }
    lines
}

/// `g` gives what `f` makes of a text.
pub open spec fn parses_as<T, E, F: Fn(&String) -> Result<T, E>>(
    f: F,
    g: spec_fn(Seq<char>) -> Result<T, E>,
) -> bool {
    forall|line: String, r: Result<T, E>| #[trigger]
        call_ensures(f, (&line,), r) ==> r == g(line@)
}

/// `f` can be called with any text.
pub open spec fn can_parse<T, E, F: Fn(&String) -> Result<T, E>>(f: F) -> bool {
    forall|line: String| #[trigger] call_requires(f, (&line,))
}

/// What the first `n` lines say, or what is wrong with the first that says nothing.
pub open spec fn parsed<T, E>(
    lines: Seq<Seq<char>>,
    parse: spec_fn(Seq<char>) -> Result<T, E>,
    n: int,
) -> Result<Seq<T>, E>
    decreases n,
{
    if n <= 0 {
        Ok(Seq::empty())
    } else {
        match parsed(lines, parse, n - 1) {
            Ok(items) => match parse(lines[n - 1]) {
                Ok(item) => Ok(items.push(item)),
                Err(e) => Err(e),
            },
            Err(e) => Err(e),
        }
    }
}

/// What a text says line by line; lines with nothing but white space are passed over.
pub open spec fn read<T, E>(
    text: Seq<char>,
    parse: spec_fn(Seq<char>) -> Result<T, E>,
) -> Result<Seq<T>, E> {
    parsed(filled_lines(text), parse, filled_lines(text).len() as int)
}

proof fn lemma_an_error_stays<T, E>(
    lines: Seq<Seq<char>>,
    parse: spec_fn(Seq<char>) -> Result<T, E>,
    m: int,
    n: int,
)
    requires
        m <= n,
        parsed(lines, parse, m) is Err,
    ensures
        parsed(lines, parse, n) == parsed(lines, parse, m),
    decreases n,
{
    if m < n {
        lemma_an_error_stays(lines, parse, m, n - 1);
    }
}

/// The items of a recorded session, one per line. `parse` says what a line holds; the first
/// line it cannot read makes the whole session unreadable.
pub fn read_jsonl<T, E, F: Fn(&String) -> Result<T, E>>(
    input: &String,
    parse: &F,
) -> (items: Result<Vec<T>, E>)
    requires
        can_parse(*parse),
    ensures
        forall|g: spec_fn(Seq<char>) -> Result<T, E>| #[trigger]
            parses_as(*parse, g) ==> match items {
                Ok(v) => read(input@, g) == Ok::<Seq<T>, E>(v@),
                Err(e) => read(input@, g) == Err::<Seq<T>, E>(e),
            },
{
    let lines = split_lines(input);
    let ghost all = filled_lines(input@);
    let mut items: Vec<T> = Vec::new();
    let mut i: usize = 0;
    while i < lines.len()
        invariant
            i <= lines@.len(),
            can_parse(*parse),
            lines@.map_values(|s: String| s@) == all,
            all == filled_lines(input@),
            forall|g: spec_fn(Seq<char>) -> Result<T, E>| #[trigger]
                parses_as(*parse, g) ==> parsed(all, g, i as int) == Ok::<Seq<T>, E>(items@),
        decreases lines@.len() - i,
    {
        assert(all[i as int] == lines@[i as int]@);
        match parse(&lines[i]) {
            Ok(item) => {
                items.push(item);
            },
            Err(e) => {
                proof {
                    assert forall|g: spec_fn(Seq<char>) -> Result<T, E>| #[trigger]
                        parses_as(*parse, g) implies read(input@, g) == Err::<Seq<T>, E>(e) by {
                        assert(parsed(all, g, i + 1) == Err::<Seq<T>, E>(e));
                        lemma_an_error_stays(all, g, i + 1, all.len() as int);
                    }
                }
                return Err(e);
            },
        }
        i += 1;
    }
    Ok(items)
}

proof fn lemma_trimmed_left(text: Seq<char>)
    ensures
        trimmed_left(text).len() > 0 ==> !white_char(trimmed_left(text)[0]),
    decreases text.len(),
{
    if text.len() > 0 && white_char(text[0]) {
        lemma_trimmed_left(text.skip(1));
    }
}

proof fn lemma_trimmed_right(text: Seq<char>)
    ensures
        trimmed_right(text).len() > 0 ==> !white_char(trimmed_right(text).last()),
        trimmed_right(text).len() > 0 ==> trimmed_right(text)[0] == text[0],
    decreases text.len(),
{
    if text.len() > 0 && white_char(text.last()) {
        lemma_trimmed_right(text.drop_last());
    }
}

/// A text without the white space around it neither begins nor ends with white space.
pub proof fn law_trimming_leaves_no_white_space(text: Seq<char>)
    ensures
        trimmed(text).len() > 0 ==> !white_char(trimmed(text)[0]) && !white_char(
            trimmed(text).last(),
        ),
{
    lemma_trimmed_left(text);
    lemma_trimmed_right(trimmed_left(text));
}

proof fn lemma_lines_are_filled(text: Seq<char>, n: int)
    ensures
        forall|i: int|
            0 <= i < lines_within(text, n).0.len() ==> (#[trigger] lines_within(text, n).0[i]).len()
                > 0,
    decreases n,
{
    if n > 0 {
        lemma_lines_are_filled(text, n - 1);
        let before = lines_within(text, n - 1).0;
        let lines = lines_within(text, n).0;
        assert forall|i: int| 0 <= i < lines.len() implies (#[trigger] lines[i]).len() > 0 by {
            if i < before.len() {
                assert(lines[i] == before[i]);
            }
        }
    }
}

/// No line that is read is empty.
pub proof fn law_no_empty_line_is_read(text: Seq<char>)
    ensures
        forall|i: int|
            0 <= i < filled_lines(text).len() ==> (#[trigger] filled_lines(text)[i]).len() > 0,
{
    lemma_lines_are_filled(text, text.len() as int);
}

proof fn lemma_parsed_is_all<T, E>(
    lines: Seq<Seq<char>>,
    parse: spec_fn(Seq<char>) -> Result<T, E>,
    n: int,
)
    requires
        0 <= n <= lines.len(),
    ensures
        parsed(lines, parse, n) is Ok <==> forall|i: int|
            0 <= i < n ==> parse(#[trigger] lines[i]) is Ok,
        parsed(lines, parse, n) matches Ok(items) ==> items.len() == n && forall|i: int|
            0 <= i < n ==> parse(lines[i]) == Ok::<T, E>(#[trigger] items[i]),
    decreases n,
{
    if n > 0 {
        lemma_parsed_is_all(lines, parse, n - 1);
        if parsed(lines, parse, n) is Ok {
            let items = parsed(lines, parse, n)->Ok_0;
            let before = parsed(lines, parse, n - 1)->Ok_0;
            assert forall|i: int| 0 <= i < n implies parse(lines[i]) == Ok::<T, E>(
                #[trigger] items[i],
            ) by {
                if i < n - 1 {
                    assert(items[i] == before[i]);
                }
            }
            assert forall|i: int| 0 <= i < n implies parse(#[trigger] lines[i]) is Ok by {
                assert(parse(lines[i]) == Ok::<T, E>(items[i]));
            }
        } else if forall|i: int| 0 <= i < n ==> parse(#[trigger] lines[i]) is Ok {
            assert(parse(lines[n - 1]) is Ok);
        }
    }
}

/// A session is read as a whole or not at all: it is readable exactly if every line that is
/// not empty is, and it then holds what these lines say, one for one and in order.
pub proof fn law_a_session_is_read_whole<T, E>(
    text: Seq<char>,
    parse: spec_fn(Seq<char>) -> Result<T, E>,
)
    ensures
        read(text, parse) is Ok <==> forall|i: int|
            0 <= i < filled_lines(text).len() ==> parse(#[trigger] filled_lines(text)[i]) is Ok,
        read(text, parse) matches Ok(items) ==> items.len() == filled_lines(text).len() && forall|
            i: int,
        |
            0 <= i < items.len() ==> parse(filled_lines(text)[i]) == Ok::<T, E>(
                #[trigger] items[i],
            ),
{
    lemma_parsed_is_all(filled_lines(text), parse, filled_lines(text).len() as int);
}

/// A text that is one line and has no white space around it.
pub open spec fn is_line(text: Seq<char>) -> bool {
    &&& text.len() > 0
    &&& !text.contains('\n')
    &&& !white_char(text[0])
    &&& !white_char(text.last())
}

/// The lines one below the other, each with an end.
pub open spec fn written(lines: Seq<Seq<char>>) -> Seq<char>
    decreases lines.len(),
{
    if lines.len() == 0 {
        Seq::empty()
    } else {
        written(lines.drop_last()) + lines.last().push('\n')
    }
}

proof fn lemma_more_text(a: Seq<char>, b: Seq<char>, n: int)
    requires
        0 <= n <= a.len(),
    ensures
        lines_within(a + b, n) == lines_within(a, n),
    decreases n,
{
    if n > 0 {
        lemma_more_text(a, b, n - 1);
        assert((a + b)[n - 1] == a[n - 1]);
    }
}

proof fn lemma_one_more_line(a: Seq<char>, line: Seq<char>, n: int)
    requires
        lines_within(a, a.len() as int).1 == Seq::<char>::empty(),
        is_line(line),
        0 <= n <= line.len(),
    ensures
        lines_within(a + line, a.len() + n) == (
            lines_within(a, a.len() as int).0,
            line.take(n),
        ),
    decreases n,
{
    let text = a + line;
    if n > 0 {
        lemma_one_more_line(a, line, n - 1);
        assert(text[a.len() + n - 1] == line[n - 1]);
        assert(line.contains(line[n - 1]));
        assert(line.take(n) =~= line.take(n - 1).push(line[n - 1]));
    } else {
        lemma_more_text(a, line, a.len() as int);
        assert(line.take(0) =~= Seq::empty());
    }
}

proof fn lemma_written_lines(lines: Seq<Seq<char>>)
    requires
        forall|i: int| 0 <= i < lines.len() ==> is_line(#[trigger] lines[i]),
    ensures
        lines_within(written(lines), written(lines).len() as int) == (lines, Seq::<char>::empty()),
    decreases lines.len(),
{
    if lines.len() > 0 {
        let before = lines.drop_last();
        let line = lines.last();
        assert forall|i: int| 0 <= i < before.len() implies is_line(#[trigger] before[i]) by {
            assert(before[i] == lines[i]);
        }
        lemma_written_lines(before);
        let a = written(before);
        lemma_one_more_line(a, line, line.len() as int);
        let text = a + line;
        let whole = written(lines);
        assert(whole =~= text + seq!['\n']);
        lemma_more_text(text, seq!['\n'], text.len() as int);
        assert(line.take(line.len() as int) =~= line);
        assert(lines_within(whole, text.len() as int) == (before, line));
        assert(whole[text.len() as int] == '\n');
        assert(is_line(lines[lines.len() - 1]));
        assert(trimmed_left(line) == line);
        assert(trimmed(line) == line);
        assert(lines =~= before.push(line));
    } else {
        assert(lines =~= Seq::empty());
    }
}

/// Writing and reading back gives the same: a session whose items are written one per line,
/// each as a line that is read as that item, is read as these items, with an end after the
/// last line or without.
pub proof fn law_what_is_written_is_read_back<T, E>(
    items: Seq<T>,
    write: spec_fn(T) -> Seq<char>,
    parse: spec_fn(Seq<char>) -> Result<T, E>,
)
    requires
        forall|i: int|
            0 <= i < items.len() ==> is_line(write(#[trigger] items[i])) && parse(write(items[i]))
                == Ok::<T, E>(items[i]),
    ensures
        ({
            let text = written(items.map_values(write));
            &&& read(text, parse) == Ok::<Seq<T>, E>(items)
            &&& items.len() > 0 ==> read(text.drop_last(), parse) == Ok::<Seq<T>, E>(items)
        }),
{
    let lines = items.map_values(write);
    let text = written(lines);
    assert forall|i: int| 0 <= i < lines.len() implies is_line(#[trigger] lines[i]) by {
        assert(lines[i] == write(items[i]));
    }
    lemma_written_lines(lines);
    assert(trimmed(Seq::<char>::empty()) =~= Seq::empty());
    assert(filled_lines(text) == lines);
    lemma_parsed_items(items, write, parse, items.len() as int);
    if items.len() > 0 {
        let before = lines.drop_last();
        let line = lines.last();
        assert forall|i: int| 0 <= i < before.len() implies is_line(#[trigger] before[i]) by {
            assert(before[i] == lines[i]);
        }
        lemma_written_lines(before);
        let a = written(before);
        assert(text.drop_last() =~= a + line);
        assert(is_line(lines[lines.len() - 1]));
        lemma_one_more_line(a, line, line.len() as int);
        assert(line.take(line.len() as int) =~= line);
        assert(trimmed_left(line) == line);
        assert(trimmed(line) == line);
        assert(before.push(line) =~= lines);
        assert(filled_lines(text.drop_last()) == lines);
    }
}

proof fn lemma_parsed_items<T, E>(
    items: Seq<T>,
    write: spec_fn(T) -> Seq<char>,
    parse: spec_fn(Seq<char>) -> Result<T, E>,
    n: int,
)
    requires
        0 <= n <= items.len(),
        forall|i: int|
            0 <= i < items.len() ==> is_line(write(#[trigger] items[i])) && parse(write(items[i]))
                == Ok::<T, E>(items[i]),
    ensures
        parsed(items.map_values(write), parse, n) == Ok::<Seq<T>, E>(items.take(n)),
        parsed(items.map_values(write), parse, items.len() as int) == Ok::<Seq<T>, E>(items) || n
            < items.len(),
    decreases n,
{
    if n > 0 {
        lemma_parsed_items(items, write, parse, n - 1);
        assert(items.map_values(write)[n - 1] == write(items[n - 1]));
        assert(items.take(n) =~= items.take(n - 1).push(items[n - 1]));
    } else {
        assert(items.take(0) =~= Seq::empty());
    }
    if n == items.len() {
        assert(items.take(n) =~= items);
    }
}

/// A zone as it was recorded.
#[derive(Debug)]
pub struct ReplayZone {
    pub labels: Vec<String>,
    /// `include` or `exclude`.
    pub filter: String,
    /// `intersect` or `contain`.
    pub match_type: String,
    pub is_privacy_mask: bool,
    pub points: Vec<UiPoint>,
}

/// A line as it was recorded.
#[derive(Debug)]
pub struct ReplayLine {
    pub name: String,
    /// `both`, `a-to-b` or `b-to-a`.
    pub direction: String,
    pub labels: Vec<String>,
    pub points: Vec<UiPoint>,
}

/// Settings as they were recorded; what is missing stays as it is.
#[derive(Debug)]
pub struct ReplayConfig {
    pub zones: Option<Vec<ReplayZone>>,
    pub min_confidence: Option<Level>,
    pub lines: Option<Vec<ReplayLine>>,
    /// The width of the image over its height.
    pub aspect_ratio: Option<Level>,
}

/// The filter mode with this name.
pub open spec fn filter_named(name: Seq<char>) -> Option<ZoneFilterMode> {
    if name == "include"@ {
        Some(ZoneFilterMode::Include)
    } else if name == "exclude"@ {
        Some(ZoneFilterMode::Exclude)
    } else {
        None
    }
}

/// The match type with this name.
pub open spec fn match_named(name: Seq<char>) -> Option<ZoneMatchType> {
    if name == "intersect"@ {
        Some(ZoneMatchType::Intersect)
    } else if name == "contain"@ {
        Some(ZoneMatchType::Contain)
    } else {
        None
    }
}

/// The direction with this name.
pub open spec fn direction_named(name: Seq<char>) -> Option<LineDirectionFilter> {
    if name == "both"@ {
        Some(LineDirectionFilter::Both)
    } else if name == "a-to-b"@ {
        Some(LineDirectionFilter::AToB)
    } else if name == "b-to-a"@ {
        Some(LineDirectionFilter::BToA)
    } else {
        None
    }
}

/// The zone is the recorded one.
pub open spec fn is_recorded_zone(input: ZoneInput, z: ReplayZone) -> bool {
    &&& input.labels@ == z.labels@
    &&& Some(input.filter) == filter_named(z.filter@)
    &&& Some(input.match_type) == match_named(z.match_type@)
    &&& input.is_privacy_mask == z.is_privacy_mask
    &&& input.points@ == z.points@
}

/// The recorded zone, if its filter mode and its match type are known.
pub fn to_zone_input(z: &ReplayZone) -> (input: Option<ZoneInput>)
    ensures
        input is Some <==> filter_named(z.filter@) is Some && match_named(z.match_type@) is Some,
        input matches Some(i) ==> is_recorded_zone(i, *z),
{
    let filter = if z.filter == "include".to_owned() {
        ZoneFilterMode::Include
    } else if z.filter == "exclude".to_owned() {
        ZoneFilterMode::Exclude
    } else {
        return None;
    };
    let match_type = if z.match_type == "intersect".to_owned() {
        ZoneMatchType::Intersect
    } else if z.match_type == "contain".to_owned() {
        ZoneMatchType::Contain
    } else {
        return None;
    };
    let mut points: Vec<UiPoint> = Vec::new();
    let mut i: usize = 0;
    while i < z.points.len()
        invariant
            i <= z.points@.len(),
            points@ == z.points@.take(i as int),
        decreases z.points@.len() - i,
    {
        points.push(z.points[i]);
        i += 1;
        assert(z.points@.take(i as int) == z.points@.take(i - 1).push(z.points@[i - 1]));
    }
    assert(z.points@.take(i as int) == z.points@);
    Some(
        ZoneInput {
            labels: copy_labels(&z.labels),
            filter,
            match_type,
            is_privacy_mask: z.is_privacy_mask,
            points,
        },
    )
}

/// The line is the recorded one.
pub open spec fn is_recorded_line(input: DetectionLineInput, l: ReplayLine) -> bool {
    &&& input.name@ == l.name@
    &&& Some(input.direction) == direction_named(l.direction@)
    &&& input.labels@ == l.labels@
    &&& input.points[0] == l.points@[0]
    &&& input.points[1] == l.points@[1]
}

/// The recorded line, if it has two points and its direction is known.
pub fn to_line_input(l: &ReplayLine) -> (input: Option<DetectionLineInput>)
    ensures
        input is Some <==> l.points@.len() == 2 && direction_named(l.direction@) is Some,
        input matches Some(i) ==> is_recorded_line(i, *l),
{
    if l.points.len() != 2 {
        return None;
    }
    let direction = if l.direction == "both".to_owned() {
        LineDirectionFilter::Both
    } else if l.direction == "a-to-b".to_owned() {
        LineDirectionFilter::AToB
    } else if l.direction == "b-to-a".to_owned() {
        LineDirectionFilter::BToA
    } else {
        return None;
    };
    Some(
        DetectionLineInput {
            name: l.name.clone(),
            direction,
            labels: copy_labels(&l.labels),
            points: [l.points[0], l.points[1]],
        },
    )
}

/// The numbers of those of the first `n` recorded zones whose words are known.
pub open spec fn good_zones(zones: Seq<ReplayZone>, n: int) -> Seq<int>
    decreases n,
{
    if n <= 0 {
        Seq::empty()
    } else if filter_named(zones[n - 1].filter@) is Some && match_named(zones[n - 1].match_type@)
        is Some {
        good_zones(zones, n - 1).push(n - 1)
    } else {
        good_zones(zones, n - 1)
    }
}

/// The numbers of those of the first `n` recorded lines that have two points and whose
/// direction is known.
pub open spec fn good_lines(lines: Seq<ReplayLine>, n: int) -> Seq<int>
    decreases n,
{
    if n <= 0 {
        Seq::empty()
    } else if lines[n - 1].points@.len() == 2 && direction_named(lines[n - 1].direction@)
        is Some {
        good_lines(lines, n - 1).push(n - 1)
    } else {
        good_lines(lines, n - 1)
    }
}

/// The zones are the recorded ones, without those with unknown words.
pub open spec fn are_recorded_zones(
    inputs: Seq<ZoneInput>,
    zones: Seq<ReplayZone>,
    n: int,
) -> bool {
    &&& inputs.len() == good_zones(zones, n).len()
    &&& forall|k: int|
        0 <= k < inputs.len() ==> is_recorded_zone(
            #[trigger] inputs[k],
            zones[good_zones(zones, n)[k]],
        )
}

/// The lines are the recorded ones, without those that are none.
pub open spec fn are_recorded_lines(
    inputs: Seq<DetectionLineInput>,
    lines: Seq<ReplayLine>,
    n: int,
) -> bool {
    &&& inputs.len() == good_lines(lines, n).len()
    &&& forall|k: int|
        0 <= k < inputs.len() ==> is_recorded_line(
            #[trigger] inputs[k],
            lines[good_lines(lines, n)[k]],
        )
}

/// The recorded zones, without those with unknown words.
pub fn zone_inputs(zones: &Vec<ReplayZone>) -> (inputs: Vec<ZoneInput>)
    ensures
        are_recorded_zones(inputs@, zones@, zones@.len() as int),
{
    let mut inputs: Vec<ZoneInput> = Vec::new();
    let mut i: usize = 0;
    while i < zones.len()
        invariant
            i <= zones@.len(),
            are_recorded_zones(inputs@, zones@, i as int),
        decreases zones@.len() - i,
    {
        if let Some(input) = to_zone_input(&zones[i]) {
            inputs.push(input);
        }
        i += 1;
    }
    inputs
}

/// The recorded lines, without those that are none.
pub fn line_inputs(lines: &Vec<ReplayLine>) -> (inputs: Vec<DetectionLineInput>)
    ensures
        are_recorded_lines(inputs@, lines@, lines@.len() as int),
        inputs@.len() <= lines@.len(),
{
    let mut inputs: Vec<DetectionLineInput> = Vec::new();
    let mut i: usize = 0;
    while i < lines.len()
        invariant
            i <= lines@.len(),
            inputs@.len() <= i,
            are_recorded_lines(inputs@, lines@, i as int),
        decreases lines@.len() - i,
    {
        if let Some(input) = to_line_input(&lines[i]) {
            inputs.push(input);
        }
        i += 1;
    }
    inputs
}

/// The zones are the recorded ones, where they were drawn.
pub open spec fn has_zones(
    prepared: PreparedZones,
    zones: Seq<ReplayZone>,
    scale: spec_fn(UiPoint) -> Point,
    span: spec_fn(Point, Point) -> Shift,
) -> bool {
    exists|inputs: Seq<ZoneInput>|
        {
            &&& #[trigger] are_recorded_zones(inputs, zones, zones.len() as int)
            &&& prepared.is_prepared_from(inputs)
            &&& prepared.is_drawn_from(inputs, scale, span)
        }
}

/// The lines are the recorded ones, with their ends where they belong.
pub open spec fn has_lines(
    prepared: Seq<PreparedLine>,
    lines: Seq<ReplayLine>,
    aspect: Level,
    ends: spec_fn(UiPoint, UiPoint, Level) -> LineEnds,
) -> bool {
    exists|inputs: Seq<DetectionLineInput>| #[trigger]
        are_recorded_lines(inputs, lines, lines.len() as int) && all_prepared(
            prepared,
            inputs,
            aspect,
            ends,
        )
}

/// Applies recorded settings. `scale` gives the place of a drawn point in the image, `span`
/// the distance of two places, and `ends` the ends of a line at an aspect ratio.
pub fn apply_config<
    S: Fn(&UiPoint) -> Point,
    D: Fn(&Point, &Point) -> Shift,
    E: Fn(&UiPoint, &UiPoint, Level) -> LineEnds,
>(
    world: &mut CameraWorld,
    config: &ReplayConfig,
    aspect: &mut Level,
    scale: &S,
    span: &D,
    ends: &E,
)
    requires
        old(world).wf(),
        can_scale(*scale),
        can_span(*span),
        can_end(*ends),
        config.lines matches Some(lines) ==> lines@.len() <= u32::MAX,
    ensures
        final(world).wf(),
        *final(aspect) == (match config.aspect_ratio {
            Some(a) => a,
            None => *old(aspect),
        }),
        final(world)@ == (WorldState {
            zones: final(world)@.zones,
            lines: final(world)@.lines,
            min_confidence: match config.min_confidence {
                Some(min) => at_least_zero(min),
                None => old(world)@.min_confidence,
            },
            memory: if config.lines is Some {
                Set::empty()
            } else {
                old(world)@.memory
            },
            ..old(world)@
        }),
        config.zones is None ==> final(world)@.zones == old(world)@.zones,
        config.lines is None ==> final(world)@.lines == old(world)@.lines,
        forall|g: spec_fn(UiPoint) -> Point, h: spec_fn(Point, Point) -> Shift|
            #![trigger scales_as(*scale, g), spans_as(*span, h)]
            scales_as(*scale, g) && spans_as(*span, h) ==> (config.zones matches Some(zones)
                ==> has_zones(final(world)@.zones, zones@, g, h)),
        forall|g: spec_fn(UiPoint, UiPoint, Level) -> LineEnds| #[trigger]
            ends_as(*ends, g) ==> (config.lines matches Some(lines) ==> has_lines(
                final(world)@.lines,
                lines@,
                *final(aspect),
                g,
            )),
{
    if let Some(a) = config.aspect_ratio {
        *aspect = a;
    }
    if let Some(zones) = &config.zones {
        let inputs = zone_inputs(zones);
        world.set_zones(&inputs, scale, span);
        assert(are_recorded_zones(inputs@, zones@, zones@.len() as int));
    }
    if let Some(min) = config.min_confidence {
        world.set_min_confidence(min);
    }
    let ghost before = world@;
    if let Some(lines) = &config.lines {
        let inputs = line_inputs(lines);
        world.set_lines(&inputs, *aspect, ends);
        assert(are_recorded_lines(inputs@, lines@, lines@.len() as int));
    }
    assert(world@.zones == before.zones);
}

/// A number given on a command line, in all the forms a setting can take.
#[derive(Debug, Clone, Copy, PartialEq, Eq, Structural)]
pub struct SettingValue {
    pub span: Stamp,
    pub level: Level,
    pub ticks: u32,
    pub count: usize,
}

/// The rules with the setting of this name changed, if there is one.
pub open spec fn with_setting(config: WorldConfig, name: Seq<char>, v: SettingValue) -> Option<
    WorldConfig,
> {
    if name == "gapResetMs"@ {
        Some(WorldConfig { gap_reset_ms: v.span, ..config })
    } else if name == "departGraceMs"@ {
        Some(WorldConfig { depart_grace_ms: v.span, ..config })
    } else if name == "settleDefaultMs"@ {
        Some(WorldConfig { settle_default_ms: v.span, ..config })
    } else if name == "settleVehicleMs"@ {
        Some(WorldConfig { settle_vehicle_ms: v.span, ..config })
    } else if name == "settlePersonMs"@ {
        Some(WorldConfig { settle_person_ms: v.span, ..config })
    } else if name == "stationarySpeed"@ {
        Some(WorldConfig { stationary_speed: v.level, ..config })
    } else if name == "reassocIou"@ {
        Some(WorldConfig { reassoc_iou: v.level, ..config })
    } else if name == "wakeTicks"@ {
        Some(WorldConfig { wake_ticks: v.ticks, ..config })
    } else if name == "confirmMs"@ {
        Some(WorldConfig { confirm_ms: v.span, ..config })
    } else if name == "maxDormant"@ {
        Some(WorldConfig { max_dormant: v.count, ..config })
    } else {
        None
    }
}

/// Changes the setting with this name. Returns whether there is one.
pub fn change_setting(config: &mut WorldConfig, name: &String, v: &SettingValue) -> (known: bool)
    ensures
        known <==> with_setting(*old(config), name@, *v) is Some,
        *final(config) == (match with_setting(*old(config), name@, *v) {
            Some(changed) => changed,
            None => *old(config),
        }),
{
    if *name == "gapResetMs".to_owned() {
        config.gap_reset_ms = v.span;
    } else if *name == "departGraceMs".to_owned() {
        config.depart_grace_ms = v.span;
    } else if *name == "settleDefaultMs".to_owned() {
        config.settle_default_ms = v.span;
    } else if *name == "settleVehicleMs".to_owned() {
        config.settle_vehicle_ms = v.span;
    } else if *name == "settlePersonMs".to_owned() {
        config.settle_person_ms = v.span;
    } else if *name == "stationarySpeed".to_owned() {
        config.stationary_speed = v.level;
    } else if *name == "reassocIou".to_owned() {
        config.reassoc_iou = v.level;
    } else if *name == "wakeTicks".to_owned() {
        config.wake_ticks = v.ticks;
    } else if *name == "confirmMs".to_owned() {
        config.confirm_ms = v.span;
    } else if *name == "maxDormant".to_owned() {
        config.max_dormant = v.count;
    } else {
        return false;
    }
    true
}

/// A setting is changed under its own name and no other setting with it; under any other name
/// there is none.
pub proof fn law_a_setting_goes_by_its_name(config: WorldConfig, v: SettingValue, name: Seq<char>)
    ensures
        with_setting(config, "gapResetMs"@, v) == Some(
            WorldConfig { gap_reset_ms: v.span, ..config },
        ),
        with_setting(config, "departGraceMs"@, v) == Some(
            WorldConfig { depart_grace_ms: v.span, ..config },
        ),
        with_setting(config, "settleDefaultMs"@, v) == Some(
            WorldConfig { settle_default_ms: v.span, ..config },
        ),
        with_setting(config, "settleVehicleMs"@, v) == Some(
            WorldConfig { settle_vehicle_ms: v.span, ..config },
        ),
        with_setting(config, "settlePersonMs"@, v) == Some(
            WorldConfig { settle_person_ms: v.span, ..config },
        ),
        with_setting(config, "stationarySpeed"@, v) == Some(
            WorldConfig { stationary_speed: v.level, ..config },
        ),
        with_setting(config, "reassocIou"@, v) == Some(
            WorldConfig { reassoc_iou: v.level, ..config },
        ),
        with_setting(config, "wakeTicks"@, v) == Some(
            WorldConfig { wake_ticks: v.ticks, ..config },
        ),
        with_setting(config, "confirmMs"@, v) == Some(
            WorldConfig { confirm_ms: v.span, ..config },
        ),
        with_setting(config, "maxDormant"@, v) == Some(
            WorldConfig { max_dormant: v.count, ..config },
        ),
        name != "gapResetMs"@
            && name != "departGraceMs"@
            && name != "settleDefaultMs"@
            && name != "settleVehicleMs"@
            && name != "settlePersonMs"@
            && name != "stationarySpeed"@
            && name != "reassocIou"@
            && name != "wakeTicks"@
            && name != "confirmMs"@
            && name != "maxDormant"@ ==> with_setting(config, name, v) is None,
{
    reveal_strlit("gapResetMs");
    reveal_strlit("departGraceMs");
    reveal_strlit("settleDefaultMs");
    reveal_strlit("settleVehicleMs");
    reveal_strlit("settlePersonMs");
    reveal_strlit("stationarySpeed");
    reveal_strlit("reassocIou");
    reveal_strlit("wakeTicks");
    reveal_strlit("confirmMs");
    reveal_strlit("maxDormant");
    assert("gapResetMs"@[0] == 'g');
    assert("departGraceMs"@[0] == 'd');
    assert("settleDefaultMs"@[0] == 's');
    assert("settleVehicleMs"@[0] == 's');
    assert("settlePersonMs"@[0] == 's');
    assert("stationarySpeed"@[0] == 's');
    assert("reassocIou"@[0] == 'r');
    assert("wakeTicks"@[0] == 'w');
    assert("confirmMs"@[0] == 'c');
    assert("maxDormant"@[0] == 'm');
    assert("settleDefaultMs"@[6] == 'D');
    assert("settleVehicleMs"@[6] == 'V');
    assert("settlePersonMs"@[6] == 'P');
    assert("stationarySpeed"@[6] == 'n');
}

/// Recorded words mean what they say, and other words nothing.
pub proof fn law_recorded_words_mean_what_they_say(name: Seq<char>)
    ensures
        filter_named("include"@) == Some(ZoneFilterMode::Include),
        filter_named("exclude"@) == Some(ZoneFilterMode::Exclude),
        filter_named(name) is Some ==> name == "include"@ || name == "exclude"@,
        match_named("intersect"@) == Some(ZoneMatchType::Intersect),
        match_named("contain"@) == Some(ZoneMatchType::Contain),
        match_named(name) is Some ==> name == "intersect"@ || name == "contain"@,
        direction_named("both"@) == Some(LineDirectionFilter::Both),
        direction_named("a-to-b"@) == Some(LineDirectionFilter::AToB),
        direction_named("b-to-a"@) == Some(LineDirectionFilter::BToA),
        direction_named(name) is Some ==> name == "both"@ || name == "a-to-b"@ || name
            == "b-to-a"@,
{
    reveal_strlit("include");
    reveal_strlit("exclude");
    reveal_strlit("intersect");
    reveal_strlit("contain");
    reveal_strlit("both");
    reveal_strlit("a-to-b");
    reveal_strlit("b-to-a");
    assert("include"@[0] == 'i');
    assert("exclude"@[0] == 'e');
    assert("intersect"@[0] == 'i');
    assert("contain"@[0] == 'c');
    assert("both"@.len() == 4);
    assert("a-to-b"@[0] == 'a');
    assert("b-to-a"@[0] == 'b');
    assert("b-to-a"@.len() == 6);
}

/// A recorded zone is taken over with its labels, its words, whether it is a mask, and its
/// points; a recorded line with its name, its labels, its direction and its two points.
pub proof fn law_recorded_drawings_are_taken_over(
    zone: ZoneInput,
    z: ReplayZone,
    line: DetectionLineInput,
    l: ReplayLine,
)
    requires
        is_recorded_zone(zone, z),
        is_recorded_line(line, l),
    ensures
        zone.labels@ == z.labels@ && zone.points@ == z.points@,
        zone.is_privacy_mask == z.is_privacy_mask,
        zone.filter == ZoneFilterMode::Include <==> z.filter@ == "include"@,
        zone.filter == ZoneFilterMode::Exclude <==> z.filter@ == "exclude"@,
        zone.match_type == ZoneMatchType::Intersect <==> z.match_type@ == "intersect"@,
        zone.match_type == ZoneMatchType::Contain <==> z.match_type@ == "contain"@,
        line.name@ == l.name@ && line.labels@ == l.labels@,
        line.points[0] == l.points@[0] && line.points[1] == l.points@[1],
        line.direction == LineDirectionFilter::Both <==> l.direction@ == "both"@,
        line.direction == LineDirectionFilter::AToB <==> l.direction@ == "a-to-b"@,
        line.direction == LineDirectionFilter::BToA <==> l.direction@ == "b-to-a"@,
{
    law_recorded_words_mean_what_they_say(z.filter@);
    law_recorded_words_mean_what_they_say(z.match_type@);
    law_recorded_words_mean_what_they_say(l.direction@);
}

/// The numbers go up, are below `n`, and are exactly those the condition holds of.
spec fn picks(numbers: Seq<int>, n: int, good: spec_fn(int) -> bool) -> bool {
    &&& forall|k: int, l: int|
        0 <= k < l < numbers.len() ==> #[trigger] numbers[k] < #[trigger] numbers[l]
    &&& forall|k: int| 0 <= k < numbers.len() ==> 0 <= #[trigger] numbers[k] < n
    &&& forall|i: int| 0 <= i < n ==> (#[trigger] numbers.contains(i) <==> good(i))
}

proof fn lemma_picks_one_more(numbers: Seq<int>, n: int, good: spec_fn(int) -> bool)
    requires
        0 <= n,
        picks(numbers, n, good),
    ensures
        good(n) ==> picks(numbers.push(n), n + 1, good),
        !good(n) ==> picks(numbers, n + 1, good),
{
    let more = numbers.push(n);
    assert forall|i: int| 0 <= i < n + 1 implies (#[trigger] more.contains(i) <==> numbers.contains(
        i,
    ) || i == n) by {
        if numbers.contains(i) {
            let k = choose|k: int| 0 <= k < numbers.len() && numbers[k] == i;
            assert(more[k] == i);
        }
        if i == n {
            assert(more[numbers.len() as int] == i);
        }
        if more.contains(i) && i != n {
            let k = choose|k: int| 0 <= k < more.len() && more[k] == i;
            assert(numbers[k] == i);
        }
    }
    assert(!numbers.contains(n));
}

proof fn lemma_good_drawings(zones: Seq<ReplayZone>, lines: Seq<ReplayLine>, n: int)
    requires
        0 <= n,
    ensures
        picks(
            good_zones(zones, n),
            n,
            |i: int|
                filter_named(zones[i].filter@) is Some && match_named(zones[i].match_type@) is Some,
        ),
        picks(
            good_lines(lines, n),
            n,
            |i: int|
                lines[i].points@.len() == 2 && direction_named(lines[i].direction@) is Some,
        ),
    decreases n,
{
    if n > 0 {
        lemma_good_drawings(zones, lines, n - 1);
        lemma_picks_one_more(
            good_zones(zones, n - 1),
            n - 1,
            |i: int|
                filter_named(zones[i].filter@) is Some && match_named(zones[i].match_type@) is Some,
        );
        lemma_picks_one_more(
            good_lines(lines, n - 1),
            n - 1,
            |i: int|
                lines[i].points@.len() == 2 && direction_named(lines[i].direction@) is Some,
        );
    }
}

/// Of the recorded zones exactly those are taken over whose words are known, and of the
/// recorded lines exactly those with two points and a known direction, in their order.
pub proof fn law_only_known_drawings_are_taken_over(
    zones: Seq<ReplayZone>,
    lines: Seq<ReplayLine>,
    i: int,
    j: int,
)
    requires
        0 <= i < zones.len(),
        0 <= j < lines.len(),
    ensures
        good_zones(zones, zones.len() as int).contains(i) <==> (zones[i].filter@ == "include"@
            || zones[i].filter@ == "exclude"@) && (zones[i].match_type@ == "intersect"@
            || zones[i].match_type@ == "contain"@),
        good_lines(lines, lines.len() as int).contains(j) <==> lines[j].points@.len() == 2 && (
        lines[j].direction@ == "both"@ || lines[j].direction@ == "a-to-b"@ || lines[j].direction@
            == "b-to-a"@),
        forall|k: int, l: int|
            0 <= k < l < good_zones(zones, zones.len() as int).len() ==> #[trigger] good_zones(
                zones,
                zones.len() as int,
            )[k] < #[trigger] good_zones(zones, zones.len() as int)[l],
        forall|k: int, l: int|
            0 <= k < l < good_lines(lines, lines.len() as int).len() ==> #[trigger] good_lines(
                lines,
                lines.len() as int,
            )[k] < #[trigger] good_lines(lines, lines.len() as int)[l],
{
    lemma_good_drawings(zones, lines, zones.len() as int);
    lemma_good_drawings(zones, lines, lines.len() as int);
    law_recorded_words_mean_what_they_say(zones[i].filter@);
    law_recorded_words_mean_what_they_say(zones[i].match_type@);
    law_recorded_words_mean_what_they_say(lines[j].direction@);
}

proof fn lemma_trimmed_left_from(text: Seq<char>) -> (from: int)
    ensures
        0 <= from <= text.len(),
        trimmed_left(text) == text.skip(from),
        forall|i: int| 0 <= i < from ==> white_char(#[trigger] text[i]),
    decreases text.len(),
{
    if text.len() > 0 && white_char(text[0]) {
        let rest = text.skip(1);
        let from = lemma_trimmed_left_from(rest);
        assert(rest.skip(from) =~= text.skip(from + 1));
        assert forall|i: int| 0 <= i < from + 1 implies white_char(#[trigger] text[i]) by {
            if i > 0 {
                assert(rest[i - 1] == text[i]);
            }
        }
        from + 1
    } else {
        assert(text.skip(0) =~= text);
        0
    }
}

proof fn lemma_trimmed_right_to(text: Seq<char>) -> (to: int)
    ensures
        0 <= to <= text.len(),
        trimmed_right(text) == text.take(to),
        forall|i: int| to <= i < text.len() ==> white_char(#[trigger] text[i]),
    decreases text.len(),
{
    if text.len() > 0 && white_char(text.last()) {
        let rest = text.drop_last();
        let to = lemma_trimmed_right_to(rest);
        assert(rest.take(to) =~= text.take(to));
        assert forall|i: int| to <= i < text.len() implies white_char(#[trigger] text[i]) by {
            if i < rest.len() {
                assert(rest[i] == text[i]);
            }
        }
        to
    } else {
        assert(text.take(text.len() as int) =~= text);
        text.len() as int
    }
}

/// Trimming takes off white space at both ends and nothing else: what is left is a part of the
/// text, and all before and behind it is white space.
pub proof fn law_trimming_takes_off_only_white_space(text: Seq<char>) -> (part: (int, int))
    ensures
        0 <= part.0 <= part.1 <= text.len(),
        trimmed(text) == text.subrange(part.0, part.1),
        forall|i: int|
            0 <= i < text.len() && (i < part.0 || part.1 <= i) ==> white_char(#[trigger] text[i]),
{
    let from = lemma_trimmed_left_from(text);
    let rest = text.skip(from);
    let to = lemma_trimmed_right_to(rest);
    assert(rest.take(to) =~= text.subrange(from, from + to));
    assert forall|i: int|
        0 <= i < text.len() && (i < from || from + to <= i) implies white_char(
        #[trigger] text[i],
    ) by {
        if i >= from {
            assert(rest[i - from] == text[i]);
        }
    }
    (from, from + to)
}

/// A text without a line end is one line, and a line end after a text parts it from what
/// follows.
pub proof fn law_line_ends_part_lines(text: Seq<char>, n: int)
    requires
        0 <= n < text.len(),
    ensures
        text[n] == '\n' ==> lines_within(text, n + 1).1.len() == 0,
        text[n] == '\n' ==> lines_within(text, n + 1).0 == (if trimmed(
            lines_within(text, n).1,
        ).len() > 0 {
            lines_within(text, n).0.push(trimmed(lines_within(text, n).1))
        } else {
            lines_within(text, n).0
        }),
        text[n] != '\n' ==> lines_within(text, n + 1).0 == lines_within(text, n).0,
        text[n] != '\n' ==> lines_within(text, n + 1).1 == lines_within(text, n).1.push(text[n]),
{
}

/// A recorded line with two points and a known direction is in place once its lines are
/// applied, from its first point to its second in an image of the given shape.
pub proof fn law_a_recorded_line_is_in_place(
    prepared: Seq<PreparedLine>,
    lines: Seq<ReplayLine>,
    aspect: Level,
    ends: spec_fn(UiPoint, UiPoint, Level) -> LineEnds,
    j: int,
)
    requires
        has_lines(prepared, lines, aspect, ends),
        0 <= j < lines.len(),
        lines[j].points@.len() == 2,
        lines[j].direction@ == "both"@ || lines[j].direction@ == "a-to-b"@ || lines[j].direction@
            == "b-to-a"@,
    ensures
        exists|k: int|
            0 <= k < prepared.len() && {
                let at = ends(lines[j].points@[0], lines[j].points@[1], aspect);
                &&& (#[trigger] prepared[k]).name@ == lines[j].name@
                &&& prepared[k].p1 == at.p1
                &&& prepared[k].p2 == at.p2
                &&& prepared[k].direction == LineDirectionFilter::Both <==> lines[j].direction@
                    == "both"@
                &&& prepared[k].direction == LineDirectionFilter::AToB <==> lines[j].direction@
                    == "a-to-b"@
            },
{
    let n = lines.len() as int;
    let inputs = choose|inputs: Seq<DetectionLineInput>| #[trigger]
        are_recorded_lines(inputs, lines, n) && all_prepared(prepared, inputs, aspect, ends);
    let good = good_lines(lines, n);
    lemma_good_drawings(Seq::empty(), lines, n);
    law_recorded_words_mean_what_they_say(lines[j].direction@);
    assert(good.contains(j));
    let k = choose|k: int| 0 <= k < good.len() && good[k] == j;
    assert(is_recorded_line(inputs[k], lines[good[k]]));
    law_every_drawn_line_is_there(prepared, inputs, aspect, ends, k);
    assert(prepared[k].name@ == lines[j].name@);
}

/// A zone with this outline filters as the recorded one says.
pub open spec fn stands_for(zone: PreparedZone, z: ReplayZone, outline: Seq<Point>) -> bool {
    &&& zone.points@ == outline
    &&& zone.filter == ZoneFilterMode::Include <==> z.filter@ == "include"@
    &&& zone.match_type == ZoneMatchType::Contain <==> z.match_type@ == "contain"@
    &&& zone.labels@.len() == 0 <==> z.labels@.len() == 0
}

/// A recorded zone whose words are known is in place once its zones are applied, among the
/// masks if it was recorded as one, and where it was drawn.
pub proof fn law_a_recorded_zone_is_in_place(
    prepared: PreparedZones,
    zones: Seq<ReplayZone>,
    scale: spec_fn(UiPoint) -> Point,
    span: spec_fn(Point, Point) -> Shift,
    i: int,
)
    requires
        has_zones(prepared, zones, scale, span),
        0 <= i < zones.len(),
        zones[i].filter@ == "include"@ || zones[i].filter@ == "exclude"@,
        zones[i].match_type@ == "intersect"@ || zones[i].match_type@ == "contain"@,
    ensures
        zones[i].is_privacy_mask ==> exists|k: int|
            0 <= k < prepared.privacy_masks@.len() && stands_for(
                #[trigger] prepared.privacy_masks@[k],
                zones[i],
                closed_outline(zones[i].points@, scale, span),
            ),
        !zones[i].is_privacy_mask ==> exists|k: int|
            0 <= k < prepared.active_zones@.len() && stands_for(
                #[trigger] prepared.active_zones@[k],
                zones[i],
                closed_outline(zones[i].points@, scale, span),
            ),
{
    let n = zones.len() as int;
    let inputs = choose|inputs: Seq<ZoneInput>|
        {
            &&& #[trigger] are_recorded_zones(inputs, zones, n)
            &&& prepared.is_prepared_from(inputs)
            &&& prepared.is_drawn_from(inputs, scale, span)
        };
    let good = good_zones(zones, n);
    lemma_good_drawings(zones, Seq::empty(), n);
    law_recorded_words_mean_what_they_say(zones[i].filter@);
    law_recorded_words_mean_what_they_say(zones[i].match_type@);
    assert(good.contains(i));
    let j = choose|j: int| 0 <= j < good.len() && good[j] == i;
    assert(is_recorded_zone(inputs[j], zones[good[j]]));
    law_every_drawn_zone_is_there(prepared, inputs, scale, span, j);
}

} // verus!
