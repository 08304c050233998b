//! Paths as text: `name.name[3].name`.
//!
//! A path is written as its segments one after the other. A field name is
//! written as it is, with a dot before it unless it comes first; a position
//! is written in decimal digits between square brackets. A name is never
//! empty and holds no dot and no square bracket.
use vstd::prelude::*;
use vstd::string::*;
use crate::lookup::{segments_view, Lookup, LookupBuf, PathView, Segment, SegmentView};

verus! {

/// Why a text is not a path.
#[derive(Clone, Copy, Debug, PartialEq, Eq, Structural)]
pub enum LookupError {
    /// The text is empty.
    Empty,
    /// A field name should start at `at`, and none does.
    MissingName { at: usize },
    /// The bracket opened at `at` holds no position: it is not closed, it
    /// holds nothing or something other than digits, or the number is too
    /// large for a position.
    MalformedIndex { at: usize },
    /// After a segment, the character at `at` starts neither a field
    /// (`.`) nor a position (`[`).
    Unexpected { at: usize },
}

/// A character that cannot be part of a name.
pub open spec fn is_delimiter(c: char) -> bool {
    c == '.' || c == '[' || c == ']'
}

/// A decimal digit.
pub open spec fn is_digit(c: char) -> bool {
    '0' <= c <= '9'
}

/// The number that a decimal digit stands for.
pub open spec fn digit_of(c: char) -> nat {
    (c as u32 - '0' as u32) as nat
}

/// Where the name that starts at `from` ends: at the first delimiter at or
/// after `from`, or at the end of the text.
pub open spec fn name_end(text: Seq<char>, from: int) -> int
    decreases text.len() - from,
{
    if from < 0 || from >= text.len() || is_delimiter(text[from]) {
        from
    } else {
        name_end(text, from + 1)
    }
}

/// Where the digits that start at `from` end.
pub open spec fn digits_end(text: Seq<char>, from: int) -> int
    decreases text.len() - from,
{
    if from < 0 || from >= text.len() || !is_digit(text[from]) {
        from
    } else {
        digits_end(text, from + 1)
    }
}

/// The number that a run of decimal digits is.
pub open spec fn digits_value(digits: Seq<char>) -> nat
    decreases digits.len(),
{
    if digits.len() == 0 {
        0
    } else {
        digits_value(digits.drop_last()) * 10 + digit_of(digits.last())
    }
}

/// The character that stands for a digit.
pub open spec fn digit_char(digit: nat) -> char {
    if digit == 0 {
        '0'
    } else if digit == 1 {
        '1'
    } else if digit == 2 {
        '2'
    } else if digit == 3 {
        '3'
    } else if digit == 4 {
        '4'
    } else if digit == 5 {
        '5'
    } else if digit == 6 {
        '6'
    } else if digit == 7 {
        '7'
    } else if digit == 8 {
        '8'
    } else {
        '9'
    }
}

/// A number in decimal digits, without leading zeros.
pub open spec fn digits_of(n: nat) -> Seq<char>
    decreases n,
{
    if n < 10 {
        seq![digit_char(n)]
    } else {
        digits_of(n / 10).push(digit_char(n % 10))
    }
}

/// How a segment is written: a position in brackets, a name as it is, with
/// a dot before it unless it is the first segment.
pub open spec fn segment_text(segment: SegmentView, first: bool) -> Seq<char> {
    match segment {
        SegmentView::Field(name) => if first {
            name
        } else {
            seq!['.'] + name
        },
        SegmentView::Index(position) => seq!['['] + digits_of(position) + seq![']'],
    }
}

/// How a path is written: its segments one after the other.
pub open spec fn path_text(path: PathView) -> Seq<char>
    decreases path.len(),
{
    if path.len() == 0 {
        Seq::empty()
    } else {
        path_text(path.drop_last()) + segment_text(path.last(), path.len() == 1)
    }
}

/// `first` followed by what the rest of the text gave, or the error that it
/// gave.
pub open spec fn followed_by(first: PathView, rest: Result<PathView, LookupError>) -> Result<
    PathView,
    LookupError,
> {
    match rest {
        Ok(more) => Ok(first + more),
        Err(e) => Err(e),
    }
}

/// The segments that the text from `from` on spells, where a field name
/// has to start at `from`.
pub open spec fn parse_component(text: Seq<char>, from: int) -> Result<PathView, LookupError>
    decreases text.len() - from, 1nat,
{
    let end = name_end(text, from);
    if from < 0 || from > text.len() {
        Err(LookupError::MissingName { at: 0 })
    } else if text.len() == 0 {
        Err(LookupError::Empty)
    } else if end <= from || end > text.len() {
        Err(LookupError::MissingName { at: from as usize })
    } else {
        followed_by(seq![SegmentView::Field(text.subrange(from, end))], parse_tail(text, end))
    }
}

/// The segments that the text from `from` on spells, where a segment has
/// just ended at `from`.
pub open spec fn parse_tail(text: Seq<char>, from: int) -> Result<PathView, LookupError>
    decreases text.len() - from, 0nat,
{
    if from < 0 || from >= text.len() {
        Ok(Seq::empty())
    } else if text[from] == '.' {
        parse_component(text, from + 1)
    } else if text[from] == '[' {
        let end = digits_end(text, from + 1);
        if end <= from + 1 || end >= text.len() || text[end] != ']' || digits_value(
            text.subrange(from + 1, end),
        ) > usize::MAX {
            Err(LookupError::MalformedIndex { at: from as usize })
        } else {
            followed_by(
                seq![SegmentView::Index(digits_value(text.subrange(from + 1, end)))],
                parse_tail(text, end + 1),
            )
        }
    } else {
        Err(LookupError::Unexpected { at: from as usize })
    }
}

/// The path that a text spells, or why it spells none.
pub open spec fn parse_path(text: Seq<char>) -> Result<PathView, LookupError> {
    parse_component(text, 0)
}

/// The characters of a text, one by one.
pub fn characters(s: &str) -> (chars: Vec<char>)
    ensures
        chars@ == s@,
{
    let mut chars: Vec<char> = Vec::new();
    for c in it: s.chars()
        invariant
            it.seq() == s@,
            chars@ == s@.take(it.index() as int),
    {
        chars.push(c);
        proof {
            assert(s@.take(it.index() + 1) =~= s@.take(it.index() as int).push(c));
        }
    }
    proof {
        assert(s@.take(s@.len() as int) =~= s@);
    }
    chars
}

/// A longer run of digits is no smaller a number than its beginning.
pub proof fn lemma_digits_value_grows(digits: Seq<char>, k: int)
    requires
        0 <= k <= digits.len(),
    ensures
        digits_value(digits.take(k)) <= digits_value(digits),
    decreases digits.len() - k,
{
    if k == digits.len() {
        assert(digits.take(k) =~= digits);
    } else {
        lemma_digits_value_grows(digits.drop_last(), k);
        assert(digits.drop_last().take(k) =~= digits.take(k));
    }
}

/// Finds where the name that starts at `from` ends.
fn scan_name(chars: &Vec<char>, from: usize) -> (end: usize)
    requires
        from <= chars@.len(),
    ensures
        end == name_end(chars@, from as int),
        from <= end <= chars@.len(),
{
    let mut end: usize = from;
    while end < chars.len() && chars[end] != '.' && chars[end] != '[' && chars[end] != ']'
        invariant
            from <= end <= chars@.len(),
            name_end(chars@, from as int) == name_end(chars@, end as int),
        decreases chars@.len() - end,
    {
        end += 1;
    }
    end
}

/// Reads the position in the bracket opened at `open`: its number and
/// where the bracket closes.
fn scan_position(chars: &Vec<char>, open: usize) -> (r: Option<(usize, usize)>)
    requires
        open < chars@.len(),
    ensures
        match r {
            Some((value, close)) => {
                &&& close == digits_end(chars@, open + 1)
                &&& open + 1 < close < chars@.len()
                &&& chars@[close as int] == ']'
                &&& value == digits_value(chars@.subrange(open + 1, close as int))
            },
            None => {
                let end = digits_end(chars@, open + 1);
                end <= open + 1 || end >= chars@.len() || chars@[end] != ']' || digits_value(
                    chars@.subrange(open + 1, end),
                ) > usize::MAX
            },
        },
{
    let length = chars.len();
    let start: usize = open + 1;
    let mut end: usize = start;
    let mut value: usize = 0;
    let mut too_large = false;
    assert(chars@.subrange(start as int, start as int) =~= Seq::<char>::empty());
    while end < chars.len() && '0' <= chars[end] && chars[end] <= '9'
        invariant
            start == open + 1,
            start <= end <= chars@.len(),
            digits_end(chars@, start as int) == digits_end(chars@, end as int),
            !too_large ==> value == digits_value(chars@.subrange(start as int, end as int)),
            too_large ==> digits_value(chars@.subrange(start as int, end as int)) > usize::MAX,
        decreases chars@.len() - end,
    {
        let digit: usize = (chars[end] as u32 - '0' as u32) as usize;
        proof {
            let longer = chars@.subrange(start as int, end + 1);
            assert(longer.drop_last() =~= chars@.subrange(start as int, end as int));
            assert(longer.last() == chars@[end as int]);
        }
        if too_large || value > (usize::MAX - digit) / 10 {
            too_large = true;
        } else {
            value = value * 10 + digit;
        }
        end += 1;
    }
    if too_large || end == start || end >= chars.len() || chars[end] != ']' {
        None
    } else {
        Some((value, end))
    }
}

/// The text of one digit.
fn digit_text(digit: u64) -> (text: &'static str)
    requires
        digit < 10,
    ensures
        text@ == seq![digit_char(digit as nat)],
{
    proof {
        reveal_strlit("0");
        reveal_strlit("1");
        reveal_strlit("2");
        reveal_strlit("3");
        reveal_strlit("4");
        reveal_strlit("5");
        reveal_strlit("6");
        reveal_strlit("7");
        reveal_strlit("8");
        reveal_strlit("9");
    }
    let text = match digit {
        0 => "0",
        1 => "1",
        2 => "2",
        3 => "3",
        4 => "4",
        5 => "5",
        6 => "6",
        7 => "7",
        8 => "8",
        _ => "9",
    };
    assert(text@ =~= seq![digit_char(digit as nat)]);
    text
}

/// Writes `n` in decimal digits at the end of `text`.
pub fn push_digits(text: &mut String, n: u64)
    ensures
        final(text)@ == old(text)@ + digits_of(n as nat),
    decreases n,
{
    if n >= 10 {
        push_digits(text, n / 10);
        text.append(digit_text(n % 10));
        assert(text@ =~= old(text)@ + digits_of(n as nat));
    } else {
        text.append(digit_text(n));
    }
}

impl<'a> Lookup<'a> {
    /// The path as text.
    pub fn to_text(&self) -> (text: String)
        ensures
            text@ == path_text(self@),
    {
        let segments = self.as_slice();
        let ghost path = self@;
        let mut text = String::new();
        let mut i: usize = 0;
        proof {
            assert(path.take(0) =~= Seq::<SegmentView>::empty());
        }
        while i < segments.len()
            invariant
                i <= segments@.len(),
                path == segments_view(segments@),
                text@ == path_text(path.take(i as int)),
            decreases segments@.len() - i,
        {
            let ghost before = text@;
            proof {
                reveal_strlit(".");
                reveal_strlit("[");
                reveal_strlit("]");
                assert(path.take(i + 1).drop_last() =~= path.take(i as int));
                assert(path.take(i + 1).last() == segments@[i as int]@);
            }
            match segments[i] {
                Segment::Field(name) => {
                    if i > 0 {
                        text.append(".");
                    }
                    text.append(name);
                    proof {
                        assert(text@ =~= before + segment_text(segments@[i as int]@, i == 0));
                    }
                },
                Segment::Index(position) => {
                    text.append("[");
                    push_digits(&mut text, position as u64);
                    text.append("]");
                    proof {
                        assert(text@ =~= before + segment_text(segments@[i as int]@, i == 0));
                    }
                },
            }
            i += 1;
        }
        proof {
            assert(path.take(path.len() as int) =~= path);
        }
        text
    }

    /// Reads a path from its text.
    pub fn from_str(s: &'a str) -> (r: Result<Lookup<'a>, LookupError>)
        ensures
            match r {
                Ok(path) => parse_path(s@) == Ok::<PathView, LookupError>(path@),
                Err(e) => parse_path(s@) == Err::<PathView, LookupError>(e),
            },
    {
        let chars = characters(s);
        let ghost text = s@;
        if chars.len() == 0 {
            return Err(LookupError::Empty);
        }
        let mut segments: Vec<Segment<'a>> = Vec::new();
        let first_end = scan_name(&chars, 0);
        if first_end == 0 {
            return Err(LookupError::MissingName { at: 0 });
        }
        segments.push(Segment::Field(s.substring_char(0, first_end)));
        let mut at: usize = first_end;
        proof {
            assert(segments_view(segments@) =~= seq![SegmentView::Field(text.subrange(0, at as int))]);
            assert(segments_view(segments@) + Seq::<SegmentView>::empty() =~= segments_view(
                segments@,
            ));
        }
        while at < chars.len()
            invariant
                chars@ == text,
                text == s@,
                at <= text.len(),
                segments@.len() > 0,
                parse_path(text) == followed_by(segments_view(segments@), parse_tail(text, at as int)),
            decreases text.len() - at,
        {
            let ghost so_far = segments_view(segments@);
            proof {
                reveal_with_fuel(parse_tail, 2);
                reveal_with_fuel(parse_component, 2);
            }
            if chars[at] == '.' {
                let start: usize = at + 1;
                let end = scan_name(&chars, start);
                if end == start {
                    return Err(LookupError::MissingName { at: start });
                }
                segments.push(Segment::Field(s.substring_char(start, end)));
                proof {
                    let segment = SegmentView::Field(text.subrange(start as int, end as int));
                    assert(segments_view(segments@) =~= so_far.push(segment));
                    lemma_followed_by_push(so_far, segment, parse_tail(text, end as int));
                }
                at = end;
            } else if chars[at] == '[' {
                match scan_position(&chars, at) {
                    None => {
                        return Err(LookupError::MalformedIndex { at });
                    },
                    Some((value, close)) => {
                        segments.push(Segment::Index(value));
                        proof {
                            let segment = SegmentView::Index(value as nat);
                            assert(segments_view(segments@) =~= so_far.push(segment));
                            lemma_followed_by_push(so_far, segment, parse_tail(text, close + 1));
                        }
                        at = close + 1;
                    },
                }
            } else {
                return Err(LookupError::Unexpected { at });
            }
        }
        proof {
            assert(segments_view(segments@) + Seq::<SegmentView>::empty() =~= segments_view(
                segments@,
            ));
        }
        match Lookup::from_segments(segments) {
            Some(path) => Ok(path),
            None => Err(LookupError::Empty),
        }
    }
}

/// Putting a segment at the end of what came first is putting it at the
/// start of what follows.
proof fn lemma_followed_by_push(
    first: PathView,
    segment: SegmentView,
    rest: Result<PathView, LookupError>,
)
    ensures
        followed_by(first, followed_by(seq![segment], rest)) == followed_by(
            first.push(segment),
            rest,
        ),
{
    match rest {
        Ok(more) => {
            assert(first + (seq![segment] + more) =~= first.push(segment) + more);
        },
        Err(_) => {},
    }
}

impl LookupBuf {
    /// The path as text.
    pub fn to_text(&self) -> (text: String)
        ensures
            text@ == path_text(self@),
    {
        self.as_lookup().to_text()
    }

    /// Reads a path from its text.
    pub fn from_str(s: &str) -> (r: Result<LookupBuf, LookupError>)
        ensures
            match r {
                Ok(path) => parse_path(s@) == Ok::<PathView, LookupError>(path@),
                Err(e) => parse_path(s@) == Err::<PathView, LookupError>(e),
            },
    {
        match Lookup::from_str(s) {
            Ok(path) => Ok(path.into_buf()),
            Err(e) => Err(e),
        }
    }
}

/// A name that can be written in a path: not empty, and without dot or
/// bracket.
pub open spec fn plain_name(name: Seq<char>) -> bool {
    &&& name.len() > 0
    &&& forall|i: int| 0 <= i < name.len() ==> !is_delimiter(#[trigger] name[i])
}

/// A segment that can be written in a path.
pub open spec fn writable_segment(segment: SegmentView) -> bool {
    match segment {
        SegmentView::Field(name) => plain_name(name),
        SegmentView::Index(position) => position <= usize::MAX,
    }
}

/// A path that its text gives back: it starts with a field, its names are
/// plain, and its positions are no larger than a position can be.
pub open spec fn writable(path: PathView) -> bool {
    &&& path.len() > 0
    &&& path[0] is Field
    &&& forall|i: int| 0 <= i < path.len() ==> writable_segment(#[trigger] path[i])
}

/// How segments are written that are not the first of their path.
pub open spec fn tail_text(path: PathView) -> Seq<char>
    decreases path.len(),
{
    if path.len() == 0 {
        Seq::empty()
    } else {
        segment_text(path[0], false) + tail_text(path.skip(1))
    }
}

/// A name ends where, after characters that are no delimiters, a delimiter
/// or the end of the text comes.
pub proof fn lemma_name_end(text: Seq<char>, from: int, end: int)
    requires
        0 <= from <= end <= text.len(),
        forall|i: int| from <= i < end ==> !is_delimiter(#[trigger] text[i]),
        end == text.len() || is_delimiter(text[end]),
    ensures
        name_end(text, from) == end,
    decreases end - from,
{
    if from < end {
        lemma_name_end(text, from + 1, end);
    }
}

/// Digits end where, after digits, something else or the end of the text
/// comes.
pub proof fn lemma_digits_end(text: Seq<char>, from: int, end: int)
    requires
        0 <= from <= end <= text.len(),
        forall|i: int| from <= i < end ==> is_digit(#[trigger] text[i]),
        end == text.len() || !is_digit(text[end]),
    ensures
        digits_end(text, from) == end,
    decreases end - from,
{
    if from < end {
        lemma_digits_end(text, from + 1, end);
    }
}

/// A number written in digits is at least one digit, all of them digits,
/// and reads as the number.
pub proof fn lemma_digits_of(n: nat)
    ensures
        digits_of(n).len() > 0,
        forall|i: int| 0 <= i < digits_of(n).len() ==> is_digit(#[trigger] digits_of(n)[i]),
        digits_value(digits_of(n)) == n,
    decreases n,
{
    if n < 10 {
        let digits = digits_of(n);
        assert(digits.drop_last() =~= Seq::<char>::empty());
        assert(digits_value(digits.drop_last()) == 0);
        assert(digit_of(digit_char(n)) == n);
    } else {
        lemma_digits_of(n / 10);
        let digits = digits_of(n);
        assert(digits.drop_last() =~= digits_of(n / 10));
        assert(digit_of(digit_char(n % 10)) == n % 10);
        assert forall|i: int| 0 <= i < digits.len() implies is_digit(#[trigger] digits[i]) by {
            if i < digits.len() - 1 {
                assert(digits[i] == digits_of(n / 10)[i]);
            }
        }
    }
}

/// Segments after the first are written starting with a dot or a bracket.
pub proof fn lemma_tail_text_starts(path: PathView)
    requires
        path.len() > 0,
    ensures
        tail_text(path).len() > 0,
        is_delimiter(tail_text(path)[0]),
{
    let first = segment_text(path[0], false);
    assert(first.len() > 0);
    assert(tail_text(path)[0] == first[0]);
}

/// Writing one more segment at the end adds its text at the end.
pub proof fn lemma_tail_text_push(path: PathView, segment: SegmentView)
    ensures
        tail_text(path.push(segment)) == tail_text(path) + segment_text(segment, false),
    decreases path.len(),
{
    let longer = path.push(segment);
    if path.len() == 0 {
        assert(longer.skip(1) =~= Seq::<SegmentView>::empty());
        assert(tail_text(longer.skip(1)) =~= Seq::<char>::empty());
        assert(longer[0] == segment);
        assert(tail_text(longer) =~= segment_text(segment, false));
        assert(tail_text(path) + segment_text(segment, false) =~= segment_text(segment, false));
    } else {
        lemma_tail_text_push(path.skip(1), segment);
        assert(longer.skip(1) =~= path.skip(1).push(segment));
        assert(longer[0] == path[0]);
        assert(tail_text(longer) =~= tail_text(path) + segment_text(segment, false));
    }
}

/// A path is written as its first segment and then the rest.
pub proof fn lemma_path_text_front(path: PathView)
    requires
        path.len() > 0,
    ensures
        path_text(path) == segment_text(path[0], true) + tail_text(path.skip(1)),
    decreases path.len(),
{
    let first = segment_text(path[0], true);
    if path.len() == 1 {
        assert(path.drop_last() =~= Seq::<SegmentView>::empty());
        assert(path.skip(1) =~= Seq::<SegmentView>::empty());
        assert(path_text(path.drop_last()) =~= Seq::<char>::empty());
        assert(path_text(path) =~= first);
        assert(first + tail_text(path.skip(1)) =~= first);
    } else {
        let shorter = path.drop_last();
        lemma_path_text_front(shorter);
        lemma_tail_text_push(shorter.skip(1), path.last());
        assert(shorter.skip(1).push(path.last()) =~= path.skip(1));
        assert(shorter[0] == path[0]);
        assert(path_text(path) =~= first + tail_text(path.skip(1)));
    }
}

/// The text of segments after the first reads as those segments.
pub proof fn lemma_parse_tail_text(text: Seq<char>, at: int, path: PathView)
    requires
        0 <= at <= text.len(),
        text.subrange(at, text.len() as int) == tail_text(path),
        forall|i: int| 0 <= i < path.len() ==> writable_segment(#[trigger] path[i]),
    ensures
        parse_tail(text, at) == Ok::<PathView, LookupError>(path),
    decreases path.len(),
{
    let all = text.subrange(at, text.len() as int);
    if path.len() == 0 {
        assert(all.len() == 0);
        assert(path =~= Seq::<SegmentView>::empty());
    } else {
        reveal_with_fuel(parse_tail, 2);
        reveal_with_fuel(parse_component, 2);
        let rest = path.skip(1);
        let written = segment_text(path[0], false);
        let after = tail_text(rest);
        let next = at + written.len();
        assert(writable_segment(path[0]));
        assert(all.len() == written.len() + after.len());
        assert forall|k: int| 0 <= k < written.len() implies text[at + k] == written[k] by {
            assert(all[k] == written[k]);
        }
        assert(text.subrange(next, text.len() as int) =~= after) by {
            assert forall|k: int| 0 <= k < after.len() implies text[next + k] == after[k] by {
                assert(all[written.len() + k] == after[k]);
            }
        }
        assert forall|i: int| 0 <= i < rest.len() implies writable_segment(#[trigger] rest[i]) by {
            assert(rest[i] == path[i + 1]);
        }
        if rest.len() > 0 {
            lemma_tail_text_starts(rest);
            assert(text[next] == after[0]);
        }
        match path[0] {
            SegmentView::Field(name) => {
                assert(text[at] == written[0]);
                assert forall|i: int| at + 1 <= i < next implies !is_delimiter(
                    #[trigger] text[i],
                ) by {
                    assert(text[i] == written[i - at]);
                    assert(written[i - at] == name[i - at - 1]);
                }
                lemma_name_end(text, at + 1, next);
                assert forall|k: int| 0 <= k < name.len() implies text[at + 1 + k] == name[k] by {
                    assert(text[at + 1 + k] == written[k + 1]);
                }
                assert(text.subrange(at + 1, next) =~= name);
                lemma_parse_tail_text(text, next, rest);
                assert(seq![path[0]] + rest =~= path);
            },
            SegmentView::Index(position) => {
                let digits = digits_of(position);
                let close = at + 1 + digits.len();
                lemma_digits_of(position);
                assert(text[at] == written[0]);
                assert forall|i: int| at + 1 <= i < close implies is_digit(#[trigger] text[i]) by {
                    assert(text[i] == written[i - at]);
                    assert(written[i - at] == digits[i - at - 1]);
                }
                assert(text[close] == written[close - at]);
                assert(text[close] == ']');
                lemma_digits_end(text, at + 1, close);
                assert forall|k: int| 0 <= k < digits.len() implies text[at + 1 + k]
                    == digits[k] by {
                    assert(text[at + 1 + k] == written[k + 1]);
                }
                assert(text.subrange(at + 1, close) =~= digits);
                assert(next == close + 1);
                lemma_parse_tail_text(text, next, rest);
                assert(seq![path[0]] + rest =~= path);
            },
        }
    }
}

/// The text of a writable path reads as the path.
pub proof fn lemma_text_round_trip(path: PathView)
    requires
        writable(path),
    ensures
        parse_path(path_text(path)) == Ok::<PathView, LookupError>(path),
{
    let text = path_text(path);
    let name = path[0]->Field_0;
    let rest = path.skip(1);
    let after = tail_text(rest);
    lemma_path_text_front(path);
    assert(writable_segment(path[0]));
    assert(text.len() == name.len() + after.len());
    assert forall|i: int| 0 <= i < name.len() implies !is_delimiter(#[trigger] text[i]) by {
        assert(text[i] == name[i]);
    }
    assert(text.subrange(name.len() as int, text.len() as int) =~= after);
    assert forall|i: int| 0 <= i < rest.len() implies writable_segment(#[trigger] rest[i]) by {
        assert(rest[i] == path[i + 1]);
    }
    if rest.len() > 0 {
        lemma_tail_text_starts(rest);
        assert(text[name.len() as int] == after[0]);
    }
    lemma_name_end(text, 0, name.len() as int);
    assert(text.subrange(0, name.len() as int) =~= name);
    lemma_parse_tail_text(text, name.len() as int, rest);
    assert(seq![path[0]] + rest =~= path);
}

} // verus!
