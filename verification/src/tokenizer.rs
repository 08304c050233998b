//! A stage that writes the parts of one field into fields of their own.
//!
//! The stage is set up with the names of the fields to write, in the order
//! of the parts, and with the kind of value that each is to hold. What it
//! does with a record is stated here, and so is how a text is cut into
//! parts and how a part is read as a whole number or a truth value.
//! Reading a part as a floating-point number or a point in time is the
//! caller's.
use vstd::prelude::*;
use vstd::string::*;
use crate::event::LogEvent;
use crate::key_order::same_text;
use crate::lookup::{LookupBuf, PathView};
use crate::model::{insertion, removal};
use crate::path_text::{characters, digit_of, digits_value, is_digit, lemma_digits_value_grows};
use crate::value::{EntriesView, Value, ValueView};

verus! {

/// The kind of value that a part is read as.
#[derive(Clone, Copy, Debug, PartialEq, Eq, Structural)]
pub enum Conversion {
    Bytes,
    Integer,
    Float,
    Boolean,
    Timestamp,
}

/// The conversion that a name stands for, if it stands for one.
pub open spec fn conversion_named(name: Seq<char>) -> Option<Conversion> {
    if name == "asis"@ || name == "bytes"@ || name == "string"@ {
        Some(Conversion::Bytes)
    } else if name == "integer"@ || name == "int"@ {
        Some(Conversion::Integer)
    } else if name == "float"@ {
        Some(Conversion::Float)
    } else if name == "bool"@ || name == "boolean"@ {
        Some(Conversion::Boolean)
    } else if name == "timestamp"@ {
        Some(Conversion::Timestamp)
    } else {
        None
    }
}

/// A character that parts are cut at: a blank, a tab, or the end of a line.
pub open spec fn is_space(c: char) -> bool {
    c == ' ' || c == '\t' || c == '\n' || c == '\r'
}

/// Where the spaces that start at `from` end.
pub open spec fn spaces_end(text: Seq<char>, from: int) -> int
    decreases text.len() - from,
{
    if from < 0 || from >= text.len() || !is_space(text[from]) {
        from
    } else {
        spaces_end(text, from + 1)
    }
}

/// Where the part that starts at `from` ends.
pub open spec fn part_end(text: Seq<char>, from: int) -> int
    decreases text.len() - from,
{
    if from < 0 || from >= text.len() || is_space(text[from]) {
        from
    } else {
        part_end(text, from + 1)
    }
}

/// The parts of a text from `from` on: the runs of characters between
/// spaces, in order. No part is empty.
pub open spec fn parts_from(text: Seq<char>, from: int) -> Seq<Seq<char>>
    decreases text.len() - from,
{
    let start = spaces_end(text, from);
    let end = part_end(text, start);
    if from < 0 || start < from || start >= text.len() || end <= start || end > text.len() {
        Seq::empty()
    } else {
        seq![text.subrange(start, end)] + parts_from(text, end)
    }
}

/// What a run of texts stands for.
pub open spec fn texts_view(texts: Seq<String>) -> Seq<Seq<char>> {
    Seq::new(texts.len(), |i: int| texts[i]@)
}

/// Cuts a text into its parts at the spaces.
pub fn tokenize(text: &str) -> (parts: Vec<String>)
    ensures
        texts_view(parts@) == parts_from(text@, 0),
{
    let chars = characters(text);
    let mut parts: Vec<String> = Vec::new();
    let mut at: usize = 0;
    assert(texts_view(parts@) + parts_from(text@, 0) =~= parts_from(text@, 0));
    while at < chars.len()
        invariant
            chars@ == text@,
            at <= chars@.len(),
            texts_view(parts@) + parts_from(text@, at as int) == parts_from(text@, 0),
        decreases chars@.len() - at,
    {
        let mut start: usize = at;
        while start < chars.len() && (chars[start] == ' ' || chars[start] == '\t' || chars[start]
            == '\n' || chars[start] == '\r')
            invariant
                at <= start <= chars@.len(),
                spaces_end(chars@, at as int) == spaces_end(chars@, start as int),
            decreases chars@.len() - start,
        {
            start += 1;
        }
        let mut end: usize = start;
        while end < chars.len() && !(chars[end] == ' ' || chars[end] == '\t' || chars[end] == '\n'
            || chars[end] == '\r')
            invariant
                start <= end <= chars@.len(),
                part_end(chars@, start as int) == part_end(chars@, end as int),
            decreases chars@.len() - end,
        {
            end += 1;
        }
        let ghost before = texts_view(parts@);
        if start < chars.len() {
            assert(end > start);
            let part = String::from_str(text.substring_char(start, end));
            parts.push(part);
            proof {
                let one = seq![text@.subrange(start as int, end as int)];
                assert(texts_view(parts@) =~= before + one);
                assert((before + one) + parts_from(text@, end as int) =~= before + (one
                    + parts_from(text@, end as int)));
            }
        } else {
            proof {
                assert(parts_from(text@, at as int) =~= Seq::<Seq<char>>::empty());
                assert(parts_from(text@, end as int) =~= Seq::<Seq<char>>::empty());
            }
        }
        at = end;
    }
    proof {
        assert(parts_from(text@, at as int) =~= Seq::<Seq<char>>::empty());
        assert(texts_view(parts@) + Seq::<Seq<char>>::empty() =~= texts_view(parts@));
    }
    parts
}

/// Why a part is not the kind of value that it was to be read as.
#[derive(Clone, Copy, Debug, PartialEq, Eq, Structural)]
pub enum ConvertError {
    /// The part is no whole number that fits 64 bits with a sign.
    NotAnInteger,
    /// The part is no truth value.
    NotABoolean,
    /// Parts of this kind are read outside this library.
    ReadElsewhere,
}

/// Every character of the text is a decimal digit.
pub open spec fn all_digits(text: Seq<char>) -> bool {
    forall|i: int| 0 <= i < text.len() ==> is_digit(#[trigger] text[i])
}

/// The whole number that a text is: decimal digits, at least one, after an
/// optional sign; nothing where the text is something else or the number
/// does not fit 64 bits with a sign.
pub open spec fn integer_of(text: Seq<char>) -> Option<i64> {
    let signed = text.len() > 0 && (text[0] == '-' || text[0] == '+');
    let digits = if signed {
        text.skip(1)
    } else {
        text
    };
    let size = digits_value(digits);
    let number = if text.len() > 0 && text[0] == '-' {
        -size
    } else {
        size as int
    };
    if digits.len() == 0 || !all_digits(digits) || number < i64::MIN || number > i64::MAX {
        None
    } else {
        Some(number as i64)
    }
}

/// The truth value that a text is, if it is one.
pub open spec fn boolean_of(text: Seq<char>) -> Option<bool> {
    if text == "true"@ || text == "t"@ || text == "yes"@ || text == "y"@ {
        Some(true)
    } else if text == "false"@ || text == "f"@ || text == "no"@ || text == "n"@ {
        Some(false)
    } else {
        None
    }
}

/// What a part is read as under a conversion.
pub open spec fn converted(conversion: Conversion, part: Seq<char>) -> Result<
    ValueView,
    ConvertError,
> {
    match conversion {
        Conversion::Bytes => Ok(ValueView::Bytes(vstd::utf8::encode_utf8(part))),
        Conversion::Integer => match integer_of(part) {
            Some(number) => Ok(ValueView::Integer(number)),
            None => Err(ConvertError::NotAnInteger),
        },
        Conversion::Boolean => match boolean_of(part) {
            Some(truth) => Ok(ValueView::Boolean(truth)),
            None => Err(ConvertError::NotABoolean),
        },
        Conversion::Float => Err(ConvertError::ReadElsewhere),
        Conversion::Timestamp => Err(ConvertError::ReadElsewhere),
    }
}

/// Reads a text as a whole number.
pub fn read_integer(text: &str) -> (r: Option<i64>)
    ensures
        r == integer_of(text@),
{
    let chars = characters(text);
    if chars.len() == 0 {
        return None;
    }
    let negative = chars[0] == '-';
    let start: usize = if chars[0] == '-' || chars[0] == '+' {
        1
    } else {
        0
    };
    let ghost digits = if start == 1 {
        text@.skip(1)
    } else {
        text@
    };
    if start == chars.len() {
        return None;
    }
    // The size of the number, which for a negative number may be one more
    // than the largest positive number.
    let limit: u64 = if negative {
        9223372036854775808
    } else {
        9223372036854775807
    };
    let mut size: u64 = 0;
    let mut at: usize = start;
    assert(digits.take(0) =~= Seq::<char>::empty());
    assert(text@.skip(0) =~= text@);
    while at < chars.len()
        invariant
            chars@ == text@,
            text@.len() > 0,
            start <= at <= chars@.len(),
            start <= 1,
            negative == (text@[0] == '-'),
            (start == 1) == (text@[0] == '-' || text@[0] == '+'),
            digits == text@.skip(start as int),
            limit == if negative {
                9223372036854775808u64
            } else {
                9223372036854775807u64
            },
            size <= limit,
            size == digits_value(digits.take(at - start)),
            forall|i: int| 0 <= i < at - start ==> is_digit(#[trigger] digits[i]),
        decreases chars@.len() - at,
    {
        let c = chars[at];
        proof {
            assert(text@.skip(0) =~= text@);
            assert(digits[at - start] == c);
            lemma_digits_value_grows(digits, at - start + 1);
            let longer = digits.take(at - start + 1);
            assert(longer.drop_last() =~= digits.take(at - start));
            assert(longer.last() == c);
        }
        if !('0' <= c && c <= '9') {
            assert(!is_digit(digits[at - start]));
            return None;
        }
        let digit: u64 = (c as u32 - '0' as u32) as u64;
        if size > (limit - digit) / 10 {
            proof {
                let longer = digits.take(at - start + 1);
                assert(digit == digit_of(c));
                assert(digits_value(longer) == size * 10 + digit);
                assert(size * 10 + digit > limit);
                assert(digits_value(digits) > limit);
            }
            return None;
        }
        size = size * 10 + digit;
        at += 1;
    }
    proof {
        assert(text@.skip(0) =~= text@);
        assert(digits.take(digits.len() as int) =~= digits);
    }
    if negative {
        if size == 9223372036854775808 {
            Some(i64::MIN)
        } else {
            Some(-(size as i64))
        }
    } else {
        Some(size as i64)
    }
}

/// Reads a text as a truth value.
pub fn read_boolean(text: &str) -> (r: Option<bool>)
    ensures
        r == boolean_of(text@),
{
    if same_text(text, "true") || same_text(text, "t") || same_text(text, "yes") || same_text(
        text,
        "y",
    ) {
        Some(true)
    } else if same_text(text, "false") || same_text(text, "f") || same_text(text, "no")
        || same_text(text, "n") {
        Some(false)
    } else {
        None
    }
}

impl Conversion {
    /// Reads a part as the kind of value that this conversion asks for.
    /// Floating-point numbers and points in time are read elsewhere.
    pub fn convert(self, part: &str) -> (r: Result<Value, ConvertError>)
        ensures
            match r {
                Ok(value) => converted(self, part@) == Ok::<ValueView, ConvertError>(value@),
                Err(e) => converted(self, part@) == Err::<ValueView, ConvertError>(e),
            },
            r matches Ok(value) ==> value.wf(),
    {
        match self {
            Conversion::Bytes => Ok(Value::text(part)),
            Conversion::Integer => match read_integer(part) {
                Some(number) => Ok(Value::Integer(number)),
                None => Err(ConvertError::NotAnInteger),
            },
            Conversion::Boolean => match read_boolean(part) {
                Some(truth) => Ok(Value::Boolean(truth)),
                None => Err(ConvertError::NotABoolean),
            },
            Conversion::Float => Err(ConvertError::ReadElsewhere),
            Conversion::Timestamp => Err(ConvertError::ReadElsewhere),
        }
    }

    /// The conversion that `name` stands for.
    pub fn from_name(name: &str) -> (r: Option<Conversion>)
        ensures
            r == conversion_named(name@),
    {
        if same_text(name, "asis") || same_text(name, "bytes") || same_text(name, "string") {
            Some(Conversion::Bytes)
        } else if same_text(name, "integer") || same_text(name, "int") {
            Some(Conversion::Integer)
        } else if same_text(name, "float") {
            Some(Conversion::Float)
        } else if same_text(name, "bool") || same_text(name, "boolean") {
            Some(Conversion::Boolean)
        } else if same_text(name, "timestamp") {
            Some(Conversion::Timestamp)
        } else {
            None
        }
    }
}

/// How a stage is asked for: the names of the fields to write, the field to
/// read, whether to drop that field afterwards, and for some of the names
/// the name of a conversion.
#[derive(Debug)]
pub struct TokenizerConfig {
    pub field_names: Vec<LookupBuf>,
    pub field: Option<LookupBuf>,
    pub drop_field: bool,
    pub types: Vec<(LookupBuf, String)>,
}

/// Why a stage cannot be made as it was asked for.
#[derive(Clone, Copy, Debug, PartialEq, Eq, Structural)]
pub enum BuildError {
    /// The entry at `at` of the types names no conversion.
    UnknownConversion { at: usize },
}

/// The stage.
#[derive(Debug)]
pub struct Tokenizer {
    types: Vec<(LookupBuf, Conversion)>,
    field: LookupBuf,
    drop_field: bool,
}

/// What a run of paths spells.
pub open spec fn names_view(names: Seq<LookupBuf>) -> Seq<PathView> {
    Seq::new(names.len(), |i: int| names[i]@)
}

/// What a run of paths with conversions stands for.
pub open spec fn types_view(types: Seq<(LookupBuf, Conversion)>) -> Seq<(PathView, Conversion)> {
    Seq::new(types.len(), |i: int| (types[i].0@, types[i].1))
}

/// What a run of paths with names of conversions stands for.
pub open spec fn named_types_view(types: Seq<(LookupBuf, String)>) -> Seq<(PathView, Seq<char>)> {
    Seq::new(types.len(), |i: int| (types[i].0@, types[i].1@))
}

/// The conversion that the first `n` of `types` give for `name`: that of
/// the first entry for it, and `Bytes` where there is none.
pub open spec fn conversion_for(types: Seq<(PathView, Conversion)>, name: PathView, n: nat) -> Conversion
    decreases n,
{
    if n == 0 || n > types.len() {
        Conversion::Bytes
    } else if exists|i: int| 0 <= i < n - 1 && (#[trigger] types[i]).0 == name {
        conversion_for(types, name, (n - 1) as nat)
    } else if types[n - 1].0 == name {
        types[n - 1].1
    } else {
        Conversion::Bytes
    }
}

/// Each name with the conversion that `types` give for it.
pub open spec fn paired(names: Seq<PathView>, types: Seq<(PathView, Conversion)>) -> Seq<
    (PathView, Conversion),
> {
    Seq::new(names.len(), |i: int| (names[i], conversion_for(types, names[i], types.len())))
}

/// The types with each name of a conversion read; a name that stands for
/// none reads as `Bytes`.
pub open spec fn parsed(types: Seq<(PathView, Seq<char>)>) -> Seq<(PathView, Conversion)> {
    Seq::new(
        types.len(),
        |i: int|
            (
                types[i].0,
                match conversion_named(types[i].1) {
                    Some(conversion) => conversion,
                    None => Conversion::Bytes,
                },
            ),
    )
}

/// Whether one of the paths is `path`.
pub open spec fn names_hold(names: Seq<PathView>, path: PathView) -> bool {
    exists|i: int| 0 <= i < names.len() && #[trigger] names[i] == path
}

/// The first of the types that cannot be used, if there is one among the
/// first `n`: one that names no conversion.
pub open spec fn first_fault(types: Seq<(PathView, Seq<char>)>, n: nat) -> Option<BuildError>
    decreases n,
{
    if n == 0 || n > types.len() {
        None
    } else {
        match first_fault(types, (n - 1) as nat) {
            Some(e) => Some(e),
            None => if conversion_named(types[n - 1].1) is None {
                Some(BuildError::UnknownConversion { at: (n - 1) as usize })
            } else {
                None
            },
        }
    }
}

/// A fault among the first `n` of the types is the first fault among more
/// of them.
pub proof fn lemma_first_fault_stays(types: Seq<(PathView, Seq<char>)>, n: nat, m: nat)
    requires
        first_fault(types, n) is Some,
        n <= m <= types.len(),
    ensures
        first_fault(types, m) == first_fault(types, n),
    decreases m,
{
    if n < m {
        lemma_first_fault_stays(types, n, (m - 1) as nat);
    }
}

/// The record after the first `n` of the names have been written with the
/// values that go with them. A name without a value is passed over, and so
/// is a write that cannot be made.
pub open spec fn filled(
    entries: EntriesView,
    types: Seq<(PathView, Conversion)>,
    values: Seq<Option<ValueView>>,
    n: nat,
) -> EntriesView
    decreases n,
{
    if n == 0 || n > types.len() || n > values.len() {
        entries
    } else {
        let so_far = filled(entries, types, values, (n - 1) as nat);
        match values[n - 1] {
            Some(value) => if types[n - 1].0[0] is Field {
                match insertion(so_far, types[n - 1].0, value) {
                    Ok(after) => after,
                    Err(_) => so_far,
                }
            } else {
                so_far
            },
            None => so_far,
        }
    }
}

/// What a run of values that may be missing stands for.
pub open spec fn values_view(values: Seq<Option<Value>>) -> Seq<Option<ValueView>> {
    Seq::new(
        values.len(),
        |i: int|
            match values[i] {
                Some(v) => Some(v@),
                None => None,
            },
    )
}

/// The lesser of two numbers.
pub open spec fn lesser(a: nat, b: nat) -> nat {
    if a <= b {
        a
    } else {
        b
    }
}

impl Default for TokenizerConfig {
    /// Nothing asked for: no names, the default field, nothing dropped.
    fn default() -> (config: TokenizerConfig)
        ensures
            config.field_names@.len() == 0,
            config.field is None,
            !config.drop_field,
            config.types@.len() == 0,
    {
        TokenizerConfig {
            field_names: Vec::new(),
            field: None,
            drop_field: false,
            types: Vec::new(),
        }
    }
}

impl TokenizerConfig {
    /// Makes the stage that is asked for. It reads `default_field` where no
    /// field is named. It does not drop the field that it reads where that
    /// field is among the names: the field is then written anew. A type for
    /// a field that is not among the names has no effect.
    pub fn build(&self, default_field: LookupBuf) -> (r: Result<Tokenizer, BuildError>)
        ensures
            match r {
                Ok(stage) => {
                    &&& first_fault(named_types_view(self.types@), self.types@.len()) is None
                    &&& stage.field() == match self.field {
                        Some(field) => field@,
                        None => default_field@,
                    }
                    &&& stage.drops_field() == (self.drop_field && !names_hold(
                        names_view(self.field_names@),
                        stage.field(),
                    ))
                    &&& stage.types() == paired(
                        names_view(self.field_names@),
                        parsed(named_types_view(self.types@)),
                    )
                },
                Err(e) => first_fault(named_types_view(self.types@), self.types@.len()) == Some(
                    e,
                ),
            },
    {
        let field = match &self.field {
            Some(field) => field.clone(),
            None => default_field,
        };
        let ghost names = names_view(self.field_names@);
        let ghost named = named_types_view(self.types@);
        let mut types: Vec<(LookupBuf, Conversion)> = Vec::new();
        let mut i: usize = 0;
        while i < self.types.len()
            invariant
                i <= self.types@.len(),
                named == named_types_view(self.types@),
                first_fault(named, i as nat) is None,
                types@.len() == i,
                forall|j: int| 0 <= j < i ==> types_view(types@)[j] == parsed(named)[j],
            decreases self.types@.len() - i,
        {
            let conversion = match Conversion::from_name(self.types[i].1.as_str()) {
                Some(conversion) => conversion,
                None => {
                    proof {
                        lemma_first_fault_stays(named, (i + 1) as nat, self.types@.len() as nat);
                    }
                    return Err(BuildError::UnknownConversion { at: i });
                },
            };
            let ghost before = types@;
            types.push((self.types[i].0.clone(), conversion));
            proof {
                assert forall|j: int| 0 <= j < i + 1 implies types_view(types@)[j] == parsed(
                    named,
                )[j] by {
                    if j < i {
                        assert(types_view(before)[j] == parsed(named)[j]);
                    }
                }
            }
            i += 1;
        }
        proof {
            assert(types_view(types@) =~= parsed(named));
        }
        let mut names_copy: Vec<LookupBuf> = Vec::new();
        let mut written_anew = false;
        let mut k: usize = 0;
        while k < self.field_names.len()
            invariant
                k <= self.field_names@.len(),
                names == names_view(self.field_names@),
                names_copy@.len() == k,
                forall|j: int| 0 <= j < k ==> (#[trigger] names_copy@[j])@ == self.field_names@[j]@,
                written_anew == (exists|j: int| 0 <= j < k && #[trigger] names[j] == field@),
            decreases self.field_names@.len() - k,
        {
            if self.field_names[k].same_as(&field) {
                assert(names[k as int] == field@);
                written_anew = true;
            }
            names_copy.push(self.field_names[k].clone());
            k += 1;
        }
        let drop_field = self.drop_field && !written_anew;
        proof {
            assert(names_view(names_copy@) =~= names);
        }
        Ok(Tokenizer::new(names_copy, field, drop_field, types))
    }
}

impl Tokenizer {
    /// The field that the stage reads.
    pub closed spec fn field(&self) -> PathView {
        self.field@
    }

    /// Whether the stage drops the field that it reads.
    pub closed spec fn drops_field(&self) -> bool {
        self.drop_field
    }

    /// The fields that the stage writes, in the order of the parts, each
    /// with its conversion.
    pub closed spec fn types(&self) -> Seq<(PathView, Conversion)> {
        types_view(self.types@)
    }

    /// The stage that writes `field_names`, each with the conversion that
    /// `types` give for it and with `Bytes` where they give none.
    pub fn new(
        field_names: Vec<LookupBuf>,
        field: LookupBuf,
        drop_field: bool,
        types: Vec<(LookupBuf, Conversion)>,
    ) -> (stage: Tokenizer)
        ensures
            stage.types() == paired(names_view(field_names@), types_view(types@)),
            stage.field() == field@,
            stage.drops_field() == drop_field,
    {
        let ghost names = names_view(field_names@);
        let ghost given = types_view(types@);
        let ghost all = field_names@;
        let mut paired_types: Vec<(LookupBuf, Conversion)> = Vec::new();
        for name in it: field_names
            invariant
                it.seq() == all,
                names == names_view(all),
                given == types_view(types@),
                paired_types@.len() == it.index(),
                forall|j: int|
                    0 <= j < it.index() ==> (#[trigger] paired_types@[j]).0@ == names[j]
                        && paired_types@[j].1 == conversion_for(given, names[j], given.len()),
        {
            proof {
                assert(name == all[it.index() as int]);
                assert(name@ == names[it.index() as int]);
            }
            let mut conversion = Conversion::Bytes;
            let mut found = false;
            let mut k: usize = 0;
            while k < types.len()
                invariant
                    k <= types@.len(),
                    given == types_view(types@),
                    found == (exists|j: int| 0 <= j < k && (#[trigger] given[j]).0 == name@),
                    conversion == conversion_for(given, name@, k as nat),
                    !found ==> conversion == Conversion::Bytes,
                decreases types@.len() - k,
            {
                if !found && types[k].0.same_as(&name) {
                    assert(given[k as int].0 == name@);
                    conversion = types[k].1;
                    found = true;
                }
                k += 1;
            }
            paired_types.push((name, conversion));
        }
        proof {
            assert(types_view(paired_types@) =~= paired(names, given));
        }
        Tokenizer { types: paired_types, field, drop_field }
    }

    /// The path of the field that the stage reads.
    pub fn field_path(&self) -> (path: &LookupBuf)
        ensures
            path@ == self.field(),
    {
        &self.field
    }

    /// Whether the stage drops the field that it reads.
    pub fn drop_field(&self) -> (b: bool)
        ensures
            b == self.drops_field(),
    {
        self.drop_field
    }

    /// How many fields the stage writes.
    pub fn len(&self) -> (n: usize)
        ensures
            n == self.types().len(),
    {
        self.types.len()
    }

    /// The field that the stage writes for the part at `position`, and the
    /// conversion of that part.
    pub fn target(&self, position: usize) -> (r: (&LookupBuf, Conversion))
        requires
            position < self.types().len(),
        ensures
            (r.0@, r.1) == self.types()[position as int],
    {
        (&self.types[position].0, self.types[position].1)
    }

    /// Writes `values`, the parts as they were read, into their fields, and
    /// then drops the field that was read if the stage is to drop it.
    ///
    /// The value at a position goes to the field at that position; values
    /// past the last field and fields past the last value are left alone. A
    /// part that could not be read comes as nothing and is passed over, as
    /// is a write that cannot be made.
    pub fn apply(&self, event: &mut LogEvent, values: Vec<Option<Value>>)
        requires
            old(event).wf(),
            forall|i: int|
                0 <= i < values@.len() ==> ((#[trigger] values@[i]) matches Some(v) ==> v.wf()),
        ensures
            final(event).wf(),
            ValueView::Object(final(event)@) == {
                let written = filled(
                    old(event)@,
                    self.types(),
                    values_view(values@),
                    lesser(self.types().len(), values@.len()),
                );
                if self.drops_field() {
                    removal(ValueView::Object(written), self.field(), false)
                } else {
                    ValueView::Object(written)
                }
            },
    {
        let ghost start = event@;
        let ghost given = values@;
        let ghost parts = values_view(values@);
        let ghost types = self.types();
        let count = self.types.len();
        let total = values.len();
        let mut at: usize = 0;
        for value in it: values
            invariant
                it.seq() == given,
                given.len() == total,
                at == it.index(),
                parts == values_view(given),
                types == self.types(),
                count == types.len(),
                forall|i: int|
                    0 <= i < given.len() ==> ((#[trigger] given[i]) matches Some(v) ==> v.wf()),
                event.wf(),
                event@ == filled(start, types, parts, lesser(count as nat, at as nat)),
        {
            proof {
                assert(value == given[at as int]);
                assert(parts[at as int] == match value {
                    Some(v) => Some(v@),
                    None => None,
                });
            }
            if at < count {
                match value {
                    Some(v) => {
                        let name = &self.types[at].0;
                        assert(name@ == types[at as int].0);
                        if name.starts_with_field() {
                            let _ = event.insert(name.clone(), v);
                        }
                    },
                    None => {},
                }
            }
            at += 1;
        }
        if self.drop_field {
            let _ = event.remove(&self.field.as_lookup(), false);
        }
    }

    /// Runs the stage on one record and adds the record to `output`.
    ///
    /// `values` are the parts of the field that the stage reads, as they
    /// were read, or nothing where the record has no such field; the record
    /// then goes on as it came.
    pub fn transform(
        &self,
        output: &mut Vec<LogEvent>,
        event: LogEvent,
        values: Option<Vec<Option<Value>>>,
    )
        requires
            event.wf(),
            values matches Some(parts) ==> forall|i: int|
                0 <= i < parts@.len() ==> ((#[trigger] parts@[i]) matches Some(v) ==> v.wf()),
        ensures
            final(output)@.len() == old(output)@.len() + 1,
            final(output)@.subrange(0, old(output)@.len() as int) == old(output)@,
            final(output)@.last().wf(),
            ValueView::Object(final(output)@.last()@) == match values {
                Some(parts) => {
                    let written = filled(
                        event@,
                        self.types(),
                        values_view(parts@),
                        lesser(self.types().len(), parts@.len()),
                    );
                    if self.drops_field() {
                        removal(ValueView::Object(written), self.field(), false)
                    } else {
                        ValueView::Object(written)
                    }
                },
                None => ValueView::Object(event@),
            },
    {
        let mut event = event;
        match values {
            Some(parts) => {
                self.apply(&mut event, parts);
            },
            None => {},
        }
        let ghost before = output@;
        output.push(event);
        proof {
            assert(output@.subrange(0, before.len() as int) =~= before);
        }
    }
}

} // verus!
