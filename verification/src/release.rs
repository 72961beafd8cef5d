//! Raising the version of a package for a release.
//!
//! A release reads the name and the version of the package out of its
//! manifest, raises one of the three numbers of the version, and puts the
//! new version wherever the manifest and the readme name the old one.

use vstd::prelude::*;
use vstd::string::*;
use crate::text::{
    characters, decimal, decimal_of, first_of, lemma_first_of, lines, same_text, spans_cover,
    trimmed, trimmed_spans,
};

verus! {

/// Why a release cannot go on.
#[derive(Debug, Clone, PartialEq, Eq)]
pub enum ReleaseError {
    /// The manifest has no line that gives the field; the payload says
    /// which field.
    FieldMissing(String),
    /// The version does not consist of three parts; the payload is the
    /// version.
    InvalidFormat(String),
    /// A part of the version is no number that fits; the payload is the
    /// part.
    InvalidNumber(String),
    /// The number to raise is the largest there is.
    NumberTooLarge,
}

/// A [`ReleaseError`] with its texts as sequences of characters.
pub ghost enum ReleaseErrorView {
    FieldMissing(Seq<char>),
    InvalidFormat(Seq<char>),
    InvalidNumber(Seq<char>),
    NumberTooLarge,
}

impl View for ReleaseError {
    type V = ReleaseErrorView;

    open spec fn view(&self) -> ReleaseErrorView {
        match *self {
            ReleaseError::FieldMissing(what) => ReleaseErrorView::FieldMissing(what@),
            ReleaseError::InvalidFormat(version) => ReleaseErrorView::InvalidFormat(version@),
            ReleaseError::InvalidNumber(part) => ReleaseErrorView::InvalidNumber(part@),
            ReleaseError::NumberTooLarge => ReleaseErrorView::NumberTooLarge,
        }
    }
}

/// The text shown to a person for an error.
pub open spec fn release_message_of(e: ReleaseErrorView) -> Seq<char> {
    match e {
        ReleaseErrorView::FieldMissing(what) => "Could not find "@ + what + " in Cargo.toml"@,
        ReleaseErrorView::InvalidFormat(version) => "Invalid version format: "@ + version,
        ReleaseErrorView::InvalidNumber(part) => "Invalid number in version: "@ + part,
        ReleaseErrorView::NumberTooLarge => "Version number too large to raise"@,
    }
}

impl ReleaseError {
    /// The text shown to a person for this error.
    pub fn message(&self) -> (text: String)
        ensures
            text@ == release_message_of(self@),
    {
        match self {
            ReleaseError::FieldMissing(what) => {
                let mut text = String::from_str("Could not find ");
                text.append(what.as_str());
                text.append(" in Cargo.toml");
                text
            },
            ReleaseError::InvalidFormat(version) => {
                let mut text = String::from_str("Invalid version format: ");
                text.append(version.as_str());
                text
            },
            ReleaseError::InvalidNumber(part) => {
                let mut text = String::from_str("Invalid number in version: ");
                text.append(part.as_str());
                text
            },
            ReleaseError::NumberTooLarge => String::from_str("Version number too large to raise"),
        }
    }
}

/// The view of a result that carries a text or an error.
pub open spec fn text_view(r: Result<String, ReleaseError>) -> Result<Seq<char>, ReleaseErrorView> {
    match r {
        Ok(text) => Ok(text@),
        Err(e) => Err(e@),
    }
}

/// Whether a text begins with another.
pub open spec fn begins_with(s: Seq<char>, start: Seq<char>) -> bool {
    start.len() <= s.len() && s.take(start.len() as int) == start
}

/// Where a character last stands in a text, or -1 if it stands nowhere.
pub open spec fn last_of(s: Seq<char>, c: char) -> int
    decreases s.len(),
{
    if s.len() == 0 {
        -1
    } else if s.last() == c {
        s.len() - 1
    } else {
        last_of(s.drop_last(), c)
    }
}

/// A character last stands where it stands and not behind.
pub proof fn lemma_last_of(s: Seq<char>, c: char, n: int)
    requires
        -1 <= n < s.len(),
        forall|i: int| n < i < s.len() ==> s[i] != c,
        n >= 0 ==> s[n] == c,
    ensures
        last_of(s, c) == n,
    decreases s.len(),
{
    if s.len() > 0 && n < s.len() - 1 {
        lemma_last_of(s.drop_last(), c, n);
    }
}

/// What stands between the first and the last quotation mark of a line
/// that has two.
pub open spec fn quoted(line: Seq<char>) -> Option<Seq<char>> {
    let first = first_of(line, '"');
    let last = last_of(line, '"');
    if first < last {
        Some(line.subrange(first + 1, last))
    } else {
        None
    }
}

/// The value that a trimmed line gives to a field: the line begins with
/// the name of the field, has an equals sign, and the value stands in
/// quotation marks.
pub open spec fn field_in(line: Seq<char>, key: Seq<char>) -> Option<Seq<char>> {
    if begins_with(line, key) && line.contains('=') {
        quoted(line)
    } else {
        None
    }
}

/// The value of a field in the first of `lines[from..]` that gives it one.
pub open spec fn field_from(lines: Seq<Seq<char>>, key: Seq<char>, from: int) -> Option<Seq<char>>
    decreases lines.len() - from,
{
    if from < 0 || from >= lines.len() {
        None
    } else {
        match field_in(trimmed(lines[from]), key) {
            Some(value) => Some(value),
            None => field_from(lines, key, from + 1),
        }
    }
}

/// The value of a field in a manifest: that of the first line that gives
/// it one.
pub open spec fn field_of(content: Seq<char>, key: Seq<char>) -> Option<Seq<char>> {
    field_from(lines(content), key, 0)
}

/// The view of a text that may be absent.
pub open spec fn optional_text(found: Option<String>) -> Option<Seq<char>> {
    match found {
        Some(text) => Some(text@),
        None => None,
    }
}

/// Finds the value of a field in a manifest.
pub fn find_field(content: &str, key: &str) -> (found: Option<String>)
    ensures
        optional_text(found) == field_of(content@, key@),
{
    let chars = characters(content);
    let name = characters(key);
    let spans = trimmed_spans(&chars);
    let ghost s = content@;
    let ghost all = lines(s);
    let mut k: usize = 0;
    while k < spans.len()
        invariant
            k <= spans.len(),
            chars@ == s,
            s == content@,
            name@ == key@,
            all == lines(s),
            spans_cover(s, spans@),
            field_of(s, key@) == field_from(all, key@, k as int),
        decreases spans.len() - k,
    {
        let (from, to) = spans[k];
        let ghost line = s.subrange(from as int, to as int);
        proof {
            assert(spans@[k as int] == (from, to));
            assert(line == trimmed(all[k as int]));
        }
        let begins = to - from >= name.len() && stands_at(&chars, from, &name);
        proof {
            if to - from >= name@.len() {
                assert(line.take(name@.len() as int) =~= s.subrange(
                    from as int,
                    from + name@.len(),
                ));
            }
            assert(begins == begins_with(line, key@));
        }
        let mut at: usize = from;
        let mut has_equals = false;
        while at < to
            invariant
                from <= at <= to <= chars.len(),
                chars@ == s,
                line == s.subrange(from as int, to as int),
                has_equals == exists|i: int| 0 <= i < at - from && line[i] == '=',
            decreases to - at,
        {
            if chars[at] == '=' {
                assert(line[at - from] == '=');
                has_equals = true;
            }
            at += 1;
        }
        let mut first: usize = from;
        while first < to && chars[first] != '"'
            invariant
                from <= first <= to <= chars.len(),
                chars@ == s,
                line == s.subrange(from as int, to as int),
                forall|i: int| 0 <= i < first - from ==> line[i] != '"',
            decreases to - first,
        {
            first += 1;
        }
        let mut last: usize = to;
        while last > from && chars[last - 1] != '"'
            invariant
                from <= last <= to <= chars.len(),
                chars@ == s,
                line == s.subrange(from as int, to as int),
                forall|i: int| last - from <= i < line.len() ==> line[i] != '"',
            decreases last,
        {
            last -= 1;
        }
        proof {
            lemma_first_of(line, '"', first - from);
            lemma_last_of(line, '"', last - from - 1);
            assert(has_equals == line.contains('='));
        }
        if begins && has_equals && last > from && first < last - 1 {
            let value = content.substring_char(first + 1, last - 1);
            proof {
                assert(line.subrange(first - from + 1, last - from - 1) =~= s.subrange(
                    first + 1,
                    last - 1,
                ));
            }
            return Some(String::from_str(value));
        }
        k += 1;
    }
    None
}

/// The error of a manifest that does not give a field.
pub open spec fn field_result(found: Option<Seq<char>>, what: Seq<char>) -> Result<
    Seq<char>,
    ReleaseErrorView,
> {
    match found {
        Some(value) => Ok(value),
        None => Err(ReleaseErrorView::FieldMissing(what)),
    }
}

/// Reads the name of the package out of its manifest.
pub fn get_package_name(manifest: &str) -> (result: Result<String, ReleaseError>)
    ensures
        text_view(result) == field_result(field_of(manifest@, "name"@), "package name"@),
{
    match find_field(manifest, "name") {
        Some(name) => Ok(name),
        None => Err(ReleaseError::FieldMissing(String::from_str("package name"))),
    }
}

/// Reads the version of the package out of its manifest.
pub fn get_current_version(manifest: &str) -> (result: Result<String, ReleaseError>)
    ensures
        text_view(result) == field_result(field_of(manifest@, "version"@), "version"@),
{
    match find_field(manifest, "version") {
        Some(version) => Ok(version),
        None => Err(ReleaseError::FieldMissing(String::from_str("version"))),
    }
}

/// The pieces into which a character cuts a text: what stands before its
/// first occurrence, between two occurrences, and behind the last. There is
/// always at least one piece.
pub open spec fn pieces(s: Seq<char>, c: char) -> Seq<Seq<char>>
    decreases s.len(),
{
    let n = first_of(s, c);
    if 0 <= n < s.len() {
        seq![s.take(n)] + pieces(s.skip(n + 1), c)
    } else {
        seq![s]
    }
}

/// Whether a character is one of the ten digits.
pub open spec fn is_digit(c: char) -> bool {
    0x30 <= c as u32 <= 0x39
}

/// The number that a digit stands for.
pub open spec fn digit_value(c: char) -> nat {
    (c as u32 - 0x30) as nat
}

/// The number that a row of digits stands for.
pub open spec fn value_of(digits: Seq<char>) -> nat
    decreases digits.len(),
{
    if digits.len() == 0 {
        0
    } else {
        value_of(digits.drop_last()) * 10 + digit_value(digits.last())
    }
}

/// The digits of a number as it is written: the text without a plus sign
/// at its front.
pub open spec fn digits_of(s: Seq<char>) -> Seq<char> {
    if s.len() > 0 && s[0] == '+' {
        s.drop_first()
    } else {
        s
    }
}

/// The number that a text stands for: one or more digits, with or without
/// a plus sign before them, that give a number within `u32`.
pub open spec fn number_of(s: Seq<char>) -> Option<u32> {
    let digits = digits_of(s);
    if digits.len() > 0 && (forall|i: int| 0 <= i < digits.len() ==> is_digit(digits[i]))
        && value_of(digits) <= u32::MAX {
        Some(value_of(digits) as u32)
    } else {
        None
    }
}

/// The version that follows the one with the three numbers given: with
/// `major` the first number raised and the others zero, with `minor` the
/// second raised and the third zero, with anything else the third raised.
pub open spec fn raised(major: u32, minor: u32, patch: u32, increment_type: Seq<char>) -> Result<
    Seq<char>,
    ReleaseErrorView,
> {
    if increment_type == "major"@ {
        if major == u32::MAX {
            Err(ReleaseErrorView::NumberTooLarge)
        } else {
            Ok(decimal_of((major + 1) as nat) + ".0.0"@)
        }
    } else if increment_type == "minor"@ {
        if minor == u32::MAX {
            Err(ReleaseErrorView::NumberTooLarge)
        } else {
            Ok(decimal_of(major as nat) + "."@ + decimal_of((minor + 1) as nat) + ".0"@)
        }
    } else {
        if patch == u32::MAX {
            Err(ReleaseErrorView::NumberTooLarge)
        } else {
            Ok(
                decimal_of(major as nat) + "."@ + decimal_of(minor as nat) + "."@ + decimal_of(
                    (patch + 1) as nat,
                ),
            )
        }
    }
}

/// The version that follows `current`, which must consist of three numbers
/// with dots between them.
pub open spec fn incremented(current: Seq<char>, increment_type: Seq<char>) -> Result<
    Seq<char>,
    ReleaseErrorView,
> {
    let parts = pieces(current, '.');
    if parts.len() != 3 {
        Err(ReleaseErrorView::InvalidFormat(current))
    } else if number_of(parts[0]) is None {
        Err(ReleaseErrorView::InvalidNumber(parts[0]))
    } else if number_of(parts[1]) is None {
        Err(ReleaseErrorView::InvalidNumber(parts[1]))
    } else if number_of(parts[2]) is None {
        Err(ReleaseErrorView::InvalidNumber(parts[2]))
    } else {
        raised(
            number_of(parts[0])->0,
            number_of(parts[1])->0,
            number_of(parts[2])->0,
            increment_type,
        )
    }
}

proof fn lemma_pieces_exist(s: Seq<char>, c: char)
    ensures
        pieces(s, c).len() >= 1,
    decreases s.len(),
{
    let n = first_of(s, c);
    if 0 <= n < s.len() {
        lemma_pieces_exist(s.skip(n + 1), c);
    }
}

proof fn lemma_value_of_grows(digits: Seq<char>, n: int)
    requires
        0 <= n <= digits.len(),
    ensures
        value_of(digits.take(n)) <= value_of(digits),
    decreases digits.len(),
{
    if n < digits.len() {
        assert(digits.drop_last().take(n) =~= digits.take(n));
        lemma_value_of_grows(digits.drop_last(), n);
    } else {
        assert(digits.take(n) =~= digits);
    }
}

/// Where `c` first stands in `chars` at or behind `from`.
fn find_from(chars: &Vec<char>, from: usize, c: char) -> (at: usize)
    requires
        from <= chars@.len(),
    ensures
        from <= at <= chars@.len(),
        at - from == first_of(chars@.skip(from as int), c),
{
    let mut at: usize = from;
    while at < chars.len() && chars[at] != c
        invariant
            from <= at <= chars@.len(),
            forall|i: int| from <= i < at ==> chars@[i] != c,
        decreases chars.len() - at,
    {
        at += 1;
    }
    proof {
        lemma_first_of(chars@.skip(from as int), c, at - from);
    }
    at
}

/// Reads the number that stands in `chars[from..to]`.
fn parse_number(chars: &Vec<char>, from: usize, to: usize) -> (number: Option<u32>)
    requires
        from <= to <= chars@.len(),
    ensures
        number == number_of(chars@.subrange(from as int, to as int)),
{
    let ghost s = chars@.subrange(from as int, to as int);
    let mut start: usize = from;
    if start < to && chars[start] == '+' {
        start += 1;
    }
    let ghost digits = chars@.subrange(start as int, to as int);
    proof {
        assert(digits =~= digits_of(s));
    }
    if start == to {
        return None;
    }
    let mut value: u64 = 0;
    let mut i: usize = start;
    proof {
        assert(digits.take(0) =~= Seq::<char>::empty());
    }
    while i < to
        invariant
            start <= i <= to <= chars@.len(),
            start < to,
            s == chars@.subrange(from as int, to as int),
            digits == chars@.subrange(start as int, to as int),
            digits == digits_of(s),
            forall|j: int| 0 <= j < i - start ==> is_digit(digits[j]),
            value == value_of(digits.take(i - start)),
            value <= u32::MAX,
        decreases to - i,
    {
        let code: u32 = chars[i] as u32;
        if code < 0x30 || code > 0x39 {
            assert(!is_digit(digits[i - start]));
            return None;
        }
        proof {
            assert(digits.take(i - start + 1).drop_last() =~= digits.take(i - start));
            assert(digits.take(i - start + 1).last() == digits[i - start]);
        }
        value = value * 10 + (code - 0x30) as u64;
        if value > 0xffff_ffff {
            proof {
                lemma_value_of_grows(digits, i - start + 1);
            }
            return None;
        }
        i += 1;
    }
    proof {
        assert(digits.take(to - start) =~= digits);
    }
    Some(value as u32)
}

/// Where the two dots of a version of three parts stand.
fn dots_of(chars: &Vec<char>) -> (dots: Option<(usize, usize)>)
    ensures
        match dots {
            Some((first, second)) => {
                &&& first < second < chars@.len()
                &&& pieces(chars@, '.') == seq![
                    chars@.subrange(0, first as int),
                    chars@.subrange(first + 1, second as int),
                    chars@.subrange(second + 1, chars@.len() as int),
                ]
            },
            None => pieces(chars@, '.').len() != 3,
        },
{
    let ghost s = chars@;
    let total = chars.len();
    let first = find_from(chars, 0, '.');
    proof {
        assert(s.skip(0) =~= s);
    }
    if first == total {
        return None;
    }
    let second = find_from(chars, first + 1, '.');
    let ghost behind_first = s.skip(first + 1);
    proof {
        assert(pieces(s, '.') =~= seq![s.take(first as int)] + pieces(behind_first, '.'));
    }
    if second == total {
        proof {
            assert(pieces(behind_first, '.') =~= seq![behind_first]);
        }
        return None;
    }
    let third = find_from(chars, second + 1, '.');
    let ghost behind_second = s.skip(second + 1);
    proof {
        assert(behind_first.skip(second - first) =~= behind_second);
        assert(pieces(behind_first, '.') =~= seq![behind_first.take(second - first - 1)] + pieces(
            behind_second,
            '.',
        ));
    }
    if third < total {
        proof {
            let behind_third = behind_second.skip(third - second);
            lemma_pieces_exist(behind_third, '.');
            assert(pieces(behind_second, '.') =~= seq![behind_second.take(third - second - 1)]
                + pieces(behind_third, '.'));
        }
        return None;
    }
    proof {
        assert(pieces(behind_second, '.') =~= seq![behind_second]);
        assert(behind_second =~= s.subrange(second + 1, total as int));
        assert(behind_first.take(second - first - 1) =~= s.subrange(first + 1, second as int));
        assert(s.take(first as int) =~= s.subrange(0, first as int));
        assert(pieces(s, '.') =~= seq![
            s.subrange(0, first as int),
            s.subrange(first + 1, second as int),
            s.subrange(second + 1, total as int),
        ]);
    }
    Some((first, second))
}

/// Writes the version that follows the one with the three numbers given.
pub fn next_version(major: u32, minor: u32, patch: u32, increment_type: &str) -> (result: Result<
    String,
    ReleaseError,
>)
    ensures
        text_view(result) == raised(major, minor, patch, increment_type@),
{
    if same_text(increment_type, "major") {
        if major == u32::MAX {
            return Err(ReleaseError::NumberTooLarge);
        }
        let mut next = decimal((major + 1) as u64);
        next.append(".0.0");
        Ok(next)
    } else if same_text(increment_type, "minor") {
        if minor == u32::MAX {
            return Err(ReleaseError::NumberTooLarge);
        }
        let mut next = decimal(major as u64);
        next.append(".");
        next.append(decimal((minor + 1) as u64).as_str());
        next.append(".0");
        Ok(next)
    } else {
        if patch == u32::MAX {
            return Err(ReleaseError::NumberTooLarge);
        }
        let mut next = decimal(major as u64);
        next.append(".");
        next.append(decimal(minor as u64).as_str());
        next.append(".");
        next.append(decimal((patch + 1) as u64).as_str());
        Ok(next)
    }
}

/// Works out the version that follows `current`.
///
/// `current` consists of three numbers with dots between them. With
/// `major` for `increment_type` the first is raised and the others become
/// zero; with `minor` the second is raised and the third becomes zero; with
/// anything else the third is raised.
pub fn increment_version(current: &str, increment_type: &str) -> (result: Result<
    String,
    ReleaseError,
>)
    ensures
        text_view(result) == incremented(current@, increment_type@),
{
    let chars = characters(current);
    let total = chars.len();
    let (first, second) = match dots_of(&chars) {
        Some(dots) => dots,
        None => {
            return Err(ReleaseError::InvalidFormat(String::from_str(current)));
        },
    };
    let major = match parse_number(&chars, 0, first) {
        Some(number) => number,
        None => {
            return Err(
                ReleaseError::InvalidNumber(String::from_str(current.substring_char(0, first))),
            );
        },
    };
    let minor = match parse_number(&chars, first + 1, second) {
        Some(number) => number,
        None => {
            return Err(
                ReleaseError::InvalidNumber(
                    String::from_str(current.substring_char(first + 1, second)),
                ),
            );
        },
    };
    let patch = match parse_number(&chars, second + 1, total) {
        Some(number) => number,
        None => {
            return Err(
                ReleaseError::InvalidNumber(
                    String::from_str(current.substring_char(second + 1, total)),
                ),
            );
        },
    };
    next_version(major, minor, patch, increment_type)
}

/// A text with `filler` before each of its characters and behind the last.
pub open spec fn interleaved(s: Seq<char>, filler: Seq<char>) -> Seq<char>
    decreases s.len(),
{
    if s.len() == 0 {
        filler
    } else {
        filler + seq![s[0]] + interleaved(s.drop_first(), filler)
    }
}

/// A text with every occurrence of `from` replaced by `to`; the occurrences
/// are found from the left and do not overlap. The empty text occurs before
/// each character and behind the last.
pub open spec fn replaced(s: Seq<char>, from: Seq<char>, to: Seq<char>) -> Seq<char>
    decreases s.len(),
{
    if from.len() == 0 {
        interleaved(s, to)
    } else if s.len() < from.len() {
        s
    } else if s.take(from.len() as int) == from {
        to + replaced(s.skip(from.len() as int), from, to)
    } else {
        seq![s[0]] + replaced(s.drop_first(), from, to)
    }
}

/// Whether `wanted` stands in `chars` at position `at`.
fn stands_at(chars: &Vec<char>, at: usize, wanted: &Vec<char>) -> (there: bool)
    requires
        at <= chars@.len(),
        wanted@.len() <= chars@.len() - at,
    ensures
        there == (chars@.subrange(at as int, at + wanted@.len()) == wanted@),
{
    let total = chars.len();
    let mut k: usize = 0;
    while k < wanted.len()
        invariant
            k <= wanted@.len(),
            total == chars@.len(),
            at <= chars@.len(),
            wanted@.len() <= chars@.len() - at,
            forall|j: int| 0 <= j < k ==> chars@[at + j] == wanted@[j],
        decreases wanted.len() - k,
    {
        if chars[at + k] != wanted[k] {
            proof {
                assert(chars@.subrange(at as int, at + wanted@.len())[k as int] == chars@[at + k]);
            }
            return false;
        }
        k += 1;
    }
    proof {
        assert(chars@.subrange(at as int, at + wanted@.len()) =~= wanted@);
    }
    true
}

/// Puts `filler` before each character of `text` and behind the last.
fn interleave(text: &str, filler: &str) -> (out: String)
    ensures
        out@ == interleaved(text@, filler@),
{
    let total = text.unicode_len();
    let ghost s = text@;
    let mut out = String::new();
    let mut i: usize = 0;
    proof {
        assert(s.skip(0) =~= s);
        assert(out@ + interleaved(s, filler@) =~= interleaved(s, filler@));
    }
    while i < total
        invariant
            i <= total,
            total == s.len(),
            s == text@,
            interleaved(s, filler@) == out@ + interleaved(s.skip(i as int), filler@),
        decreases total - i,
    {
        let ghost before = out@;
        let ghost rest = s.skip(i as int);
        out.append(filler);
        out.append(text.substring_char(i, i + 1));
        proof {
            assert(s.subrange(i as int, i + 1) =~= seq![rest[0]]);
            assert(rest.drop_first() =~= s.skip(i + 1));
            assert(before + (filler@ + seq![rest[0]] + interleaved(s.skip(i + 1), filler@)) =~= out@
                + interleaved(s.skip(i + 1), filler@));
        }
        i += 1;
    }
    out.append(filler);
    out
}

/// Replaces every occurrence of `from` in `text` by `to`.
pub fn replace_all(text: &str, from: &str, to: &str) -> (out: String)
    ensures
        out@ == replaced(text@, from@, to@),
{
    let chars = characters(text);
    let wanted = characters(from);
    if wanted.len() == 0 {
        return interleave(text, to);
    }
    let ghost s = text@;
    let ghost f = from@;
    let ghost t = to@;
    let mut out = String::new();
    let mut start: usize = 0;
    let mut i: usize = 0;
    proof {
        assert(s.skip(0) =~= s);
        assert(out@ + s.subrange(0, 0) + replaced(s, f, t) =~= replaced(s, f, t));
    }
    while i < chars.len() && chars.len() - i >= wanted.len()
        invariant
            chars@ == s,
            wanted@ == f,
            s == text@,
            t == to@,
            f.len() > 0,
            start <= i <= chars.len(),
            replaced(s, f, t) == out@ + s.subrange(start as int, i as int) + replaced(
                s.skip(i as int),
                f,
                t,
            ),
        decreases chars.len() - i,
    {
        let ghost rest = s.skip(i as int);
        let ghost before = out@;
        proof {
            assert(rest.take(f.len() as int) =~= s.subrange(i as int, i + f.len()));
        }
        if stands_at(&chars, i, &wanted) {
            out.append(text.substring_char(start, i));
            out.append(to);
            proof {
                assert(rest.skip(f.len() as int) =~= s.skip(i + f.len()));
                assert(before + s.subrange(start as int, i as int) + (t + replaced(
                    s.skip(i + f.len()),
                    f,
                    t,
                )) =~= out@ + s.subrange(i + f.len(), i + f.len()) + replaced(
                    s.skip(i + f.len()),
                    f,
                    t,
                ));
            }
            i += wanted.len();
            start = i;
        } else {
            proof {
                assert(rest.drop_first() =~= s.skip(i + 1));
                assert(before + s.subrange(start as int, i as int) + (seq![rest[0]] + replaced(
                    s.skip(i + 1),
                    f,
                    t,
                )) =~= before + s.subrange(start as int, i + 1) + replaced(s.skip(i + 1), f, t));
            }
            i += 1;
        }
    }
    proof {
        assert(out@ + s.subrange(start as int, i as int) + s.skip(i as int) =~= out@ + s.subrange(
            start as int,
            s.len() as int,
        ));
    }
    out.append(text.substring_char(start, chars.len()));
    out
}

/// The line of a manifest that gives a version.
pub open spec fn version_line(version: Seq<char>) -> Seq<char> {
    "version = \""@ + version + "\""@
}

/// The line of a manifest that gives a version.
pub fn version_entry(version: &str) -> (line: String)
    ensures
        line@ == version_line(version@),
{
    let mut line = String::from_str("version = \"");
    line.append(version);
    line.append("\"");
    line
}

/// A manifest with the new version where it gave the old one.
pub open spec fn manifest_updated(content: Seq<char>, current: Seq<char>, new: Seq<char>) -> Seq<
    char,
> {
    replaced(content, version_line(current), version_line(new))
}

/// Puts the new version where the manifest gives the current one.
pub fn update_cargo_toml(content: &str, current: &str, new: &str) -> (updated: String)
    ensures
        updated@ == manifest_updated(content@, current@, new@),
{
    let from = version_entry(current);
    let to = version_entry(new);
    replace_all(content, from.as_str(), to.as_str())
}

/// A readme with the new version wherever it names the old one: behind a
/// `v`, behind the word `version`, and where it shows how to depend on the
/// package.
pub open spec fn readme_updated(
    content: Seq<char>,
    package_name: Seq<char>,
    current: Seq<char>,
    new: Seq<char>,
) -> Seq<char> {
    let tagged = replaced(content, "v"@ + current, "v"@ + new);
    let worded = replaced(tagged, "version "@ + current, "version "@ + new);
    let required = replaced(
        worded,
        package_name + " = \""@ + current + "\""@,
        package_name + " = \""@ + new + "\""@,
    );
    replaced(required, version_line(current), version_line(new))
}

/// Puts the new version wherever the readme names the current one.
pub fn update_readme(content: &str, package_name: &str, current: &str, new: &str) -> (updated:
    String)
    ensures
        updated@ == readme_updated(content@, package_name@, current@, new@),
{
    let mut old_tag = String::from_str("v");
    old_tag.append(current);
    let mut new_tag = String::from_str("v");
    new_tag.append(new);
    let tagged = replace_all(content, old_tag.as_str(), new_tag.as_str());

    let mut old_words = String::from_str("version ");
    old_words.append(current);
    let mut new_words = String::from_str("version ");
    new_words.append(new);
    let worded = replace_all(tagged.as_str(), old_words.as_str(), new_words.as_str());

    let mut old_requirement = String::from_str(package_name);
    old_requirement.append(" = \"");
    old_requirement.append(current);
    old_requirement.append("\"");
    let mut new_requirement = String::from_str(package_name);
    new_requirement.append(" = \"");
    new_requirement.append(new);
    new_requirement.append("\"");
    let required = replace_all(
        worded.as_str(),
        old_requirement.as_str(),
        new_requirement.as_str(),
    );

    let old_line = version_entry(current);
    let new_line = version_entry(new);
    replace_all(required.as_str(), old_line.as_str(), new_line.as_str())
}

} // verus!
