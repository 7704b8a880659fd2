//! The reader for style sheets.

use vstd::prelude::*;
use crate::parsing::parser::{
    CharClass, ParseError, Parser, expect, is_digit, is_standard_char, lemma_scan_bounds,
    lemma_scan_end, scan, standard_char,
};
use crate::style::css::{
    Colour, Declaration, DeclarationView, Rule, RuleView, Selector, SelectorView, SimpleSelector,
    SimpleSelectorView, Stylesheet, StylesheetView, UNITS_PER_PX, Unit, Value, ValueView,
    declaration_views, rule_views, selector_views, specificity_at_most, specificity_le,
};
use crate::text::chars_of;

verus! {

/// A reader for style sheets.
#[derive(Debug)]
pub struct CssParser {
    pub p: Parser,
}

/// The largest whole number of pixels that a length can hold.
pub const MAX_WHOLE_PX: i64 = 9_223_372_036_854_775;

/// The number that the digit `c` stands for.
pub open spec fn digit_value(c: char) -> int {
    c as int - '0' as int
}

/// The number that the decimal digits `s` stand for.
pub open spec fn digits_value(s: Seq<char>) -> int
    decreases s.len(),
{
    if s.len() == 0 {
        0
    } else {
        digits_value(s.drop_last()) * 10 + digit_value(s.last())
    }
}

/// Whether `s` holds digits only.
pub open spec fn all_digits(s: Seq<char>) -> bool {
    forall|i: int| 0 <= i < s.len() ==> is_digit(#[trigger] s[i])
}

/// The digit of `s` at `i` as a number, with zero behind the end of `s`.
pub open spec fn digit_at(s: Seq<char>, i: int) -> int {
    if 0 <= i < s.len() {
        digit_value(s[i])
    } else {
        0
    }
}

/// The thousandths that the digits `s` behind a decimal point stand
/// for. Digits behind the third are cut off.
pub open spec fn fraction_value(s: Seq<char>) -> int {
    digit_at(s, 0) * 100 + digit_at(s, 1) * 10 + digit_at(s, 2)
}

/// The part of the number `text` before its first dot.
pub open spec fn whole_part(text: Seq<char>) -> Seq<char> {
    text.subrange(0, scan(text, 0, CharClass::Not('.')))
}

/// The part of the number `text` behind its first dot.
pub open spec fn fraction_part(text: Seq<char>) -> Seq<char> {
    let dot = scan(text, 0, CharClass::Not('.'));
    if dot < text.len() {
        text.subrange(dot + 1, text.len() as int)
    } else {
        Seq::<char>::empty()
    }
}

/// The length in layout units that the decimal number `text` stands
/// for. A number is made of digits with at most one dot among them.
pub open spec fn number_value(text: Seq<char>) -> Result<i64, ParseError> {
    let whole = whole_part(text);
    let fraction = fraction_part(text);
    if !all_digits(whole) || !all_digits(fraction) || whole.len() + fraction.len() == 0 {
        Err(ParseError::BadNumber)
    } else {
        let units = digits_value(whole) * UNITS_PER_PX + fraction_value(fraction);
        if units <= i64::MAX {
            Ok(units as i64)
        } else {
            Err(ParseError::NumberTooLarge)
        }
    }
}

/// The number that the hexadecimal digit `c` stands for.
pub open spec fn hex_digit_value(c: char) -> Option<int> {
    if '0' <= c && c <= '9' {
        Some(c as int - '0' as int)
    } else if 'a' <= c && c <= 'f' {
        Some(c as int - 'a' as int + 10)
    } else if 'A' <= c && c <= 'F' {
        Some(c as int - 'A' as int + 10)
    } else {
        None
    }
}

/// The number that two characters stand for as a hexadecimal number:
/// two digits, or a plus sign and one digit.
pub open spec fn hex_pair_value(a: char, b: char) -> Option<int> {
    match hex_digit_value(b) {
        None => None,
        Some(low) => if a == '+' {
            Some(low)
        } else {
            match hex_digit_value(a) {
                None => None,
                Some(high) => Some(high * 16 + low),
            }
        },
    }
}

/// The channel that the two characters at `pos` stand for, with the
/// position behind them.
pub open spec fn hex_pair_at(input: Seq<char>, pos: int) -> Result<(u8, int), ParseError> {
    if !(0 <= pos && pos + 2 <= input.len()) {
        Err(ParseError::UnexpectedEof)
    } else {
        match hex_pair_value(input[pos], input[pos + 1]) {
            Some(v) => Ok((v as u8, pos + 2)),
            None => Err(ParseError::BadColour),
        }
    }
}

/// The colour at `pos`, with the position behind it: a `#` and three
/// pairs of hexadecimal digits for red, green and blue. The colour is
/// opaque.
pub open spec fn colour_at(input: Seq<char>, pos: int) -> Result<(ValueView, int), ParseError> {
    match expect(input, pos, '#') {
        Err(e) => Err(e),
        Ok(at1) => match hex_pair_at(input, at1) {
            Err(e) => Err(e),
            Ok((r, at2)) => match hex_pair_at(input, at2) {
                Err(e) => Err(e),
                Ok((g, at3)) => match hex_pair_at(input, at3) {
                    Err(e) => Err(e),
                    Ok((b, at4)) => Ok((ValueView::ColourValue(Colour { r, g, b, a: 255 }), at4)),
                },
            },
        },
    }
}

/// Whether `word` names the pixel unit, in capitals or small letters.
pub open spec fn is_px(word: Seq<char>) -> bool {
    &&& word.len() == 2
    &&& (word[0] == 'p' || word[0] == 'P')
    &&& (word[1] == 'x' || word[1] == 'X')
}

/// The unit at `pos`, with the position behind it.
pub open spec fn unit_at(input: Seq<char>, pos: int) -> Result<(Unit, int), ParseError> {
    let end = scan(input, pos, CharClass::Standard);
    if is_px(input.subrange(pos, end)) {
        Ok((Unit::Px, end))
    } else {
        Err(ParseError::UnknownUnit)
    }
}

/// The length at `pos`, with the position behind it: a number and a
/// unit.
pub open spec fn length_at(input: Seq<char>, pos: int) -> Result<(ValueView, int), ParseError> {
    let end = scan(input, pos, CharClass::Number);
    match number_value(input.subrange(pos, end)) {
        Err(e) => Err(e),
        Ok(n) => match unit_at(input, end) {
            Err(e) => Err(e),
            Ok((unit, p)) => Ok((ValueView::Length(n, unit), p)),
        },
    }
}

/// The value at `pos`, with the position behind it: a length where the
/// input holds a digit, a colour where it holds `#`, and else a keyword
/// of letters and digits.
pub open spec fn value_at(input: Seq<char>, pos: int) -> Result<(ValueView, int), ParseError> {
    if !(0 <= pos < input.len()) {
        Err(ParseError::UnexpectedEof)
    } else if is_digit(input[pos]) {
        length_at(input, pos)
    } else if input[pos] == '#' {
        colour_at(input, pos)
    } else {
        let end = scan(input, pos, CharClass::Standard);
        Ok((ValueView::Keyword(input.subrange(pos, end)), end))
    }
}

/// The declaration at `pos`, with the position behind it: a property
/// name, a colon, a value and a semicolon, with white space between
/// them as one likes.
pub open spec fn declaration_at(input: Seq<char>, pos: int) -> Result<
    (DeclarationView, int),
    ParseError,
> {
    let name_end = scan(input, pos, CharClass::Standard);
    let at1 = scan(input, name_end, CharClass::Whitespace);
    match expect(input, at1, ':') {
        Err(e) => Err(e),
        Ok(at2) => match value_at(input, scan(input, at2, CharClass::Whitespace)) {
            Err(e) => Err(e),
            Ok((value, at3)) => match expect(input, scan(input, at3, CharClass::Whitespace), ';') {
                Err(e) => Err(e),
                Ok(end) => Ok((DeclarationView { name: input.subrange(pos, name_end), value }, end)),
            },
        },
    }
}

/// The declarations from `pos` up to the `}` that ends them, added to
/// `acc`, with the position behind that `}`.
pub open spec fn declarations_from(input: Seq<char>, pos: int, acc: Seq<DeclarationView>) -> Result<
    (Seq<DeclarationView>, int),
    ParseError,
>
    decreases input.len() - pos,
{
    let p = scan(input, pos, CharClass::Whitespace);
    if !(0 <= p < input.len()) {
        Err(ParseError::UnexpectedEof)
    } else if input[p] == '}' {
        Ok((acc, p + 1))
    } else {
        match declaration_at(input, p) {
            Err(e) => Err(e),
            Ok((d, end)) => {
                proof {
                    lemma_scan_bounds(input, pos, CharClass::Whitespace);
                    lemma_declaration_moves_on(input, p);
                }
                declarations_from(input, end, acc.push(d))
            },
        }
    }
}

/// The declarations of the block at `pos`, with the position behind the
/// block: a `{`, declarations, and a `}`.
pub open spec fn declarations_at(input: Seq<char>, pos: int) -> Result<
    (Seq<DeclarationView>, int),
    ParseError,
> {
    match expect(input, pos, '{') {
        Err(e) => Err(e),
        Ok(p) => declarations_from(input, p, Seq::empty()),
    }
}

/// The selector that names nothing.
pub open spec fn universal_selector() -> SimpleSelectorView {
    SimpleSelectorView { tag_name: None, id: None, class: Seq::empty() }
}

/// The simple selector that `acc` becomes by what `input` holds from
/// `pos` on, with the position where that ends: `#` and a word give the
/// id, `.` and a word one more class, a word the tag name, and `*`
/// nothing. Of two ids or two tag names the later one stays.
pub open spec fn simple_selector_at(input: Seq<char>, pos: int, acc: SimpleSelectorView) -> (
    SimpleSelectorView,
    int,
)
    decreases input.len() - pos,
{
    if !(0 <= pos < input.len()) {
        (acc, pos)
    } else {
        let word_end = scan(input, pos + 1, CharClass::Standard);
        let word = input.subrange(pos + 1, word_end);
        proof {
            lemma_scan_bounds(input, pos + 1, CharClass::Standard);
        }
        if input[pos] == '#' {
            simple_selector_at(
                input,
                word_end,
                SimpleSelectorView { tag_name: acc.tag_name, id: Some(word), class: acc.class },
            )
        } else if input[pos] == '.' {
            simple_selector_at(
                input,
                word_end,
                SimpleSelectorView { tag_name: acc.tag_name, id: acc.id, class: acc.class.push(word) },
            )
        } else if input[pos] == '*' {
            simple_selector_at(input, pos + 1, acc)
        } else if is_standard_char(input[pos]) {
            simple_selector_at(
                input,
                word_end,
                SimpleSelectorView {
                    tag_name: Some(input.subrange(pos, word_end)),
                    id: acc.id,
                    class: acc.class,
                },
            )
        } else {
            (acc, pos)
        }
    }
}

/// `sorted` with `s` put behind the last selector that weighs no less
/// than `s` does.
pub open spec fn insert_selector(sorted: Seq<SelectorView>, s: SelectorView) -> Seq<SelectorView>
    decreases sorted.len(),
{
    if sorted.len() == 0 {
        seq![s]
    } else if specificity_le(s.specificity(), sorted.last().specificity()) {
        sorted.push(s)
    } else {
        insert_selector(sorted.drop_last(), s).push(sorted.last())
    }
}

/// The selectors from `pos` up to the `{` that follows them, added to
/// `acc`, with the position of that `{`. Selectors are set apart by
/// commas. They come out by descending weight, and selectors of one
/// weight in the order in which they are written.
pub open spec fn selectors_at(input: Seq<char>, pos: int, acc: Seq<SelectorView>) -> Result<
    (Seq<SelectorView>, int),
    ParseError,
>
    decreases input.len() - pos,
{
    let (selector, at1) = simple_selector_at(input, pos, universal_selector());
    let found = insert_selector(acc, SelectorView::Simple(selector));
    let at2 = scan(input, at1, CharClass::Whitespace);
    if !(0 <= at2 < input.len()) {
        Err(ParseError::UnexpectedEof)
    } else if input[at2] == ',' {
        proof {
            if 0 <= pos <= input.len() {
                lemma_simple_selector_moves_on(input, pos, universal_selector());
                lemma_scan_bounds(input, at1, CharClass::Whitespace);
            }
            lemma_scan_bounds(input, at2 + 1, CharClass::Whitespace);
        }
        selectors_at(input, scan(input, at2 + 1, CharClass::Whitespace), found)
    } else if input[at2] == '{' {
        Ok((found, at2))
    } else {
        Err(ParseError::UnexpectedChar)
    }
}

/// The rule at `pos`, with the position behind it: selectors and a
/// block of declarations.
pub open spec fn rule_at(input: Seq<char>, pos: int) -> Result<(RuleView, int), ParseError> {
    match selectors_at(input, pos, Seq::empty()) {
        Err(e) => Err(e),
        Ok((selectors, p)) => match declarations_at(input, p) {
            Err(e) => Err(e),
            Ok((declarations, end)) => Ok((RuleView { selectors, declarations }, end)),
        },
    }
}


/// The rules from `pos` up to the end of the input, added to `acc`.
/// White space between rules is left out.
pub open spec fn rules_at(input: Seq<char>, pos: int, acc: Seq<RuleView>) -> Result<
    Seq<RuleView>,
    ParseError,
>
    decreases input.len() - pos,
{
    let p = scan(input, pos, CharClass::Whitespace);
    if !(0 <= p < input.len()) {
        Ok(acc)
    } else {
        match rule_at(input, p) {
            Err(e) => Err(e),
            Ok((rule, end)) => {
                proof {
                    lemma_scan_bounds(input, pos, CharClass::Whitespace);
                    lemma_rule_moves_on(input, p);
                }
                rules_at(input, end, acc.push(rule))
            },
        }
    }
}

/// The style sheet that `input` holds: its rules, in their order.
pub open spec fn stylesheet(input: Seq<char>) -> Result<StylesheetView, ParseError> {
    match rules_at(input, 0, Seq::empty()) {
        Err(e) => Err(e),
        Ok(rules) => Ok(StylesheetView { rules }),
    }
}

/// The digits of a prefix stand for no more than the digits of the
/// whole.
pub proof fn lemma_digits_grow(s: Seq<char>, k: int)
    requires
        all_digits(s),
        0 <= k <= s.len(),
    ensures
        0 <= digits_value(s.take(k)) <= digits_value(s),
    decreases s.len() - k,
{
    if k == s.len() {
        assert(s.take(k) =~= s);
        lemma_digits_not_negative(s);
    } else {
        lemma_digits_grow(s, k + 1);
        assert(s.take(k + 1).drop_last() =~= s.take(k));
        assert(is_digit(s[k]));
        lemma_digits_not_negative(s.take(k));
    }
}

/// Digits stand for a number that is not negative.
pub proof fn lemma_digits_not_negative(s: Seq<char>)
    requires
        all_digits(s),
    ensures
        0 <= digits_value(s),
    decreases s.len(),
{
    if s.len() > 0 {
        assert(is_digit(s.last()));
        lemma_digits_not_negative(s.drop_last());
    }
}

/// The number that the digit `c` stands for.
fn digit_of(c: char) -> (r: i64)
    requires
        is_digit(c),
    ensures
        r == digit_value(c),
        0 <= r <= 9,
{
    (c as u32 - '0' as u32) as i64
}

/// Whether `text[from..to]` holds digits only.
fn digits_only(text: &Vec<char>, from: usize, to: usize) -> (r: bool)
    requires
        from <= to <= text.len(),
    ensures
        r == all_digits(text@.subrange(from as int, to as int)),
{
    let mut i: usize = from;
    while i < to
        invariant
            from <= i <= to <= text.len(),
            forall|j: int| from <= j < i ==> is_digit(#[trigger] text[j]),
        decreases to - i,
    {
        if !(text[i] >= '0' && text[i] <= '9') {
            assert(!is_digit(text@.subrange(from as int, to as int)[i - from]));
            return false;
        }
        i += 1;
    }
    assert forall|j: int| 0 <= j < to - from implies is_digit(
        #[trigger] text@.subrange(from as int, to as int)[j],
    ) by {
        assert(is_digit(text[from + j]));
    }
    true
}

/// The number that the digits `text[from..to]` stand for, unless it is
/// more than [`MAX_WHOLE_PX`].
fn digits_capped(text: &Vec<char>, from: usize, to: usize) -> (r: Option<i64>)
    requires
        from <= to <= text.len(),
        all_digits(text@.subrange(from as int, to as int)),
    ensures
        match r {
            Some(v) => v == digits_value(text@.subrange(from as int, to as int)) && 0 <= v
                <= MAX_WHOLE_PX,
            None => digits_value(text@.subrange(from as int, to as int)) > MAX_WHOLE_PX,
        },
{
    let ghost all = text@.subrange(from as int, to as int);
    let mut acc: i64 = 0;
    let mut i: usize = from;
    while i < to
        invariant
            from <= i <= to <= text.len(),
            all == text@.subrange(from as int, to as int),
            all_digits(all),
            acc == digits_value(all.take(i - from)),
            0 <= acc <= MAX_WHOLE_PX,
        decreases to - i,
    {
        assert(is_digit(all[i - from]));
        let d = digit_of(text[i]);
        let next: i64 = acc * 10 + d;
        proof {
            assert(all.take(i - from + 1).drop_last() =~= all.take(i - from));
            assert(next == digits_value(all.take(i - from + 1)));
        }
        if next > MAX_WHOLE_PX {
            proof {
                lemma_digits_grow(all, i - from + 1);
            }
            return None;
        }
        acc = next;
        i += 1;
    }
    assert(all.take(to - from) =~= all);
    Some(acc)
}

/// The digit at place `k` of `text[from..to]` as a number, with zero
/// behind the end.
fn digit_or_zero(text: &Vec<char>, from: usize, to: usize, k: usize) -> (r: i64)
    requires
        from <= to <= text.len(),
        all_digits(text@.subrange(from as int, to as int)),
    ensures
        r == digit_at(text@.subrange(from as int, to as int), k as int),
        0 <= r <= 9,
{
    if k < to - from {
        assert(is_digit(text@.subrange(from as int, to as int)[k as int]));
        digit_of(text[from + k])
    } else {
        0
    }
}

/// The length in layout units that the decimal number `text` stands
/// for.
pub fn number_units(text: &Vec<char>) -> (r: Result<i64, ParseError>)
    ensures
        r == number_value(text@),
{
    let len = text.len();
    let mut dot: usize = 0;
    while dot < len && text[dot] != '.'
        invariant
            dot <= len,
            len == text.len(),
            forall|j: int| 0 <= j < dot ==> #[trigger] text[j] != '.',
        decreases len - dot,
    {
        dot += 1;
    }
    proof {
        lemma_scan_end(text@, 0, dot as int, CharClass::Not('.'));
    }
    let fraction_start: usize = if dot < len {
        dot + 1
    } else {
        len
    };
    assert(whole_part(text@) == text@.subrange(0, dot as int));
    assert(fraction_part(text@) =~= text@.subrange(fraction_start as int, len as int));
    if !digits_only(text, 0, dot) || !digits_only(text, fraction_start, len) || dot + (len
        - fraction_start) == 0 {
        return Err(ParseError::BadNumber);
    }
    let whole = match digits_capped(text, 0, dot) {
        Some(w) => w,
        None => {
            assert(fraction_value(fraction_part(text@)) >= 0);
            return Err(ParseError::NumberTooLarge);
        },
    };
    let fraction: i64 = digit_or_zero(text, fraction_start, len, 0) * 100 + digit_or_zero(
        text,
        fraction_start,
        len,
        1,
    ) * 10 + digit_or_zero(text, fraction_start, len, 2);
    let units: i128 = whole as i128 * (UNITS_PER_PX as i128) + fraction as i128;
    if units <= 0x7fff_ffff_ffff_ffff {
        Ok(units as i64)
    } else {
        Err(ParseError::NumberTooLarge)
    }
}

/// The number that the hexadecimal digit `c` stands for.
fn hex_digit(c: char) -> (r: Option<u8>)
    ensures
        match r {
            Some(v) => hex_digit_value(c) == Some(v as int) && v < 16,
            None => hex_digit_value(c) is None,
        },
{
    if c >= '0' && c <= '9' {
        Some((c as u32 - '0' as u32) as u8)
    } else if c >= 'a' && c <= 'f' {
        Some((c as u32 - 'a' as u32 + 10) as u8)
    } else if c >= 'A' && c <= 'F' {
        Some((c as u32 - 'A' as u32 + 10) as u8)
    } else {
        None
    }
}

/// The number that two characters stand for as a hexadecimal number.
pub fn hex_pair(a: char, b: char) -> (r: Option<u8>)
    ensures
        match r {
            Some(v) => hex_pair_value(a, b) == Some(v as int),
            None => hex_pair_value(a, b) is None,
        },
{
    match hex_digit(b) {
        None => None,
        Some(low) => if a == '+' {
            Some(low)
        } else {
            match hex_digit(a) {
                None => None,
                Some(high) => Some(high * 16 + low),
            }
        },
    }
}

/// Puts `s` into `sorted` behind the last selector that weighs no less.
fn insert_sorted(sorted: &mut Vec<Selector>, s: Selector)
    ensures
        selector_views(final(sorted)@) == insert_selector(selector_views(old(sorted)@), s@),
{
    let weight = s.specificity();
    let mut at: usize = sorted.len();
    while at > 0 && !specificity_at_most(weight, sorted[at - 1].specificity())
        invariant
            at <= sorted.len(),
            sorted@ == old(sorted)@,
            crate::style::css::weight(weight) == s@.specificity(),
            forall|j: int|
                at <= j < sorted.len() ==> !specificity_le(
                    s@.specificity(),
                    (#[trigger] selector_views(sorted@)[j]).specificity(),
                ),
        decreases at,
    {
        at -= 1;
    }
    let ghost before = selector_views(sorted@);
    proof {
        lemma_selector_position(before, s@, at as int);
    }
    sorted.insert(at, s);
    assert(selector_views(sorted@) =~= before.insert(at as int, s@));
}

/// Where `s` goes in `sorted`: the selectors from `at` on all weigh
/// less than `s`, and the one before `at`, if there is one, does not.
proof fn lemma_selector_position(sorted: Seq<SelectorView>, s: SelectorView, at: int)
    requires
        0 <= at <= sorted.len(),
        forall|j: int|
            at <= j < sorted.len() ==> !specificity_le(
                s.specificity(),
                (#[trigger] sorted[j]).specificity(),
            ),
        at > 0 ==> specificity_le(s.specificity(), sorted[at - 1].specificity()),
    ensures
        insert_selector(sorted, s) == sorted.insert(at, s),
    decreases sorted.len(),
{
    if sorted.len() == 0 {
        assert(sorted.insert(at, s) =~= seq![s]);
    } else if at == sorted.len() {
        assert(sorted.insert(at, s) =~= sorted.push(s));
    } else {
        lemma_selector_position(sorted.drop_last(), s, at);
        assert(sorted.insert(at, s) =~= sorted.drop_last().insert(at, s).push(sorted.last()));
    }
}


/// Whether `c` is a digit or a dot.
pub fn number_char(c: char) -> (b: bool)
    ensures
        b == CharClass::Number.holds(c),
{
    (c >= '0' && c <= '9') || c == '.'
}

impl CssParser {
    /// Whether the position of the reader lies within its input or at
    /// its end.
    pub open spec fn wf(&self) -> bool {
        self.p.wf()
    }

    /// A reader at the start of `input`.
    pub fn new(input: &str) -> (r: CssParser)
        ensures
            r.wf(),
            r.p.pos == 0,
            r.p.input@ == input@,
    {
        CssParser { p: Parser::new(input) }
    }

    /// Reads a simple selector: ids, classes, tag names and `*`, as long
    /// as there are any.
    pub fn parse_simple_selector(&mut self) -> (r: SimpleSelector)
        requires
            old(self).wf(),
        ensures
            final(self).wf(),
            final(self).p.input == old(self).p.input,
            old(self).p.pos <= final(self).p.pos,
            (r@, final(self).p.pos as int) == simple_selector_at(
                old(self).p.input@,
                old(self).p.pos as int,
                universal_selector(),
            ),
    {
        let mut selector = SimpleSelector { tag_name: None, id: None, class: Vec::new() };
        let ghost start = self.p.pos;
        assert(selector@ == universal_selector()) by {
            assert(selector@.class =~= Seq::<Seq<char>>::empty());
        }
        loop
            invariant
                self.wf(),
                self.p.input == old(self).p.input,
                start == old(self).p.pos,
                start <= self.p.pos,
                simple_selector_at(self.p.input@, start as int, universal_selector())
                    == simple_selector_at(self.p.input@, self.p.pos as int, selector@),
            decreases self.p.input.len() - self.p.pos,
        {
            if self.p.eof() {
                return selector;
            }
            let ghost here = self.p.pos;
            let ghost before = selector@;
            proof {
                lemma_scan_bounds(self.p.input@, here + 1, CharClass::Standard);
            }
            let c = self.p.next_char();
            if c == '#' {
                self.p.consume_char();
                selector.id = Some(self.p.parse_standard_word());
                assert(selector@.class == before.class);
            } else if c == '.' {
                self.p.consume_char();
                let word = self.p.parse_standard_word();
                selector.class.push(word);
                assert(selector@.class =~= before.class.push(word@));
            } else if c == '*' {
                self.p.consume_char();
            } else if standard_char(c) {
                selector.tag_name = Some(self.p.parse_standard_word());
                assert(selector@.class == before.class);
            } else {
                return selector;
            }
        }
    }

    /// Reads a style sheet.
    pub fn parse(source: String) -> (r: Result<Stylesheet, ParseError>)
        ensures
            match stylesheet(source@) {
                Ok(v) => r matches Ok(sheet) && sheet@ == v,
                Err(e) => r matches Err(x) && x == e,
            },
    {
        let mut reader = CssParser::new(source.as_str());
        let mut rules: Vec<Rule> = Vec::new();
        assert(rule_views(rules@) =~= Seq::<RuleView>::empty());
        loop
            invariant
                reader.wf(),
                reader.p.input@ == source@,
                rules_at(source@, 0, Seq::empty()) == rules_at(
                    source@,
                    reader.p.pos as int,
                    rule_views(rules@),
                ),
            decreases reader.p.input.len() - reader.p.pos,
        {
            let ghost here = reader.p.pos;
            reader.p.consume_whitespace();
            proof {
                lemma_scan_bounds(reader.p.input@, here as int, CharClass::Whitespace);
            }
            if reader.p.eof() {
                return Ok(Stylesheet { rules });
            }
            match reader.parse_rule() {
                Err(e) => {
                    return Err(e);
                },
                Ok(rule) => {
                    let ghost before = rule_views(rules@);
                    rules.push(rule);
                    assert(rule_views(rules@) =~= before.push(rule@));
                },
            }
        }
    }

    /// Reads a rule: selectors and a block of declarations. Where that
    /// fails, nothing is read.
    pub fn parse_rule(&mut self) -> (r: Result<Rule, ParseError>)
        requires
            old(self).wf(),
        ensures
            final(self).wf(),
            final(self).p.input == old(self).p.input,
            match rule_at(old(self).p.input@, old(self).p.pos as int) {
                Ok((v, end)) => r matches Ok(rule) && rule@ == v && final(self).p.pos == end
                    && old(self).p.pos < end,
                Err(e) => r matches Err(x) && x == e && final(self).p.pos == old(self).p.pos,
            },
    {
        let start = self.p.pos;
        let selectors = match self.parse_selectors() {
            Err(e) => {
                return Err(e);
            },
            Ok(s) => s,
        };
        let declarations = match self.parse_declarations() {
            Err(e) => {
                self.p.pos = start;
                return Err(e);
            },
            Ok(d) => d,
        };
        Ok(Rule { selectors, declarations })
    }

    /// Reads selectors set apart by commas, up to the `{` that follows
    /// them, and puts them in the order of descending weight. Where
    /// that fails, nothing is read.
    pub fn parse_selectors(&mut self) -> (r: Result<Vec<Selector>, ParseError>)
        requires
            old(self).wf(),
        ensures
            final(self).wf(),
            final(self).p.input == old(self).p.input,
            match selectors_at(old(self).p.input@, old(self).p.pos as int, Seq::empty()) {
                Ok((v, end)) => r matches Ok(selectors) && selector_views(selectors@) == v
                    && final(self).p.pos == end && old(self).p.pos <= end,
                Err(e) => r matches Err(x) && x == e && final(self).p.pos == old(self).p.pos,
            },
    {
        let start = self.p.pos;
        let mut selectors: Vec<Selector> = Vec::new();
        assert(selector_views(selectors@) =~= Seq::<SelectorView>::empty());
        loop
            invariant
                self.wf(),
                self.p.input == old(self).p.input,
                start == old(self).p.pos,
                start <= self.p.pos,
                selectors_at(self.p.input@, start as int, Seq::empty()) == selectors_at(
                    self.p.input@,
                    self.p.pos as int,
                    selector_views(selectors@),
                ),
            decreases self.p.input.len() - self.p.pos,
        {
            let selector = Selector::Simple(self.parse_simple_selector());
            insert_sorted(&mut selectors, selector);
            let ghost at1 = self.p.pos;
            self.p.consume_whitespace();
            proof {
                lemma_scan_bounds(self.p.input@, at1 as int, CharClass::Whitespace);
            }
            if self.p.eof() {
                self.p.pos = start;
                return Err(ParseError::UnexpectedEof);
            }
            let c = self.p.next_char();
            if c == ',' {
                self.p.consume_char();
                let ghost at2 = self.p.pos;
                self.p.consume_whitespace();
                proof {
                    lemma_scan_bounds(self.p.input@, at2 as int, CharClass::Whitespace);
                }
            } else if c == '{' {
                return Ok(selectors);
            } else {
                self.p.pos = start;
                return Err(ParseError::UnexpectedChar);
            }
        }
    }

    /// Reads a block of declarations: a `{`, declarations, and a `}`.
    /// Where that fails, nothing is read.
    pub fn parse_declarations(&mut self) -> (r: Result<Vec<Declaration>, ParseError>)
        requires
            old(self).wf(),
        ensures
            final(self).wf(),
            final(self).p.input == old(self).p.input,
            match declarations_at(old(self).p.input@, old(self).p.pos as int) {
                Ok((v, end)) => r matches Ok(declarations) && declaration_views(declarations@) == v
                    && final(self).p.pos == end && old(self).p.pos < end,
                Err(e) => r matches Err(x) && x == e && final(self).p.pos == old(self).p.pos,
            },
    {
        let start = self.p.pos;
        match self.p.expect_char('{') {
            Err(e) => {
                return Err(e);
            },
            Ok(()) => {},
        }
        let ghost first = self.p.pos;
        let mut declarations: Vec<Declaration> = Vec::new();
        assert(declaration_views(declarations@) =~= Seq::<DeclarationView>::empty());
        loop
            invariant
                self.wf(),
                self.p.input == old(self).p.input,
                start == old(self).p.pos,
                first == start + 1,
                first <= self.p.pos,
                expect(self.p.input@, start as int, '{') == Ok::<int, ParseError>(first as int),
                declarations_from(self.p.input@, first as int, Seq::empty()) == declarations_from(
                    self.p.input@,
                    self.p.pos as int,
                    declaration_views(declarations@),
                ),
            decreases self.p.input.len() - self.p.pos,
        {
            let ghost here = self.p.pos;
            self.p.consume_whitespace();
            proof {
                lemma_scan_bounds(self.p.input@, here as int, CharClass::Whitespace);
            }
            if self.p.eof() {
                self.p.pos = start;
                return Err(ParseError::UnexpectedEof);
            }
            if self.p.next_char() == '}' {
                self.p.consume_char();
                return Ok(declarations);
            }
            match self.parse_declaration() {
                Err(e) => {
                    self.p.pos = start;
                    return Err(e);
                },
                Ok(d) => {
                    let ghost before = declaration_views(declarations@);
                    declarations.push(d);
                    assert(declaration_views(declarations@) =~= before.push(d@));
                },
            }
        }
    }

    /// Reads a declaration: a property name, a colon, a value and a
    /// semicolon. Where that fails, nothing is read.
    pub fn parse_declaration(&mut self) -> (r: Result<Declaration, ParseError>)
        requires
            old(self).wf(),
        ensures
            final(self).wf(),
            final(self).p.input == old(self).p.input,
            match declaration_at(old(self).p.input@, old(self).p.pos as int) {
                Ok((v, end)) => r matches Ok(d) && d@ == v && final(self).p.pos == end
                    && old(self).p.pos < end,
                Err(e) => r matches Err(x) && x == e && final(self).p.pos == old(self).p.pos,
            },
    {
        let start = self.p.pos;
        let key = self.p.parse_standard_word();
        let ghost name_end = self.p.pos;
        self.p.consume_whitespace();
        proof {
            lemma_scan_bounds(self.p.input@, start as int, CharClass::Standard);
            lemma_scan_bounds(self.p.input@, name_end as int, CharClass::Whitespace);
        }
        match self.p.expect_char(':') {
            Err(e) => {
                self.p.pos = start;
                return Err(e);
            },
            Ok(()) => {},
        }
        let ghost at2 = self.p.pos;
        self.p.consume_whitespace();
        proof {
            lemma_scan_bounds(self.p.input@, at2 as int, CharClass::Whitespace);
        }
        let val = match self.parse_value() {
            Err(e) => {
                self.p.pos = start;
                return Err(e);
            },
            Ok(v) => v,
        };
        let ghost at3 = self.p.pos;
        self.p.consume_whitespace();
        proof {
            lemma_scan_bounds(self.p.input@, at3 as int, CharClass::Whitespace);
        }
        match self.p.expect_char(';') {
            Err(e) => {
                self.p.pos = start;
                return Err(e);
            },
            Ok(()) => {},
        }
        Ok(Declaration { name: key, value: val })
    }

    /// Reads a value: a length, a colour or a keyword. Where that
    /// fails, nothing is read.
    pub fn parse_value(&mut self) -> (r: Result<Value, ParseError>)
        requires
            old(self).wf(),
        ensures
            final(self).wf(),
            final(self).p.input == old(self).p.input,
            old(self).p.pos <= final(self).p.pos,
            match value_at(old(self).p.input@, old(self).p.pos as int) {
                Ok((v, end)) => r matches Ok(value) && value@ == v && final(self).p.pos == end,
                Err(e) => r matches Err(x) && x == e && final(self).p.pos == old(self).p.pos,
            },
    {
        if self.p.eof() {
            return Err(ParseError::UnexpectedEof);
        }
        let c = self.p.next_char();
        if c >= '0' && c <= '9' {
            self.parse_length()
        } else if c == '#' {
            self.parse_colour()
        } else {
            proof {
                lemma_scan_bounds(self.p.input@, self.p.pos as int, CharClass::Standard);
            }
            Ok(Value::Keyword(self.p.parse_standard_word()))
        }
    }

    /// Reads a length: a number and a unit. Where that fails, nothing is
    /// read.
    pub fn parse_length(&mut self) -> (r: Result<Value, ParseError>)
        requires
            old(self).wf(),
        ensures
            final(self).wf(),
            final(self).p.input == old(self).p.input,
            old(self).p.pos <= final(self).p.pos,
            match length_at(old(self).p.input@, old(self).p.pos as int) {
                Ok((v, end)) => r matches Ok(value) && value@ == v && final(self).p.pos == end,
                Err(e) => r matches Err(x) && x == e && final(self).p.pos == old(self).p.pos,
            },
    {
        let start = self.p.pos;
        let n = match self.parse_float() {
            Err(e) => {
                return Err(e);
            },
            Ok(n) => n,
        };
        match self.parse_unit() {
            Err(e) => {
                self.p.pos = start;
                Err(e)
            },
            Ok(unit) => Ok(Value::Length(n, unit)),
        }
    }

    /// Reads a decimal number as a length in layout units. Where that
    /// fails, nothing is read.
    pub fn parse_float(&mut self) -> (r: Result<i64, ParseError>)
        requires
            old(self).wf(),
        ensures
            final(self).wf(),
            final(self).p.input == old(self).p.input,
            old(self).p.pos <= final(self).p.pos,
            match number_value(
                old(self).p.input@.subrange(
                    old(self).p.pos as int,
                    scan(old(self).p.input@, old(self).p.pos as int, CharClass::Number),
                ),
            ) {
                Ok(n) => r == Ok::<i64, ParseError>(n) && final(self).p.pos == scan(
                    old(self).p.input@,
                    old(self).p.pos as int,
                    CharClass::Number,
                ),
                Err(e) => r == Err::<i64, ParseError>(e) && final(self).p.pos == old(self).p.pos,
            },
    {
        let start = self.p.pos;
        let s = self.p.consume_while(number_char);
        proof {
            lemma_scan_end(self.p.input@, start as int, self.p.pos as int, CharClass::Number);
        }
        let text = chars_of(s.as_str());
        match number_units(&text) {
            Ok(n) => Ok(n),
            Err(e) => {
                self.p.pos = start;
                Err(e)
            },
        }
    }

    /// Reads a unit. Where that fails, nothing is read.
    pub fn parse_unit(&mut self) -> (r: Result<Unit, ParseError>)
        requires
            old(self).wf(),
        ensures
            final(self).wf(),
            final(self).p.input == old(self).p.input,
            old(self).p.pos <= final(self).p.pos,
            match unit_at(old(self).p.input@, old(self).p.pos as int) {
                Ok((unit, end)) => r == Ok::<Unit, ParseError>(unit) && final(self).p.pos == end,
                Err(e) => r == Err::<Unit, ParseError>(e) && final(self).p.pos == old(self).p.pos,
            },
    {
        let start = self.p.pos;
        proof {
            lemma_scan_bounds(self.p.input@, start as int, CharClass::Standard);
        }
        let word = chars_of(self.p.parse_standard_word().as_str());
        if word.len() == 2 && (word[0] == 'p' || word[0] == 'P') && (word[1] == 'x' || word[1]
            == 'X') {
            Ok(Unit::Px)
        } else {
            self.p.pos = start;
            Err(ParseError::UnknownUnit)
        }
    }

    /// Reads a colour: a `#` and three pairs of hexadecimal digits.
    /// Where that fails, nothing is read.
    pub fn parse_colour(&mut self) -> (r: Result<Value, ParseError>)
        requires
            old(self).wf(),
        ensures
            final(self).wf(),
            final(self).p.input == old(self).p.input,
            old(self).p.pos <= final(self).p.pos,
            match colour_at(old(self).p.input@, old(self).p.pos as int) {
                Ok((v, end)) => r matches Ok(value) && value@ == v && final(self).p.pos == end,
                Err(e) => r matches Err(x) && x == e && final(self).p.pos == old(self).p.pos,
            },
    {
        let start = self.p.pos;
        match self.p.expect_char('#') {
            Err(e) => {
                return Err(e);
            },
            Ok(()) => {},
        }
        let r = match self.parse_hex_pair() {
            Err(e) => {
                self.p.pos = start;
                return Err(e);
            },
            Ok(v) => v,
        };
        let g = match self.parse_hex_pair() {
            Err(e) => {
                self.p.pos = start;
                return Err(e);
            },
            Ok(v) => v,
        };
        let b = match self.parse_hex_pair() {
            Err(e) => {
                self.p.pos = start;
                return Err(e);
            },
            Ok(v) => v,
        };
        Ok(Value::ColourValue(Colour { r, g, b, a: 255 }))
    }

    /// Reads two hexadecimal digits. Where that fails, nothing is read.
    pub fn parse_hex_pair(&mut self) -> (r: Result<u8, ParseError>)
        requires
            old(self).wf(),
        ensures
            final(self).wf(),
            final(self).p.input == old(self).p.input,
            old(self).p.pos <= final(self).p.pos,
            match hex_pair_at(old(self).p.input@, old(self).p.pos as int) {
                Ok((v, end)) => r == Ok::<u8, ParseError>(v) && final(self).p.pos == end,
                Err(e) => r == Err::<u8, ParseError>(e) && final(self).p.pos == old(self).p.pos,
            },
    {
        if self.p.input.len() - self.p.pos < 2 {
            return Err(ParseError::UnexpectedEof);
        }
        match hex_pair(self.p.input[self.p.pos], self.p.input[self.p.pos + 1]) {
            Some(v) => {
                self.p.pos += 2;
                Ok(v)
            },
            None => Err(ParseError::BadColour),
        }
    }
}


/// A value ends within the input, at or behind the place where it
/// starts.
pub proof fn lemma_value_moves_on(input: Seq<char>, pos: int)
    requires
        0 <= pos <= input.len(),
        value_at(input, pos) is Ok,
    ensures
        pos <= value_at(input, pos)->Ok_0.1 <= input.len(),
{
    lemma_scan_bounds(input, pos, CharClass::Standard);
    lemma_scan_bounds(input, pos, CharClass::Number);
    lemma_scan_bounds(input, scan(input, pos, CharClass::Number), CharClass::Standard);
}

/// A declaration takes at least one character and ends within the
/// input.
pub proof fn lemma_declaration_moves_on(input: Seq<char>, pos: int)
    requires
        0 <= pos <= input.len(),
        declaration_at(input, pos) is Ok,
    ensures
        pos < declaration_at(input, pos)->Ok_0.1 <= input.len(),
{
    lemma_scan_bounds(input, pos, CharClass::Standard);
    let name_end = scan(input, pos, CharClass::Standard);
    lemma_scan_bounds(input, name_end, CharClass::Whitespace);
    let at1 = scan(input, name_end, CharClass::Whitespace);
    lemma_scan_bounds(input, at1 + 1, CharClass::Whitespace);
    let at2 = scan(input, at1 + 1, CharClass::Whitespace);
    lemma_value_moves_on(input, at2);
    let (value, at3) = value_at(input, at2)->Ok_0;
    lemma_scan_bounds(input, at3, CharClass::Whitespace);
}

/// A block of declarations takes at least one character and ends
/// within the input.
pub proof fn lemma_declarations_move_on(input: Seq<char>, pos: int, acc: Seq<DeclarationView>)
    requires
        0 <= pos <= input.len(),
        declarations_from(input, pos, acc) is Ok,
    ensures
        pos < declarations_from(input, pos, acc)->Ok_0.1 <= input.len(),
    decreases input.len() - pos,
{
    lemma_scan_bounds(input, pos, CharClass::Whitespace);
    let p = scan(input, pos, CharClass::Whitespace);
    if input[p] != '}' {
        lemma_declaration_moves_on(input, p);
        let (d, end) = declaration_at(input, p)->Ok_0;
        lemma_declarations_move_on(input, end, acc.push(d));
    }
}

/// A simple selector ends within the input, at or behind the place
/// where it starts.
pub proof fn lemma_simple_selector_moves_on(input: Seq<char>, pos: int, acc: SimpleSelectorView)
    requires
        0 <= pos <= input.len(),
    ensures
        pos <= simple_selector_at(input, pos, acc).1 <= input.len(),
    decreases input.len() - pos,
{
    if pos < input.len() {
        lemma_scan_bounds(input, pos + 1, CharClass::Standard);
        let word_end = scan(input, pos + 1, CharClass::Standard);
        let word = input.subrange(pos + 1, word_end);
        if input[pos] == '#' {
            lemma_simple_selector_moves_on(
                input,
                word_end,
                SimpleSelectorView { tag_name: acc.tag_name, id: Some(word), class: acc.class },
            );
        } else if input[pos] == '.' {
            lemma_simple_selector_moves_on(
                input,
                word_end,
                SimpleSelectorView { tag_name: acc.tag_name, id: acc.id, class: acc.class.push(word) },
            );
        } else if input[pos] == '*' {
            lemma_simple_selector_moves_on(input, pos + 1, acc);
        } else if is_standard_char(input[pos]) {
            lemma_simple_selector_moves_on(
                input,
                word_end,
                SimpleSelectorView {
                    tag_name: Some(input.subrange(pos, word_end)),
                    id: acc.id,
                    class: acc.class,
                },
            );
        }
    }
}

/// Selectors end at a `{` within the input.
pub proof fn lemma_selectors_move_on(input: Seq<char>, pos: int, acc: Seq<SelectorView>)
    requires
        0 <= pos <= input.len(),
        selectors_at(input, pos, acc) is Ok,
    ensures
        pos <= selectors_at(input, pos, acc)->Ok_0.1 < input.len(),
        input[selectors_at(input, pos, acc)->Ok_0.1] == '{',
    decreases input.len() - pos,
{
    lemma_simple_selector_moves_on(input, pos, universal_selector());
    let (selector, at1) = simple_selector_at(input, pos, universal_selector());
    lemma_scan_bounds(input, at1, CharClass::Whitespace);
    let at2 = scan(input, at1, CharClass::Whitespace);
    if input[at2] == ',' {
        lemma_scan_bounds(input, at2 + 1, CharClass::Whitespace);
        lemma_selectors_move_on(
            input,
            scan(input, at2 + 1, CharClass::Whitespace),
            insert_selector(acc, SelectorView::Simple(selector)),
        );
    }
}

/// A rule takes at least one character and ends within the input.
pub proof fn lemma_rule_moves_on(input: Seq<char>, pos: int)
    requires
        0 <= pos <= input.len(),
        rule_at(input, pos) is Ok,
    ensures
        pos < rule_at(input, pos)->Ok_0.1 <= input.len(),
{
    lemma_selectors_move_on(input, pos, Seq::empty());
    let (selectors, p) = selectors_at(input, pos, Seq::empty())->Ok_0;
    lemma_declarations_move_on(input, p + 1, Seq::empty());
}

} // verus!
