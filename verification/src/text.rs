//! Text as a sequence of characters: ordering, searching, splitting into words and rendering
//! numbers.

use vstd::prelude::*;

verus! {

/// `String::push` adds one character at the end.
pub assume_specification[ String::push ](string: &mut String, character: char)
    ensures
        final(string)@ == old(string)@.push(character),
;

/// The outcome of comparing two values.
#[derive(Clone, Copy, Debug, PartialEq, Eq, Structural)]
pub enum Order {
    Less,
    Equal,
    Greater,
}

impl Order {
    /// The outcome with the two values exchanged.
    pub open spec fn opposite(self) -> Order {
        match self {
            Order::Less => Order::Greater,
            Order::Equal => Order::Equal,
            Order::Greater => Order::Less,
        }
    }

    /// This outcome unless it is `Equal`, and `tie` in that case.
    pub open spec fn or_tie(self, tie: Order) -> Order {
        if self == Order::Equal {
            tie
        } else {
            self
        }
    }
}

/// Exchanges `Less` and `Greater`.
pub fn opposite_of(order: Order) -> (result: Order)
    ensures
        result == order.opposite(),
{
    match order {
        Order::Less => Order::Greater,
        Order::Equal => Order::Equal,
        Order::Greater => Order::Less,
    }
}

/// How two integers compare.
pub open spec fn int_order(left: int, right: int) -> Order {
    if left < right {
        Order::Less
    } else if left == right {
        Order::Equal
    } else {
        Order::Greater
    }
}

/// `left` and `right` share their first `at` characters, and there `left` either ends or holds
/// the smaller character.
pub open spec fn precedes_at(left: Seq<char>, right: Seq<char>, at: int) -> bool {
    &&& 0 <= at <= left.len()
    &&& at < right.len()
    &&& forall|i: int| 0 <= i < at ==> left[i] == right[i]
    &&& at < left.len() ==> (left[at] as u32) < (right[at] as u32)
}

/// Lexicographic precedence by code point.
pub open spec fn precedes(left: Seq<char>, right: Seq<char>) -> bool {
    exists|at: int| precedes_at(left, right, at)
}

/// Lexicographic comparison by code point.
pub open spec fn text_order(left: Seq<char>, right: Seq<char>) -> Order {
    if left == right {
        Order::Equal
    } else if precedes(left, right) {
        Order::Less
    } else {
        Order::Greater
    }
}

/// A character is determined by its code point.
proof fn code_point_identifies(left: char, right: char)
    ensures
        (left as u32 == right as u32) == (left == right),
{
}

/// The first position from `from` on at which two texts differ or one of them ends.
proof fn first_difference(left: Seq<char>, right: Seq<char>, from: int) -> (at: int)
    requires
        0 <= from <= left.len(),
        from <= right.len(),
        forall|i: int| 0 <= i < from ==> left[i] == right[i],
    ensures
        from <= at <= left.len(),
        at <= right.len(),
        forall|i: int| 0 <= i < at ==> left[i] == right[i],
        at == left.len() || at == right.len() || left[at] != right[at],
    decreases left.len() - from,
{
    if from == left.len() || from == right.len() || left[from] != right[from] {
        from
    } else {
        first_difference(left, right, from + 1)
    }
}

/// Comparing two texts the other way round gives the opposite outcome.
pub proof fn text_order_is_antisymmetric(left: Seq<char>, right: Seq<char>)
    ensures
        text_order(right, left) == text_order(left, right).opposite(),
{
    if left != right {
        let at = first_difference(left, right, 0);
        if at == left.len() {
            if at == right.len() {
                assert(left =~= right);
            }
            assert(precedes_at(left, right, at));
        } else if at == right.len() {
            assert(precedes_at(right, left, at));
        } else {
            code_point_identifies(left[at], right[at]);
            if (left[at] as u32) < (right[at] as u32) {
                assert(precedes_at(left, right, at));
            } else {
                assert(precedes_at(right, left, at));
            }
        }
        if precedes(left, right) && precedes(right, left) {
            let i = choose|i: int| precedes_at(left, right, i);
            let j = choose|j: int| precedes_at(right, left, j);
            assert(false);
        }
    }
}

/// Text precedence is transitive.
pub proof fn text_order_is_transitive(first: Seq<char>, second: Seq<char>, third: Seq<char>)
    requires
        text_order(first, second) != Order::Greater,
        text_order(second, third) != Order::Greater,
    ensures
        text_order(first, third) != Order::Greater,
        text_order(first, third) == Order::Equal ==> first == second && second == third,
{
    if first != second && second != third {
        let i = choose|i: int| precedes_at(first, second, i);
        let j = choose|j: int| precedes_at(second, third, j);
        let at = if i < j {
            i
        } else {
            j
        };
        assert(precedes_at(first, third, at));
        if first == third {
            text_order_is_antisymmetric(first, second);
        }
    }
}

/// Compares two texts by code point.
pub fn compare_text(left: &[char], right: &[char]) -> (order: Order)
    ensures
        order == text_order(left@, right@),
{
    let mut i: usize = 0;
    while i < left.len() && i < right.len()
        invariant
            i <= left.len(),
            i <= right.len(),
            forall|k: int| 0 <= k < i ==> left[k] == right[k],
        decreases left.len() - i,
    {
        let a: u32 = left[i] as u32;
        let b: u32 = right[i] as u32;
        proof {
            code_point_identifies(left[i as int], right[i as int]);
        }
        if a != b {
            proof {
                text_order_is_antisymmetric(left@, right@);
                if a < b {
                    assert(precedes_at(left@, right@, i as int));
                } else {
                    assert(precedes_at(right@, left@, i as int));
                }
            }
            return if a < b {
                Order::Less
            } else {
                Order::Greater
            };
        }
        i += 1;
    }
    if left.len() < right.len() {
        assert(precedes_at(left@, right@, i as int));
        Order::Less
    } else if left.len() > right.len() {
        proof {
            text_order_is_antisymmetric(left@, right@);
            assert(precedes_at(right@, left@, i as int));
        }
        Order::Greater
    } else {
        assert(left@ =~= right@);
        Order::Equal
    }
}

/// The characters of a string.
pub fn chars_of(text: &str) -> (chars: Vec<char>)
    ensures
        chars@ == text@,
{
    let mut chars: Vec<char> = Vec::new();
    for character in it: text.chars()
        invariant
            it.seq() == text@,
            chars@ =~= text@.take(it.index()),
    {
        chars.push(character);
    }
    chars
}

/// The string made of the given characters.
pub fn text_of(chars: &[char]) -> (text: String)
    ensures
        text@ == chars@,
{
    let mut text = String::new();
    for i in 0..chars.len()
        invariant
            text@ =~= chars@.take(i as int),
    {
        text.push(chars[i]);
    }
    text
}

/// Whether two texts hold the same characters.
pub fn same_text(left: &[char], right: &[char]) -> (same: bool)
    ensures
        same == (left@ == right@),
{
    match compare_text(left, right) {
        Order::Equal => true,
        _ => false,
    }
}

/// Whether two strings hold the same characters.
pub fn same_str(left: &str, right: &str) -> (same: bool)
    ensures
        same == (left@ == right@),
{
    let a = chars_of(left);
    let b = chars_of(right);
    same_text(a.as_slice(), b.as_slice())
}

/// Whether a character has the Unicode property `White_Space`.
pub open spec fn white_space(character: char) -> bool {
    let code = character as u32;
    ||| 0x09 <= code <= 0x0D
    ||| code == 0x20
    ||| code == 0x85
    ||| code == 0xA0
    ||| code == 0x1680
    ||| 0x2000 <= code <= 0x200A
    ||| code == 0x2028
    ||| code == 0x2029
    ||| code == 0x202F
    ||| code == 0x205F
    ||| code == 0x3000
}

/// Tells whether a character has the Unicode property `White_Space`.
pub fn is_white_space(character: char) -> (white: bool)
    ensures
        white == white_space(character),
{
    let code: u32 = character as u32;
    (0x09 <= code && code <= 0x0D) || code == 0x20 || code == 0x85 || code == 0xA0 || code
        == 0x1680 || (0x2000 <= code && code <= 0x200A) || code == 0x2028 || code == 0x2029 || code
        == 0x202F || code == 0x205F || code == 0x3000
}

/// Where the word that reaches to `from` ends: the first white space from there on, or the end.
pub open spec fn word_end(text: Seq<char>, from: int) -> int
    decreases text.len() - from,
{
    if from >= text.len() || white_space(text[from]) {
        from
    } else {
        word_end(text, from + 1)
    }
}

/// A word ends within its text, and behind its first character.
pub proof fn word_end_is_bounded(text: Seq<char>, from: int)
    requires
        0 <= from <= text.len(),
    ensures
        from <= word_end(text, from) <= text.len(),
        from < text.len() && !white_space(text[from]) ==> from < word_end(text, from),
    decreases text.len() - from,
{
    if from < text.len() && !white_space(text[from]) {
        word_end_is_bounded(text, from + 1);
    }
}

/// The words of a text from a position on: its maximal runs without white space.
pub open spec fn words_from(text: Seq<char>, from: int) -> Seq<Seq<char>>
    decreases text.len() - from,
{
    if from < 0 || from >= text.len() {
        Seq::empty()
    } else if white_space(text[from]) {
        words_from(text, from + 1)
    } else {
        proof {
            word_end_is_bounded(text, from);
        }
        let end = word_end(text, from);
        seq![text.subrange(from, end)] + words_from(text, end)
    }
}

/// The words of a text.
pub open spec fn words(text: Seq<char>) -> Seq<Seq<char>> {
    words_from(text, 0)
}

/// The texts that a list of character lists holds.
pub open spec fn texts(lists: Seq<Vec<char>>) -> Seq<Seq<char>> {
    lists.map_values(|list: Vec<char>| list@)
}

/// A word is not empty and holds no white space.
pub proof fn words_hold_no_white_space(text: Seq<char>, from: int, word: int)
    requires
        0 <= from <= text.len(),
        0 <= word < words_from(text, from).len(),
    ensures
        words_from(text, from)[word].len() > 0,
        forall|i: int|
            0 <= i < words_from(text, from)[word].len() ==> !white_space(
                #[trigger] words_from(text, from)[word][i],
            ),
    decreases text.len() - from,
{
    if white_space(text[from]) {
        words_hold_no_white_space(text, from + 1, word);
    } else {
        word_end_is_bounded(text, from);
        let end = word_end(text, from);
        if word > 0 {
            words_hold_no_white_space(text, end, word - 1);
            assert(words_from(text, from)[word] == words_from(text, end)[word - 1]);
        } else {
            assert(words_from(text, from)[0] == text.subrange(from, end));
            no_white_space_before_word_end(text, from);
        }
    }
}

proof fn no_white_space_before_word_end(text: Seq<char>, from: int)
    requires
        0 <= from <= text.len(),
    ensures
        forall|i: int| from <= i < word_end(text, from) ==> !white_space(#[trigger] text[i]),
    decreases text.len() - from,
{
    if from < text.len() && !white_space(text[from]) {
        no_white_space_before_word_end(text, from + 1);
    }
}

/// Splits a text into its words.
pub fn split_words(text: &[char]) -> (list: Vec<Vec<char>>)
    ensures
        texts(list@) == words(text@),
        list@.len() == words(text@).len(),
        forall|i: int| 0 <= i < list@.len() ==> #[trigger] list@[i]@ == words(text@)[i],
{
    let mut list: Vec<Vec<char>> = Vec::new();
    let mut i: usize = 0;
    while i < text.len()
        invariant
            i <= text.len(),
            texts(list@) + words_from(text@, i as int) =~= words(text@),
        decreases text.len() - i,
    {
        if is_white_space(text[i]) {
            i += 1;
        } else {
            let start: usize = i;
            let ghost before = texts(list@);
            let mut word: Vec<char> = Vec::new();
            while i < text.len() && !is_white_space(text[i])
                invariant
                    start <= i <= text.len(),
                    word@ =~= text@.subrange(start as int, i as int),
                    word_end(text@, i as int) == word_end(text@, start as int),
                decreases text.len() - i,
            {
                word.push(text[i]);
                i += 1;
            }
            list.push(word);
            proof {
                assert(texts(list@) =~= before.push(word@));
                assert(before.push(word@) + words_from(text@, i as int) =~= before + (seq![word@]
                    + words_from(text@, i as int)));
            }
        }
    }
    assert forall|k: int| 0 <= k < list@.len() implies #[trigger] list@[k]@ == words(text@)[k] by {
        assert(texts(list@)[k] == list@[k]@);
    }
    list
}

/// `part` stands in `whole` at the position `at`.
pub open spec fn occurs_at(whole: Seq<char>, part: Seq<char>, at: int) -> bool {
    &&& 0 <= at
    &&& at + part.len() <= whole.len()
    &&& whole.subrange(at, at + part.len()) == part
}

/// `part` stands somewhere in `whole`.
pub open spec fn contains_text(whole: Seq<char>, part: Seq<char>) -> bool {
    exists|at: int| occurs_at(whole, part, at)
}

/// Whether `part` stands in `whole` at the position `at`.
pub fn text_occurs_at(whole: &[char], part: &[char], at: usize) -> (found: bool)
    ensures
        found == occurs_at(whole@, part@, at as int),
{
    if at > whole.len() || part.len() > whole.len() - at {
        return false;
    }
    let mut i: usize = 0;
    while i < part.len()
        invariant
            i <= part.len(),
            at + part.len() <= whole.len(),
            forall|k: int| 0 <= k < i ==> whole[at + k] == part[k],
        decreases part.len() - i,
    {
        if whole[at + i] != part[i] {
            assert(whole@.subrange(at as int, at + part.len())[i as int] != part[i as int]);
            return false;
        }
        i += 1;
    }
    assert(whole@.subrange(at as int, at + part.len()) =~= part@);
    true
}

/// The first position from `from` on at which `part` stands in `whole`.
pub fn find_text(whole: &[char], part: &[char], from: usize) -> (found: Option<usize>)
    ensures
        match found {
            Some(at) => from <= at && occurs_at(whole@, part@, at as int) && (forall|i: int|
                from <= i < at ==> !#[trigger] occurs_at(whole@, part@, i)),
            None => forall|i: int| from <= i ==> !#[trigger] occurs_at(whole@, part@, i),
        },
{
    let mut at: usize = from;
    while at <= whole.len()
        invariant
            from <= at,
            forall|i: int| from <= i < at ==> !#[trigger] occurs_at(whole@, part@, i),
        decreases whole.len() + 1 - at,
    {
        if text_occurs_at(whole, part, at) {
            return Some(at);
        }
        if at == whole.len() {
            return None;
        }
        at += 1;
    }
    None
}

/// Whether `part` stands somewhere in `whole`.
pub fn has_text(whole: &[char], part: &[char]) -> (found: bool)
    ensures
        found == contains_text(whole@, part@),
{
    find_text(whole, part, 0).is_some()
}

/// The decimal digit of a number below ten.
pub open spec fn digit(value: int) -> char {
    (('0' as u32 as int) + value) as char
}

/// A number in decimal digits.
pub open spec fn decimal(value: nat) -> Seq<char>
    decreases value,
{
    if value < 10 {
        seq![digit(value as int)]
    } else {
        decimal(value / 10).push(digit((value % 10) as int))
    }
}

/// An integer in decimal digits, with a sign where it is negative.
pub open spec fn signed_decimal(value: int) -> Seq<char> {
    if value < 0 {
        seq!['-'] + decimal((-value) as nat)
    } else {
        decimal(value as nat)
    }
}

fn digit_of(value: u64) -> (character: char)
    requires
        value < 10,
    ensures
        character == digit(value as int),
{
    match value {
        0 => '0',
        1 => '1',
        2 => '2',
        3 => '3',
        4 => '4',
        5 => '5',
        6 => '6',
        7 => '7',
        8 => '8',
        _ => '9',
    }
}

/// Renders a number in decimal.
pub fn render(value: u64) -> (text: String)
    ensures
        text@ == decimal(value as nat),
    decreases value,
{
    if value < 10 {
        let mut text = String::new();
        text.push(digit_of(value));
        assert(text@ =~= seq![digit(value as int)]);
        text
    } else {
        let mut text = render(value / 10);
        text.push(digit_of(value % 10));
        text
    }
}

/// Renders a signed number in decimal.
pub fn render_signed(value: i64) -> (text: String)
    ensures
        text@ == signed_decimal(value as int),
{
    if value < 0 {
        let magnitude: u64 = if value == i64::MIN {
            0x8000_0000_0000_0000
        } else {
            (-value) as u64
        };
        let digits = render(magnitude);
        let mut text = String::new();
        text.push('-');
        text.append(digits.as_str());
        assert(text@ =~= seq!['-'] + digits@);
        text
    } else {
        render(value as u64)
    }
}

/// Texts compare at their first difference: behind a common beginning the smaller character comes
/// first, and a text comes before any that goes on behind it.
pub proof fn texts_compare_at_their_first_difference(
    common: Seq<char>,
    left: char,
    left_rest: Seq<char>,
    right: char,
    right_rest: Seq<char>,
)
    ensures
        (left as u32) < (right as u32) ==> text_order(
            common.push(left) + left_rest,
            common.push(right) + right_rest,
        ) == Order::Less,
        (left as u32) > (right as u32) ==> text_order(
            common.push(left) + left_rest,
            common.push(right) + right_rest,
        ) == Order::Greater,
        text_order(common, common.push(right) + right_rest) == Order::Less,
        text_order(common.push(left) + left_rest, common) == Order::Greater,
        text_order(common, common) == Order::Equal,
{
    let one = common.push(left) + left_rest;
    let two = common.push(right) + right_rest;
    let at = common.len() as int;
    assert(one[at] == left && two[at] == right);
    assert forall|i: int| 0 <= i < at implies one[i] == two[i] && one[i] == common[i] by {}
    if (left as u32) < (right as u32) {
        assert(precedes_at(one, two, at));
    }
    if (left as u32) > (right as u32) {
        assert(precedes_at(two, one, at));
        text_order_is_antisymmetric(one, two);
    }
    assert(precedes_at(common, two, at));
    assert(precedes_at(common, one, at));
    assert(common.len() != two.len() && common.len() != one.len());
    text_order_is_antisymmetric(common, one);
}

/// A text can be cut into what comes before a part, the part and what comes behind it.
pub open spec fn can_be_cut_around(whole: Seq<char>, part: Seq<char>) -> bool {
    exists|before: Seq<char>, behind: Seq<char>| whole == #[trigger] (before + part + behind)
}

/// A text goes on behind a beginning.
pub open spec fn goes_on_behind(whole: Seq<char>, beginning: Seq<char>) -> bool {
    exists|behind: Seq<char>| whole == #[trigger] (beginning + behind)
}

/// A text occurs at the start of another exactly where the other goes on behind it.
pub proof fn beginnings_are_gone_on_behind(whole: Seq<char>, beginning: Seq<char>)
    ensures
        occurs_at(whole, beginning, 0) <==> goes_on_behind(whole, beginning),
{
    if occurs_at(whole, beginning, 0) {
        let behind = whole.skip(beginning.len() as int);
        assert(whole =~= whole.subrange(0, beginning.len() as int) + behind);
        assert(whole == beginning + behind);
    }
    if goes_on_behind(whole, beginning) {
        let behind = choose|behind: Seq<char>| whole == #[trigger] (beginning + behind);
        assert(whole.subrange(0, beginning.len() as int) =~= beginning);
    }
}

/// A text stands in another exactly where the other can be cut into what comes before it, the text
/// itself and what comes behind it.
pub proof fn text_stands_where_the_whole_can_be_cut(whole: Seq<char>, part: Seq<char>)
    ensures
        contains_text(whole, part) <==> can_be_cut_around(whole, part),
{
    if contains_text(whole, part) {
        let at = choose|at: int| occurs_at(whole, part, at);
        let before = whole.take(at);
        let behind = whole.skip(at + part.len());
        assert(whole =~= before + whole.subrange(at, at + part.len()) + behind);
        assert(whole == before + part + behind);
    }
    if can_be_cut_around(whole, part) {
        let (before, behind) = choose|before: Seq<char>, behind: Seq<char>|
            whole == #[trigger] (before + part + behind);
        let at = before.len() as int;
        assert(whole.subrange(at, at + part.len()) =~= part);
        assert(occurs_at(whole, part, at));
    }
}

/// The words of a text without its first characters are those from there on.
proof fn words_from_a_suffix(text: Seq<char>, start: int, from: int)
    requires
        0 <= start <= text.len(),
        0 <= from <= text.len() - start,
    ensures
        word_end(text, start + from) == start + word_end(text.skip(start), from),
        words_from(text, start + from) == words_from(text.skip(start), from),
    decreases text.len() - start - from,
{
    let rest = text.skip(start);
    if from < rest.len() {
        assert(rest[from] == text[start + from]);
        words_from_a_suffix(text, start, from + 1);
        if !white_space(rest[from]) {
            word_end_is_bounded(rest, from);
            let end = word_end(rest, from);
            words_from_a_suffix(text, start, end);
            assert(text.subrange(start + from, start + end) =~= rest.subrange(from, end));
        }
    }
}

/// A word ends at the first white space behind it.
proof fn word_end_is_the_first_white_space(text: Seq<char>, from: int, end: int)
    requires
        0 <= from <= end <= text.len(),
        forall|i: int| from <= i < end ==> !white_space(#[trigger] text[i]),
        end < text.len() ==> white_space(text[end]),
    ensures
        word_end(text, from) == end,
    decreases end - from,
{
    if from < end {
        assert(!white_space(text[from]));
        word_end_is_the_first_white_space(text, from + 1, end);
    }
}

/// White space separates words: the words of two texts with white space between them are the words
/// of the one and then the words of the other.
pub proof fn words_part_at_white_space(left: Seq<char>, space: char, right: Seq<char>)
    requires
        white_space(space),
    ensures
        words(left.push(space) + right) == words(left) + words(right),
    decreases left.len(),
{
    let whole = left.push(space) + right;
    let tail_at = left.len() + 1;
    if left.len() == 0 {
        assert(whole[0] == space);
        assert(whole.skip(1) =~= right);
        words_from_a_suffix(whole, 1, 0);
        assert(words(left) =~= Seq::<Seq<char>>::empty());
        assert(words(whole) =~= words(left) + words(right));
    } else if white_space(left[0]) {
        let rest = left.drop_first();
        assert(whole[0] == left[0]);
        assert(whole.skip(1) =~= rest.push(space) + right);
        assert(left.skip(1) =~= rest);
        words_from_a_suffix(whole, 1, 0);
        words_from_a_suffix(left, 1, 0);
        words_part_at_white_space(rest, space, right);
    } else {
        word_end_is_bounded(left, 0);
        let end = word_end(left, 0);
        no_white_space_before_word_end(left, 0);
        word_stops(left, 0);
        assert forall|i: int| 0 <= i < end implies !white_space(#[trigger] whole[i]) by {
            assert(whole[i] == left[i]);
        }
        assert(white_space(whole[end])) by {
            if end < left.len() {
                assert(whole[end] == left[end]);
            } else {
                assert(whole[end] == space);
            }
        }
        word_end_is_the_first_white_space(whole, 0, end);
        assert(whole[0] == left[0]);
        assert(whole.subrange(0, end) =~= left.subrange(0, end));
        let rest = left.skip(end);
        assert(whole.skip(end) =~= rest.push(space) + right);
        words_from_a_suffix(whole, end, 0);
        words_from_a_suffix(left, end, 0);
        words_part_at_white_space(rest, space, right);
        let first = seq![left.subrange(0, end)];
        assert(words(whole) == first + words(rest.push(space) + right));
        assert(words(left) == first + words(rest));
        assert(first + (words(rest) + words(right)) =~= first + words(rest) + words(right));
    }
}

proof fn word_stops(text: Seq<char>, from: int)
    requires
        0 <= from <= text.len(),
    ensures
        word_end(text, from) < text.len() ==> white_space(text[word_end(text, from)]),
    decreases text.len() - from,
{
    if from < text.len() && !white_space(text[from]) {
        word_stops(text, from + 1);
    }
}

/// A text without white space is one word, and the empty text has none.
pub proof fn text_without_white_space_is_one_word(text: Seq<char>)
    requires
        forall|i: int| 0 <= i < text.len() ==> !white_space(#[trigger] text[i]),
    ensures
        text.len() > 0 ==> words(text) == seq![text],
        text.len() == 0 ==> words(text) == Seq::<Seq<char>>::empty(),
{
    if text.len() > 0 {
        let end = text.len() as int;
        word_end_is_the_first_white_space(text, 0, end);
        assert(text.subrange(0, end) =~= text);
        assert(words_from(text, end) =~= Seq::<Seq<char>>::empty());
        assert(words(text) =~= seq![text]);
    } else {
        assert(words(text) =~= Seq::<Seq<char>>::empty());
    }
}

/// Every maximal run without white space is one of the words.
pub proof fn maximal_runs_are_words(text: Seq<char>, from: int, to: int)
    requires
        0 <= from < to <= text.len(),
        forall|i: int| from <= i < to ==> !white_space(#[trigger] text[i]),
        from == 0 || white_space(text[from - 1]),
        to == text.len() || white_space(text[to]),
    ensures
        words(text).contains(text.subrange(from, to)),
{
    let run = text.subrange(from, to);
    assert forall|i: int| 0 <= i < run.len() implies !white_space(#[trigger] run[i]) by {
        assert(run[i] == text[from + i]);
    }
    text_without_white_space_is_one_word(run);
    let rest = text.skip(from);
    if to < text.len() {
        let behind = text.skip(to + 1);
        assert(rest =~= run.push(text[to]) + behind);
        words_part_at_white_space(run, text[to], behind);
        assert(words(rest)[0] == run);
    } else {
        assert(rest =~= run);
        assert(words(rest)[0] == run);
    }
    if from > 0 {
        let before = text.take(from - 1);
        assert(text =~= before.push(text[from - 1]) + rest);
        words_part_at_white_space(before, text[from - 1], rest);
        assert(words(text)[words(before).len() as int] == words(rest)[0]);
    } else {
        assert(rest =~= text);
    }
}

/// The words of a text cover it: one behind the other they are the text without its white space.
pub proof fn words_cover_their_text(text: Seq<char>)
    ensures
        words(text).flatten() == text.filter(|character: char| !white_space(character)),
{
    words_from_cover(text, 0);
    assert(text.skip(0) =~= text);
}

proof fn words_from_cover(text: Seq<char>, from: int)
    requires
        0 <= from <= text.len(),
    ensures
        words_from(text, from).flatten() == text.skip(from).filter(
            |character: char| !white_space(character),
        ),
    decreases text.len() - from,
{
    let black = |character: char| !white_space(character);
    let rest = text.skip(from);
    if from == text.len() {
        reveal(Seq::filter);
        assert(rest =~= Seq::<char>::empty());
        assert(words_from(text, from) =~= Seq::<Seq<char>>::empty());
        assert(rest.filter(black) =~= Seq::<char>::empty());
    } else if white_space(text[from]) {
        words_from_cover(text, from + 1);
        assert(rest =~= seq![text[from]] + text.skip(from + 1));
        Seq::filter_distributes_over_add(seq![text[from]], text.skip(from + 1), black);
        filter_of_one(text[from]);
        assert(rest.filter(black) =~= text.skip(from + 1).filter(black));
    } else {
        word_end_is_bounded(text, from);
        let end = word_end(text, from);
        no_white_space_before_word_end(text, from);
        words_from_cover(text, end);
        let word = text.subrange(from, end);
        assert(rest =~= word + text.skip(end));
        Seq::filter_distributes_over_add(word, text.skip(end), black);
        assert forall|i: int| 0 <= i < word.len() implies !white_space(#[trigger] word[i]) by {
            assert(word[i] == text[from + i]);
        }
        filter_keeps_all(word);
        let list = words_from(text, from);
        assert(list.first() == word);
        assert(list.drop_first() =~= words_from(text, end));
        assert(list.flatten() =~= word + words_from(text, end).flatten());
    }
}

proof fn filter_of_one(character: char)
    ensures
        white_space(character) ==> seq![character].filter(|c: char| !white_space(c)) == Seq::<
            char,
        >::empty(),
        !white_space(character) ==> seq![character].filter(|c: char| !white_space(c))
            == seq![character],
{
    reveal(Seq::filter);
    let one = seq![character];
    assert(one.drop_last() =~= Seq::<char>::empty());
    assert(one.drop_last().filter(|c: char| !white_space(c)) =~= Seq::<char>::empty());
    assert(one.last() == character);
    assert(Seq::<char>::empty().push(character) =~= one);
}

proof fn filter_keeps_all(text: Seq<char>)
    requires
        forall|i: int| 0 <= i < text.len() ==> !white_space(#[trigger] text[i]),
    ensures
        text.filter(|c: char| !white_space(c)) == text,
    decreases text.len(),
{
    reveal(Seq::filter);
    if text.len() > 0 {
        let rest = text.drop_last();
        assert forall|i: int| 0 <= i < rest.len() implies !white_space(#[trigger] rest[i]) by {
            assert(rest[i] == text[i]);
        }
        filter_keeps_all(rest);
        assert(!white_space(text[text.len() - 1]));
        assert(rest.push(text.last()) =~= text);
    } else {
        assert(text.filter(|c: char| !white_space(c)) =~= text);
    }
}

/// The number that some decimal digits stand for.
pub open spec fn number_of(digits: Seq<char>) -> nat
    decreases digits.len(),
{
    if digits.len() == 0 {
        0
    } else {
        number_of(digits.drop_last()) * 10 + (digits.last() as u32 - '0' as u32) as nat
    }
}

/// A rendered number reads as that number: it is made of the ten digits, stands for the number and
/// starts with a zero only where it is zero.
pub proof fn rendered_numbers_read_back(value: nat)
    ensures
        decimal(value).len() > 0,
        forall|i: int|
            0 <= i < decimal(value).len() ==> '0' as u32 <= #[trigger] decimal(value)[i] as u32
                && decimal(value)[i] as u32 <= '9' as u32,
        number_of(decimal(value)) == value,
        value > 0 ==> decimal(value)[0] != '0',
    decreases value,
{
    let all = decimal(value);
    if value < 10 {
        assert(all.drop_last() =~= Seq::<char>::empty());
        assert(number_of(all.drop_last()) == 0);
        assert(all.last() as u32 == '0' as u32 + value);
    } else {
        rendered_numbers_read_back(value / 10);
        let rest = decimal(value / 10);
        assert(all.drop_last() =~= rest);
        assert(all.last() as u32 == '0' as u32 + value % 10);
        assert(all[0] == rest[0]);
        assert forall|i: int| 0 <= i < all.len() implies '0' as u32 <= #[trigger] all[i] as u32
            && all[i] as u32 <= '9' as u32 by {
            if i < rest.len() {
                assert(all[i] == rest[i]);
            }
        }
    }
}

/// A rendered integer is the number of its size, behind a sign exactly where it is negative.
pub proof fn rendered_integers_read_back(value: int)
    ensures
        value >= 0 ==> number_of(signed_decimal(value)) == value && signed_decimal(value)[0] != '-',
        value < 0 ==> signed_decimal(value)[0] == '-' && number_of(signed_decimal(value).skip(1))
            == -value,
{
    if value < 0 {
        rendered_numbers_read_back((-value) as nat);
        assert(signed_decimal(value).skip(1) =~= decimal((-value) as nat));
    } else {
        rendered_numbers_read_back(value as nat);
    }
}

/// White space are the control characters from the tab to the carriage return and the one for the
/// next line, the space, and the spaces and separators of Unicode; every other character is none.
pub proof fn white_space_is_told_from_other_characters(character: char)
    ensures
        white_space('\t') && white_space('\n') && white_space('\u{b}') && white_space('\u{c}')
            && white_space('\r') && white_space(' '),
        white_space('\u{85}') && white_space('\u{a0}') && white_space('\u{1680}'),
        '\u{2000}' <= character <= '\u{200a}' ==> white_space(character),
        white_space('\u{2028}') && white_space('\u{2029}') && white_space('\u{202f}')
            && white_space('\u{205f}') && white_space('\u{3000}'),
        character < '\t' ==> !white_space(character),
        '\r' < character < ' ' ==> !white_space(character),
        ' ' < character < '\u{85}' ==> !white_space(character),
        '\u{85}' < character < '\u{a0}' ==> !white_space(character),
        '\u{a0}' < character < '\u{1680}' ==> !white_space(character),
        '\u{1680}' < character < '\u{2000}' ==> !white_space(character),
        '\u{200a}' < character < '\u{2028}' ==> !white_space(character),
        '\u{2029}' < character < '\u{202f}' ==> !white_space(character),
        '\u{202f}' < character < '\u{205f}' ==> !white_space(character),
        '\u{205f}' < character < '\u{3000}' ==> !white_space(character),
        '\u{3000}' < character ==> !white_space(character),
{
}

} // verus!
