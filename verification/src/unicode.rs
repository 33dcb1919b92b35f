//! The form in which names, paths and queries are compared.

use unicode_casefold::UnicodeCaseFold;
use unicode_normalization::char::is_combining_mark;
use unicode_normalization::UnicodeNormalization;
use vstd::prelude::*;

use crate::text::chars_of;

verus! {

/// What full, locale-independent Unicode case folding makes of a text.
pub uninterp spec fn case_folding(text: Seq<char>) -> Seq<char>;

/// The Unicode Normalization Form D of a text.
pub uninterp spec fn canonical_decomposition(text: Seq<char>) -> Seq<char>;

/// Whether a character is a combining mark, that is of one of the general categories Mn, Mc and
/// Me.
pub uninterp spec fn combining_mark(character: char) -> bool;

/// Every character of a text is one of the 128 of ASCII.
pub open spec fn ascii(text: Seq<char>) -> bool {
    forall|i: int| 0 <= i < text.len() ==> (#[trigger] text[i] as u32) < 0x80
}

/// A character with `A` to `Z` replaced by `a` to `z`.
pub open spec fn ascii_lower(character: char) -> char {
    if 0x41 <= character as u32 <= 0x5A {
        (character as u32 + 0x20) as char
    } else {
        character
    }
}

/// A text with `A` to `Z` replaced by `a` to `z`.
pub open spec fn ascii_lower_text(text: Seq<char>) -> Seq<char> {
    text.map_values(|character: char| ascii_lower(character))
}

/// `unicode_casefold::UnicodeCaseFold::case_fold` folds a text by the tables of that crate, which
/// replace the letters `A` to `Z` by `a` to `z` and hold no other ASCII character.
#[verifier::external_body]
fn fold_case(text: &str) -> (folded: String)
    ensures
        folded@ == case_folding(text@),
        ascii(text@) ==> folded@ == ascii_lower_text(text@),
{
    text.case_fold().collect()
}

/// `unicode_normalization::UnicodeNormalization::nfd` decomposes a text canonically, which leaves
/// ASCII characters as they are.
#[verifier::external_body]
fn decompose(text: &str) -> (decomposed: String)
    ensures
        decomposed@ == canonical_decomposition(text@),
        ascii(text@) ==> decomposed@ == text@,
{
    text.nfd().collect()
}

/// `unicode_normalization::char::is_combining_mark` looks a character up among the combining
/// marks, none of which is an ASCII character.
pub assume_specification[ unicode_normalization::char::is_combining_mark ](c: char) -> (mark: bool)
    ensures
        mark == combining_mark(c),
        (c as u32) < 0x80 ==> !mark,
;

/// `std::str::from_utf8` accepts exactly the byte sequences that are UTF-8, and reads them.
#[verifier::external_body]
pub(crate) fn utf8_text(bytes: &[u8]) -> (text: Option<&str>)
    ensures
        text is Some <==> vstd::utf8::valid_utf8(bytes@),
        text matches Some(value) ==> value@ == vstd::utf8::decode_utf8(bytes@),
{
    std::str::from_utf8(bytes).ok()
}

/// The Latin letters of ASCII, of Latin-1, of Latin Extended-A and B, of the phonetic alphabet with
/// its modifiers, and of Latin Extended Additional. The signs for multiplication and division,
/// which stand among the letters of Latin-1, are none.
pub open spec fn common_latin(code: u32) -> bool {
    ||| 0x41 <= code <= 0x5A
    ||| 0x61 <= code <= 0x7A
    ||| code == 0xAA
    ||| code == 0xBA
    ||| 0xC0 <= code <= 0xD6
    ||| 0xD8 <= code <= 0xF6
    ||| 0xF8 <= code <= 0x2B8
    ||| 0x2E0 <= code <= 0x2E4
    ||| 0x1E00 <= code <= 0x1EFF
}

/// The Latin letters of the other blocks: phonetic extensions, superscripts and subscripts,
/// letterlike symbols, turned numerals, Latin Extended-C to G, ligatures and full width forms.
/// The Greek and Cyrillic letters among the phonetic extensions are none.
pub open spec fn rare_latin(code: u32) -> bool {
    ||| 0x1D00 <= code <= 0x1D25
    ||| 0x1D2C <= code <= 0x1D5C
    ||| 0x1D62 <= code <= 0x1D65
    ||| 0x1D6B <= code <= 0x1D77
    ||| 0x1D79 <= code <= 0x1DBE
    ||| code == 0x2071
    ||| code == 0x207F
    ||| 0x2090 <= code <= 0x209C
    ||| 0x212A <= code <= 0x212B
    ||| code == 0x2132
    ||| code == 0x214E
    ||| 0x2183 <= code <= 0x2184
    ||| 0x2C60 <= code <= 0x2C7F
    ||| 0xA722 <= code <= 0xA787
    ||| 0xA78B <= code <= 0xA7FF
    ||| 0xAB30 <= code <= 0xAB5A
    ||| 0xAB5C <= code <= 0xAB64
    ||| 0xAB66 <= code <= 0xAB69
    ||| 0xFB00 <= code <= 0xFB06
    ||| 0xFF21 <= code <= 0xFF3A
    ||| 0xFF41 <= code <= 0xFF5A
    ||| 0x10780 <= code <= 0x107BF
    ||| 0x1DF00 <= code <= 0x1DFFF
}

/// The characters that count as Latin: the letters of the Latin script.
pub open spec fn latin(character: char) -> bool {
    common_latin(character as u32) || rare_latin(character as u32)
}

/// Tells whether a character counts as Latin.
pub fn is_latin(character: char) -> (result: bool)
    ensures
        result == latin(character),
{
    let code: u32 = character as u32;
    is_common_latin(code) || is_rare_latin(code)
}

fn is_common_latin(code: u32) -> (result: bool)
    ensures
        result == common_latin(code),
{
    (0x41 <= code && code <= 0x5A)
        || (0x61 <= code && code <= 0x7A)
        || code == 0xAA
        || code == 0xBA
        || (0xC0 <= code && code <= 0xD6)
        || (0xD8 <= code && code <= 0xF6)
        || (0xF8 <= code && code <= 0x2B8)
        || (0x2E0 <= code && code <= 0x2E4)
        || (0x1E00 <= code && code <= 0x1EFF)
}

fn is_rare_latin(code: u32) -> (result: bool)
    ensures
        result == rare_latin(code),
{
    (0x1D00 <= code && code <= 0x1D25)
        || (0x1D2C <= code && code <= 0x1D5C)
        || (0x1D62 <= code && code <= 0x1D65)
        || (0x1D6B <= code && code <= 0x1D77)
        || (0x1D79 <= code && code <= 0x1DBE)
        || code == 0x2071
        || code == 0x207F
        || (0x2090 <= code && code <= 0x209C)
        || (0x212A <= code && code <= 0x212B)
        || code == 0x2132
        || code == 0x214E
        || (0x2183 <= code && code <= 0x2184)
        || (0x2C60 <= code && code <= 0x2C7F)
        || (0xA722 <= code && code <= 0xA787)
        || (0xA78B <= code && code <= 0xA7FF)
        || (0xAB30 <= code && code <= 0xAB5A)
        || (0xAB5C <= code && code <= 0xAB64)
        || (0xAB66 <= code && code <= 0xAB69)
        || (0xFB00 <= code && code <= 0xFB06)
        || (0xFF21 <= code && code <= 0xFF3A)
        || (0xFF41 <= code && code <= 0xFF5A)
        || (0x10780 <= code && code <= 0x107BF)
        || (0x1DF00 <= code && code <= 0x1DFFF)
}

/// Whether the nearest character before `at` that is no mark counts as Latin.
pub open spec fn latin_base_before(text: Seq<char>, marks: Seq<bool>, at: int) -> bool
    decreases at,
{
    if at <= 0 {
        false
    } else if marks[at - 1] {
        latin_base_before(text, marks, at - 1)
    } else {
        latin(text[at - 1])
    }
}

/// The first `until` characters of a text without the marks on Latin characters.
pub open spec fn stripped(text: Seq<char>, marks: Seq<bool>, until: int) -> Seq<char>
    decreases until,
{
    if until <= 0 {
        Seq::empty()
    } else if marks[until - 1] && latin_base_before(text, marks, until - 1) {
        stripped(text, marks, until - 1)
    } else {
        stripped(text, marks, until - 1).push(text[until - 1])
    }
}

/// Which characters of a text are combining marks.
pub open spec fn marks_of(text: Seq<char>) -> Seq<bool> {
    text.map_values(|character: char| combining_mark(character))
}

/// The form of a text in which it is compared: case folded, canonically decomposed, and without
/// the combining marks on Latin characters.
pub open spec fn normalized(text: Seq<char>) -> Seq<char> {
    let decomposed = canonical_decomposition(case_folding(text));
    stripped(decomposed, marks_of(decomposed), decomposed.len() as int)
}

/// Drops the marks that stand on Latin characters. `marks` tells for each character whether it
/// is a combining mark.
pub fn strip_latin_marks(text: &[char], marks: &[bool]) -> (result: String)
    requires
        text.len() == marks.len(),
    ensures
        result@ == stripped(text@, marks@, text.len() as int),
{
    let mut result = String::new();
    let mut latin_base = false;
    for i in 0..text.len()
        invariant
            text.len() == marks.len(),
            latin_base == latin_base_before(text@, marks@, i as int),
            result@ == stripped(text@, marks@, i as int),
    {
        if marks[i] {
            if !latin_base {
                result.push(text[i]);
            }
        } else {
            latin_base = is_latin(text[i]);
            result.push(text[i]);
        }
    }
    result
}

/// Brings a text into the form in which names, paths and queries are compared.
pub fn normalize_search_text(value: &str) -> (result: String)
    ensures
        result@ == normalized(value@),
        ascii(value@) ==> result@ == ascii_lower_text(value@),
{
    let folded = fold_case(value);
    let decomposed = decompose(folded.as_str());
    let text = chars_of(decomposed.as_str());
    let mut marks: Vec<bool> = Vec::new();
    for i in 0..text.len()
        invariant
            marks@ =~= marks_of(text@).take(i as int),
            ascii(text@) ==> forall|k: int| 0 <= k < i ==> !#[trigger] marks@[k],
    {
        marks.push(is_combining_mark(text[i]));
    }
    assert(marks@ =~= marks_of(text@));
    proof {
        if ascii(value@) {
            assert forall|i: int| 0 <= i < folded@.len() implies (#[trigger] folded@[i] as u32)
                < 0x80 by {
                lower_case_is_ascii(value@[i]);
            }
            stripping_keeps_text_without_marks(text@, marks@, text@.len() as int);
        }
    }
    strip_latin_marks(text.as_slice(), marks.as_slice())
}

proof fn lower_case_is_ascii(character: char)
    requires
        (character as u32) < 0x80,
    ensures
        (ascii_lower(character) as u32) < 0x80,
{
}

/// A text without combining marks loses nothing.
pub proof fn stripping_keeps_text_without_marks(text: Seq<char>, marks: Seq<bool>, until: int)
    requires
        0 <= until <= text.len(),
        marks.len() == text.len(),
        forall|i: int| 0 <= i < until ==> !#[trigger] marks[i],
    ensures
        stripped(text, marks, until) == text.take(until),
    decreases until,
{
    if until > 0 {
        stripping_keeps_text_without_marks(text, marks, until - 1);
        assert(text.take(until) =~= text.take(until - 1).push(text[until - 1]));
    } else {
        assert(text.take(0) =~= Seq::empty());
    }
}

/// A combining mark vanishes where the character that carries it counts as Latin, and stays on
/// every other character.
pub proof fn marks_vanish_on_latin_characters_only(text: Seq<char>, marks: Seq<bool>, at: int)
    requires
        marks.len() == text.len(),
        0 <= at < text.len(),
        marks[at],
    ensures
        latin_base_before(text, marks, at) ==> stripped(text, marks, at + 1) == stripped(
            text,
            marks,
            at,
        ),
        !latin_base_before(text, marks, at) ==> stripped(text, marks, at + 1) == stripped(
            text,
            marks,
            at,
        ).push(text[at]),
{
}

/// What is left of a text without its marks on Latin characters loses nothing more.
pub proof fn stripping_twice_changes_nothing(text: Seq<char>)
    ensures
        ({
            let once = stripped(text, marks_of(text), text.len() as int);
            stripped(once, marks_of(once), once.len() as int) == once
        }),
{
    stripping_twice_up_to(text, text.len() as int);
}

proof fn stripping_twice_up_to(text: Seq<char>, until: int)
    requires
        0 <= until <= text.len(),
    ensures
        ({
            let once = stripped(text, marks_of(text), until);
            &&& stripped(once, marks_of(once), once.len() as int) == once
            &&& latin_base_before(once, marks_of(once), once.len() as int) == latin_base_before(
                text,
                marks_of(text),
                until,
            )
        }),
    decreases until,
{
    let marks = marks_of(text);
    let once = stripped(text, marks, until);
    if until > 0 {
        let before = stripped(text, marks, until - 1);
        stripping_twice_up_to(text, until - 1);
        if !(marks[until - 1] && latin_base_before(text, marks, until - 1)) {
            assert(once.drop_last() =~= before);
            stripping_looks_back_only(once, before.len() as int);
        }
    }
}

/// What is left of the first characters of a text does not depend on the later ones.
proof fn stripping_looks_back_only(text: Seq<char>, until: int)
    requires
        0 <= until <= text.len(),
    ensures
        stripped(text, marks_of(text), until) == stripped(
            text.take(until),
            marks_of(text.take(until)),
            until,
        ),
        latin_base_before(text, marks_of(text), until) == latin_base_before(
            text.take(until),
            marks_of(text.take(until)),
            until,
        ),
    decreases until,
{
    if until > 0 {
        let part = text.take(until);
        stripping_looks_back_only(text, until - 1);
        stripping_looks_back_only(part, until - 1);
        assert(part.take(until - 1) =~= text.take(until - 1));
    }
}

/// Normalizing a text twice gives what normalizing it once gives, where case folding and
/// decomposition leave the normalized form as it is.
pub proof fn normalized_text_stays_normalized(text: Seq<char>)
    requires
        canonical_decomposition(case_folding(normalized(text))) == normalized(text),
    ensures
        normalized(normalized(text)) == normalized(text),
{
    stripping_twice_changes_nothing(canonical_decomposition(case_folding(text)));
}

/// Every letter from A to Z counts as Latin, large or small, and no other ASCII character does.
/// Behind these stand the accented letters of Western and Central European languages and of
/// Vietnamese. The letters of Greek, Cyrillic, Hebrew and Arabic do not count, nor do those of the
/// scripts of India and Eastern Asia.
pub proof fn latin_letters_are_told_from_others(character: char)
    ensures
        'a' <= character <= 'z' || 'A' <= character <= 'Z' ==> latin(character),
        (character as u32) < 0x80 && !('a' <= character <= 'z' || 'A' <= character <= 'Z')
            ==> !latin(character),
        0xC0 <= character as u32 <= 0x24F && character != '\u{d7}' && character != '\u{f7}'
            ==> latin(character),
        0x1E00 <= character as u32 <= 0x1EFF ==> latin(character),
        character == '\u{d7}' || character == '\u{f7}' ==> !latin(character),
        0x370 <= character as u32 <= 0x1CFF ==> !latin(character),
        0x1F00 <= character as u32 <= 0x206F ==> !latin(character),
        0x2E80 <= character as u32 <= 0xA71F ==> !latin(character),
        0xAC00 <= character as u32 <= 0xFAFF ==> !latin(character),
{
}

/// Behind a Latin character all marks vanish: what is left is the character alone.
pub proof fn latin_characters_lose_all_their_marks(base: char, accents: Seq<char>)
    requires
        latin(base),
        !combining_mark(base),
        forall|i: int| 0 <= i < accents.len() ==> combining_mark(#[trigger] accents[i]),
    ensures
        stripped(
            seq![base] + accents,
            marks_of(seq![base] + accents),
            1 + accents.len() as int,
        ) == seq![base],
{
    let text = seq![base] + accents;
    latin_run(text, text.len() as int);
}

proof fn latin_run(text: Seq<char>, until: int)
    requires
        1 <= until <= text.len(),
        latin(text[0]),
        !combining_mark(text[0]),
        forall|i: int| 0 < i < text.len() ==> combining_mark(#[trigger] text[i]),
    ensures
        stripped(text, marks_of(text), until) == seq![text[0]],
        latin_base_before(text, marks_of(text), until),
    decreases until,
{
    let marks = marks_of(text);
    if until > 1 {
        latin_run(text, until - 1);
        assert(marks[until - 1] == combining_mark(text[until - 1]));
    } else {
        assert(marks[0] == combining_mark(text[0]));
        assert(stripped(text, marks, 0) =~= Seq::<char>::empty());
        assert(stripped(text, marks, 1) =~= seq![text[0]]);
    }
}

/// Behind any other character every mark stays, and so do marks with nothing before them.
pub proof fn other_characters_keep_all_their_marks(text: Seq<char>)
    requires
        forall|i: int| 0 <= i < text.len() ==> combining_mark(#[trigger] text[i]) || !latin(text[i]),
    ensures
        stripped(text, marks_of(text), text.len() as int) == text,
{
    other_run(text, text.len() as int);
    assert(text.take(text.len() as int) =~= text);
}

proof fn other_run(text: Seq<char>, until: int)
    requires
        0 <= until <= text.len(),
        forall|i: int| 0 <= i < text.len() ==> combining_mark(#[trigger] text[i]) || !latin(text[i]),
    ensures
        stripped(text, marks_of(text), until) == text.take(until),
        !latin_base_before(text, marks_of(text), until),
    decreases until,
{
    let marks = marks_of(text);
    if until > 0 {
        other_run(text, until - 1);
        assert(marks[until - 1] == combining_mark(text[until - 1]));
        assert(text.take(until) =~= text.take(until - 1).push(text[until - 1]));
    } else {
        assert(text.take(0) =~= Seq::<char>::empty());
    }
}

/// Each character is stripped on its own: what is left of a text that goes on with a character that
/// is no mark is what is left of the text and then what is left from that character on.
pub proof fn characters_are_stripped_one_by_one(before: Seq<char>, base: char, behind: Seq<char>)
    requires
        !combining_mark(base),
    ensures
        ({
            let tail = seq![base] + behind;
            let whole = before + tail;
            stripped(whole, marks_of(whole), whole.len() as int) == stripped(
                before,
                marks_of(before),
                before.len() as int,
            ) + stripped(tail, marks_of(tail), tail.len() as int)
        }),
{
    let tail = seq![base] + behind;
    let whole = before + tail;
    stripped_in_two(before, tail, tail.len() as int);
}

proof fn stripped_in_two(before: Seq<char>, tail: Seq<char>, until: int)
    requires
        tail.len() > 0,
        !combining_mark(tail[0]),
        1 <= until <= tail.len(),
    ensures
        ({
            let whole = before + tail;
            &&& stripped(whole, marks_of(whole), before.len() + until) == stripped(
                before,
                marks_of(before),
                before.len() as int,
            ) + stripped(tail, marks_of(tail), until)
            &&& latin_base_before(whole, marks_of(whole), before.len() + until)
                == latin_base_before(tail, marks_of(tail), until)
        }),
    decreases until,
{
    let whole = before + tail;
    let at = before.len() + until - 1;
    let first = stripped(before, marks_of(before), before.len() as int);
    assert(whole[at] == tail[until - 1]);
    assert(marks_of(whole)[at] == marks_of(tail)[until - 1]);
    if until > 1 {
        stripped_in_two(before, tail, until - 1);
        let rest = stripped(tail, marks_of(tail), until - 1);
        assert(first + rest.push(tail[until - 1]) =~= (first + rest).push(tail[until - 1]));
    } else {
        stripping_looks_back_only(whole, before.len() as int);
        assert(whole.take(before.len() as int) =~= before);
        assert(!marks_of(tail)[0]);
        assert(stripped(tail, marks_of(tail), 0) =~= Seq::<char>::empty());
        assert(first + Seq::<char>::empty().push(tail[0]) =~= first.push(tail[0]));
    }
}

/// Texts that fold and decompose to the same text normalize alike. Where that text holds no Latin
/// character that is its normalized form; where it is one Latin character with marks, the
/// character alone is.
pub proof fn normalization_goes_by_what_folding_and_decomposition_leave(
    left: Seq<char>,
    right: Seq<char>,
    base: char,
    accents: Seq<char>,
)
    ensures
        canonical_decomposition(case_folding(left)) == canonical_decomposition(
            case_folding(right),
        ) ==> normalized(left) == normalized(right),
        (forall|i: int|
            0 <= i < canonical_decomposition(case_folding(left)).len() ==> combining_mark(
                #[trigger] canonical_decomposition(case_folding(left))[i],
            ) || !latin(canonical_decomposition(case_folding(left))[i])) ==> normalized(left)
            == canonical_decomposition(case_folding(left)),
        canonical_decomposition(case_folding(left)) == seq![base] + accents && latin(base)
            && !combining_mark(base) && (forall|i: int|
            0 <= i < accents.len() ==> combining_mark(#[trigger] accents[i])) ==> normalized(left)
            == seq![base],
{
    let decomposed = canonical_decomposition(case_folding(left));
    if forall|i: int|
        0 <= i < decomposed.len() ==> combining_mark(#[trigger] decomposed[i]) || !latin(
            decomposed[i],
        ) {
        other_characters_keep_all_their_marks(decomposed);
    }
    if decomposed == seq![base] + accents && latin(base) && !combining_mark(base) && (forall|i: int|
        0 <= i < accents.len() ==> combining_mark(#[trigger] accents[i])) {
        latin_characters_lose_all_their_marks(base, accents);
    }
}

/// The Latin letters come in these blocks, in the order of their code points, and what stands
/// between two of the blocks, before the first or behind the last is no Latin letter.
pub proof fn latin_letters_come_in_blocks(character: char)
    ensures
        character < 'A' ==> !latin(character),
        'A' <= character <= 'Z' ==> latin(character),
        'Z' < character < 'a' ==> !latin(character),
        'a' <= character <= 'z' ==> latin(character),
        'z' < character < '\u{aa}' ==> !latin(character),
        latin('\u{aa}'),
        '\u{aa}' < character < '\u{ba}' ==> !latin(character),
        latin('\u{ba}'),
        '\u{ba}' < character < '\u{c0}' ==> !latin(character),
        '\u{c0}' <= character <= '\u{d6}' ==> latin(character),
        '\u{d6}' < character < '\u{d8}' ==> !latin(character),
        '\u{d8}' <= character <= '\u{f6}' ==> latin(character),
        '\u{f6}' < character < '\u{f8}' ==> !latin(character),
        '\u{f8}' <= character <= '\u{2b8}' ==> latin(character),
        '\u{2b8}' < character < '\u{2e0}' ==> !latin(character),
        '\u{2e0}' <= character <= '\u{2e4}' ==> latin(character),
        '\u{2e4}' < character < '\u{1d00}' ==> !latin(character),
        '\u{1d00}' <= character <= '\u{1d25}' ==> latin(character),
        '\u{1d25}' < character < '\u{1d2c}' ==> !latin(character),
        '\u{1d2c}' <= character <= '\u{1d5c}' ==> latin(character),
        '\u{1d5c}' < character < '\u{1d62}' ==> !latin(character),
        '\u{1d62}' <= character <= '\u{1d65}' ==> latin(character),
        '\u{1d65}' < character < '\u{1d6b}' ==> !latin(character),
        '\u{1d6b}' <= character <= '\u{1d77}' ==> latin(character),
        '\u{1d77}' < character < '\u{1d79}' ==> !latin(character),
        '\u{1d79}' <= character <= '\u{1dbe}' ==> latin(character),
        '\u{1dbe}' < character < '\u{1e00}' ==> !latin(character),
        '\u{1e00}' <= character <= '\u{1eff}' ==> latin(character),
        '\u{1eff}' < character < '\u{2071}' ==> !latin(character),
        latin('\u{2071}'),
        '\u{2071}' < character < '\u{207f}' ==> !latin(character),
        latin('\u{207f}'),
        '\u{207f}' < character < '\u{2090}' ==> !latin(character),
        '\u{2090}' <= character <= '\u{209c}' ==> latin(character),
        '\u{209c}' < character < '\u{212a}' ==> !latin(character),
        '\u{212a}' <= character <= '\u{212b}' ==> latin(character),
        '\u{212b}' < character < '\u{2132}' ==> !latin(character),
        latin('\u{2132}'),
        '\u{2132}' < character < '\u{214e}' ==> !latin(character),
        latin('\u{214e}'),
        '\u{214e}' < character < '\u{2183}' ==> !latin(character),
        '\u{2183}' <= character <= '\u{2184}' ==> latin(character),
        '\u{2184}' < character < '\u{2c60}' ==> !latin(character),
        '\u{2c60}' <= character <= '\u{2c7f}' ==> latin(character),
        '\u{2c7f}' < character < '\u{a722}' ==> !latin(character),
        '\u{a722}' <= character <= '\u{a787}' ==> latin(character),
        '\u{a787}' < character < '\u{a78b}' ==> !latin(character),
        '\u{a78b}' <= character <= '\u{a7ff}' ==> latin(character),
        '\u{a7ff}' < character < '\u{ab30}' ==> !latin(character),
        '\u{ab30}' <= character <= '\u{ab5a}' ==> latin(character),
        '\u{ab5a}' < character < '\u{ab5c}' ==> !latin(character),
        '\u{ab5c}' <= character <= '\u{ab64}' ==> latin(character),
        '\u{ab64}' < character < '\u{ab66}' ==> !latin(character),
        '\u{ab66}' <= character <= '\u{ab69}' ==> latin(character),
        '\u{ab69}' < character < '\u{fb00}' ==> !latin(character),
        '\u{fb00}' <= character <= '\u{fb06}' ==> latin(character),
        '\u{fb06}' < character < '\u{ff21}' ==> !latin(character),
        '\u{ff21}' <= character <= '\u{ff3a}' ==> latin(character),
        '\u{ff3a}' < character < '\u{ff41}' ==> !latin(character),
        '\u{ff41}' <= character <= '\u{ff5a}' ==> latin(character),
        '\u{ff5a}' < character < '\u{10780}' ==> !latin(character),
        '\u{10780}' <= character <= '\u{107bf}' ==> latin(character),
        '\u{107bf}' < character < '\u{1df00}' ==> !latin(character),
        '\u{1df00}' <= character <= '\u{1dfff}' ==> latin(character),
        '\u{1dfff}' < character ==> !latin(character),
{
}

} // verus!
