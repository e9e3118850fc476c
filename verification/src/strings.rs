//! Colour codes, word casing and anagrams.

use crate::error::{Error, HexError};
use vstd::prelude::*;
use vstd::utf8::is_ascii_chars;

verus! {

/// `String::push` appends the character to the end of the string.
pub assume_specification[ String::push ](s: &mut String, ch: char)
    ensures
        final(s)@ == old(s)@.push(ch),
;

/// The characters of `s`, one by one.
fn chars_of(s: &str) -> (chars: Vec<char>)
    ensures
        chars@ == s@,
{
    let mut chars: Vec<char> = Vec::new();
    for c in it: s.chars()
        invariant
            it.seq() == s@,
            chars@ == s@.take(it.index() as int),
    {
        proof {
            assert(s@.take(it.index() + 1) =~= s@.take(it.index() as int).push(c));
        }
        chars.push(c);
    }
    proof {
        assert(s@.take(s@.len() as int) =~= s@);
    }
    chars
}

/// Whether `c` is one of `0`-`9`, `a`-`f` or `A`-`F`.
pub open spec fn is_hex_digit(c: char) -> bool {
    ('0' <= c <= '9') || ('a' <= c <= 'f') || ('A' <= c <= 'F')
}

/// The number from 0 to 15 that the hexadecimal digit `c` stands for.
pub open spec fn hex_value(c: char) -> int
    recommends
        is_hex_digit(c),
{
    if '0' <= c <= '9' {
        c as int - '0' as int
    } else if 'a' <= c <= 'f' {
        c as int - 'a' as int + 10
    } else {
        c as int - 'A' as int + 10
    }
}

/// The upper-case hexadecimal digit that stands for `v`.
pub open spec fn hex_digit(v: int) -> char
    recommends
        0 <= v < 16,
{
    if v < 10 {
        ('0' as int + v) as char
    } else {
        ('A' as int + v - 10) as char
    }
}

/// The number that the two digits `hi` and `lo` spell, `hi` being worth
/// sixteen times as much as `lo`.
pub open spec fn pair_value(hi: char, lo: char) -> int
    recommends
        is_hex_digit(hi),
        is_hex_digit(lo),
{
    16 * hex_value(hi) + hex_value(lo)
}

/// What `hex_to_rgb` makes of a code: the three colour components spelt by
/// its first six characters, or the reason why it has none.
pub open spec fn hex_rgb(s: Seq<char>) -> Result<Seq<i32>, HexError> {
    if s.len() < 6 {
        Err(HexError::TooShort)
    } else if exists|i: int| 0 <= i < 6 && !is_hex_digit(#[trigger] s[i]) {
        Err(HexError::InvalidDigit)
    } else {
        Ok(
            seq![
                pair_value(s[0], s[1]) as i32,
                pair_value(s[2], s[3]) as i32,
                pair_value(s[4], s[5]) as i32,
            ],
        )
    }
}

/// The value of one hexadecimal digit, or `None` for any other character.
fn digit_value(c: char) -> (v: Option<i32>)
    ensures
        v is Some <==> is_hex_digit(c),
        v matches Some(d) ==> d == hex_value(c),
{
    if '0' <= c && c <= '9' {
        Some(c as i32 - '0' as i32)
    } else if 'a' <= c && c <= 'f' {
        Some(c as i32 - 'a' as i32 + 10)
    } else if 'A' <= c && c <= 'F' {
        Some(c as i32 - 'A' as i32 + 10)
    } else {
        None
    }
}

/// Reads a colour code of six hexadecimal digits, such as `FFA501`, as its
/// red, green and blue components, each from 0 to 255.
///
/// Digits may be in either case. Characters after the sixth are not looked
/// at. A code shorter than six characters is refused as `TooShort`, and one
/// with anything but a hexadecimal digit among its first six characters as
/// `InvalidDigit`.
pub fn hex_to_rgb(hex: &str) -> (rgb: Result<Vec<i32>, HexError>)
    ensures
        hex_rgb(hex@) == match rgb {
            Ok(components) => Ok::<Seq<i32>, HexError>(components@),
            Err(e) => Err(e),
        },
{
    let chars = chars_of(hex);
    if chars.len() < 6 {
        return Err(HexError::TooShort);
    }
    let mut components: Vec<i32> = Vec::new();
    let mut k: usize = 0;
    while k < 3
        invariant
            k <= 3,
            chars@ == hex@,
            chars@.len() >= 6,
            components@.len() == k,
            forall|i: int| 0 <= i < 2 * k ==> is_hex_digit(#[trigger] hex@[i]),
            forall|j: int|
                0 <= j < k ==> #[trigger] components@[j] == pair_value(hex@[2 * j], hex@[2 * j + 1]),
        decreases 3 - k,
    {
        match (digit_value(chars[2 * k]), digit_value(chars[2 * k + 1])) {
            (Some(hi), Some(lo)) => {
                components.push(16 * hi + lo);
            },
            _ => {
                proof {
                    assert(!is_hex_digit(hex@[2 * k]) || !is_hex_digit(hex@[2 * k + 1]));
                }
                return Err(HexError::InvalidDigit);
            },
        }
        k = k + 1;
    }
    proof {
        assert(components@ =~= seq![
            pair_value(hex@[0], hex@[1]) as i32,
            pair_value(hex@[2], hex@[3]) as i32,
            pair_value(hex@[4], hex@[5]) as i32,
        ]);
    }
    Ok(components)
}

/// `v` held to the range of a colour component: values under 0 count as 0,
/// values over 255 as 255.
pub open spec fn clamp_byte(v: int) -> int {
    if v < 0 {
        0
    } else if v > 255 {
        255
    } else {
        v
    }
}

/// The two upper-case hexadecimal digits that spell `v`.
pub open spec fn hex_pair(v: int) -> Seq<char>
    recommends
        0 <= v <= 255,
{
    seq![hex_digit(v / 16), hex_digit(v % 16)]
}

/// What `rgb_to_hex` writes for the three components.
pub open spec fn rgb_hex(r: int, g: int, b: int) -> Seq<char> {
    hex_pair(clamp_byte(r)) + hex_pair(clamp_byte(g)) + hex_pair(clamp_byte(b))
}

/// The upper-case hexadecimal digit for a value under sixteen.
fn digit_for(v: u8) -> (c: char)
    requires
        v < 16,
    ensures
        c == hex_digit(v as int),
{
    if v < 10 {
        ('0' as u8 + v) as char
    } else {
        ('A' as u8 + (v - 10)) as char
    }
}

/// Appends the two digits of one colour component to `out`.
fn push_component(out: &mut String, v: i32)
    ensures
        final(out)@ == old(out)@ + hex_pair(clamp_byte(v as int)),
{
    let byte: u8 = if v < 0 {
        0
    } else if v > 255 {
        255
    } else {
        v as u8
    };
    out.push(digit_for(byte / 16));
    out.push(digit_for(byte % 16));
    proof {
        assert(final(out)@ =~= old(out)@ + hex_pair(clamp_byte(v as int)));
    }
}

/// Writes a colour as six upper-case hexadecimal digits, two for each of
/// red, green and blue.
///
/// A component outside 0 to 255 is written as the nearest value in that
/// range, so the result always has six characters.
pub fn rgb_to_hex(r: i32, g: i32, b: i32) -> (hex: String)
    ensures
        hex@ == rgb_hex(r as int, g as int, b as int),
{
    let mut hex = String::new();
    push_component(&mut hex, r);
    push_component(&mut hex, g);
    push_component(&mut hex, b);
    proof {
        assert(hex@ =~= rgb_hex(r as int, g as int, b as int));
    }
    hex
}

/// A digit written by `hex_digit` is a hexadecimal digit and reads back as
/// the value it was written for.
pub proof fn lemma_hex_digit_value(v: int)
    requires
        0 <= v < 16,
    ensures
        is_hex_digit(hex_digit(v)),
        hex_value(hex_digit(v)) == v,
{
}

/// Reading the code that was written for a colour gives the colour back:
/// for components from 0 to 255, `hex_to_rgb` undoes `rgb_to_hex`.
pub proof fn lemma_rgb_hex_round_trip(r: i32, g: i32, b: i32)
    requires
        0 <= r <= 255,
        0 <= g <= 255,
        0 <= b <= 255,
    ensures
        hex_rgb(rgb_hex(r as int, g as int, b as int)) == Ok::<Seq<i32>, HexError>(seq![r, g, b]),
{
    let (ri, gi, bi): (int, int, int) = (r as int, g as int, b as int);
    let code = rgb_hex(ri, gi, bi);
    lemma_hex_digit_value(ri / 16);
    lemma_hex_digit_value(ri % 16);
    lemma_hex_digit_value(gi / 16);
    lemma_hex_digit_value(gi % 16);
    lemma_hex_digit_value(bi / 16);
    lemma_hex_digit_value(bi % 16);
    assert(code.len() == 6);
    assert(code[0] == hex_digit(ri / 16) && code[1] == hex_digit(ri % 16));
    assert(code[2] == hex_digit(gi / 16) && code[3] == hex_digit(gi % 16));
    assert(code[4] == hex_digit(bi / 16) && code[5] == hex_digit(bi % 16));
    assert forall|i: int| 0 <= i < 6 implies is_hex_digit(#[trigger] code[i]) by {
        if i == 0 {
        } else if i == 1 {
        } else if i == 2 {
        } else if i == 3 {
        } else if i == 4 {
        } else {
        }
    }
    assert(hex_rgb(code)->Ok_0 =~= seq![r, g, b]);
}

/// Writing the colour that was read from a code of six upper-case digits
/// gives the code back: on such codes `rgb_to_hex` undoes `hex_to_rgb`.
pub proof fn lemma_hex_rgb_round_trip(code: Seq<char>)
    requires
        code.len() == 6,
        forall|i: int| 0 <= i < 6 ==> ('0' <= #[trigger] code[i] <= '9') || ('A' <= code[i] <= 'F'),
    ensures
        hex_rgb(code) matches Ok(rgb) && rgb.len() == 3 && rgb_hex(
            rgb[0] as int,
            rgb[1] as int,
            rgb[2] as int,
        ) == code,
{
    assert(is_hex_digit(code[0]) && is_hex_digit(code[1]) && is_hex_digit(code[2]));
    assert(is_hex_digit(code[3]) && is_hex_digit(code[4]) && is_hex_digit(code[5]));
    let rgb = hex_rgb(code)->Ok_0;
    assert(rgb_hex(rgb[0] as int, rgb[1] as int, rgb[2] as int) =~= code);
}

/// `c` in upper case if it is one of `a`-`z`, else `c` itself.
pub open spec fn ascii_upper(c: char) -> char {
    if 'a' <= c <= 'z' {
        (c as int - 32) as char
    } else {
        c
    }
}

/// `c` in lower case if it is one of `A`-`Z`, else `c` itself.
pub open spec fn ascii_lower(c: char) -> char {
    if 'A' <= c <= 'Z' {
        (c as int + 32) as char
    } else {
        c
    }
}

/// The upper-case form of `c` as `char::to_uppercase` gives it: the
/// characters of its Unicode upper-case mapping, one or several.
pub uninterp spec fn unicode_uppercase(c: char) -> Seq<char>;

/// How `c` is written at the start of a capitalised word. For an ASCII
/// character that is `ascii_upper`; for any other, what the standard library
/// has for it.
pub open spec fn upper_form(c: char) -> Seq<char> {
    if c <= '\u{7f}' {
        seq![ascii_upper(c)]
    } else {
        unicode_uppercase(c)
    }
}

/// The words of `s`: what stands before the first space, between each two
/// neighbouring spaces, and after the last one. A sentence without a space
/// is one word, and two spaces in a row enclose an empty word.
pub open spec fn split_words(s: Seq<char>) -> Seq<Seq<char>>
    decreases s.len(),
{
    if s.len() == 0 {
        seq![Seq::<char>::empty()]
    } else {
        let init = split_words(s.drop_last());
        if s.last() == ' ' {
            init.push(Seq::empty())
        } else {
            init.drop_last().push(init.last().push(s.last()))
        }
    }
}

/// The words written one after the other with one space between each two.
pub open spec fn join_words(words: Seq<Seq<char>>) -> Seq<char>
    decreases words.len(),
{
    if words.len() == 0 {
        Seq::empty()
    } else if words.len() == 1 {
        words[0]
    } else {
        join_words(words.drop_last()).push(' ') + words.last()
    }
}

/// Whether no word in `words` holds a space.
pub open spec fn space_free(words: Seq<Seq<char>>) -> bool {
    forall|i: int, j: int|
        0 <= i < words.len() && 0 <= j < words[i].len() ==> (#[trigger] words[i][j]) != ' '
}

/// A sentence has at least one word, and no word holds a space.
pub proof fn lemma_split_words_shape(s: Seq<char>)
    ensures
        split_words(s).len() >= 1,
        space_free(split_words(s)),
    decreases s.len(),
{
    if s.len() > 0 {
        lemma_split_words_shape(s.drop_last());
    }
}

/// What is added to the last word is added to the joined sentence.
pub proof fn lemma_join_words_grow(words: Seq<Seq<char>>, more: Seq<char>)
    requires
        words.len() >= 1,
    ensures
        join_words(words.drop_last().push(words.last() + more)) == join_words(words) + more,
{
    let grown = words.drop_last().push(words.last() + more);
    if words.len() == 1 {
        assert(join_words(grown) =~= join_words(words) + more);
    } else {
        assert(grown.drop_last() =~= words.drop_last());
        assert(join_words(grown) =~= join_words(words) + more);
    }
}

/// Joining the words of a sentence gives the sentence back.
pub proof fn lemma_join_split(s: Seq<char>)
    ensures
        join_words(split_words(s)) == s,
    decreases s.len(),
{
    if s.len() == 0 {
        assert(join_words(split_words(s)) =~= s);
    } else {
        let init = split_words(s.drop_last());
        lemma_join_split(s.drop_last());
        lemma_split_words_shape(s.drop_last());
        if s.last() == ' ' {
            assert(init.push(Seq::empty()).drop_last() =~= init);
            assert(join_words(init.push(Seq::empty())) =~= join_words(init).push(' '));
        } else {
            lemma_join_words_grow(init, seq![s.last()]);
            assert(init.last() + seq![s.last()] =~= init.last().push(s.last()));
        }
        assert(s.drop_last() + seq![s.last()] =~= s);
        assert(s.drop_last().push(' ') =~= s.drop_last() + seq![' ']);
    }
}

/// Splitting what was joined from words without spaces gives the words
/// back. With `lemma_join_split` this makes `split_words` the one way of
/// cutting a sentence into space-free words such that joining restores it.
pub proof fn lemma_split_join(words: Seq<Seq<char>>)
    requires
        words.len() >= 1,
        space_free(words),
    ensures
        split_words(join_words(words)) == words,
    decreases words.len(), words.last().len(),
{
    let last = words.last();
    if last.len() > 0 {
        let shorter = words.drop_last().push(last.drop_last());
        assert(shorter.drop_last() =~= words.drop_last());
        assert(shorter.last().push(last.last()) =~= last);
        assert(shorter.drop_last().push(shorter.last().push(last.last())) =~= words);
        assert forall|i: int, j: int|
            0 <= i < shorter.len() && 0 <= j < shorter[i].len() implies (#[trigger] shorter[i][j])
            != ' ' by {
            assert(shorter[i][j] == words[i][j]);
        }
        lemma_split_join(shorter);
        lemma_join_words_grow(shorter, seq![last.last()]);
        assert(shorter.last() + seq![last.last()] =~= last);
        assert(last[last.len() - 1] != ' ');
        assert(join_words(words).drop_last() =~= join_words(shorter));
    } else if words.len() == 1 {
        assert(last =~= Seq::<char>::empty());
        assert(words =~= seq![Seq::<char>::empty()]);
    } else {
        let init = words.drop_last();
        assert forall|i: int, j: int|
            0 <= i < init.len() && 0 <= j < init[i].len() implies (#[trigger] init[i][j])
            != ' ' by {
            assert(init[i][j] == words[i][j]);
        }
        lemma_split_join(init);
        assert(join_words(words) =~= join_words(init).push(' '));
        assert(join_words(words).drop_last() =~= join_words(init));
        assert(last =~= Seq::<char>::empty());
        assert(init.push(Seq::empty()) =~= words);
    }
}

/// `word` with its first character in upper case and the rest as it is. The
/// empty word stays empty.
pub open spec fn capitalized(word: Seq<char>) -> Seq<char> {
    if word.len() == 0 {
        word
    } else {
        upper_form(word.first()) + word.drop_first()
    }
}

/// What `capitalize_every_word` makes of a sentence: its words, each
/// capitalised, joined again.
pub open spec fn every_word_capitalized(s: Seq<char>) -> Seq<char> {
    join_words(split_words(s).map_values(|w: Seq<char>| capitalized(w)))
}

/// Whether `s` is empty or ends in a space: the next character, if it is no
/// space, begins a word.
pub open spec fn at_word_start(s: Seq<char>) -> bool {
    s.len() == 0 || s.last() == ' '
}

/// The last word of a sentence is empty exactly when the sentence is empty
/// or ends in a space.
pub proof fn lemma_last_word_empty(s: Seq<char>)
    ensures
        split_words(s).len() >= 1,
        split_words(s).last().len() == 0 <==> at_word_start(s),
{
    lemma_split_words_shape(s);
    if s.len() > 0 {
        lemma_split_words_shape(s.drop_last());
    }
}

/// How `c` is written when it follows the word `word`: in its upper-case
/// form if it begins the word, else as it is.
pub open spec fn written_after(word: Seq<char>, c: char) -> Seq<char> {
    if word.len() == 0 {
        upper_form(c)
    } else {
        seq![c]
    }
}

/// A capitalised word grows by what its next character is written as.
pub proof fn lemma_capitalized_push(word: Seq<char>, c: char)
    ensures
        capitalized(word.push(c)) == capitalized(word) + written_after(word, c),
{
    if word.len() == 0 {
        assert(word.push(c).drop_first() =~= Seq::<char>::empty());
        assert(capitalized(word.push(c)) =~= capitalized(word) + upper_form(c));
    } else {
        assert(word.push(c).drop_first() =~= word.drop_first().push(c));
        assert(capitalized(word.push(c)) =~= capitalized(word) + seq![c]);
    }
}

/// Capitalising every word goes character by character: a character that
/// begins a word is written in its upper-case form, every other as it is.
pub proof fn lemma_every_word_capitalized_push(s: Seq<char>, c: char)
    ensures
        every_word_capitalized(s.push(c)) == every_word_capitalized(s) + if at_word_start(s) {
            upper_form(c)
        } else {
            seq![c]
        },
{
    let cap = |w: Seq<char>| capitalized(w);
    let words = split_words(s);
    let done = words.map_values(cap);
    lemma_last_word_empty(s);
    assert(s.push(c).drop_last() =~= s);
    if c == ' ' {
        let more = words.push(Seq::empty());
        assert(more.map_values(cap) =~= done.push(Seq::empty()));
        assert(done.push(Seq::empty()).drop_last() =~= done);
        assert(join_words(done.push(Seq::empty())) =~= join_words(done) + seq![' ']);
    } else {
        let last = words.last();
        let more = words.drop_last().push(last.push(c));
        lemma_capitalized_push(last, c);
        assert(more.map_values(cap) =~= done.drop_last().push(
            done.last() + written_after(last, c),
        ));
        lemma_join_words_grow(done, written_after(last, c));
    }
}

/// The upper-case form of an ASCII letter, any other character unchanged.
fn to_ascii_upper(c: char) -> (u: char)
    ensures
        u == ascii_upper(c),
{
    if 'a' <= c && c <= 'z' {
        (c as u8 - 32) as char
    } else {
        c
    }
}

/// The lower-case form of an ASCII letter, any other character unchanged.
fn to_ascii_lower(c: char) -> (l: char)
    ensures
        l == ascii_lower(c),
{
    if 'A' <= c && c <= 'Z' {
        (c as u8 + 32) as char
    } else {
        c
    }
}

/// `char::to_uppercase`: the characters of the upper-case mapping of `c`,
/// collected into a string. Which characters these are is left to the
/// standard library; the contract only gives them their name.
#[verifier::external_body]
fn to_uppercase(c: char) -> (upper: String)
    ensures
        upper@ == unicode_uppercase(c),
{
    c.to_uppercase().collect()
}

/// Appends to `out` what `c` is written as at the start of a word.
fn push_upper_form(out: &mut String, c: char)
    ensures
        final(out)@ == old(out)@ + upper_form(c),
{
    if c <= '\u{7f}' {
        out.push(to_ascii_upper(c));
        proof {
            assert(final(out)@ =~= old(out)@ + upper_form(c));
        }
    } else {
        let upper = to_uppercase(c);
        out.append(upper.as_str());
    }
}

/// Writes the first character of every word of `sentence` in upper case
/// and leaves the rest as it is.
///
/// Words are what single spaces separate. An empty word, between two
/// spaces or at either end, stays empty, so the result has every space of
/// `sentence`. A first character without an upper-case form stays as it is;
/// one whose upper-case form is several characters is replaced by them all.
pub fn capitalize_every_word(sentence: &str) -> (out: String)
    ensures
        out@ == every_word_capitalized(sentence@),
{
    let mut out = String::new();
    let mut at_start = true;
    proof {
        assert(sentence@.take(0) =~= Seq::<char>::empty());
        assert(every_word_capitalized(Seq::<char>::empty()) =~= Seq::<char>::empty());
    }
    for c in it: sentence.chars()
        invariant
            it.seq() == sentence@,
            at_start == at_word_start(sentence@.take(it.index() as int)),
            out@ == every_word_capitalized(sentence@.take(it.index() as int)),
    {
        proof {
            lemma_every_word_capitalized_push(sentence@.take(it.index() as int), c);
            assert(sentence@.take(it.index() + 1) =~= sentence@.take(it.index() as int).push(c));
        }
        if at_start {
            push_upper_form(&mut out, c);
        } else {
            let ghost before = out@;
            out.push(c);
            proof {
                assert(out@ =~= before + seq![c]);
            }
        }
        at_start = c == ' ';
    }
    proof {
        assert(sentence@.take(sentence@.len() as int) =~= sentence@);
    }
    out
}

/// Whether `c` is an ASCII white-space character: a space, a tab, a line
/// feed, a vertical tab, a form feed or a carriage return.
pub open spec fn is_blank(c: char) -> bool {
    c == ' ' || ('\t' <= c <= '\r')
}

/// `s` with each hyphen and each underscore replaced by a space.
pub open spec fn spaced(s: Seq<char>) -> Seq<char> {
    s.map_values(
        |c: char|
            if c == '-' || c == '_' {
                ' '
            } else {
                c
            },
    )
}

/// `s` without the white space at its start.
pub open spec fn trim_start(s: Seq<char>) -> Seq<char>
    decreases s.len(),
{
    if s.len() > 0 && is_blank(s.first()) {
        trim_start(s.drop_first())
    } else {
        s
    }
}

/// `s` without the white space at its end.
pub open spec fn trim_end(s: Seq<char>) -> Seq<char>
    decreases s.len(),
{
    if s.len() > 0 && is_blank(s.last()) {
        trim_end(s.drop_last())
    } else {
        s
    }
}

/// Where the part of `s` that `trim_start` keeps begins: everything before
/// that position is white space, and what stands there is not.
pub proof fn lemma_trim_start_shape(s: Seq<char>) -> (from: int)
    ensures
        0 <= from <= s.len(),
        trim_start(s) == s.skip(from),
        forall|k: int| 0 <= k < from ==> is_blank(#[trigger] s[k]),
        from < s.len() ==> !is_blank(s[from]),
    decreases s.len(),
{
    if s.len() > 0 && is_blank(s.first()) {
        let rest = s.drop_first();
        let from: int = lemma_trim_start_shape(rest);
        assert(rest.skip(from) =~= s.skip(from + 1));
        assert forall|k: int| 0 <= k < from + 1 implies is_blank(#[trigger] s[k]) by {
            if k > 0 {
                assert(s[k] == rest[k - 1]);
            }
        }
        if from + 1 < s.len() {
            assert(s[from + 1] == rest[from]);
        }
        from + 1
    } else {
        assert(s.skip(0) =~= s);
        0
    }
}

/// Where the part of `s` that `trim_end` keeps ends: everything from that
/// position on is white space, and what stands just before it is not.
pub proof fn lemma_trim_end_shape(s: Seq<char>) -> (to: int)
    ensures
        0 <= to <= s.len(),
        trim_end(s) == s.take(to),
        forall|k: int| to <= k < s.len() ==> is_blank(#[trigger] s[k]),
        to > 0 ==> !is_blank(s[to - 1]),
    decreases s.len(),
{
    if s.len() > 0 && is_blank(s.last()) {
        let rest = s.drop_last();
        let to: int = lemma_trim_end_shape(rest);
        assert(rest.take(to) =~= s.take(to));
        assert forall|k: int| to <= k < s.len() implies is_blank(#[trigger] s[k]) by {
            if k < s.len() - 1 {
                assert(s[k] == rest[k]);
            }
        }
        if to > 0 {
            assert(s[to - 1] == rest[to - 1]);
        }
        to
    } else {
        assert(s.take(s.len() as int) =~= s);
        s.len() as int
    }
}

/// Trimming takes white space away from both ends and nothing else: what
/// is left is one stretch of `s` with only white space before it and only
/// white space after it, and unless it is empty it neither begins nor ends
/// with white space.
pub proof fn lemma_trim_shape(s: Seq<char>) -> (bounds: (int, int))
    ensures
        0 <= bounds.0 <= bounds.1 <= s.len(),
        trim_end(trim_start(s)) == s.subrange(bounds.0, bounds.1),
        forall|k: int| 0 <= k < bounds.0 ==> is_blank(#[trigger] s[k]),
        forall|k: int| bounds.1 <= k < s.len() ==> is_blank(#[trigger] s[k]),
        bounds.0 < bounds.1 ==> !is_blank(s[bounds.0]) && !is_blank(s[bounds.1 - 1]),
{
    let from: int = lemma_trim_start_shape(s);
    let tail = s.skip(from);
    let kept: int = lemma_trim_end_shape(tail);
    let to: int = from + kept;
    assert(tail.take(kept) =~= s.subrange(from, to));
    assert forall|k: int| to <= k < s.len() implies is_blank(#[trigger] s[k]) by {
        assert(s[k] == tail[k - from]);
    }
    if from < to {
        assert(s[to - 1] == tail[kept - 1]);
    }
    (from, to)
}

/// What `to_camelcase` splits into words: `s` with hyphens and underscores
/// replaced by spaces, then without the white space at either end.
pub open spec fn sanitized(s: Seq<char>) -> Seq<char> {
    trim_end(trim_start(spaced(s)))
}

/// `word` with each of its characters in lower case.
pub open spec fn lowered(word: Seq<char>) -> Seq<char> {
    word.map_values(|c: char| ascii_lower(c))
}

/// The camel-case form of an already sanitized sentence: its first word in
/// lower case, then each later word capitalised, with nothing between them.
pub open spec fn camel(t: Seq<char>) -> Seq<char> {
    let words = split_words(t);
    lowered(words.first()) + words.drop_first().map_values(
        |w: Seq<char>| capitalized(w),
    ).flatten()
}

/// Whether `s` holds no space: it is still in its first word.
pub open spec fn in_first_word(s: Seq<char>) -> bool {
    !s.contains(' ')
}

/// A sentence is a single word exactly when it holds no space.
pub proof fn lemma_single_word(s: Seq<char>)
    ensures
        split_words(s).len() == 1 <==> in_first_word(s),
    decreases s.len(),
{
    lemma_split_words_shape(s);
    if s.len() > 0 {
        let init = s.drop_last();
        lemma_single_word(init);
        lemma_split_words_shape(init);
        if s.last() == ' ' {
            assert(s[s.len() - 1] == ' ');
        } else if init.contains(' ') {
            let i: int = choose|i: int| 0 <= i < init.len() && init[i] == ' ';
            assert(s[i] == ' ');
        } else if s.contains(' ') {
            let i: int = choose|i: int| 0 <= i < s.len() && s[i] == ' ';
            assert(init[i] == ' ');
        }
    }
}

/// A sentence stays in its first word until a space is added.
pub proof fn lemma_in_first_word_push(s: Seq<char>, c: char)
    ensures
        in_first_word(s.push(c)) == (in_first_word(s) && c != ' '),
{
    let grown = s.push(c);
    if c == ' ' {
        assert(grown[s.len() as int] == ' ');
    } else if s.contains(' ') {
        let i: int = choose|i: int| 0 <= i < s.len() && s[i] == ' ';
        assert(grown[i] == ' ');
    } else if grown.contains(' ') {
        let i: int = choose|i: int| 0 <= i < grown.len() && grown[i] == ' ';
        assert(s[i] == ' ');
    }
}

/// Camel case goes character by character: a space is left out, a character
/// of the first word is written in lower case, the first character of a later
/// word in its upper-case form, and every other as it is.
pub proof fn lemma_camel_push(t: Seq<char>, c: char)
    ensures
        camel(t.push(c)) == camel(t) + if c == ' ' {
            Seq::<char>::empty()
        } else if in_first_word(t) {
            seq![ascii_lower(c)]
        } else if at_word_start(t) {
            upper_form(c)
        } else {
            seq![c]
        },
{
    let cap = |w: Seq<char>| capitalized(w);
    let words = split_words(t);
    let later = words.drop_first().map_values(cap);
    lemma_last_word_empty(t);
    lemma_single_word(t);
    assert(t.push(c).drop_last() =~= t);
    if c == ' ' {
        let more = words.push(Seq::empty());
        assert(more.drop_first().map_values(cap) =~= later.push(Seq::empty()));
        later.lemma_flatten_push(Seq::empty());
        assert(camel(t.push(c)) =~= camel(t) + Seq::<char>::empty());
    } else if words.len() == 1 {
        let more = words.drop_last().push(words.last().push(c));
        assert(more.first() =~= words.first().push(c));
        assert(lowered(words.first().push(c)) =~= lowered(words.first()).push(ascii_lower(c)));
        assert(more.drop_first() =~= words.drop_first());
        assert(camel(t.push(c)) =~= camel(t) + seq![ascii_lower(c)]);
    } else {
        let last = words.last();
        let written = written_after(last, c);
        let more = words.drop_last().push(last.push(c));
        assert(more.first() == words.first());
        lemma_capitalized_push(last, c);
        assert(more.drop_first().map_values(cap) =~= later.drop_last().push(later.last() + written));
        assert(later.drop_last().push(later.last()) =~= later);
        later.drop_last().lemma_flatten_push(later.last());
        later.drop_last().lemma_flatten_push(later.last() + written);
        assert(camel(t.push(c)) =~= camel(t) + written);
    }
}

/// Whether `c` is ASCII white space.
fn is_blank_char(c: char) -> (blank: bool)
    ensures
        blank == is_blank(c),
{
    c == ' ' || ('\t' <= c && c <= '\r')
}

/// Turns a sentence such as `some_database-field name` into camel case:
/// `someDatabaseFieldName`.
///
/// Hyphens and underscores count as spaces, and white space at either end is
/// dropped. What is left is split at its spaces; the first word is written
/// in lower case, each later word with its first character in upper case and
/// the rest unchanged, and the words are joined with nothing between them.
/// An empty word between two separators adds nothing.
///
/// A sentence with a character outside ASCII is refused as `NotAscii`. One
/// of which fewer than two characters are left after the separators are
/// replaced and the ends trimmed is refused as `InvalidWord`. Both errors
/// carry the sentence as it was given.
pub fn to_camelcase(sentence: &str) -> (out: Result<String, Error>)
    ensures
        match out {
            Ok(name) => {
                &&& is_ascii_chars(sentence@)
                &&& sanitized(sentence@).len() >= 2
                &&& name@ == camel(sanitized(sentence@))
            },
            Err(Error::NotAscii(given)) => !is_ascii_chars(sentence@) && given@ == sentence@,
            Err(Error::InvalidWord(given)) => {
                &&& is_ascii_chars(sentence@)
                &&& sanitized(sentence@).len() < 2
                &&& given@ == sentence@
            },
        },
{
    if !sentence.is_ascii() {
        return Err(Error::NotAscii(sentence.to_owned()));
    }
    let mut chars: Vec<char> = Vec::new();
    for c in it: sentence.chars()
        invariant
            it.seq() == sentence@,
            chars@ == spaced(sentence@.take(it.index() as int)),
    {
        proof {
            assert(sentence@.take(it.index() + 1) =~= sentence@.take(it.index() as int).push(c));
            assert(spaced(sentence@.take(it.index() as int).push(c)) =~= spaced(
                sentence@.take(it.index() as int),
            ).push(
                if c == '-' || c == '_' {
                    ' '
                } else {
                    c
                },
            ));
        }
        if c == '-' || c == '_' {
            chars.push(' ');
        } else {
            chars.push(c);
        }
    }
    proof {
        assert(sentence@.take(sentence@.len() as int) =~= sentence@);
        assert(chars@.skip(0) =~= chars@);
    }
    let mut start: usize = 0;
    while start < chars.len() && is_blank_char(chars[start])
        invariant
            start <= chars.len(),
            trim_start(chars@) == trim_start(chars@.skip(start as int)),
        decreases chars.len() - start,
    {
        proof {
            assert(chars@.skip(start as int).drop_first() =~= chars@.skip(start + 1));
        }
        start = start + 1;
    }
    let mut end: usize = chars.len();
    while end > start && is_blank_char(chars[end - 1])
        invariant
            start <= end <= chars.len(),
            trim_end(chars@.skip(start as int)) == trim_end(chars@.subrange(start as int, end as int)),
        decreases end - start,
    {
        proof {
            assert(chars@.subrange(start as int, end as int).drop_last() =~= chars@.subrange(
                start as int,
                end - 1,
            ));
        }
        end = end - 1;
    }
    proof {
        assert(chars@.skip(start as int) =~= chars@.subrange(start as int, chars@.len() as int));
    }
    let ghost kept = chars@.subrange(start as int, end as int);
    assert(kept == sanitized(sentence@));
    if end - start < 2 {
        return Err(Error::InvalidWord(sentence.to_owned()));
    }
    let mut name = String::new();
    let mut first_word = true;
    let mut at_start = true;
    let mut i: usize = start;
    proof {
        assert(kept.take(0) =~= Seq::<char>::empty());
        assert(camel(Seq::<char>::empty()) =~= Seq::<char>::empty());
    }
    while i < end
        invariant
            start <= i <= end <= chars.len(),
            kept == chars@.subrange(start as int, end as int),
            chars@ == spaced(sentence@),
            is_ascii_chars(sentence@),
            first_word == in_first_word(kept.take(i - start)),
            at_start == at_word_start(kept.take(i - start)),
            name@ == camel(kept.take(i - start)),
        decreases end - i,
    {
        let c: char = chars[i];
        let ghost before = name@;
        proof {
            lemma_camel_push(kept.take(i - start), c);
            assert(kept.take(i + 1 - start) =~= kept.take(i - start).push(c));
            lemma_in_first_word_push(kept.take(i - start), c);
            assert(sentence@[i as int] <= '\u{7f}');
            assert(c <= '\u{7f}');
        }
        if c == ' ' {
            first_word = false;
            at_start = true;
        } else {
            if first_word {
                name.push(to_ascii_lower(c));
            } else if at_start {
                name.push(to_ascii_upper(c));
            } else {
                name.push(c);
            }
            at_start = false;
        }
        proof {
            assert(name@ =~= camel(kept.take(i + 1 - start)));
        }
        i = i + 1;
    }
    proof {
        assert(kept.take(end - start) =~= kept);
    }
    Ok(name)
}

/// Whether the characters of `s` stand in ascending order.
pub open spec fn ascending(s: Seq<char>) -> bool {
    forall|i: int, j: int| 0 <= i < j < s.len() ==> s[i] <= s[j]
}

/// Whether `a` and `b` are made of the same characters, each as often in
/// the one as in the other.
pub open spec fn letters_match(a: Seq<char>, b: Seq<char>) -> bool {
    a.to_multiset() == b.to_multiset()
}

/// There is one way only to put given characters in ascending order.
pub proof fn lemma_ascending_unique(a: Seq<char>, b: Seq<char>)
    requires
        ascending(a),
        ascending(b),
        letters_match(a, b),
    ensures
        a == b,
{
    let leq = |x: char, y: char| x <= y;
    assert(vstd::relations::sorted_by(a, leq));
    assert(vstd::relations::sorted_by(b, leq));
    assert(vstd::relations::total_ordering(leq));
    vstd::seq_lib::lemma_sorted_unique(a, b, leq);
}

/// The characters of `chars` in ascending order.
fn sort_chars(chars: &Vec<char>) -> (out: Vec<char>)
    ensures
        ascending(out@),
        letters_match(out@, chars@),
{
    let mut out: Vec<char> = Vec::new();
    let mut k: usize = 0;
    proof {
        assert(chars@.take(0) =~= out@);
    }
    while k < chars.len()
        invariant
            k <= chars.len(),
            ascending(out@),
            letters_match(out@, chars@.take(k as int)),
        decreases chars.len() - k,
    {
        let c: char = chars[k];
        let mut at: usize = 0;
        while at < out.len() && out[at] <= c
            invariant
                at <= out.len(),
                ascending(out@),
                forall|i: int| 0 <= i < at ==> out@[i] <= c,
            decreases out.len() - at,
        {
            at = at + 1;
        }
        proof {
            vstd::seq_lib::to_multiset_insert(out@, at as int, c);
            vstd::seq_lib::to_multiset_build(chars@.take(k as int), c);
            assert(chars@.take(k + 1) =~= chars@.take(k as int).push(c));
            let grown = out@.insert(at as int, c);
            assert forall|i: int, j: int| 0 <= i < j < grown.len() implies grown[i] <= grown[j] by {
                if j < at {
                    assert(grown[i] == out@[i] && grown[j] == out@[j]);
                } else if j == at {
                    assert(grown[i] == out@[i]);
                } else if i < at {
                    assert(grown[i] == out@[i] && grown[j] == out@[j - 1]);
                } else if i == at {
                    assert(grown[j] == out@[j - 1]);
                    assert(out@[at as int] <= out@[j - 1]);
                } else {
                    assert(grown[i] == out@[i - 1] && grown[j] == out@[j - 1]);
                }
            }
        }
        out.insert(at, c);
        k = k + 1;
    }
    proof {
        assert(chars@.take(k as int) =~= chars@);
    }
    out
}

/// The characters of `chars` as a string.
fn string_of(chars: &Vec<char>) -> (s: String)
    ensures
        s@ == chars@,
{
    let mut s = String::new();
    let mut i: usize = 0;
    while i < chars.len()
        invariant
            i <= chars.len(),
            s@ == chars@.take(i as int),
        decreases chars.len() - i,
    {
        proof {
            assert(chars@.take(i + 1) =~= chars@.take(i as int).push(chars@[i as int]));
        }
        s.push(chars[i]);
        i = i + 1;
    }
    proof {
        assert(chars@.take(i as int) =~= chars@);
    }
    s
}

/// The characters of `word` in ascending order, as a new string. `word`
/// itself is left as it is.
pub fn sorted(word: &str) -> (out: String)
    ensures
        ascending(out@),
        letters_match(out@, word@),
{
    let chars = chars_of(word);
    let in_order = sort_chars(&chars);
    string_of(&in_order)
}

/// Whether `a` and `b` are made of the same characters, each as often in
/// the one as in the other.
///
/// Texts of different lengths are told apart at once; otherwise the
/// characters of each are put in ascending order and compared.
pub fn same_letters(a: &str, b: &str) -> (same: bool)
    ensures
        same == letters_match(a@, b@),
{
    let first = chars_of(a);
    let second = chars_of(b);
    if first.len() != second.len() {
        proof {
            vstd::seq_lib::to_multiset_len(a@);
            vstd::seq_lib::to_multiset_len(b@);
        }
        return false;
    }
    let first = sort_chars(&first);
    let second = sort_chars(&second);
    proof {
        vstd::seq_lib::to_multiset_len(a@);
        vstd::seq_lib::to_multiset_len(b@);
        vstd::seq_lib::to_multiset_len(first@);
        vstd::seq_lib::to_multiset_len(second@);
    }
    let mut i: usize = 0;
    while i < first.len()
        invariant
            i <= first.len(),
            first@.len() == second@.len(),
            first@.take(i as int) == second@.take(i as int),
            ascending(first@),
            ascending(second@),
            letters_match(first@, a@),
            letters_match(second@, b@),
        decreases first.len() - i,
    {
        if first[i] != second[i] {
            proof {
                if letters_match(a@, b@) {
                    lemma_ascending_unique(first@, second@);
                }
            }
            return false;
        }
        proof {
            assert(first@.take(i + 1) =~= first@.take(i as int).push(first@[i as int]));
            assert(second@.take(i + 1) =~= second@.take(i as int).push(second@[i as int]));
        }
        i = i + 1;
    }
    proof {
        assert(first@.take(i as int) =~= first@);
        assert(second@.take(i as int) =~= second@);
    }
    true
}

/// `s` without its spaces.
pub open spec fn without_spaces(s: Seq<char>) -> Seq<char> {
    s.filter(|c: char| c != ' ')
}

/// The lower-case form of `s` as `str::to_lowercase` gives it: each
/// character replaced by its Unicode lower-case mapping.
pub uninterp spec fn unicode_lowercase(s: Seq<char>) -> Seq<char>;

/// What `is_anagram` compares: `s` without its spaces, in lower case.
pub open spec fn anagram_letters(s: Seq<char>) -> Seq<char> {
    unicode_lowercase(without_spaces(s))
}

/// `str::to_lowercase`: the lower-case form of `s` as a new string. What
/// that form is, character for character, is left to the standard library;
/// the contract only gives it its name.
#[verifier::external_body]
fn to_lowercase(s: &str) -> (lower: String)
    ensures
        lower@ == unicode_lowercase(s@),
{
    s.to_lowercase()
}

/// `sentence` without its spaces.
fn strip_spaces(sentence: &str) -> (out: String)
    ensures
        out@ == without_spaces(sentence@),
{
    let mut out = String::new();
    let ghost keep = |c: char| c != ' ';
    proof {
        assert(sentence@.take(0) =~= Seq::<char>::empty());
        reveal(Seq::filter);
        assert(Seq::<char>::empty().filter(keep) =~= Seq::<char>::empty());
    }
    for c in it: sentence.chars()
        invariant
            it.seq() == sentence@,
            keep == |c: char| c != ' ',
            out@ == sentence@.take(it.index() as int).filter(keep),
    {
        proof {
            sentence@.take(it.index() as int).lemma_filter_push(c, keep);
            assert(sentence@.take(it.index() + 1) =~= sentence@.take(it.index() as int).push(c));
        }
        if c != ' ' {
            out.push(c);
        }
    }
    proof {
        assert(sentence@.take(sentence@.len() as int) =~= sentence@);
    }
    out
}

/// Whether the two sentences are anagrams of each other: made of the same
/// characters, each as often in the one as in the other, once spaces are
/// left out and both are put in lower case.
pub fn is_anagram(sentence1: &str, sentence2: &str) -> (anagram: bool)
    ensures
        anagram == letters_match(anagram_letters(sentence1@), anagram_letters(sentence2@)),
{
    let first = to_lowercase(strip_spaces(sentence1).as_str());
    let second = to_lowercase(strip_spaces(sentence2).as_str());
    same_letters(first.as_str(), second.as_str())
}

} // verus!
