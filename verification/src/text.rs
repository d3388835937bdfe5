//! Characters, byte offsets and the shape of a token.
//!
//! A tokenizer walks a `&str` with a byte offset, as `str` slicing wants it,
//! while the contracts speak of the text as a sequence of characters. This
//! module ties the two together: [`byte_offset`] gives the byte offset of a
//! character position, and the functions below read and slice a text at such
//! an offset.

use vstd::prelude::*;
use vstd::utf8::*;
use vstd::string::*;
use vstd::slice::*;

verus! {

broadcast use {group_string_axioms, group_utf8_lib, group_slice_axioms};

/// Whether `c` has the Unicode property `White_Space`: the characters from
/// tab to carriage return, the space, the next-line control, the no-break
/// space, the Ogham space mark, the spaces from en quad to hair space, the
/// line and the paragraph separator, the narrow no-break space, the medium
/// mathematical space and the ideographic space.
pub open spec fn is_whitespace_char(c: char) -> bool {
    let code = c as u32;
    ||| 0x09 <= code <= 0x0D
    ||| code == 0x20
    ||| code == 0x85
    ||| code == 0xA0
    ||| code == 0x1680
    ||| 0x2000 <= code <= 0x200A
    ||| code == 0x2028
    ||| code == 0x2029
    ||| code == 0x202F
    ||| code == 0x205F
    ||| code == 0x3000
}

/// Whether `c` is a letter or a number outside of ASCII, as
/// `char::is_alphanumeric` reports it.
pub uninterp spec fn is_alphanumeric_beyond_ascii(c: char) -> bool;

/// Whether `c` is a Unicode letter or number: in ASCII the digits and the
/// letters, beyond it what `char::is_alphanumeric` reports.
pub open spec fn is_alphanumeric_char(c: char) -> bool {
    if (c as u32) < 0x80 {
        ||| '0' <= c <= '9'
        ||| 'A' <= c <= 'Z'
        ||| 'a' <= c <= 'z'
    } else {
        is_alphanumeric_beyond_ascii(c)
    }
}

/// The lowercase form of a text, as `str::to_lowercase` produces it.
pub uninterp spec fn lowercase_text(s: Seq<char>) -> Seq<char>;

/// `char::is_whitespace`: whether the character has the Unicode property
/// `White_Space`, whose characters [`is_whitespace_char`] lists.
pub assume_specification[ char::is_whitespace ](c: char) -> (b: bool)
    ensures
        b == is_whitespace_char(c),
;

/// `char::is_alphanumeric`: whether the character is a letter or a number.
/// In ASCII these are the digits and the letters; beyond ASCII the result
/// is a fixed property of the character, named
/// [`is_alphanumeric_beyond_ascii`], of which nothing else is claimed.
pub assume_specification[ char::is_alphanumeric ](c: char) -> (b: bool)
    ensures
        b == is_alphanumeric_char(c),
        (c as u32) >= 0x80 ==> b == is_alphanumeric_beyond_ascii(c),
;

/// `char::len_utf8`: the number of bytes of the character's UTF-8 encoding.
pub assume_specification[ char::len_utf8 ](c: char) -> (n: usize)
    ensures
        n == encode_scalar(c as u32).len(),
;

/// `str::to_lowercase`: the result depends on the characters of `s` alone and
/// is named [`lowercase_text`]. Nothing else is claimed of it.
pub assume_specification[ str::to_lowercase ](s: &str) -> (lower: String)
    ensures
        lower@ == lowercase_text(s@),
;

/// `String::push`: appends one character to the end of the string.
pub assume_specification[ String::push ](s: &mut String, c: char)
    ensures
        final(s)@ == old(s)@.push(c),
;

/// `str::eq`: two texts are equal if they hold the same characters.
pub assume_specification[ <str as PartialEq>::eq ](a: &str, b: &str) -> (equal: bool)
    ensures
        equal == (a@ == b@),
;

/// The byte offset, in the UTF-8 encoding of `text`, at which the character
/// at position `pos` starts (the encoding's length for `pos == text.len()`).
pub open spec fn byte_offset(text: Seq<char>, pos: int) -> int {
    encode_utf8(text.take(pos)).len() as int
}

/// Whether `c` is kept in a term: letters and numbers always, the apostrophe
/// in a permissive tokenizer.
pub open spec fn is_term_char(c: char, permissive: bool) -> bool {
    is_alphanumeric_char(c) || (permissive && c == '\'')
}

/// A word span with everything dropped that is not kept in a term, the rest
/// in the order in which it stood.
pub open spec fn clean(span: Seq<char>, permissive: bool) -> Seq<char> {
    span.filter(|c: char| is_term_char(c, permissive))
}

/// Whether every character of `span` is kept in a term, so that the span is
/// its own cleaned form.
pub open spec fn is_clean(span: Seq<char>, permissive: bool) -> bool {
    forall|i: int| 0 <= i < span.len() ==> is_term_char(#[trigger] span[i], permissive)
}

/// The first position at or after `from` whose character is whitespace
/// (`whitespace == false`) or is not (`whitespace == true`); the length of
/// `text` if there is none.
pub open spec fn run_end(text: Seq<char>, from: int, whitespace: bool) -> int
    decreases text.len() - from,
{
    if 0 <= from < text.len() && is_whitespace_char(text[from]) == whitespace {
        run_end(text, from + 1, whitespace)
    } else {
        from
    }
}

/// Where the next word span starts: the first position at or after `from`
/// that holds no whitespace.
pub open spec fn word_start(text: Seq<char>, from: int) -> int {
    run_end(text, from, true)
}

/// Where the word span that starts at `start` ends: the first position at or
/// after `start` that holds whitespace.
pub open spec fn word_end(text: Seq<char>, start: int) -> int {
    run_end(text, start, false)
}

/// The terms that a tokenizer yields from position `from` of `text` on: one
/// for every maximal run of non-whitespace characters, cleaned. A run made
/// of punctuation alone gives the empty term.
pub open spec fn tokens_from(text: Seq<char>, from: int, permissive: bool) -> Seq<Seq<char>>
    decreases text.len() - from,
{
    let start = word_start(text, from);
    let end = word_end(text, start);
    if 0 <= from <= start < end <= text.len() {
        seq![clean(text.subrange(start, end), permissive)] + tokens_from(text, end, permissive)
    } else {
        Seq::empty()
    }
}

/// The words of `text` from position `from` on: its maximal runs of
/// non-whitespace characters, as they stand.
pub open spec fn words_from(text: Seq<char>, from: int) -> Seq<Seq<char>>
    decreases text.len() - from,
{
    let start = word_start(text, from);
    let end = word_end(text, start);
    if 0 <= from <= start < end <= text.len() {
        seq![text.subrange(start, end)] + words_from(text, end)
    } else {
        Seq::empty()
    }
}

/// All the terms of a text.
pub open spec fn tokens(text: Seq<char>, permissive: bool) -> Seq<Seq<char>> {
    tokens_from(text, 0, permissive)
}

/// A run ends within the text, at or after its start, and holds only
/// characters of its kind; the character that follows is of the other kind.
pub proof fn lemma_run_end(text: Seq<char>, from: int, whitespace: bool)
    requires
        0 <= from <= text.len(),
    ensures
        from <= run_end(text, from, whitespace) <= text.len(),
        forall|i: int|
            from <= i < run_end(text, from, whitespace) ==> is_whitespace_char(#[trigger] text[i])
                == whitespace,
        run_end(text, from, whitespace) < text.len() ==> is_whitespace_char(
            text[run_end(text, from, whitespace)],
        ) != whitespace,
    decreases text.len() - from,
{
    if from < text.len() && is_whitespace_char(text[from]) == whitespace {
        lemma_run_end(text, from + 1, whitespace);
    }
}

/// A run that is still going at `i` ends where the run from `i` ends.
pub proof fn lemma_run_continues(text: Seq<char>, from: int, i: int, whitespace: bool)
    requires
        0 <= from <= i <= text.len(),
        forall|j: int| from <= j < i ==> is_whitespace_char(#[trigger] text[j]) == whitespace,
    ensures
        run_end(text, from, whitespace) == run_end(text, i, whitespace),
    decreases i - from,
{
    if from < i {
        lemma_run_continues(text, from + 1, i, whitespace);
    }
}

/// A word span that starts inside the text is not empty.
pub proof fn lemma_word_not_empty(text: Seq<char>, from: int)
    requires
        0 <= from <= text.len(),
        word_start(text, from) < text.len(),
    ensures
        from <= word_start(text, from) < word_end(text, word_start(text, from)) <= text.len(),
{
    lemma_run_end(text, from, true);
    let start = word_start(text, from);
    lemma_run_end(text, start + 1, false);
}

/// The encoding of a concatenation is the concatenation of the encodings.
pub proof fn lemma_encode_concat(a: Seq<char>, b: Seq<char>)
    ensures
        encode_utf8(a + b) == encode_utf8(a) + encode_utf8(b),
    decreases a.len(),
{
    if a.len() == 0 {
        assert(a + b =~= b);
        assert(encode_utf8(a) + encode_utf8(b) =~= encode_utf8(b));
    } else {
        lemma_encode_concat(a.drop_first(), b);
        assert((a + b).drop_first() =~= a.drop_first() + b);
        assert(encode_utf8(a + b) =~= encode_utf8(a) + encode_utf8(b));
    }
}

/// The encoding of one character.
pub proof fn lemma_encode_one(c: char)
    ensures
        encode_utf8(seq![c]) == encode_scalar(c as u32),
        1 <= encode_scalar(c as u32).len() <= 4,
{
    reveal_with_fuel(encode_utf8, 2);
    assert(seq![c].drop_first() =~= Seq::<char>::empty());
    assert(encode_utf8(seq![c]) =~= encode_scalar(c as u32));
}

/// The byte offset of the next position lies one character's encoding
/// further.
pub proof fn lemma_offset_step(text: Seq<char>, pos: int)
    requires
        0 <= pos < text.len(),
    ensures
        byte_offset(text, pos + 1) == byte_offset(text, pos) + encode_scalar(
            text[pos] as u32,
        ).len(),
        byte_offset(text, pos) < byte_offset(text, pos + 1),
{
    assert(text.take(pos + 1) =~= text.take(pos) + seq![text[pos]]);
    lemma_encode_concat(text.take(pos), seq![text[pos]]);
    lemma_encode_one(text[pos]);
}

/// Byte offsets grow with positions, by at least one byte a character; the
/// first offset is 0 and the last is the length of the encoding.
pub proof fn lemma_offset_monotone(text: Seq<char>, p: int, q: int)
    requires
        0 <= p <= q <= text.len(),
    ensures
        byte_offset(text, p) + (q - p) <= byte_offset(text, q),
        byte_offset(text, 0) == 0,
        byte_offset(text, text.len() as int) == encode_utf8(text).len(),
    decreases q - p,
{
    assert(text.take(0) =~= Seq::<char>::empty());
    assert(text.take(text.len() as int) =~= text);
    if p < q {
        lemma_offset_monotone(text, p, q - 1);
        lemma_offset_step(text, q - 1);
    }
}

/// The encoding of `text` splits at the byte offset of `pos` into the
/// encodings of the characters before and from `pos`.
pub proof fn lemma_offset_splits(text: Seq<char>, pos: int)
    requires
        0 <= pos <= text.len(),
    ensures
        0 <= byte_offset(text, pos) <= encode_utf8(text).len(),
        encode_utf8(text).subrange(0, byte_offset(text, pos)) == encode_utf8(text.take(pos)),
        encode_utf8(text).subrange(byte_offset(text, pos), encode_utf8(text).len() as int)
            == encode_utf8(text.skip(pos)),
{
    assert(text =~= text.take(pos) + text.skip(pos));
    lemma_encode_concat(text.take(pos), text.skip(pos));
    let head = encode_utf8(text.take(pos));
    let tail = encode_utf8(text.skip(pos));
    assert((head + tail).subrange(0, head.len() as int) =~= head);
    assert((head + tail).subrange(head.len() as int, (head + tail).len() as int) =~= tail);
}

/// The byte offset of a position is a character boundary of the encoding.
pub proof fn lemma_offset_is_boundary(text: Seq<char>, pos: int)
    requires
        0 <= pos <= text.len(),
    ensures
        is_char_boundary(encode_utf8(text), byte_offset(text, pos)),
    decreases pos,
{
    let bytes = encode_utf8(text);
    if pos > 0 {
        let rest = text.drop_first();
        encode_utf8_first_scalar(text);
        assert(pop_first_scalar(bytes) =~= encode_utf8(rest));
        lemma_offset_is_boundary(rest, pos - 1);
        assert(text.take(pos) =~= seq![text[0]] + rest.take(pos - 1));
        lemma_encode_concat(seq![text[0]], rest.take(pos - 1));
        lemma_encode_one(text[0]);
        lemma_offset_splits(text, pos);
    }
}

/// Two texts with the same encoding are the same text.
pub proof fn lemma_encode_injective(a: Seq<char>, b: Seq<char>)
    requires
        encode_utf8(a) == encode_utf8(b),
    ensures
        a == b,
{
    encode_utf8_decode_utf8(a);
    encode_utf8_decode_utf8(b);
}

/// What `Seq::filter` makes of a prefix that grows by one character.
pub proof fn lemma_clean_step(span: Seq<char>, i: int, permissive: bool)
    requires
        0 <= i < span.len(),
    ensures
        clean(span.take(i + 1), permissive) == if is_term_char(span[i], permissive) {
            clean(span.take(i), permissive).push(span[i])
        } else {
            clean(span.take(i), permissive)
        },
{
    reveal(Seq::filter);
    assert(span.take(i + 1).drop_last() =~= span.take(i));
}

/// A span of kept characters is its own cleaned form, and no other span is.
pub proof fn lemma_clean_identity(span: Seq<char>, permissive: bool)
    ensures
        is_clean(span, permissive) <==> clean(span, permissive) == span,
    decreases span.len(),
{
    reveal(Seq::filter);
    let keep = |c: char| is_term_char(c, permissive);
    if span.len() > 0 {
        let init = span.drop_last();
        lemma_clean_identity(init, permissive);
        init.lemma_filter_len(keep);
        if is_clean(span, permissive) {
            assert(is_clean(init, permissive)) by {
                assert forall|i: int| 0 <= i < init.len() implies is_term_char(
                    #[trigger] init[i],
                    permissive,
                ) by {
                    assert(init[i] == span[i]);
                }
            }
            assert(init.push(span.last()) =~= span);
        }
        if clean(span, permissive) == span {
            assert(keep(span.last()));
            assert(clean(init, permissive) =~= init) by {
                assert(clean(init, permissive).push(span.last()) == span);
                assert(clean(init, permissive) =~= span.drop_last());
            }
            assert forall|i: int| 0 <= i < span.len() implies is_term_char(
                #[trigger] span[i],
                permissive,
            ) by {
                if i < init.len() {
                    assert(init[i] == span[i]);
                }
            }
        }
    }
}

/// The byte length of a text.
pub fn byte_len(input: &str) -> (n: usize)
    ensures
        n == encode_utf8(input@).len(),
{
    input.as_bytes().len()
}

/// The character of `input` that starts at byte offset `cursor`, if the
/// offset is not the end of the text.
pub(crate) fn char_at(input: &str, cursor: usize, Ghost(pos): Ghost<int>) -> (c: Option<char>)
    requires
        0 <= pos <= input@.len(),
        cursor == byte_offset(input@, pos),
    ensures
        c == if pos < input@.len() {
            Some(input@[pos])
        } else {
            None
        },
{
    proof {
        lemma_offset_is_boundary(input@, pos);
        lemma_offset_splits(input@, pos);
    }
    let (_, rest) = input.split_at(cursor);
    proof {
        lemma_encode_injective(rest@, input@.skip(pos));
    }
    let mut chars = rest.chars();
    chars.next()
}

/// The part of `input` between two byte offsets, without copying it.
pub(crate) fn slice<'a>(
    input: &'a str,
    start: usize,
    end: usize,
    Ghost(from): Ghost<int>,
    Ghost(to): Ghost<int>,
) -> (part: &'a str)
    requires
        0 <= from <= to <= input@.len(),
        start == byte_offset(input@, from),
        end == byte_offset(input@, to),
    ensures
        part@ == input@.subrange(from, to),
{
    proof {
        lemma_offset_is_boundary(input@, to);
        lemma_offset_splits(input@, to);
    }
    let (head, _) = input.split_at(end);
    proof {
        lemma_encode_injective(head@, input@.take(to));
        assert(input@.take(to).take(from) =~= input@.take(from));
        lemma_offset_is_boundary(head@, from);
        lemma_offset_splits(head@, from);
    }
    let (_, part) = head.split_at(start);
    proof {
        lemma_encode_injective(part@, head@.skip(from));
        assert(input@.take(to).skip(from) =~= input@.subrange(from, to));
    }
    part
}

/// Whether a tokenizer keeps `c` in a term.
pub fn keeps(c: char, permissive: bool) -> (kept: bool)
    ensures
        kept == is_term_char(c, permissive),
{
    c.is_alphanumeric() || (permissive && c == '\'')
}

/// A fresh string that holds the kept characters of the part of `input`
/// between two byte offsets.
pub(crate) fn cleaned<'a>(
    input: &'a str,
    start: usize,
    end: usize,
    permissive: bool,
    Ghost(from): Ghost<int>,
    Ghost(to): Ghost<int>,
) -> (term: String)
    requires
        0 <= from <= to <= input@.len(),
        start == byte_offset(input@, from),
        end == byte_offset(input@, to),
        encode_utf8(input@).len() <= usize::MAX,
    ensures
        term@ == clean(input@.subrange(from, to), permissive),
{
    let ghost span = input@.subrange(from, to);
    let mut term = String::new();
    let mut cursor: usize = start;
    let ghost mut pos: int = from;
    proof {
        reveal(Seq::filter);
        assert(span.take(0) =~= Seq::<char>::empty());
        lemma_offset_monotone(input@, from, to);
    }
    while cursor < end
        invariant
            0 <= from <= pos <= to <= input@.len(),
            cursor == byte_offset(input@, pos),
            end == byte_offset(input@, to),
            encode_utf8(input@).len() <= usize::MAX,
            span == input@.subrange(from, to),
            term@ == clean(span.take(pos - from), permissive),
        decreases to - pos,
    {
        proof {
            if pos == to {
                assert(false);
            }
            lemma_offset_step(input@, pos);
            lemma_offset_monotone(input@, pos + 1, to);
            lemma_offset_monotone(input@, to, input@.len() as int);
            lemma_clean_step(span, pos - from, permissive);
        }
        let c = char_at(input, cursor, Ghost(pos)).unwrap();
        if keeps(c, permissive) {
            term.push(c);
        }
        cursor = cursor + c.len_utf8();
        proof {
            pos = pos + 1;
        }
    }
    proof {
        if pos < to {
            lemma_offset_monotone(input@, pos + 1, to);
            lemma_offset_step(input@, pos);
        }
        assert(span.take(to - from) =~= span);
    }
    term
}

/// A word as a query term: lowercased, and without the characters that a
/// strict tokenizer drops.
pub fn normalize_term(word: &str) -> (term: String)
    ensures
        term@ == clean(lowercase_text(word@), false),
{
    let lower = word.to_lowercase();
    let end = byte_len(lower.as_str());
    proof {
        lemma_offset_monotone(lower@, 0, lower@.len() as int);
        assert(lower@.subrange(0, lower@.len() as int) =~= lower@);
    }
    cleaned(lower.as_str(), 0, end, false, Ghost(0), Ghost(lower@.len() as int))
}

} // verus!
