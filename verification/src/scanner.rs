//! The scanner that both tokenizers are built on.
//!
//! A scanner walks one text from left to right. It knows whitespace from
//! everything else and which characters a term keeps; the two tokenizers
//! differ only in the latter.

use std::borrow::Cow;
use vstd::prelude::*;
use vstd::utf8::*;
use crate::text::{
    byte_len, byte_offset, char_at, clean, cleaned, is_clean, is_term_char, is_whitespace_char,
    keeps, lemma_clean_identity, lemma_offset_monotone, lemma_offset_step, lemma_run_continues,
    lemma_run_end, lemma_word_not_empty, slice, tokens, tokens_from, word_end, word_start,
    words_from,
};

verus! {

/// A position in a text, held as the byte offset at which the next character
/// starts.
pub struct Scanner<'a> {
    input: &'a str,
    cursor: usize,
    pos: Ghost<int>,
}

/// What one step of a tokenizer does to the text `text` when it starts at
/// position `from`: the token it yields, if any, and the position it stops
/// at.
pub open spec fn next_token_of(text: Seq<char>, from: int, permissive: bool) -> (
    Option<Seq<char>>,
    int,
) {
    let start = word_start(text, from);
    let end = word_end(text, start);
    if start < text.len() {
        (Some(clean(text.subrange(start, end), permissive)), end)
    } else {
        (None, start)
    }
}

/// The tokens from a position on are the next token followed by the tokens
/// from where it ended, and none once the next token is missing.
pub proof fn lemma_tokens_unfold(text: Seq<char>, from: int, permissive: bool)
    requires
        0 <= from <= text.len(),
    ensures
        from <= next_token_of(text, from, permissive).1 <= text.len(),
        tokens_from(text, from, permissive) == match next_token_of(text, from, permissive).0 {
            Some(token) => seq![token] + tokens_from(
                text,
                next_token_of(text, from, permissive).1,
                permissive,
            ),
            None => Seq::empty(),
        },
        next_token_of(text, from, permissive).0 is Some ==> from < next_token_of(
            text,
            from,
            permissive,
        ).1,
{
    lemma_run_end(text, from, true);
    if word_start(text, from) < text.len() {
        lemma_word_not_empty(text, from);
    }
}

impl<'a> Scanner<'a> {
    /// The cursor is the byte offset of a position of the text.
    pub closed spec fn wf(&self) -> bool {
        &&& 0 <= self.pos@ <= self.input@.len()
        &&& self.cursor == byte_offset(self.input@, self.pos@)
        &&& encode_utf8(self.input@).len() <= usize::MAX
    }

    /// The text that is scanned.
    pub closed spec fn text(&self) -> Seq<char> {
        self.input@
    }

    /// The number of characters that lie behind the cursor.
    pub closed spec fn position(&self) -> int {
        self.pos@
    }

    /// A well-formed scanner stands inside its text, and the text is no
    /// longer than a `usize` can count.
    pub proof fn lemma_position_in_text(&self)
        requires
            self.wf(),
        ensures
            0 <= self.position() <= self.text().len() <= usize::MAX,
    {
        lemma_offset_monotone(self.input@, 0, self.input@.len() as int);
    }

    /// A scanner at the start of `input`.
    pub fn new(input: &'a str) -> (scanner: Self)
        ensures
            scanner.wf(),
            scanner.text() == input@,
            scanner.position() == 0,
    {
        // No text is longer than `usize::MAX` bytes; asking for the length
        // is what tells the verifier so.
        let _limit = byte_len(input);
        proof {
            lemma_offset_monotone(input@, 0, 0);
        }
        Scanner { input, cursor: 0, pos: Ghost(0) }
    }

    /// A scanner at the start of the same text.
    pub fn rewound(&self) -> (scanner: Self)
        requires
            self.wf(),
        ensures
            scanner.wf(),
            scanner.text() == self.text(),
            scanner.position() == 0,
    {
        proof {
            lemma_offset_monotone(self.input@, 0, 0);
        }
        Scanner { input: self.input, cursor: 0, pos: Ghost(0) }
    }

    /// The character under the cursor, `None` at the end of the text.
    pub fn peek_char(&self) -> (c: Option<char>)
        requires
            self.wf(),
        ensures
            c == if self.position() < self.text().len() {
                Some(self.text()[self.position()])
            } else {
                None
            },
    {
        char_at(self.input, self.cursor, Ghost(self.pos@))
    }

    /// Moves the cursor over `c`, the character under it.
    fn advance(&mut self, c: char)
        requires
            old(self).wf(),
            old(self).position() < old(self).text().len(),
            c == old(self).text()[old(self).position()],
        ensures
            final(self).wf(),
            final(self).text() == old(self).text(),
            final(self).position() == old(self).position() + 1,
    {
        proof {
            lemma_offset_step(self.input@, self.pos@);
            lemma_offset_monotone(self.input@, self.pos@ + 1, self.input@.len() as int);
        }
        self.cursor = self.cursor + c.len_utf8();
        self.pos = Ghost(self.pos@ + 1);
    }

    /// The character under the cursor, and the cursor behind it; `None`,
    /// with the cursor unmoved, at the end of the text.
    pub fn next_char(&mut self) -> (c: Option<char>)
        requires
            old(self).wf(),
        ensures
            final(self).wf(),
            final(self).text() == old(self).text(),
            c == if old(self).position() < old(self).text().len() {
                Some(old(self).text()[old(self).position()])
            } else {
                None
            },
            final(self).position() == if c is Some {
                old(self).position() + 1
            } else {
                old(self).position()
            },
    {
        let c = self.peek_char();
        if let Some(found) = c {
            self.advance(found);
        }
        c
    }

    /// Moves the cursor to the next character that is not whitespace, or to
    /// the end of the text.
    pub fn skip_whitespace(&mut self)
        requires
            old(self).wf(),
        ensures
            final(self).wf(),
            final(self).text() == old(self).text(),
            final(self).position() == word_start(old(self).text(), old(self).position()),
    {
        let ghost text = self.input@;
        let ghost from = self.pos@;
        loop
            invariant
                self.wf(),
                self.input@ == text,
                0 <= from <= self.pos@ <= text.len(),
                forall|j: int| from <= j < self.pos@ ==> is_whitespace_char(#[trigger] text[j]),
            ensures
                self.wf(),
                self.input@ == text,
                self.pos@ == word_start(text, from),
            decreases text.len() - self.pos@,
        {
            proof {
                lemma_run_continues(text, from, self.pos@, true);
            }
            match self.peek_char() {
                Some(c) => {
                    if c.is_whitespace() {
                        self.advance(c);
                    } else {
                        break ;
                    }
                },
                None => {
                    break ;
                },
            }
        }
    }

    /// Moves the cursor to the next whitespace character, or to the end of
    /// the text, and tells whether a term keeps every character passed.
    pub fn skip_word(&mut self, permissive: bool) -> (kept: bool)
        requires
            old(self).wf(),
        ensures
            final(self).wf(),
            final(self).text() == old(self).text(),
            final(self).position() == word_end(old(self).text(), old(self).position()),
            kept == is_clean(
                old(self).text().subrange(old(self).position(), final(self).position()),
                permissive,
            ),
    {
        let ghost text = self.input@;
        let ghost from = self.pos@;
        let mut kept = true;
        loop
            invariant
                self.wf(),
                self.input@ == text,
                0 <= from <= self.pos@ <= text.len(),
                forall|j: int| from <= j < self.pos@ ==> !is_whitespace_char(#[trigger] text[j]),
                kept == is_clean(text.subrange(from, self.pos@), permissive),
            ensures
                self.wf(),
                self.input@ == text,
                0 <= from <= self.pos@ <= text.len(),
                self.pos@ == word_end(text, from),
                kept == is_clean(text.subrange(from, self.pos@), permissive),
            decreases text.len() - self.pos@,
        {
            proof {
                lemma_run_continues(text, from, self.pos@, false);
            }
            match self.peek_char() {
                Some(c) => {
                    if c.is_whitespace() {
                        break ;
                    }
                    let ghost before = text.subrange(from, self.pos@);
                    let ghost after = text.subrange(from, self.pos@ + 1);
                    proof {
                        assert(after =~= before.push(c));
                        if is_clean(after, permissive) {
                            assert forall|i: int| 0 <= i < before.len() implies is_term_char(
                                #[trigger] before[i],
                                permissive,
                            ) by {
                                assert(before[i] == after[i]);
                            }
                            assert(after[after.len() - 1] == c);
                        }
                    }
                    if !keeps(c, permissive) {
                        kept = false;
                    }
                    self.advance(c);
                },
                None => {
                    break ;
                },
            }
        }
        kept
    }

    /// The next token of the text and the cursor behind it; `None`, with the
    /// cursor at the end of the text, when only whitespace is left.
    ///
    /// A span that a term keeps whole is handed out as a borrow of the text;
    /// any other span is copied without the characters that the term drops.
    pub fn next_token(&mut self, permissive: bool) -> (token: Option<Cow<'a, str>>)
        requires
            old(self).wf(),
        ensures
            final(self).wf(),
            final(self).text() == old(self).text(),
            final(self).position() == next_token_of(
                old(self).text(),
                old(self).position(),
                permissive,
            ).1,
            match token {
                Some(term) => Some(term@) == next_token_of(
                    old(self).text(),
                    old(self).position(),
                    permissive,
                ).0,
                None => next_token_of(old(self).text(), old(self).position(), permissive).0 is None,
            },
            token matches Some(term) ==> (term matches Cow::Borrowed(_) <==> is_clean(
                old(self).text().subrange(
                    word_start(old(self).text(), old(self).position()),
                    final(self).position(),
                ),
                permissive,
            )),
    {
        let ghost text = self.input@;
        let ghost origin = self.pos@;
        self.skip_whitespace();
        let start = self.cursor;
        let ghost from = self.pos@;
        let kept = self.skip_word(permissive);
        proof {
            lemma_run_end(text, origin, true);
            lemma_run_end(text, from, false);
            lemma_offset_monotone(text, from, self.pos@);
            if from < text.len() {
                lemma_word_not_empty(text, origin);
            }
            lemma_clean_identity(text.subrange(from, self.pos@), permissive);
        }
        if start != self.cursor {
            if kept {
                Some(Cow::Borrowed(slice(self.input, start, self.cursor, Ghost(from), Ghost(self.pos@))))
            } else {
                Some(
                    Cow::Owned(
                        cleaned(
                            self.input,
                            start,
                            self.cursor,
                            permissive,
                            Ghost(from),
                            Ghost(self.pos@),
                        ),
                    ),
                )
            }
        } else {
            None
        }
    }

    /// The next word of the text as it stands, and the cursor behind it;
    /// `None`, with the cursor at the end of the text, when only whitespace
    /// is left.
    pub fn next_word(&mut self) -> (word: Option<&'a str>)
        requires
            old(self).wf(),
        ensures
            final(self).wf(),
            final(self).text() == old(self).text(),
            match word {
                Some(span) => old(self).position() < final(self).position() && words_from(
                    old(self).text(),
                    old(self).position(),
                ) == seq![span@] + words_from(old(self).text(), final(self).position()),
                None => words_from(old(self).text(), old(self).position()) == Seq::<
                    Seq<char>,
                >::empty(),
            },
    {
        let ghost text = self.input@;
        let ghost origin = self.pos@;
        self.skip_whitespace();
        let start = self.cursor;
        let ghost from = self.pos@;
        self.skip_word(false);
        proof {
            lemma_run_end(text, origin, true);
            lemma_run_end(text, from, false);
            lemma_offset_monotone(text, from, self.pos@);
            if from < text.len() {
                lemma_word_not_empty(text, origin);
            }
        }
        if start != self.cursor {
            Some(slice(self.input, start, self.cursor, Ghost(from), Ghost(self.pos@)))
        } else {
            None
        }
    }

    /// The number of tokens in the whole text, wherever the cursor stands.
    pub fn count_tokens(&self, permissive: bool) -> (n: usize)
        requires
            self.wf(),
        ensures
            n == tokens(self.text(), permissive).len(),
    {
        let ghost text = self.input@;
        let mut scanner = self.rewound();
        let mut n: usize = 0;
        loop
            invariant
                scanner.wf(),
                scanner.input@ == text,
                n <= scanner.pos@,
                n + tokens_from(text, scanner.pos@, permissive).len() == tokens(
                    text,
                    permissive,
                ).len(),
            ensures
                n == tokens(text, permissive).len(),
            decreases text.len() - scanner.pos@,
        {
            let ghost from = scanner.pos@;
            proof {
                lemma_tokens_unfold(text, from, permissive);
                lemma_offset_monotone(text, 0, text.len() as int);
            }
            scanner.skip_whitespace();
            if scanner.peek_char().is_none() {
                break ;
            }
            scanner.skip_word(permissive);
            n = n + 1;
        }
        n
    }
}

} // verus!
