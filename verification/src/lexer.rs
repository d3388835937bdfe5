//! The permissive tokenizer: terms may hold apostrophes besides letters and
//! numbers.

use std::borrow::Cow;
use vstd::prelude::*;
use crate::scanner::{lemma_tokens_unfold, next_token_of, Scanner};
use crate::text::{is_clean, tokens, tokens_from, word_start};

verus! {

/// A tokenizer over one text that keeps letters, numbers and apostrophes and
/// drops every other character of a word.
pub struct Lexer<'a> {
    scanner: Scanner<'a>,
}

impl<'a> Lexer<'a> {
    /// The cursor stands at a character boundary of the text.
    pub closed spec fn wf(&self) -> bool {
        self.scanner.wf()
    }

    /// The text that is tokenized.
    pub closed spec fn text(&self) -> Seq<char> {
        self.scanner.text()
    }

    /// The number of characters that lie behind the cursor.
    pub closed spec fn position(&self) -> int {
        self.scanner.position()
    }

    /// The terms that are still to come, in the order in which
    /// [`Lexer::next_token`] yields them.
    pub open spec fn remaining(&self) -> Seq<Seq<char>> {
        tokens_from(self.text(), self.position(), true)
    }

    /// A well-formed tokenizer stands inside its text, and the text is no
    /// longer than a `usize` can count.
    pub proof fn lemma_position_in_text(&self)
        requires
            self.wf(),
        ensures
            0 <= self.position() <= self.text().len() <= usize::MAX,
    {
        self.scanner.lemma_position_in_text();
    }

    /// A tokenizer at the start of `input`; everything is still to come.
    pub fn new(input: &'a str) -> (lexer: Self)
        ensures
            lexer.wf(),
            lexer.text() == input@,
            lexer.position() == 0,
            lexer.remaining() == tokens(input@, true),
    {
        Lexer { scanner: Scanner::new(input) }
    }

    /// Moves the cursor to the next character that is not whitespace, or to
    /// the end of the text. The terms still to come stay the same.
    pub fn skip_whitespace(&mut self)
        requires
            old(self).wf(),
        ensures
            final(self).wf(),
            final(self).text() == old(self).text(),
            final(self).position() == word_start(old(self).text(), old(self).position()),
    {
        self.scanner.skip_whitespace();
    }

    /// The character under the cursor, `None` at the end of the text.
    pub fn peek_char(&self) -> (c: Option<char>)
        requires
            self.wf(),
        ensures
            c == if 0 <= self.position() < self.text().len() {
                Some(self.text()[self.position()])
            } else {
                None
            },
    {
        proof {
            self.scanner.lemma_position_in_text();
        }
        self.scanner.peek_char()
    }

    /// The next term, or `None` when only whitespace is left.
    ///
    /// The tokenizer skips whitespace and takes the maximal run of other
    /// characters that follows. Of that run it keeps the
    /// letters, numbers and apostrophes, in their order.
    /// A run without any such character gives the empty term. A run that is
    /// kept whole is handed out as a borrow of the text, any other as a
    /// fresh string.
    pub fn next_token(&mut self) -> (token: Option<Cow<'a, str>>)
        requires
            old(self).wf(),
        ensures
            final(self).wf(),
            final(self).text() == old(self).text(),
            final(self).position() == next_token_of(
                old(self).text(),
                old(self).position(),
                true,
            ).1,
            match token {
                Some(term) => {
                    &&& Some(term@) == next_token_of(
                        old(self).text(),
                        old(self).position(),
                        true,
                    ).0
                    &&& old(self).remaining() == seq![term@] + final(self).remaining()
                    &&& old(self).position() < final(self).position()
                    &&& (term matches Cow::Borrowed(_)) <==> is_clean(
                        old(self).text().subrange(
                            word_start(old(self).text(), old(self).position()),
                            final(self).position(),
                        ),
                        true,
                    )
                },
                None => {
                    &&& next_token_of(old(self).text(), old(self).position(), true).0 is None
                    &&& old(self).remaining() == Seq::<Seq<char>>::empty()
                    &&& final(self).position() == final(self).text().len()
                },
            },
    {
        proof {
            self.scanner.lemma_position_in_text();
            lemma_tokens_unfold(self.scanner.text(), self.scanner.position(), true);
        }
        self.scanner.next_token(true)
    }
}

} // verus!
