//! What a line typed at the prompt asks for.
//!
//! The prompt itself, reading and printing, is the caller's. This module
//! decides: given the line and whether an index is there, what is to be
//! done next.

use vstd::prelude::*;
use vstd::string::StringExecFns;
use crate::scanner::Scanner;
use crate::text::{clean, lowercase_text, normalize_term, words_from};

verus! {

/// Why a line is turned down.
#[derive(Debug)]
pub enum Complaint {
    /// `load_ii` without a file name.
    MissingFilename,
    /// `build_ii` with an argument, which is given.
    UnexpectedToken(String),
    /// `prune_ii` without a threshold.
    MissingThreshold,
    /// `query` while the index holds no term.
    NoIndex,
    /// `query` without a term.
    MissingQuery,
    /// A first word that is no command.
    UnknownCommand,
}

/// What the caller is to do next.
#[derive(Debug)]
pub enum Action {
    /// Nothing: the line holds no word, or `save_ii` came without a file
    /// name.
    Nothing,
    /// Load the index from the named file.
    Load(String),
    /// Build the index from the corpus.
    Build,
    /// Save the index to the named file.
    Save(String),
    /// Prune the index; the threshold is given as it was typed.
    Prune(String),
    /// Query the index for the terms, which are normalized.
    Query(Vec<String>),
    /// Print the manual.
    Help,
    /// Leave.
    Exit,
    /// Tell the user what is wrong with the line.
    Complain(Complaint),
}

/// A [`Complaint`] as a mathematical value.
pub enum ComplaintView {
    MissingFilename,
    UnexpectedToken(Seq<char>),
    MissingThreshold,
    NoIndex,
    MissingQuery,
    UnknownCommand,
}

/// An [`Action`] as a mathematical value.
pub enum ActionView {
    Nothing,
    Load(Seq<char>),
    Build,
    Save(Seq<char>),
    Prune(Seq<char>),
    Query(Seq<Seq<char>>),
    Help,
    Exit,
    Complain(ComplaintView),
}

impl View for Complaint {
    type V = ComplaintView;

    open spec fn view(&self) -> ComplaintView {
        match self {
            Complaint::MissingFilename => ComplaintView::MissingFilename,
            Complaint::UnexpectedToken(token) => ComplaintView::UnexpectedToken(token@),
            Complaint::MissingThreshold => ComplaintView::MissingThreshold,
            Complaint::NoIndex => ComplaintView::NoIndex,
            Complaint::MissingQuery => ComplaintView::MissingQuery,
            Complaint::UnknownCommand => ComplaintView::UnknownCommand,
        }
    }
}

impl View for Action {
    type V = ActionView;

    open spec fn view(&self) -> ActionView {
        match self {
            Action::Nothing => ActionView::Nothing,
            Action::Load(name) => ActionView::Load(name@),
            Action::Build => ActionView::Build,
            Action::Save(name) => ActionView::Save(name@),
            Action::Prune(threshold) => ActionView::Prune(threshold@),
            Action::Query(terms) => ActionView::Query(Seq::new(terms@.len(), |i: int| terms@[i]@)),
            Action::Help => ActionView::Help,
            Action::Exit => ActionView::Exit,
            Action::Complain(complaint) => ActionView::Complain(complaint@),
        }
    }
}

/// Words as their characters.
pub open spec fn word_views(words: Seq<&str>) -> Seq<Seq<char>> {
    Seq::new(words.len(), |i: int| words[i]@)
}

/// The query terms that stand behind the command word: every further word,
/// lowercased and without the characters that a strict tokenizer drops. A
/// word of which nothing is left gives the empty term.
pub open spec fn query_terms(words: Seq<Seq<char>>) -> Seq<Seq<char>> {
    Seq::new((words.len() - 1) as nat, |i: int| clean(lowercase_text(words[i + 1]), false))
}

/// What the words of a line ask for. The first word is the command, in its
/// long or its short form; what a command needs stands behind it, and what
/// it does not need is ignored, except by `build_ii`.
pub open spec fn action_of(words: Seq<Seq<char>>, index_is_empty: bool) -> ActionView {
    if words.len() == 0 {
        ActionView::Nothing
    } else if words[0] == "load_ii"@ || words[0] == "l"@ {
        if words.len() > 1 {
            ActionView::Load(words[1])
        } else {
            ActionView::Complain(ComplaintView::MissingFilename)
        }
    } else if words[0] == "build_ii"@ || words[0] == "b"@ {
        if words.len() > 1 {
            ActionView::Complain(ComplaintView::UnexpectedToken(words[1]))
        } else {
            ActionView::Build
        }
    } else if words[0] == "save_ii"@ || words[0] == "s"@ {
        if words.len() > 1 {
            ActionView::Save(words[1])
        } else {
            ActionView::Nothing
        }
    } else if words[0] == "prune_ii"@ || words[0] == "p"@ {
        if words.len() > 1 {
            ActionView::Prune(words[1])
        } else {
            ActionView::Complain(ComplaintView::MissingThreshold)
        }
    } else if words[0] == "query"@ || words[0] == "?"@ {
        if index_is_empty {
            ActionView::Complain(ComplaintView::NoIndex)
        } else if words.len() > 1 {
            ActionView::Query(query_terms(words))
        } else {
            ActionView::Complain(ComplaintView::MissingQuery)
        }
    } else if words[0] == "help"@ || words[0] == "h"@ {
        ActionView::Help
    } else if words[0] == "exit"@ || words[0] == "e"@ {
        ActionView::Exit
    } else {
        ActionView::Complain(ComplaintView::UnknownCommand)
    }
}

/// The words of a line, each a borrow of the line.
pub fn split_words<'a>(line: &'a str) -> (words: Vec<&'a str>)
    ensures
        word_views(words@) == words_from(line@, 0),
{
    let mut scanner = Scanner::new(line);
    let mut words: Vec<&'a str> = Vec::new();
    proof {
        assert(word_views(words@) + words_from(line@, 0) =~= words_from(line@, 0));
    }
    loop
        invariant_except_break
            word_views(words@) + words_from(line@, scanner.position()) == words_from(line@, 0),
        invariant
            scanner.wf(),
            scanner.text() == line@,
        ensures
            word_views(words@) == words_from(line@, 0),
        decreases line@.len() - scanner.position(),
    {
        let ghost before = word_views(words@);
        proof {
            scanner.lemma_position_in_text();
        }
        match scanner.next_word() {
            Some(word) => {
                words.push(word);
                proof {
                    scanner.lemma_position_in_text();
                    assert(word_views(words@) =~= before.push(word@));
                    assert(word_views(words@) + words_from(line@, scanner.position()) =~= before
                        + (seq![word@] + words_from(line@, scanner.position())));
                }
            },
            None => {
                proof {
                    assert(before + Seq::<Seq<char>>::empty() =~= before);
                }
                break ;
            },
        }
    }
    words
}

/// What a line asks for, given whether the index holds no term.
pub fn next_action(line: &str, index_is_empty: bool) -> (action: Action)
    ensures
        action@ == action_of(words_from(line@, 0), index_is_empty),
{
    let words = split_words(line);
    let ghost views = word_views(words@);
    if words.len() == 0 {
        return Action::Nothing;
    }
    let command = words[0];
    assert(views[0] == command@);
    if words.len() > 1 {
        assert(views[1] == words@[1]@);
    }
    if command.eq("load_ii") || command.eq("l") {
        if words.len() > 1 {
            Action::Load(String::from_str(words[1]))
        } else {
            Action::Complain(Complaint::MissingFilename)
        }
    } else if command.eq("build_ii") || command.eq("b") {
        if words.len() > 1 {
            Action::Complain(Complaint::UnexpectedToken(String::from_str(words[1])))
        } else {
            Action::Build
        }
    } else if command.eq("save_ii") || command.eq("s") {
        if words.len() > 1 {
            Action::Save(String::from_str(words[1]))
        } else {
            Action::Nothing
        }
    } else if command.eq("prune_ii") || command.eq("p") {
        if words.len() > 1 {
            Action::Prune(String::from_str(words[1]))
        } else {
            Action::Complain(Complaint::MissingThreshold)
        }
    } else if command.eq("query") || command.eq("?") {
        if index_is_empty {
            Action::Complain(Complaint::NoIndex)
        } else if words.len() > 1 {
            let mut terms: Vec<String> = Vec::new();
            let mut i: usize = 1;
            while i < words.len()
                invariant
                    1 <= i <= words.len(),
                    views == word_views(words@),
                    terms@.len() == i - 1,
                    forall|k: int|
                        0 <= k < i - 1 ==> (#[trigger] terms@[k])@ == query_terms(views)[k],
                decreases words.len() - i,
            {
                assert(views[i as int] == words@[i as int]@);
                terms.push(normalize_term(words[i]));
                i = i + 1;
            }
            let action = Action::Query(terms);
            assert(action@ =~= ActionView::Query(query_terms(views))) by {
                assert(Seq::new(terms@.len(), |k: int| terms@[k]@) =~= query_terms(views));
            }
            action
        } else {
            Action::Complain(Complaint::MissingQuery)
        }
    } else if command.eq("help") || command.eq("h") {
        Action::Help
    } else if command.eq("exit") || command.eq("e") {
        Action::Exit
    } else {
        Action::Complain(Complaint::UnknownCommand)
    }
}

} // verus!
