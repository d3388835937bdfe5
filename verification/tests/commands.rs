use recon::commands::{next_action, split_words, Action, Complaint};

fn query(line: &str) -> Vec<String> {
    match next_action(line, false) {
        Action::Query(terms) => terms,
        other => panic!("no query: {other:?}"),
    }
}

#[test]
fn lines_are_split_at_whitespace() {
    assert_eq!(split_words("  load_ii\tindex.json \n"), vec!["load_ii", "index.json"]);
    assert_eq!(split_words("a"), vec!["a"]);
    assert_eq!(split_words("x, y!"), vec!["x,", "y!"]);
    assert!(split_words("").is_empty());
    assert!(split_words(" \n").is_empty());
}

#[test]
fn empty_line_asks_for_nothing() {
    assert!(matches!(next_action("", false), Action::Nothing));
    assert!(matches!(next_action("   \n", true), Action::Nothing));
}

#[test]
fn load_takes_a_file_name() {
    assert!(matches!(next_action("load_ii index.json\n", true), Action::Load(name) if name == "index.json"));
    assert!(matches!(next_action("l a b\n", false), Action::Load(name) if name == "a"));
    assert!(matches!(
        next_action("load_ii\n", true),
        Action::Complain(Complaint::MissingFilename)
    ));
}

#[test]
fn build_takes_no_argument() {
    assert!(matches!(next_action("build_ii\n", true), Action::Build));
    assert!(matches!(next_action(" b ", false), Action::Build));
    assert!(matches!(
        next_action("b now\n", true),
        Action::Complain(Complaint::UnexpectedToken(token)) if token == "now"
    ));
}

#[test]
fn save_without_a_file_name_does_nothing() {
    assert!(matches!(next_action("save_ii out.json\n", false), Action::Save(name) if name == "out.json"));
    assert!(matches!(next_action("s out.json\n", true), Action::Save(name) if name == "out.json"));
    assert!(matches!(next_action("s\n", false), Action::Nothing));
}

#[test]
fn prune_hands_the_threshold_on_as_typed() {
    assert!(matches!(next_action("prune_ii 0.5\n", false), Action::Prune(t) if t == "0.5"));
    assert!(matches!(next_action("p x\n", false), Action::Prune(t) if t == "x"));
    assert!(matches!(
        next_action("p\n", false),
        Action::Complain(Complaint::MissingThreshold)
    ));
}

#[test]
fn query_terms_are_normalized() {
    assert_eq!(query("query Cat\n"), vec!["cat"]);
    assert_eq!(query("? The CAT'S hat! ...\n"), vec!["the", "cats", "hat", ""]);
}

#[test]
fn query_needs_an_index_and_a_term() {
    assert!(matches!(next_action("query cat\n", true), Action::Complain(Complaint::NoIndex)));
    assert!(matches!(next_action("?\n", true), Action::Complain(Complaint::NoIndex)));
    assert!(matches!(next_action("query\n", false), Action::Complain(Complaint::MissingQuery)));
}

#[test]
fn help_exit_and_the_rest() {
    assert!(matches!(next_action("help\n", true), Action::Help));
    assert!(matches!(next_action("h me\n", true), Action::Help));
    assert!(matches!(next_action("exit\n", true), Action::Exit));
    assert!(matches!(next_action("e\n", false), Action::Exit));
    assert!(matches!(
        next_action("Load x\n", true),
        Action::Complain(Complaint::UnknownCommand)
    ));
    assert!(matches!(
        next_action("quit\n", false),
        Action::Complain(Complaint::UnknownCommand)
    ));
}
