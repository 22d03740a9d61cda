use sniffer::derivation_tree::split_at_first;
use sniffer::repl::{derivation_trees, handle_command, read_command, Command, CommandResult, Reply};
use sniffer::saturation::Sniffer;
use sniffer::Parser;

const SOURCE: &str = "att(senc(X,Y)) /\\ att(Y) => att(X). att(k). att(senc(m,k)).";

fn result(reply: Reply) -> Option<CommandResult> {
    match reply {
        Reply::Done(r) => Some(r),
        _ => None,
    }
}

#[test]
fn commands_are_read_by_name() {
    assert_eq!(read_command("load"), Command::Load);
    assert_eq!(read_command("query"), Command::Query);
    assert_eq!(read_command("rules"), Command::Rules);
    assert_eq!(read_command("derivation"), Command::Derivation);
    assert_eq!(read_command("quit"), Command::Quit);
    assert_eq!(read_command("Quit"), Command::Unknown);
    assert_eq!(read_command(""), Command::Unknown);
}

#[test]
fn commands_without_the_engine() {
    let mut sniffer = Sniffer::default();
    assert_eq!(result(handle_command("quit", "", &mut sniffer, 10)), Some(CommandResult::Quit));
    assert_eq!(
        result(handle_command("help", "", &mut sniffer, 10)),
        Some(CommandResult::UnknownCommand)
    );
    match handle_command("load", "some file.pif", &mut sniffer, 10) {
        Reply::Load(path) => assert_eq!(path, "some file.pif"),
        _ => panic!("load gives the path back"),
    }
}

#[test]
fn query_command() {
    let mut sniffer = Sniffer::new(SOURCE).unwrap();
    assert_eq!(
        result(handle_command("query", "att(m)", &mut sniffer, 100)),
        Some(CommandResult::ParsingError)
    );
    assert_eq!(
        result(handle_command("query", "att(zzz).", &mut sniffer, 100)),
        Some(CommandResult::NotFoundQuery)
    );
    match handle_command("query", "att(m).", &mut sniffer, 100) {
        Reply::Trees(trees) => {
            assert_eq!(trees.len(), 1);
            assert_eq!(trees[0].root().to_string(), "att(m)");
            assert_eq!(trees[0].subtrees().len(), 2);
        }
        _ => panic!("the query is derivable"),
    }
}

#[test]
fn rules_and_derivation_commands() {
    let mut sniffer = Sniffer::new("att(k). att(senc(m,k)).").unwrap();
    match handle_command("rules", "", &mut sniffer, 0) {
        Reply::Text(text) => assert_eq!(text, "att(k)\natt(senc(m, k))"),
        _ => panic!("rules gives a text"),
    }
    match handle_command("derivation", "", &mut sniffer, 0) {
        Reply::Trees(trees) => assert_eq!(trees.len(), 2),
        _ => panic!("derivation gives trees"),
    }
    match handle_command("derivation", "att(k). att(other).", &mut sniffer, 0) {
        Reply::Trees(trees) => {
            assert_eq!(trees.len(), 1);
            assert_eq!(trees[0].root().to_string(), "att(k)");
        }
        _ => panic!("derivation gives trees"),
    }
    assert_eq!(
        result(handle_command("derivation", "att(k", &mut sniffer, 0)),
        Some(CommandResult::ParsingError)
    );
    let rules = Parser::parse_rules("att(senc(m,k)).").unwrap();
    assert_eq!(derivation_trees(&sniffer, &rules).len(), 1);
}

#[test]
fn a_label_is_split_at_the_selected_atom() {
    let parts = split_at_first("att(k) /\\ att(k) => att(m)", "att(k)");
    assert_eq!((parts.before.as_str(), parts.selected.as_str(), parts.after.as_str()), ("", "att(k)", " /\\ att(k) => att(m)"));
    let parts = split_at_first("att(a) => att(m)", "att(m)");
    assert_eq!((parts.before.as_str(), parts.selected.as_str(), parts.after.as_str()), ("att(a) => ", "att(m)", ""));
    let parts = split_at_first("att(a)", "att(b)");
    assert_eq!((parts.before.as_str(), parts.selected.as_str(), parts.after.as_str()), ("att(a)", "", ""));
    let parts = split_at_first("att(a)", "");
    assert_eq!((parts.before.as_str(), parts.selected.as_str(), parts.after.as_str()), ("att(a)", "", ""));
    let parts = split_at_first("ab", "abc");
    assert_eq!((parts.before.as_str(), parts.selected.as_str(), parts.after.as_str()), ("ab", "", ""));
    let mut sniffer = Sniffer::new(SOURCE).unwrap();
    let query = Parser::parse_query("att(m).").unwrap();
    let tree = sniffer.find(&query, 100).unwrap();
    let parts = tree.subtrees()[0].highlight();
    assert_eq!((parts.before.as_str(), parts.selected.as_str(), parts.after.as_str()), ("", "att(k)", " => att(m)"));
}
