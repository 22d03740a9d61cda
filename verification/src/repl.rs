//! What the commands of the interactive loop do to the engine, and what
//! is to be shown for each.
use vstd::prelude::*;
use vstd::string::StringExecFns;
use crate::ast::{rules_surface_view, Rule, SRule};
use crate::derivation_tree::{DerivationTree, TreeModel};
use crate::lexer::lex;
use crate::naming::{identified_rule, known_rule};
use crate::parser::{query_of, rules_of, Parser};
use crate::render::join;
use crate::saturation::{
    after_query, answer, children, named_rules, rules_text, sniffer_wf, trees_view, Sniffer,
    SnifferModel,
};
use crate::sizes::atom_size;

verus! {

/// How a command ended.
#[derive(Debug, PartialEq, Eq, Clone, Copy)]
pub enum CommandResult {
    OkCommand,
    ParsingError,
    UnknownCommand,
    Quit,
    FileError,
    NotFoundQuery,
}

/// A command of the interactive loop.
#[derive(Debug, PartialEq, Eq, Clone, Copy, Structural)]
pub enum Command {
    /// Replace the clause set by the clauses of a file.
    Load,
    /// Look for a derivation of an atom.
    Query,
    /// Show the clauses of the set.
    Rules,
    /// Show the derivation trees of clauses.
    Derivation,
    /// Leave.
    Quit,
    /// Anything else.
    Unknown,
}

/// The command that a word names.
pub open spec fn command_of(word: Seq<char>) -> Command {
    if word == seq!['l', 'o', 'a', 'd'] {
        Command::Load
    } else if word == seq!['q', 'u', 'e', 'r', 'y'] {
        Command::Query
    } else if word == seq!['r', 'u', 'l', 'e', 's'] {
        Command::Rules
    } else if word == seq!['d', 'e', 'r', 'i', 'v', 'a', 't', 'i', 'o', 'n'] {
        Command::Derivation
    } else if word == seq!['q', 'u', 'i', 't'] {
        Command::Quit
    } else {
        Command::Unknown
    }
}

/// The command that a word names.
pub fn read_command(word: &str) -> (c: Command)
    ensures
        c == command_of(word@),
{
    proof {
        reveal_strlit("load");
        reveal_strlit("query");
        reveal_strlit("rules");
        reveal_strlit("derivation");
        reveal_strlit("quit");
        assert("load"@ =~= seq!['l', 'o', 'a', 'd']);
        assert("query"@ =~= seq!['q', 'u', 'e', 'r', 'y']);
        assert("rules"@ =~= seq!['r', 'u', 'l', 'e', 's']);
        assert("derivation"@ =~= seq!['d', 'e', 'r', 'i', 'v', 'a', 't', 'i', 'o', 'n']);
        assert("quit"@ =~= seq!['q', 'u', 'i', 't']);
    }
    let w = String::from_str(word);
    if w == String::from_str("load") {
        Command::Load
    } else if w == String::from_str("query") {
        Command::Query
    } else if w == String::from_str("rules") {
        Command::Rules
    } else if w == String::from_str("derivation") {
        Command::Derivation
    } else if w == String::from_str("quit") {
        Command::Quit
    } else {
        Command::Unknown
    }
}

/// What is to be done for a command once the engine has done its part.
pub enum Reply {
    /// Read the named file and replace the engine by its clauses.
    Load(String),
    /// Show the trees.
    Trees(Vec<DerivationTree>),
    /// Show the text.
    Text(String),
    /// Nothing to show; the result says why.
    Done(CommandResult),
}

/// The derivation trees of the clauses whose names are all known, in the
/// order of the clauses.
pub open spec fn trees_of(rules: Seq<SRule>, m: SnifferModel) -> Seq<TreeModel>
    decreases rules.len(),
{
    if rules.len() == 0 {
        Seq::empty()
    } else if known_rule(rules.last(), m.server) {
        trees_of(rules.drop_last(), m).push(
            TreeModel {
                root: rules.last(),
                subtrees: children(
                    m.derived,
                    m.server,
                    identified_rule(rules.last(), m.server),
                    m.derived.len(),
                ),
                selection: None,
            },
        )
    } else {
        trees_of(rules.drop_last(), m)
    }
}

/// The derivation trees of the given clauses; a clause with a name that is
/// not known has none.
pub fn derivation_trees(sniffer: &Sniffer, rules: &Vec<Rule<String>>) -> (r: Vec<DerivationTree>)
    ensures
        trees_view(r@) == trees_of(rules_surface_view(rules@), sniffer@),
{
    let ghost all = rules_surface_view(rules@);
    let mut out: Vec<DerivationTree> = Vec::new();
    let mut i: usize = 0;
    assert(all.subrange(0, 0) =~= Seq::<SRule>::empty());
    assert(trees_view(out@) =~= Seq::<TreeModel>::empty());
    while i < rules.len()
        invariant
            i <= rules.len(),
            all == rules_surface_view(rules@),
            trees_view(out@) == trees_of(all.subrange(0, i as int), sniffer@),
        decreases rules.len() - i,
    {
        proof {
            assert(all.subrange(0, i as int + 1).drop_last() =~= all.subrange(0, i as int));
            assert(all.subrange(0, i as int + 1).last() == rules[i as int]@);
        }
        match sniffer.derivation_tree(&rules[i]) {
            Some(tree) => {
                let ghost before = trees_view(out@);
                out.push(tree);
                assert(trees_view(out@) =~= before.push(tree@));
            },
            None => {},
        }
        i += 1;
    }
    assert(all.subrange(0, i as int) =~= all);
    out
}

/// Does the engine's part of a command, with the rest of the line as its
/// argument, and says what is to be shown. A query is given at most
/// `max_steps` steps of saturation; one that is too large for the symbol
/// table is answered as a parsing error.
pub fn handle_command(command: &str, query: &str, sniffer: &mut Sniffer, max_steps: usize) -> (r:
    Reply)
    requires
        sniffer_wf(old(sniffer)@),
    ensures
        sniffer_wf(final(sniffer)@),
        match command_of(command@) {
            Command::Load => r matches Reply::Load(path) && path@ == query@ && final(sniffer)@
                == old(sniffer)@,
            Command::Query => match query_of(lex(query@)) {
                None => r matches Reply::Done(CommandResult::ParsingError) && final(sniffer)@
                    == old(sniffer)@,
                Some(atom) => if old(sniffer)@.server.variables + atom_size(atom) > usize::MAX {
                    r matches Reply::Done(CommandResult::ParsingError) && final(sniffer)@
                        == old(sniffer)@
                } else {
                    final(sniffer)@ == after_query(
                        old(sniffer)@,
                        atom,
                        max_steps as nat,
                    ) && match answer(old(sniffer)@, atom, max_steps as nat) {
                        Ok(tree) => r matches Reply::Trees(trees) && trees_view(trees@) == seq![tree],
                        Err(_) => r matches Reply::Done(CommandResult::NotFoundQuery),
                    }
                },
            },
            Command::Rules => r matches Reply::Text(text) && text@ == join(
                rules_text(
                    named_rules(old(sniffer)@.rules, old(sniffer)@.server),
                ),
                seq!['\n'],
            ) && final(sniffer)@ == old(sniffer)@,
            Command::Derivation => final(sniffer)@ == old(sniffer)@ && if query@.len() == 0 {
                r matches Reply::Trees(trees) && trees_view(trees@) == trees_of(
                    named_rules(old(sniffer)@.rules, old(sniffer)@.server),
                    old(sniffer)@,
                )
            } else {
                match rules_of(lex(query@)) {
                    Some(rules) => r matches Reply::Trees(trees) && trees_view(trees@) == trees_of(
                        rules,
                        old(sniffer)@,
                    ),
                    None => r matches Reply::Done(CommandResult::ParsingError),
                }
            },
            Command::Quit => r matches Reply::Done(CommandResult::Quit) && final(sniffer)@ == old(sniffer)@,
            Command::Unknown => r matches Reply::Done(CommandResult::UnknownCommand) && final(sniffer)@ == old(sniffer)@,
        },
{
    match read_command(command) {
        Command::Load => Reply::Load(String::from_str(query)),
        Command::Query => {
            let atom = match Parser::parse_query(query) {
                Ok(atom) => atom,
                Err(_) => {
                    return Reply::Done(CommandResult::ParsingError);
                },
            };
            let fits = match atom.checked_size() {
                Some(n) => n.checked_add(sniffer.id_server().variables()).is_some(),
                None => false,
            };
            if !fits {
                return Reply::Done(CommandResult::ParsingError);
            }
            match sniffer.find(&atom, max_steps) {
                Ok(tree) => {
                    let mut trees: Vec<DerivationTree> = Vec::new();
                    trees.push(tree);
                    assert(trees_view(trees@) =~= seq![tree@]);
                    Reply::Trees(trees)
                },
                Err(_) => Reply::Done(CommandResult::NotFoundQuery),
            }
        },
        Command::Rules => Reply::Text(sniffer.rules_to_string()),
        Command::Derivation => {
            if query.unicode_len() == 0 {
                let rules = sniffer.iter_rules();
                Reply::Trees(derivation_trees(sniffer, &rules))
            } else {
                match Parser::parse_rules(query) {
                    Ok(rules) => Reply::Trees(derivation_trees(sniffer, &rules)),
                    Err(_) => Reply::Done(CommandResult::ParsingError),
                }
            }
        },
        Command::Quit => Reply::Done(CommandResult::Quit),
        Command::Unknown => Reply::Done(CommandResult::UnknownCommand),
    }
}

} // verus!
