//! The lexemes that spell a term, an atom or a clause, and the proof that
//! the parser reads back what they spell.
use vstd::prelude::*;
use crate::ast::{AtomModel, RuleModel, SAtom, SRule, STerm, TermModel};
use crate::lexer::LexemeModel;
use crate::parser::{
    at, p_atom, p_more_terms, p_premises, p_rule, p_rules, p_term, p_terms, query_of, rules_of,
    Tokens,
};

verus! {

/// The lexemes that spell a term: a variable; a constant alone; or a
/// constant and, in parentheses, its arguments with commas between them.
pub open spec fn term_tokens(t: STerm) -> Tokens
    decreases t, 0nat,
{
    match t {
        TermModel::Var(x) => seq![LexemeModel::Variable(x)],
        TermModel::Fun(f, args) => if args.len() == 0 {
            seq![LexemeModel::Constant(f)]
        } else {
            seq![LexemeModel::Constant(f), LexemeModel::OpeningParentheses] + term_tokens(args[0])
                + more_tokens(args, 1) + seq![LexemeModel::ClosingParentheses]
        },
    }
}

/// The lexemes that spell the terms from the place `k` of the sequence on,
/// each after a comma.
pub open spec fn more_tokens(ts: Seq<STerm>, k: int) -> Tokens
    decreases ts, ts.len() - k,
{
    if 0 <= k < ts.len() {
        seq![LexemeModel::Comma] + term_tokens(ts[k]) + more_tokens(ts, k + 1)
    } else {
        Seq::empty()
    }
}

/// The lexemes that spell an atom: its symbol and, in parentheses, its
/// arguments with commas between them.
pub open spec fn atom_tokens(a: SAtom) -> Tokens {
    if a.parameters.len() == 0 {
        seq![
            LexemeModel::Constant(a.symbol),
            LexemeModel::OpeningParentheses,
            LexemeModel::ClosingParentheses,
        ]
    } else {
        seq![LexemeModel::Constant(a.symbol), LexemeModel::OpeningParentheses] + term_tokens(
            a.parameters[0],
        ) + more_tokens(a.parameters, 1) + seq![LexemeModel::ClosingParentheses]
    }
}

/// Whether the sequence `part` stands in `ts` from the place `i` on.
pub open spec fn stands<A>(ts: Seq<A>, i: int, part: Seq<A>) -> bool {
    0 <= i && i + part.len() <= ts.len() && ts.subrange(i, i + part.len()) == part
}

/// Where two parts stand one after the other, each stands at its place.
pub proof fn lemma_stands_split<A>(ts: Seq<A>, i: int, a: Seq<A>, b: Seq<A>)
    requires
        stands(ts, i, a + b),
    ensures
        stands(ts, i, a),
        stands(ts, i + a.len(), b),
{
    let whole = ts.subrange(i, i + (a + b).len());
    assert(ts.subrange(i, i + a.len()) =~= whole.subrange(0, a.len() as int));
    assert(whole.subrange(0, a.len() as int) =~= a);
    assert(ts.subrange(i + a.len(), i + a.len() + b.len()) =~= whole.subrange(
        a.len() as int,
        (a + b).len() as int,
    ));
    assert(whole.subrange(a.len() as int, (a + b).len() as int) =~= b);
}

/// Where one lexeme stands, it is the lexeme at that place.
pub proof fn lemma_stands_one(ts: Tokens, i: int, l: LexemeModel)
    requires
        stands(ts, i, seq![l]),
    ensures
        at(ts, i, l),
{
    assert(ts.subrange(i, i + 1)[0] == l);
}

/// The parser reads a term back from the lexemes that spell it, unless an
/// opening parenthesis follows them.
pub proof fn lemma_reads_term(ts: Tokens, i: int, t: STerm)
    requires
        stands(ts, i, term_tokens(t)),
        !at(ts, i + term_tokens(t).len(), LexemeModel::OpeningParentheses),
    ensures
        p_term(ts, i) == Some((t, i + term_tokens(t).len())),
        term_tokens(t).len() > 0,
    decreases t, 0nat,
{
    match t {
        TermModel::Var(x) => {
            lemma_stands_one(ts, i, LexemeModel::Variable(x));
        },
        TermModel::Fun(f, args) => {
            if args.len() == 0 {
                lemma_stands_one(ts, i, LexemeModel::Constant(f));
                assert(args =~= Seq::<STerm>::empty());
            } else {
                let head = seq![LexemeModel::Constant(f), LexemeModel::OpeningParentheses];
                let first = term_tokens(args[0]);
                let more = more_tokens(args, 1);
                let close = seq![LexemeModel::ClosingParentheses];
                assert(term_tokens(t) == head + first + more + close);
                lemma_stands_split(ts, i, head + first + more, close);
                assert(head + first + more =~= head + (first + more));
                lemma_stands_split(ts, i, head, first + more);
                let name = seq![LexemeModel::Constant(f)];
                let open = seq![LexemeModel::OpeningParentheses];
                assert(head =~= name + open);
                lemma_stands_split(ts, i, name, open);
                lemma_stands_one(ts, i, LexemeModel::Constant(f));
                lemma_stands_one(ts, i + 1, LexemeModel::OpeningParentheses);
                let j = i + 2 + first.len() + more.len();
                lemma_stands_one(ts, j, LexemeModel::ClosingParentheses);
                lemma_reads_terms(ts, i + 2, args);
            }
        },
    }
}

/// The parser reads the terms back, from the place `k` of the sequence on,
/// from the lexemes that spell them each after a comma, unless a comma or
/// an opening parenthesis follows them.
pub proof fn lemma_reads_more(ts: Tokens, i: int, args: Seq<STerm>, k: int)
    requires
        0 < k <= args.len(),
        stands(ts, i, more_tokens(args, k)),
        !at(ts, i + more_tokens(args, k).len(), LexemeModel::OpeningParentheses),
        !at(ts, i + more_tokens(args, k).len(), LexemeModel::Comma),
    ensures
        p_more_terms(ts, i, args.subrange(0, k)) == Some((args, i + more_tokens(args, k).len())),
    decreases args, args.len() - k,
{
    if k < args.len() {
        let comma = seq![LexemeModel::Comma];
        let one = term_tokens(args[k]);
        let rest = more_tokens(args, k + 1);
        assert(more_tokens(args, k) == comma + one + rest);
        lemma_stands_split(ts, i, comma + one, rest);
        lemma_stands_split(ts, i, comma, one);
        lemma_stands_one(ts, i, LexemeModel::Comma);
        lemma_next_is_no_parenthesis(ts, i + 1 + one.len(), args, k + 1);
        lemma_reads_term(ts, i + 1, args[k]);
        assert(args.subrange(0, k).push(args[k]) =~= args.subrange(0, k + 1));
        lemma_reads_more(ts, i + 1 + one.len(), args, k + 1);
    } else {
        assert(args.subrange(0, k) =~= args);
        assert(more_tokens(args, k) =~= Seq::<LexemeModel>::empty());
    }
}

/// What follows a term among the lexemes of several is a comma, or what
/// follows them all: never an opening parenthesis.
pub proof fn lemma_next_is_no_parenthesis(ts: Tokens, i: int, args: Seq<STerm>, k: int)
    requires
        0 < k <= args.len(),
        stands(ts, i, more_tokens(args, k)),
        !at(ts, i + more_tokens(args, k).len(), LexemeModel::OpeningParentheses),
    ensures
        !at(ts, i, LexemeModel::OpeningParentheses),
{
    if k < args.len() {
        let comma = seq![LexemeModel::Comma];
        let one = term_tokens(args[k]);
        let rest = more_tokens(args, k + 1);
        assert(more_tokens(args, k) == comma + one + rest);
        lemma_stands_split(ts, i, comma + one, rest);
        lemma_stands_split(ts, i, comma, one);
        lemma_stands_one(ts, i, LexemeModel::Comma);
    } else {
        assert(more_tokens(args, k) =~= Seq::<LexemeModel>::empty());
    }
}

/// The parser reads one or more terms back from the lexemes that spell
/// them with commas between them, where a closing parenthesis follows.
pub proof fn lemma_reads_terms(ts: Tokens, i: int, args: Seq<STerm>)
    requires
        args.len() > 0,
        stands(ts, i, term_tokens(args[0]) + more_tokens(args, 1)),
        at(
            ts,
            i + term_tokens(args[0]).len() + more_tokens(args, 1).len(),
            LexemeModel::ClosingParentheses,
        ),
    ensures
        p_terms(ts, i) == Some(
            (args, i + term_tokens(args[0]).len() + more_tokens(args, 1).len()),
        ),
    decreases args, args.len() + 1,
{
    let first = term_tokens(args[0]);
    let more = more_tokens(args, 1);
    lemma_stands_split(ts, i, first, more);
    lemma_next_is_no_parenthesis(ts, i + first.len(), args, 1);
    lemma_reads_term(ts, i, args[0]);
    assert(seq![args[0]] =~= args.subrange(0, 1));
    lemma_reads_more(ts, i + first.len(), args, 1);
}

/// The lexemes that spell a term begin with a variable or a constant.
pub proof fn lemma_term_begins(t: STerm)
    ensures
        term_tokens(t).len() > 0,
        term_tokens(t)[0] is Variable || term_tokens(t)[0] is Constant,
{
}

/// The parser reads an atom back from the lexemes that spell it.
pub proof fn lemma_reads_atom(ts: Tokens, i: int, a: SAtom)
    requires
        stands(ts, i, atom_tokens(a)),
    ensures
        p_atom(ts, i) == Some((a, i + atom_tokens(a).len())),
        atom_tokens(a).len() >= 3,
{
    let name = seq![LexemeModel::Constant(a.symbol)];
    let open = seq![LexemeModel::OpeningParentheses];
    let close = seq![LexemeModel::ClosingParentheses];
    if a.parameters.len() == 0 {
        assert(atom_tokens(a) =~= name + open + close);
        lemma_stands_split(ts, i, name + open, close);
        lemma_stands_split(ts, i, name, open);
        lemma_stands_one(ts, i, LexemeModel::Constant(a.symbol));
        lemma_stands_one(ts, i + 1, LexemeModel::OpeningParentheses);
        lemma_stands_one(ts, i + 2, LexemeModel::ClosingParentheses);
        assert(a.parameters =~= Seq::<STerm>::empty());
    } else {
        let first = term_tokens(a.parameters[0]);
        let more = more_tokens(a.parameters, 1);
        assert(atom_tokens(a) =~= name + open + (first + more) + close);
        lemma_stands_split(ts, i, name + open + (first + more), close);
        lemma_stands_split(ts, i, name + open, first + more);
        lemma_stands_split(ts, i, name, open);
        lemma_stands_one(ts, i, LexemeModel::Constant(a.symbol));
        lemma_stands_one(ts, i + 1, LexemeModel::OpeningParentheses);
        lemma_stands_one(ts, i + 2 + first.len() + more.len(), LexemeModel::ClosingParentheses);
        lemma_term_begins(a.parameters[0]);
        lemma_stands_split(ts, i + 2, first, more);
        assert(ts[i + 2] == ts.subrange(i + 2, i + 2 + first.len())[0]);
        lemma_reads_terms(ts, i + 2, a.parameters);
    }
}

/// The lexemes that spell the premises from the place `k` on, each after
/// `/\`.
pub open spec fn more_atoms(ps: Seq<SAtom>, k: int) -> Tokens
    decreases ps.len() - k,
{
    if 0 <= k < ps.len() {
        seq![LexemeModel::And] + atom_tokens(ps[k]) + more_atoms(ps, k + 1)
    } else {
        Seq::empty()
    }
}

/// The lexemes that end a clause with premises: `=>`, the conclusion and
/// the full stop.
pub open spec fn conclusion_tokens(c: SAtom) -> Tokens {
    seq![LexemeModel::Implies] + atom_tokens(c) + seq![LexemeModel::Stop]
}

/// The lexemes that spell a clause: a fact is its atom and the full stop;
/// another clause is its premises with `/\` between them, `=>`, the
/// conclusion and the full stop.
pub open spec fn rule_tokens(r: SRule) -> Tokens {
    if r.premises.len() == 0 {
        atom_tokens(r.conclusion) + seq![LexemeModel::Stop]
    } else {
        atom_tokens(r.premises[0]) + (more_atoms(r.premises, 1) + conclusion_tokens(r.conclusion))
    }
}

/// The parser reads the rest of a clause back: the premises from the place
/// `k` on, and the conclusion.
pub proof fn lemma_reads_premises(ts: Tokens, i: int, r: SRule, k: int)
    requires
        0 < k <= r.premises.len(),
        stands(ts, i, more_atoms(r.premises, k) + conclusion_tokens(r.conclusion)),
    ensures
        p_premises(ts, i, r.premises.subrange(0, k)) == Some(
            (r, i + more_atoms(r.premises, k).len() + conclusion_tokens(r.conclusion).len()),
        ),
    decreases r.premises.len() - k,
{
    let ps = r.premises;
    let ending = conclusion_tokens(r.conclusion);
    if k < ps.len() {
        let and = seq![LexemeModel::And];
        let one = atom_tokens(ps[k]);
        let rest = more_atoms(ps, k + 1);
        assert(more_atoms(ps, k) + ending =~= and + one + (rest + ending));
        lemma_stands_split(ts, i, and + one, rest + ending);
        lemma_stands_split(ts, i, and, one);
        lemma_stands_one(ts, i, LexemeModel::And);
        lemma_reads_atom(ts, i + 1, ps[k]);
        assert(ps.subrange(0, k).push(ps[k]) =~= ps.subrange(0, k + 1));
        lemma_reads_premises(ts, i + 1 + one.len(), r, k + 1);
    } else {
        assert(more_atoms(ps, k) =~= Seq::<LexemeModel>::empty());
        assert(more_atoms(ps, k) + ending =~= ending);
        assert(ps.subrange(0, k) =~= ps);
        let implies = seq![LexemeModel::Implies];
        let c = atom_tokens(r.conclusion);
        let stop = seq![LexemeModel::Stop];
        lemma_stands_split(ts, i, implies + c, stop);
        lemma_stands_split(ts, i, implies, c);
        lemma_stands_one(ts, i, LexemeModel::Implies);
        lemma_stands_one(ts, i + 1 + c.len(), LexemeModel::Stop);
        lemma_reads_atom(ts, i + 1, r.conclusion);
    }
}

/// The parser reads a clause back from the lexemes that spell it.
pub proof fn lemma_reads_rule(ts: Tokens, i: int, r: SRule)
    requires
        stands(ts, i, rule_tokens(r)),
    ensures
        p_rule(ts, i) == Some((r, i + rule_tokens(r).len())),
        rule_tokens(r).len() > 0,
{
    if r.premises.len() == 0 {
        let c = atom_tokens(r.conclusion);
        lemma_stands_split(ts, i, c, seq![LexemeModel::Stop]);
        lemma_stands_one(ts, i + c.len(), LexemeModel::Stop);
        lemma_reads_atom(ts, i, r.conclusion);
        assert(r.premises =~= Seq::<SAtom>::empty());
    } else {
        let first = atom_tokens(r.premises[0]);
        let rest = more_atoms(r.premises, 1) + conclusion_tokens(r.conclusion);
        lemma_stands_split(ts, i, first, rest);
        lemma_reads_atom(ts, i, r.premises[0]);
        assert(seq![r.premises[0]] =~= r.premises.subrange(0, 1));
        lemma_reads_premises(ts, i + first.len(), r, 1);
        // what follows the first premise is `/\` or `=>`, not the full stop
        assert(rest[0] is And || rest[0] is Implies) by {
            if 1 < r.premises.len() {
                assert(more_atoms(r.premises, 1)[0] is And);
            } else {
                assert(more_atoms(r.premises, 1) =~= Seq::<LexemeModel>::empty());
                assert(conclusion_tokens(r.conclusion)[0] is Implies);
            }
        }
        assert(ts[i + first.len()] == ts.subrange(i + first.len(), i + first.len() + rest.len())[0]);
    }
}

/// The lexemes that spell the clauses from the place `k` of the sequence
/// on, one after the other.
pub open spec fn rules_tokens(rs: Seq<SRule>, k: int) -> Tokens
    decreases rs.len() - k,
{
    if 0 <= k < rs.len() {
        rule_tokens(rs[k]) + rules_tokens(rs, k + 1)
    } else {
        Seq::empty()
    }
}

/// The parser reads the clauses back, from the place `k` of the sequence
/// on, from the lexemes that spell them to the end.
pub proof fn lemma_reads_rules(ts: Tokens, i: int, rs: Seq<SRule>, k: int)
    requires
        0 <= k <= rs.len(),
        stands(ts, i, rules_tokens(rs, k)),
        i + rules_tokens(rs, k).len() == ts.len(),
    ensures
        p_rules(ts, i, rs.subrange(0, k)) == Some(rs),
    decreases rs.len() - k,
{
    if k < rs.len() {
        let one = rule_tokens(rs[k]);
        let rest = rules_tokens(rs, k + 1);
        lemma_stands_split(ts, i, one, rest);
        lemma_reads_rule(ts, i, rs[k]);
        assert(rs.subrange(0, k).push(rs[k]) =~= rs.subrange(0, k + 1));
        lemma_reads_rules(ts, i + one.len(), rs, k + 1);
    } else {
        assert(rules_tokens(rs, k) =~= Seq::<LexemeModel>::empty());
        assert(rs.subrange(0, k) =~= rs);
    }
}

/// Every list of clauses is read back from the lexemes that spell it: the
/// grammar has a spelling for each list of clauses, and the parser finds
/// the clauses that were spelt.
pub proof fn lemma_rules_read_back(rs: Seq<SRule>)
    ensures
        rules_of(rules_tokens(rs, 0)) == Some(rs),
{
    let ts = rules_tokens(rs, 0);
    assert(ts.subrange(0, ts.len() as int) =~= ts);
    lemma_reads_rules(ts, 0, rs, 0);
    assert(rs.subrange(0, 0) =~= Seq::<SRule>::empty());
}

/// Every atom is read back as a query from the lexemes that spell it and
/// the full stop.
pub proof fn lemma_query_reads_back(a: SAtom)
    ensures
        query_of(atom_tokens(a) + seq![LexemeModel::Stop]) == Some(a),
{
    let ts = atom_tokens(a) + seq![LexemeModel::Stop];
    assert(ts.subrange(0, ts.len() as int) =~= ts);
    lemma_stands_split(ts, 0, atom_tokens(a), seq![LexemeModel::Stop]);
    lemma_stands_one(ts, atom_tokens(a).len() as int, LexemeModel::Stop);
    lemma_reads_atom(ts, 0, a);
}

} // verus!
