//! The text of terms, atoms and clauses of the surface language.
use vstd::prelude::*;
use vstd::string::StringExecFns;
use crate::ast::{lemma_term_view, Atom, Rule, Term, TermModel};
use crate::identifiers::texts;
use crate::ast::{SAtom, SRule, STerm};

verus! {

/// The texts joined, with the separator between each two.
pub open spec fn join(parts: Seq<Seq<char>>, sep: Seq<char>) -> Seq<char>
    decreases parts.len(),
{
    if parts.len() == 0 {
        Seq::empty()
    } else if parts.len() == 1 {
        parts[0]
    } else {
        join(parts.drop_last(), sep) + sep + parts.last()
    }
}

/// The separator of arguments.
pub open spec fn comma() -> Seq<char> {
    seq![',', ' ']
}

/// The separator of premises.
pub open spec fn wedge() -> Seq<char> {
    seq![' ', '/', '\\', ' ']
}

/// The sign between premises and conclusion.
pub open spec fn arrow() -> Seq<char> {
    seq![' ', '=', '>', ' ']
}

/// The text of a symbol applied to arguments whose texts are given: the
/// symbol alone when there are none, else the symbol and the arguments in
/// parentheses.
pub open spec fn applied(symbol: Seq<char>, arguments: Seq<Seq<char>>) -> Seq<char> {
    if arguments.len() == 0 {
        symbol
    } else {
        symbol + seq!['('] + join(arguments, comma()) + seq![')']
    }
}

/// The text of a term.
pub open spec fn term_text(t: STerm) -> Seq<char>
    decreases t, 1nat,
{
    match t {
        TermModel::Var(x) => x,
        TermModel::Fun(f, _) => applied(f, arguments_text(t)),
    }
}

/// The texts of the arguments of an application.
pub open spec fn arguments_text(t: STerm) -> Seq<Seq<char>>
    decreases t, 0nat,
{
    match t {
        TermModel::Var(_) => Seq::empty(),
        TermModel::Fun(_, args) => Seq::new(
            args.len(),
            |i: int|
                if 0 <= i < args.len() {
                    term_text(args[i])
                } else {
                    arbitrary()
                },
        ),
    }
}

/// The texts of a sequence of terms.
pub open spec fn terms_text(ts: Seq<STerm>) -> Seq<Seq<char>> {
    Seq::new(ts.len(), |i: int| term_text(ts[i]))
}

/// The text of an application is that of its symbol applied to the texts
/// of its arguments.
pub proof fn lemma_term_text_applied(f: Seq<char>, args: Seq<STerm>)
    ensures
        term_text(TermModel::Fun(f, args)) == applied(f, terms_text(args)),
{
    assert(arguments_text(TermModel::Fun(f, args)) =~= terms_text(args));
}

/// The text of an atom.
pub open spec fn atom_text(a: SAtom) -> Seq<char> {
    applied(a.symbol, terms_text(a.parameters))
}

/// The text of a clause: the conclusion alone for a fact, else the
/// premises, the arrow and the conclusion.
pub open spec fn rule_text(r: SRule) -> Seq<char> {
    if r.premises.len() == 0 {
        atom_text(r.conclusion)
    } else {
        join(Seq::new(r.premises.len(), |i: int| atom_text(r.premises[i])), wedge()) + arrow()
            + atom_text(r.conclusion)
    }
}

/// The texts joined, with the separator between each two.
pub fn format_vec(parts: &Vec<String>, sep: &str) -> (r: String)
    ensures
        r@ == join(texts(parts@), sep@),
{
    let ghost all = texts(parts@);
    let mut out = String::new();
    let mut i: usize = 0;
    assert(all.subrange(0, 0) =~= Seq::<Seq<char>>::empty());
    while i < parts.len()
        invariant
            i <= parts.len(),
            all == texts(parts@),
            out@ == join(all.subrange(0, i as int), sep@),
        decreases parts.len() - i,
    {
        proof {
            assert(all.subrange(0, i as int + 1).drop_last() =~= all.subrange(0, i as int));
            assert(all.subrange(0, i as int + 1).last() == parts[i as int]@);
        }
        if i > 0 {
            out = out.concat(sep);
        }
        let ghost before = out@;
        out = out.concat(parts[i].as_str());
        proof {
            if i == 0 {
                assert(out@ =~= parts[i as int]@);
            }
        }
        i += 1;
    }
    assert(all.subrange(0, i as int) =~= all);
    out
}

/// The text of a symbol applied to arguments whose texts are given.
pub fn format_applied(symbol: &String, arguments: &Vec<String>) -> (r: String)
    ensures
        r@ == applied(symbol@, texts(arguments@)),
{
    if arguments.len() == 0 {
        symbol.clone()
    } else {
        proof {
            reveal_strlit("(");
            reveal_strlit(")");
            reveal_strlit(", ");
            assert("("@ =~= seq!['(']);
            assert(")"@ =~= seq![')']);
            assert(", "@ =~= comma());
        }
        let inner = format_vec(arguments, ", ");
        symbol.clone().concat("(").concat(inner.as_str()).concat(")")
    }
}

/// The texts of the terms of a list.
pub fn terms_to_text(ts: &Vec<Term<String>>) -> (r: Vec<String>)
    ensures
        texts(r@) == terms_text(crate::ast::terms_view(ts@)),
    decreases ts,
{
    let mut out: Vec<String> = Vec::new();
    let mut i: usize = 0;
    while i < ts.len()
        invariant
            i <= ts.len(),
            out.len() == i,
            forall|j: int| 0 <= j < i ==> (#[trigger] out[j])@ == term_text(ts[j]@),
        decreases ts.len() - i,
    {
        out.push(ts[i].to_string());
        i += 1;
    }
    assert(texts(out@) =~= terms_text(crate::ast::terms_view(ts@)));
    out
}

impl Term<String> {
    /// The text of this term.
    pub fn to_string(&self) -> (r: String)
        ensures
            r@ == term_text(self@),
        decreases self,
    {
        proof {
            lemma_term_view(*self);
        }
        match self {
            Term::Variable { symbol } => symbol.clone(),
            Term::Function { symbol, parameters } => {
                let arguments = terms_to_text(parameters);
                proof {
                    lemma_term_text_applied(symbol@, self@->Fun_1);
                }
                format_applied(symbol, &arguments)
            },
        }
    }
}

impl Atom<String> {
    /// The text of this atom.
    pub fn to_string(&self) -> (r: String)
        ensures
            r@ == atom_text(self@),
    {
        let arguments = terms_to_text(&self.parameters);
        format_applied(&self.symbol, &arguments)
    }
}

impl Rule<String> {
    /// The text of this clause.
    pub fn to_string(&self) -> (r: String)
        ensures
            r@ == rule_text(self@),
    {
        let conclusion = self.conclusion.to_string();
        if self.premises.len() == 0 {
            return conclusion;
        }
        let mut parts: Vec<String> = Vec::new();
        let mut i: usize = 0;
        while i < self.premises.len()
            invariant
                i <= self.premises.len(),
                parts.len() == i,
                forall|j: int| 0 <= j < i ==> (#[trigger] parts[j])@ == atom_text(self.premises[j]@),
            decreases self.premises.len() - i,
        {
            parts.push(self.premises[i].to_string());
            i += 1;
        }
        proof {
            reveal_strlit(" /\\ ");
            reveal_strlit(" => ");
            assert(" /\\ "@ =~= wedge());
            assert(" => "@ =~= arrow());
            assert(texts(parts@) =~= Seq::new(
                self@.premises.len(),
                |i: int| atom_text(self@.premises[i]),
            ));
        }
        format_vec(&parts, " /\\ ").concat(" => ").concat(conclusion.as_str())
    }
}

} // verus!
