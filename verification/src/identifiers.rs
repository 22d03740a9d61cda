//! Interned identifiers: function symbols shared by the whole clause set,
//! and variables that are fresh for each clause.
use vstd::prelude::*;
use vstd::string::StringExecFns;
use rustc_hash::FxBuildHasher;
use std::collections::HashMap;

verus! {

/// A symbol of the internal representation: a globally interned function
/// symbol, or a variable that belongs to one clause.
#[derive(Eq, PartialEq, Ord, PartialOrd, Hash, Copy, Clone, Debug, Structural)]
pub enum Identifier {
    Function(usize),
    Variable(usize),
}

impl View for Identifier {
    type V = Identifier;

    open spec fn view(&self) -> Identifier {
        *self
    }
}

impl Identifier {
    /// Whether this identifier names a variable.
    pub fn is_variable(&self) -> (r: bool)
        ensures
            r == (*self is Variable),
    {
        match self {
            Identifier::Variable(_) => true,
            Identifier::Function(_) => false,
        }
    }
}

/// The hasher of `rustc_hash`, which the table of names is built with.
#[verifier::external_type_specification]
#[verifier::external_body]
pub struct ExFxBuildHasher(FxBuildHasher);

/// A table from names to identifiers, hashed by `rustc_hash`.
pub type NameTable = HashMap<String, Identifier, FxBuildHasher>;

/// What a table of names holds: the identifier recorded for each name.
pub uninterp spec fn interned(table: NameTable) -> Map<Seq<char>, Identifier>;

/// The table that knows no name.
pub open spec fn no_names() -> Map<Seq<char>, Identifier> {
    Map::empty()
}

/// `FxHashMap::default` of `rustc_hash`: a table that holds nothing.
#[verifier::external_body]
pub(crate) fn table_new() -> (made: NameTable)
    ensures
        interned(made) == no_names(),
{
    HashMap::default()
}

/// `HashMap::get` on a table hashed by `rustc_hash`: the identifier that was
/// last recorded for the name, if there is one.
#[verifier::external_body]
pub(crate) fn table_get(table: &HashMap<String, Identifier, FxBuildHasher>, name: &str) -> (r: Option<Identifier>)
    ensures
        r == (if interned(*table).dom().contains(name@) {
            Some(interned(*table)[name@])
        } else {
            None
        }),
{
    table.get(name).copied()
}

/// `HashMap::insert` on a table hashed by `rustc_hash`: the name now stands
/// for the identifier, and every other name for what it stood for.
#[verifier::external_body]
pub(crate) fn table_insert(table: &mut HashMap<String, Identifier, FxBuildHasher>, name: String, id: Identifier)
    ensures
        interned(*final(table)) == interned(*old(table)).insert(name@, id),
{
    table.insert(name, id);
}

/// The decimal digit for a number below ten.
pub open spec fn digit(d: nat) -> char {
    if d == 0 {
        '0'
    } else if d == 1 {
        '1'
    } else if d == 2 {
        '2'
    } else if d == 3 {
        '3'
    } else if d == 4 {
        '4'
    } else if d == 5 {
        '5'
    } else if d == 6 {
        '6'
    } else if d == 7 {
        '7'
    } else if d == 8 {
        '8'
    } else {
        '9'
    }
}

/// The decimal numeral of a number, without leading zeros.
pub open spec fn decimal(n: nat) -> Seq<char>
    decreases n,
{
    if n < 10 {
        seq![digit(n)]
    } else {
        decimal(n / 10).push(digit(n % 10))
    }
}

/// The printable name of the variable number `n`.
pub open spec fn variable_name(n: nat) -> Seq<char> {
    seq!['V', 'A', 'R'] + decimal(n)
}

fn digit_text(d: usize) -> (r: &'static str)
    requires
        d < 10,
    ensures
        r@ == seq![digit(d as nat)],
{
    proof {
        reveal_strlit("0");
        reveal_strlit("1");
        reveal_strlit("2");
        reveal_strlit("3");
        reveal_strlit("4");
        reveal_strlit("5");
        reveal_strlit("6");
        reveal_strlit("7");
        reveal_strlit("8");
        reveal_strlit("9");
    }
    let r = if d == 0 {
        "0"
    } else if d == 1 {
        "1"
    } else if d == 2 {
        "2"
    } else if d == 3 {
        "3"
    } else if d == 4 {
        "4"
    } else if d == 5 {
        "5"
    } else if d == 6 {
        "6"
    } else if d == 7 {
        "7"
    } else if d == 8 {
        "8"
    } else {
        "9"
    };
    assert(r@ =~= seq![digit(d as nat)]);
    r
}

/// Appends the decimal numeral of `n` to the text.
fn push_decimal(text: String, n: usize) -> (r: String)
    ensures
        r@ == text@ + decimal(n as nat),
    decreases n,
{
    if n < 10 {
        let r = text.concat(digit_text(n));
        assert(r@ =~= text@ + decimal(n as nat));
        r
    } else {
        let front = push_decimal(text, n / 10);
        let r = front.concat(digit_text(n % 10));
        assert(r@ =~= text@ + decimal(n as nat));
        r
    }
}

/// The printable name of the variable number `n`: `VAR` and the number.
pub fn name_of_variable(n: usize) -> (r: String)
    ensures
        r@ == variable_name(n as nat),
{
    proof {
        reveal_strlit("VAR");
    }
    let head = String::from_str("VAR");
    assert(head@ =~= seq!['V', 'A', 'R']);
    push_decimal(head, n)
}

/// What a symbol table holds.
pub struct ServerModel {
    /// The number of variables issued so far.
    pub variables: nat,
    /// The names of the function symbols, by their number.
    pub functions: Seq<Seq<char>>,
    /// The identifier that each known name stands for.
    pub names: Map<Seq<char>, Identifier>,
}

impl ServerModel {
    /// The table after the function symbol `name` was registered.
    pub open spec fn with_function(self, name: Seq<char>) -> ServerModel {
        if self.names.dom().contains(name) {
            self
        } else {
            ServerModel {
                variables: self.variables,
                functions: self.functions.push(name),
                names: self.names.insert(name, Identifier::Function(self.functions.len() as usize)),
            }
        }
    }

    /// The identifier that registering the function symbol `name` gives.
    pub open spec fn function_id(self, name: Seq<char>) -> Identifier {
        if self.names.dom().contains(name) {
            self.names[name]
        } else {
            Identifier::Function(self.functions.len() as usize)
        }
    }

    /// The table after one more variable was issued.
    pub open spec fn with_variable(self) -> ServerModel {
        ServerModel {
            variables: self.variables + 1,
            functions: self.functions,
            names: self.names.insert(
                variable_name(self.variables),
                Identifier::Variable(self.variables as usize),
            ),
        }
    }

    /// The name of an identifier: that of a function symbol is the name it
    /// was registered under, that of a variable is `VAR` and its number.
    pub open spec fn name_of(self, id: Identifier) -> Option<Seq<char>> {
        match id {
            Identifier::Function(i) => if i < self.functions.len() {
                Some(self.functions[i as int])
            } else {
                None
            },
            Identifier::Variable(i) => Some(variable_name(i as nat)),
        }
    }

    /// The identifier that a name stands for, if it is known.
    pub open spec fn id_of(self, name: Seq<char>) -> Option<Identifier> {
        if self.names.dom().contains(name) {
            Some(self.names[name])
        } else {
            None
        }
    }
}

/// The symbol table: it interns the names of function symbols and issues
/// fresh variables.
pub struct IdentifierServer {
    variables_count: usize,
    function_names: Vec<String>,
    names_map: NameTable,
}

/// The names that a list of strings holds.
pub open spec fn texts(names: Seq<String>) -> Seq<Seq<char>> {
    Seq::new(names.len(), |i: int| names[i]@)
}

impl View for IdentifierServer {
    type V = ServerModel;

    closed spec fn view(&self) -> ServerModel {
        ServerModel {
            variables: self.variables_count as nat,
            functions: texts(self.function_names@),
            names: interned(self.names_map),
        }
    }
}

impl Default for IdentifierServer {
    fn default() -> (r: Self)
        ensures
            r@.variables == 0,
            r@.functions == Seq::<Seq<char>>::empty(),
            r@.names == Map::<Seq<char>, Identifier>::empty(),
    {
        let r = IdentifierServer {
            variables_count: 0,
            function_names: Vec::new(),
            names_map: table_new(),
        };
        assert(r@.functions =~= Seq::<Seq<char>>::empty());
        r
    }
}

impl IdentifierServer {
    /// The identifier of the function symbol `symbol`: the one that the name
    /// already stands for, or else the next function symbol, which the name
    /// then stands for.
    pub fn register_function(&mut self, symbol: &str) -> (id: Identifier)
        ensures
            id == old(self)@.function_id(symbol@),
            final(self)@ == old(self)@.with_function(symbol@),
    {
        match table_get(&self.names_map, symbol) {
            Some(identifier) => identifier,
            None => {
                let identifier = Identifier::Function(self.function_names.len());
                let ghost before = texts(self.function_names@);
                self.function_names.push(String::from_str(symbol));
                table_insert(&mut self.names_map, String::from_str(symbol), identifier);
                proof {
                    assert(texts(self.function_names@) =~= before.push(symbol@));
                }
                identifier
            },
        }
    }

    /// A variable that was never issued before.
    pub fn register_variable(&mut self) -> (id: Identifier)
        requires
            old(self)@.variables < usize::MAX,
        ensures
            id == Identifier::Variable(old(self)@.variables as usize),
            final(self)@ == old(self)@.with_variable(),
    {
        let id = self.variables_count;
        let identifier = Identifier::Variable(id);
        table_insert(&mut self.names_map, name_of_variable(id), identifier);
        self.variables_count = id + 1;
        identifier
    }

    /// The number of variables issued so far.
    pub fn variables(&self) -> (n: usize)
        ensures
            n == self@.variables,
    {
        self.variables_count
    }

    /// The name of the given identifier, if it has one.
    pub fn name_of(&self, id: &Identifier) -> (r: Option<String>)
        ensures
            match r {
                Some(name) => self@.name_of(*id) == Some(name@),
                None => self@.name_of(*id) is None,
            },
    {
        match id {
            Identifier::Function(i) => if *i < self.function_names.len() {
                Some(self.function_names[*i].clone())
            } else {
                None
            },
            Identifier::Variable(i) => Some(name_of_variable(*i)),
        }
    }

    /// The identifier that the name stands for, if it is known.
    pub fn id_of(&self, name: &str) -> (r: Option<Identifier>)
        ensures
            r == self@.id_of(name@),
    {
        table_get(&self.names_map, name)
    }
}

} // verus!
