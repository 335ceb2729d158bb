use vstd::prelude::*;

verus! {

/// The shape of an argument, with whether it is obligatory: a `Single`
/// argument is a bare flag such as `--help`, a `Paired` one is a key followed
/// by its value as the next token (`-j 5`), an `Equaled` one holds key and
/// value in one token (`--name=joseph`).
#[derive(Debug, Copy, Clone, PartialEq, Eq, Structural)]
pub enum ArgumentType {
    /// like `--help`
    Single(bool),
    /// like `-j N`
    Paired(bool),
    /// like `--name=value`
    Equaled(bool),
}

/// The surface shape of a token or of a declaration, without the
/// obligatory mark.
#[derive(Debug, Copy, Clone, PartialEq, Eq, Structural)]
pub enum Shape {
    Single,
    Paired,
    Equaled,
}

impl ArgumentType {
    pub open spec fn shape(self) -> Shape {
        match self {
            ArgumentType::Single(_) => Shape::Single,
            ArgumentType::Paired(_) => Shape::Paired,
            ArgumentType::Equaled(_) => Shape::Equaled,
        }
    }

    pub open spec fn obligatory(self) -> bool {
        match self {
            ArgumentType::Single(b) => b,
            ArgumentType::Paired(b) => b,
            ArgumentType::Equaled(b) => b,
        }
    }

    pub(crate) fn get_shape(&self) -> (r: Shape)
        ensures
            r == self.shape(),
    {
        match self {
            ArgumentType::Single(_) => Shape::Single,
            ArgumentType::Paired(_) => Shape::Paired,
            ArgumentType::Equaled(_) => Shape::Equaled,
        }
    }

    pub(crate) fn is_obligatory(&self) -> (r: bool)
        ensures
            r == self.obligatory(),
    {
        match self {
            ArgumentType::Single(b) => *b,
            ArgumentType::Paired(b) => *b,
            ArgumentType::Equaled(b) => *b,
        }
    }
}

/// What a declaration says: its shape, its accepted spellings and its
/// description.
pub struct Declaration {
    pub arg_type: ArgumentType,
    pub names: Seq<Seq<char>>,
    pub description: Seq<char>,
}

/// One argument that the parser expects.
#[derive(Debug)]
pub struct Argument<'a> {
    /// The type of argument
    pub(crate) arg_type: ArgumentType,
    /// The possible names that match the argument
    pub(crate) names: &'a [&'a str],
    /// The description of the argument
    pub(crate) description: &'a str,
}

pub open spec fn names_view(names: &[&str]) -> Seq<Seq<char>> {
    names@.map_values(|n: &str| n@)
}

impl<'a> Argument<'a> {
    pub open(crate) spec fn view(&self) -> Declaration {
        Declaration {
            arg_type: self.arg_type,
            names: names_view(self.names),
            description: self.description@,
        }
    }

    /// Creates the argument.
    pub fn new(arg_type: ArgumentType, names: &'a [&'a str], description: &'a str) -> (r: Self)
        ensures
            r.view() == (Declaration {
                arg_type,
                names: names_view(names),
                description: description@,
            }),
    {
        Argument { arg_type, names, description }
    }

    /// Whether `key` is one of the argument's names.
    pub(crate) fn has_name(&self, key: &String) -> (r: bool)
        ensures
            r == self.view().names.contains(key@),
    {
        let names = self.names;
        let mut j: usize = 0;
        while j < names.len()
            invariant
                names == self.names,
                j <= names@.len(),
                forall|k: int| 0 <= k < j ==> names_view(names)[k] != key@,
            decreases names@.len() - j,
        {
            let n = names[j].to_owned();
            if n == *key {
                assert(names_view(names)[j as int] == key@);
                return true;
            }
            j = j + 1;
        }
        false
    }
}

/// The declarations held by a slice of arguments.
pub open spec fn declarations(args: &[Argument]) -> Seq<Declaration> {
    args@.map_values(|a: Argument| a.view())
}

/// One argument recognised among the tokens: the declaration's type, the
/// spelling that matched and the value, if the shape carries one.
pub struct Received {
    pub arg_type: ArgumentType,
    pub key: Seq<char>,
    pub value: Option<Seq<char>>,
}

pub open spec fn opt_view(o: Option<String>) -> Option<Seq<char>> {
    match o {
        Some(s) => Some(s@),
        None => None,
    }
}

pub open spec fn opt_str_view(o: Option<&str>) -> Option<Seq<char>> {
    match o {
        Some(s) => Some(s@),
        None => None,
    }
}

/// An argument recognised among the tokens.
#[derive(Debug, Clone)]
pub struct ReceivedArgument {
    pub(crate) arg_type: ArgumentType,
    pub(crate) key: String,
    pub(crate) value: Option<String>,
}

impl ReceivedArgument {
    pub open(crate) spec fn view(&self) -> Received {
        Received { arg_type: self.arg_type, key: self.key@, value: opt_view(self.value) }
    }
}

pub open spec fn received_view(v: Seq<ReceivedArgument>) -> Seq<Received> {
    v.map_values(|r: ReceivedArgument| r.view())
}

} // verus!
