//! Parameters: named, typed options attachable to a command, assembled
//! through a builder and frozen when the owning command is built.

use crate::value::ArgType;
use vstd::prelude::*;

verus! {

/// A command parameter: its canonical name, the type its value is coerced
/// to, and a description for help rendering.
#[derive(Clone, Debug)]
pub struct Parameter {
    pub name: String,
    pub value_type: ArgType,
    pub description: String,
}

/// The mathematical value of a [`Parameter`].
#[verifier::ext_equal]
pub struct ParamV {
    pub name: Seq<char>,
    pub value_type: ArgType,
    pub description: Seq<char>,
}

impl View for Parameter {
    type V = ParamV;

    open spec fn view(&self) -> ParamV {
        ParamV { name: self.name@, value_type: self.value_type, description: self.description@ }
    }
}

impl Parameter {
    /// Starts building a parameter with this canonical name; the value type
    /// defaults to `Bool`.
    pub fn with_name(name: &str) -> (r: ParameterBuilder)
        ensures
            r@.name == name@,
            r@.aliases == Seq::<Seq<char>>::empty(),
            r@.description is None,
            r@.value_type == ArgType::Bool,
    {
        ParameterBuilder {
            name: name.to_owned(),
            aliases: Vec::new(),
            description: None,
            value_type: ArgType::Bool,
        }
    }

    /// The canonical name.
    pub fn name(&self) -> (r: &String)
        ensures
            r@ == self@.name,
    {
        &self.name
    }

    /// The type a value for this parameter is coerced to.
    pub fn value_type(&self) -> (r: ArgType)
        ensures
            r == self@.value_type,
    {
        self.value_type
    }

    /// The description shown in help.
    pub fn description(&self) -> (r: &String)
        ensures
            r@ == self@.description,
    {
        &self.description
    }
}

/// Builder for a command parameter.
pub struct ParameterBuilder {
    pub name: String,
    pub aliases: Vec<String>,
    pub description: Option<String>,
    pub value_type: ArgType,
}

/// The mathematical value of a [`ParameterBuilder`].
#[verifier::ext_equal]
pub struct ParamBuilderV {
    pub name: Seq<char>,
    pub aliases: Seq<Seq<char>>,
    pub description: Option<Seq<char>>,
    pub value_type: ArgType,
}

impl View for ParameterBuilder {
    type V = ParamBuilderV;

    open spec fn view(&self) -> ParamBuilderV {
        ParamBuilderV {
            name: self.name@,
            aliases: Seq::new(self.aliases@.len(), |i: int| self.aliases@[i]@),
            description: match self.description {
                Some(ref d) => Some(d@),
                None => None,
            },
            value_type: self.value_type,
        }
    }
}

impl ParamBuilderV {
    /// The parameter record this builder freezes into.
    pub open spec fn built(self) -> ParamV {
        ParamV {
            name: self.name,
            value_type: self.value_type,
            description: match self.description {
                Some(d) => d,
                None => Seq::empty(),
            },
        }
    }

    /// Every key the parameter is registered under: the canonical name and
    /// each alias.
    pub open spec fn keys(self) -> Seq<Seq<char>> {
        seq![self.name] + self.aliases
    }
}

impl ParameterBuilder {
    /// Sets the type a value for this parameter is coerced to.
    pub fn value_type(self, t: ArgType) -> (r: Self)
        ensures
            r@ == (ParamBuilderV { value_type: t, ..self@ }),
    {
        ParameterBuilder { value_type: t, ..self }
    }

    /// Adds an alias: a multi-character alias is used as `--alias`, a
    /// single-character one as `-a` and inside a short-flag cluster.
    pub fn alias(self, alias: &str) -> (r: Self)
        ensures
            r@ == (ParamBuilderV { aliases: self@.aliases.push(alias@), ..self@ }),
    {
        let mut aliases = self.aliases;
        aliases.push(alias.to_owned());
        let r = ParameterBuilder { aliases, ..self };
        proof {
            assert(r@.aliases =~= ParamBuilderV { aliases: self@.aliases.push(alias@), ..self@ }.aliases);
        }
        r
    }

    /// Sets the description shown in help.
    pub fn description(self, text: &str) -> (r: Self)
        ensures
            r@ == (ParamBuilderV { description: Some(text@), ..self@ }),
    {
        ParameterBuilder { description: Some(text.to_owned()), ..self }
    }
}

} // verus!
