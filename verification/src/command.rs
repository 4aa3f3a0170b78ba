//! The command tree: frozen nodes held in an arena and assembled bottom-up
//! by builders.
//!
//! A node keeps its subcommands as keys into the arena: a name or alias maps
//! to the index of the child node, and every alias of one child maps to the
//! same index. Parameters are kept the same way, with each key holding the
//! parameter record under its canonical name.

use crate::parameter::{ParamV, Parameter, ParameterBuilder};
use crate::value::ArgType;
use vstd::prelude::*;

verus! {

/// A frozen command node of the tree.
pub struct Command<H> {
    /// Name or alias of a subcommand, with the arena index of its node.
    pub subcommands: Vec<(String, usize)>,
    /// The type of the command's own trailing positional value, if it takes
    /// one.
    pub value: Option<ArgType>,
    /// The description shown in help.
    pub description: Option<String>,
    /// Name or alias of a parameter, with the parameter's record.
    pub parameters: Vec<(String, Parameter)>,
    /// The command's handler, if it can be invoked itself.
    pub handler: Option<H>,
}

/// The mathematical value of a command node; the handler appears only as
/// its presence.
#[verifier::ext_equal]
pub struct CommandV {
    pub subcommands: Seq<(Seq<char>, int)>,
    pub value: Option<ArgType>,
    pub description: Option<Seq<char>>,
    pub parameters: Seq<(Seq<char>, ParamV)>,
    pub has_handler: bool,
}

impl<H> View for Command<H> {
    type V = CommandV;

    open spec fn view(&self) -> CommandV {
        CommandV {
            subcommands: Seq::new(
                self.subcommands@.len(),
                |i: int| (self.subcommands@[i].0@, self.subcommands@[i].1 as int),
            ),
            value: self.value,
            description: match self.description {
                Some(ref d) => Some(d@),
                None => None,
            },
            parameters: Seq::new(
                self.parameters@.len(),
                |i: int| (self.parameters@[i].0@, self.parameters@[i].1@),
            ),
            has_handler: self.handler is Some,
        }
    }
}

/// The first value registered under `key`, if any.
pub open spec fn find_key<V>(entries: Seq<(Seq<char>, V)>, key: Seq<char>) -> Option<V>
    decreases entries.len(),
{
    if entries.len() == 0 {
        None
    } else if entries[0].0 == key {
        Some(entries[0].1)
    } else {
        find_key(entries.drop_first(), key)
    }
}

/// A key matched by none of the first `i` entries is found, if at all, among
/// the remaining ones.
pub proof fn lemma_find_key_skip<V>(entries: Seq<(Seq<char>, V)>, key: Seq<char>, i: int)
    requires
        0 <= i <= entries.len(),
        forall|k: int| 0 <= k < i ==> entries[k].0 != key,
    ensures
        find_key(entries, key) == find_key(entries.skip(i), key),
    decreases i,
{
    if i > 0 {
        assert(entries.drop_first() =~= entries.skip(1));
        lemma_find_key_skip(entries.skip(1), key, i - 1);
        assert(entries.skip(1).skip(i - 1) =~= entries.skip(i));
    } else {
        assert(entries.skip(0) =~= entries);
    }
}

/// A found value was registered: some entry carries the key and the value.
pub proof fn lemma_find_key_some<V>(entries: Seq<(Seq<char>, V)>, key: Seq<char>)
    requires
        find_key(entries, key) is Some,
    ensures
        exists|k: int|
            0 <= k < entries.len() && #[trigger] entries[k] == (key, find_key(entries, key)->0),
    decreases entries.len(),
{
    if entries[0].0 == key {
        assert(entries[0] == (key, find_key(entries, key)->0));
    } else {
        lemma_find_key_some(entries.drop_first(), key);
        let k = choose|k: int|
            0 <= k < entries.drop_first().len() && #[trigger] entries.drop_first()[k] == (
            key,
            find_key(entries.drop_first(), key)->0,
            );
        assert(entries[k + 1] == entries.drop_first()[k]);
    }
}

impl<H> Command<H> {
    /// Looks a subcommand name or alias up, yielding the arena index of its
    /// node.
    pub fn find_subcommand(&self, key: &str) -> (r: Option<usize>)
        ensures
            match r {
                Some(idx) => find_key(self@.subcommands, key@) == Some(idx as int),
                None => find_key(self@.subcommands, key@) is None,
            },
    {
        let n = self.subcommands.len();
        let mut i: usize = 0;
        while i < n
            invariant
                i <= n,
                n == self.subcommands@.len(),
                forall|k: int| 0 <= k < i ==> self@.subcommands[k].0 != key@,
            decreases n - i,
        {
            if crate::str_eq(self.subcommands[i].0.as_str(), key) {
                proof {
                    lemma_find_key_skip(self@.subcommands, key@, i as int);
                    assert(self@.subcommands.skip(i as int)[0] == self@.subcommands[i as int]);
                }
                return Some(self.subcommands[i].1);
            }
            i = i + 1;
        }
        proof {
            lemma_find_key_skip(self@.subcommands, key@, n as int);
            assert(self@.subcommands.skip(n as int) =~= Seq::<(Seq<char>, int)>::empty());
        }
        None
    }

    /// Looks a parameter name or alias up, yielding the parameter record.
    pub fn find_parameter(&self, key: &str) -> (r: Option<&Parameter>)
        ensures
            match r {
                Some(p) => find_key(self@.parameters, key@) == Some(p@),
                None => find_key(self@.parameters, key@) is None,
            },
    {
        let n = self.parameters.len();
        let mut i: usize = 0;
        while i < n
            invariant
                i <= n,
                n == self.parameters@.len(),
                forall|k: int| 0 <= k < i ==> self@.parameters[k].0 != key@,
            decreases n - i,
        {
            if crate::str_eq(self.parameters[i].0.as_str(), key) {
                proof {
                    lemma_find_key_skip(self@.parameters, key@, i as int);
                    assert(self@.parameters.skip(i as int)[0] == self@.parameters[i as int]);
                }
                return Some(&self.parameters[i].1);
            }
            i = i + 1;
        }
        proof {
            lemma_find_key_skip(self@.parameters, key@, n as int);
            assert(self@.parameters.skip(n as int) =~= Seq::<(Seq<char>, ParamV)>::empty());
        }
        None
    }

    /// Looks a single-character parameter alias up, as a short-flag cluster
    /// names one.
    pub fn find_parameter_char(&self, key: char) -> (r: Option<&Parameter>)
        ensures
            match r {
                Some(p) => find_key(self@.parameters, seq![key]) == Some(p@),
                None => find_key(self@.parameters, seq![key]) is None,
            },
    {
        let n = self.parameters.len();
        let mut i: usize = 0;
        while i < n
            invariant
                i <= n,
                n == self.parameters@.len(),
                forall|k: int| 0 <= k < i ==> self@.parameters[k].0 != seq![key],
            decreases n - i,
        {
            let entry_key = self.parameters[i].0.as_str();
            let hit = entry_key.unicode_len() == 1 && entry_key.get_char(0) == key;
            proof {
                if hit {
                    assert(entry_key@ =~= seq![key]);
                } else {
                    assert(entry_key@ != seq![key]) by {
                        if entry_key@ == seq![key] {
                            assert(entry_key@.len() == 1);
                            assert(entry_key@[0] == key);
                        }
                    }
                }
            }
            if hit {
                proof {
                    lemma_find_key_skip(self@.parameters, seq![key], i as int);
                    assert(self@.parameters.skip(i as int)[0] == self@.parameters[i as int]);
                }
                return Some(&self.parameters[i].1);
            }
            i = i + 1;
        }
        proof {
            lemma_find_key_skip(self@.parameters, seq![key], n as int);
            assert(self@.parameters.skip(n as int) =~= Seq::<(Seq<char>, ParamV)>::empty());
        }
        None
    }
}

/// Whether every subcommand key of `n` points below `bound` in the arena.
pub open spec fn node_wf(n: CommandV, bound: int) -> bool {
    forall|k: int| 0 <= k < n.subcommands.len() ==> 0 <= #[trigger] n.subcommands[k].1 < bound
}

/// `n` with every subcommand index moved up by `base`.
pub open spec fn shift_node(n: CommandV, base: int) -> CommandV {
    CommandV {
        subcommands: Seq::new(
            n.subcommands.len(),
            |k: int| (n.subcommands[k].0, n.subcommands[k].1 + base),
        ),
        ..n
    }
}

/// Builder for a command and, transitively, for the subtree below it.
///
/// Attaching a finished subcommand freezes it: its nodes move into this
/// builder's arena, with their child indexes shifted past what the arena
/// already holds, and its name and aliases become keys for the new node.
pub struct CommandBuilder<H> {
    pub name: String,
    pub aliases: Vec<String>,
    pub arena: Vec<Command<H>>,
    pub subcommands: Vec<(String, usize)>,
    pub value: Option<ArgType>,
    pub description: Option<String>,
    pub parameters: Vec<(String, Parameter)>,
    pub handler: Option<H>,
}

/// The mathematical value of a [`CommandBuilder`].
#[verifier::ext_equal]
pub struct BuilderV {
    pub name: Seq<char>,
    pub aliases: Seq<Seq<char>>,
    pub arena: Seq<CommandV>,
    pub subcommands: Seq<(Seq<char>, int)>,
    pub value: Option<ArgType>,
    pub description: Option<Seq<char>>,
    pub parameters: Seq<(Seq<char>, ParamV)>,
    pub has_handler: bool,
}

impl<H> View for CommandBuilder<H> {
    type V = BuilderV;

    open spec fn view(&self) -> BuilderV {
        BuilderV {
            name: self.name@,
            aliases: Seq::new(self.aliases@.len(), |i: int| self.aliases@[i]@),
            arena: Seq::new(self.arena@.len(), |i: int| self.arena@[i]@),
            subcommands: Seq::new(
                self.subcommands@.len(),
                |i: int| (self.subcommands@[i].0@, self.subcommands@[i].1 as int),
            ),
            value: self.value,
            description: match self.description {
                Some(ref d) => Some(d@),
                None => None,
            },
            parameters: Seq::new(
                self.parameters@.len(),
                |i: int| (self.parameters@[i].0@, self.parameters@[i].1@),
            ),
            has_handler: self.handler is Some,
        }
    }
}

impl BuilderV {
    /// The frozen node this builder closes into.
    pub open spec fn closed_node(self) -> CommandV {
        CommandV {
            subcommands: self.subcommands,
            value: self.value,
            description: self.description,
            parameters: self.parameters,
            has_handler: self.has_handler,
        }
    }

    /// A command must take a value, carry a handler, or hold subcommands;
    /// one with none of the three can never do anything.
    pub open spec fn viable(self) -> bool {
        self.value is Some || self.has_handler || self.subcommands.len() > 0
    }

    /// Every key the command is registered under: its name and each alias.
    pub open spec fn keys(self) -> Seq<Seq<char>> {
        seq![self.name] + self.aliases
    }

    /// Every subcommand key in the builder points at an arena node built
    /// earlier than the node it is keyed from.
    pub open spec fn wf(self) -> bool {
        &&& forall|j: int| 0 <= j < self.arena.len() ==> node_wf(#[trigger] self.arena[j], j)
        &&& node_wf(self.closed_node(), self.arena.len() as int)
    }

    /// The builder after `child` is attached as a subcommand: the child's
    /// arena nodes move in above the present ones, its closing node follows
    /// them, and its name and aliases all key that closing node.
    pub open spec fn attach(self, child: BuilderV) -> BuilderV {
        let base = self.arena.len() as int;
        let idx = base + child.arena.len();
        BuilderV {
            subcommands: self.subcommands + Seq::new(
                child.keys().len(),
                |k: int| (child.keys()[k], idx),
            ),
            arena: self.arena + Seq::new(
                child.arena.len(),
                |j: int| shift_node(child.arena[j], base),
            ) + seq![shift_node(child.closed_node(), base)],
            ..self
        }
    }
}

/// Attaching a well-formed, viable child to a well-formed builder leaves the
/// builder well-formed: the child's nodes keep pointing below themselves
/// after the shift, and the new keys point at the child's closing node.
pub proof fn lemma_attach_wf(p: BuilderV, c: BuilderV)
    requires
        p.wf(),
        c.wf(),
    ensures
        p.attach(c).wf(),
{
    let r = p.attach(c);
    let base = p.arena.len() as int;
    assert forall|j: int| 0 <= j < r.arena.len() implies node_wf(#[trigger] r.arena[j], j) by {
        if j < base {
            assert(r.arena[j] == p.arena[j]);
        } else if j < base + c.arena.len() {
            assert(r.arena[j] == shift_node(c.arena[j - base], base));
            assert(node_wf(c.arena[j - base], j - base));
        } else {
            assert(r.arena[j] == shift_node(c.closed_node(), base));
            assert(node_wf(c.closed_node(), c.arena.len() as int));
        }
    }
    assert(node_wf(r.closed_node(), r.arena.len() as int)) by {
        let cn = r.closed_node();
        let idx = base + c.arena.len();
        let ks = Seq::new(c.keys().len(), |k: int| (c.keys()[k], idx));
        assert(cn.subcommands == p.subcommands + ks);
        assert(r.arena.len() == base + c.arena.len() + 1);
        assert forall|k: int| 0 <= k < cn.subcommands.len() implies 0 <= #[trigger] cn.subcommands[k].1
            < r.arena.len() by {
            if k < p.subcommands.len() {
                assert(cn.subcommands[k] == p.subcommands[k]);
                assert(node_wf(p.closed_node(), base));
                assert(0 <= p.closed_node().subcommands[k].1 < base);
            } else {
                assert(cn.subcommands[k] == ks[k - p.subcommands.len()]);
                assert(cn.subcommands[k].1 == idx);
            }
        }
    }
}

/// `node` with every subcommand index moved up by `base`.
fn shift_command<H>(node: Command<H>, base: usize) -> (r: Command<H>)
    requires
        forall|k: int|
            0 <= k < node@.subcommands.len() ==> #[trigger] node@.subcommands[k].1 + base
                <= usize::MAX,
    ensures
        r@ == shift_node(node@, base as int),
{
    let ghost pre = node@;
    let Command { subcommands, value, description, parameters, handler } = node;
    let mut shifted: Vec<(String, usize)> = Vec::new();
    let mut i: usize = 0;
    while i < subcommands.len()
        invariant
            i <= subcommands.len(),
            subcommands@.len() == pre.subcommands.len(),
            forall|k: int|
                0 <= k < subcommands@.len() ==> (#[trigger] subcommands@[k].0@,
                subcommands@[k].1 as int) == pre.subcommands[k],
            forall|k: int|
                0 <= k < pre.subcommands.len() ==> #[trigger] pre.subcommands[k].1 + base
                    <= usize::MAX,
            shifted@.len() == i,
            forall|k: int|
                0 <= k < i ==> (#[trigger] shifted@[k].0@, shifted@[k].1 as int) == (
                pre.subcommands[k].0,
                pre.subcommands[k].1 + base,
                ),
        decreases subcommands.len() - i,
    {
        proof {
            assert((subcommands@[i as int].0@, subcommands@[i as int].1 as int)
                == pre.subcommands[i as int]);
            assert(pre.subcommands[i as int].1 + base <= usize::MAX);
        }
        let entry = (subcommands[i].0.clone(), subcommands[i].1 + base);
        shifted.push(entry);
        i = i + 1;
    }
    let r = Command { subcommands: shifted, value, description, parameters, handler };
    proof {
        assert(r@.subcommands =~= shift_node(pre, base as int).subcommands);
        assert(r@.parameters =~= pre.parameters);
    }
    r
}

impl<H> CommandBuilder<H> {
    /// Starts building a command with this name.
    pub fn with_name(name: &str) -> (r: CommandBuilder<H>)
        ensures
            r@.name == name@,
            r@.aliases == Seq::<Seq<char>>::empty(),
            r@.arena == Seq::<CommandV>::empty(),
            r@.subcommands == Seq::<(Seq<char>, int)>::empty(),
            r@.value is None,
            r@.description is None,
            r@.parameters == Seq::<(Seq<char>, ParamV)>::empty(),
            !r@.has_handler,
            r@.wf(),
    {
        let r = CommandBuilder {
            name: name.to_owned(),
            aliases: Vec::new(),
            arena: Vec::new(),
            subcommands: Vec::new(),
            value: None,
            description: None,
            parameters: Vec::new(),
            handler: None,
        };
        proof {
            assert(r@.aliases =~= Seq::<Seq<char>>::empty());
            assert(r@.arena =~= Seq::<CommandV>::empty());
            assert(r@.subcommands =~= Seq::<(Seq<char>, int)>::empty());
            assert(r@.parameters =~= Seq::<(Seq<char>, ParamV)>::empty());
        }
        r
    }

    /// Adds an alias for the command.
    pub fn alias(self, alias: &str) -> (r: Self)
        ensures
            r@ == (BuilderV { aliases: self@.aliases.push(alias@), ..self@ }),
    {
        let ghost pre = self@;
        let mut aliases = self.aliases;
        aliases.push(alias.to_owned());
        let r = CommandBuilder { aliases, ..self };
        proof {
            assert(r@.aliases =~= pre.aliases.push(alias@));
            assert(r@.arena =~= pre.arena);
            assert(r@.subcommands =~= pre.subcommands);
            assert(r@.parameters =~= pre.parameters);
        }
        r
    }

    /// Sets the command's handler.
    pub fn handler(self, f: H) -> (r: Self)
        ensures
            r@ == (BuilderV { has_handler: true, ..self@ }),
    {
        let ghost pre = self@;
        let r = CommandBuilder { handler: Some(f), ..self };
        proof {
            assert(r@.aliases =~= pre.aliases);
            assert(r@.arena =~= pre.arena);
            assert(r@.subcommands =~= pre.subcommands);
            assert(r@.parameters =~= pre.parameters);
        }
        r
    }

    /// Declares that the command takes a trailing positional value of this
    /// type.
    pub fn use_value(self, value_type: ArgType) -> (r: Self)
        ensures
            r@ == (BuilderV { value: Some(value_type), ..self@ }),
    {
        let ghost pre = self@;
        let r = CommandBuilder { value: Some(value_type), ..self };
        proof {
            assert(r@.aliases =~= pre.aliases);
            assert(r@.arena =~= pre.arena);
            assert(r@.subcommands =~= pre.subcommands);
            assert(r@.parameters =~= pre.parameters);
        }
        r
    }

    /// Adds a parameter, registered under its canonical name and each of its
    /// aliases. Registering two parameters, or a parameter and an alias,
    /// under one key is builder misuse and is ruled out up front.
    #[verifier::loop_isolation(false)]
    pub fn parameter(self, param: ParameterBuilder) -> (r: Self)
        requires
            forall|a: int, b: int|
                0 <= a < b < param@.keys().len() ==> param@.keys()[a] != param@.keys()[b],
            forall|a: int|
                0 <= a < param@.keys().len() ==> find_key(
                    self@.parameters,
                    #[trigger] param@.keys()[a],
                ) is None,
        ensures
            r@ == (BuilderV {
                parameters: self@.parameters + Seq::new(
                    param@.keys().len(),
                    |k: int| (param@.keys()[k], param@.built()),
                ),
                ..self@
            }),
    {
        let ghost pre = self@;
        let ghost pkeys = param@.keys();
        let ghost record = param@.built();
        let ParameterBuilder { name, aliases, description, value_type } = param;
        let description = match description {
            Some(d) => d,
            None => String::new(),
        };
        let mut parameters = self.parameters;
        parameters.push(
            (
                name.clone(),
                Parameter { name: name.clone(), value_type, description: description.clone() },
            ),
        );
        let mut i: usize = 0;
        while i < aliases.len()
            invariant
                i <= aliases.len(),
                parameters@.len() == pre.parameters.len() + 1 + i,
                forall|k: int|
                    0 <= k < pre.parameters.len() ==> (#[trigger] parameters@[k].0@,
                    parameters@[k].1@) == pre.parameters[k],
                forall|k: int|
                    pre.parameters.len() <= k < parameters@.len() ==> (#[trigger] parameters@[k].0@,
                    parameters@[k].1@) == (pkeys[k - pre.parameters.len()], record),
            decreases aliases.len() - i,
        {
            parameters.push(
                (
                    aliases[i].clone(),
                    Parameter { name: name.clone(), value_type, description: description.clone() },
                ),
            );
            i = i + 1;
        }
        let r = CommandBuilder { parameters, ..self };
        proof {
            assert(r@.aliases =~= pre.aliases);
            assert(r@.arena =~= pre.arena);
            assert(r@.subcommands =~= pre.subcommands);
            assert(r@.parameters =~= pre.parameters + Seq::new(
                pkeys.len(),
                |k: int| (pkeys[k], record),
            ));
        }
        r
    }

    /// Attaches a finished subcommand, registered under its name and each of
    /// its aliases. The child must be viable (take a value, carry a handler,
    /// or hold subcommands) and its keys must be fresh under this command;
    /// anything else is builder misuse and is ruled out up front.
    #[verifier::loop_isolation(false)]
    #[verifier::rlimit(50)]
    pub fn subcommand(self, command: CommandBuilder<H>) -> (r: Self)
        requires
            self@.wf(),
            command@.wf(),
            command@.viable(),
            self@.arena.len() + command@.arena.len() + 1 <= usize::MAX,
            forall|a: int, b: int|
                0 <= a < b < command@.keys().len() ==> command@.keys()[a] != command@.keys()[b],
            forall|a: int|
                0 <= a < command@.keys().len() ==> find_key(
                    self@.subcommands,
                    #[trigger] command@.keys()[a],
                ) is None,
        ensures
            r@ == self@.attach(command@),
            r@.wf(),
    {
        let ghost pre = self@;
        let ghost child = command@;
        let CommandBuilder {
            name: self_name,
            aliases: self_aliases,
            arena: mut arena,
            subcommands: mut subs,
            value: self_value,
            description: self_description,
            parameters: self_parameters,
            handler: self_handler,
        } = self;
        let CommandBuilder {
            name: child_name,
            aliases: child_aliases,
            arena: mut child_arena,
            subcommands: child_subs,
            value: child_value,
            description: child_description,
            parameters: child_parameters,
            handler: child_handler,
        } = command;
        let base = arena.len();
        let mut moved: usize = 0;
        while child_arena.len() > 0
            invariant
                arena@.len() == base + moved,
                moved + child_arena@.len() == child.arena.len(),
                forall|k: int| 0 <= k < base ==> #[trigger] arena@[k]@ == pre.arena[k],
                forall|k: int|
                    base <= k < base + moved ==> #[trigger] arena@[k]@ == shift_node(
                        child.arena[k - base],
                        base as int,
                    ),
                forall|k: int|
                    0 <= k < child_arena@.len() ==> #[trigger] child_arena@[k]@ == child.arena[
                        moved + k
                    ],
            decreases child_arena@.len(),
        {
            let node = child_arena.remove(0);
            proof {
                assert(node@ == child.arena[moved as int]);
                assert(node_wf(child.arena[moved as int], moved as int));
            }
            let sh = shift_command(node, base);
            arena.push(sh);
            moved = moved + 1;
        }
        proof {
            assert(moved == child.arena.len());
        }
        let closing_raw = Command {
            subcommands: child_subs,
            value: child_value,
            description: child_description,
            parameters: child_parameters,
            handler: child_handler,
        };
        proof {
            assert(closing_raw@ == child.closed_node());
            assert(node_wf(child.closed_node(), child.arena.len() as int));
        }
        let closing = shift_command(closing_raw, base);
        arena.push(closing);
        let idx = base + moved;
        subs.push((child_name, idx));
        let ghost keys = child.keys();
        let mut i: usize = 0;
        while i < child_aliases.len()
            invariant
                i <= child_aliases.len(),
                child_aliases@.len() == child.aliases.len(),
                forall|k: int|
                    0 <= k < child_aliases@.len() ==> #[trigger] child_aliases@[k]@ == child.aliases[
                        k
                    ],
                subs@.len() == pre.subcommands.len() + 1 + i,
                forall|k: int|
                    0 <= k < pre.subcommands.len() ==> (#[trigger] subs@[k].0@,
                    subs@[k].1 as int) == pre.subcommands[k],
                forall|k: int|
                    pre.subcommands.len() <= k < subs@.len() ==> (#[trigger] subs@[k].0@,
                    subs@[k].1 as int) == (keys[k - pre.subcommands.len()], idx as int),
            decreases child_aliases@.len() - i,
        {
            subs.push((child_aliases[i].clone(), idx));
            i = i + 1;
        }
        let r = CommandBuilder {
            name: self_name,
            aliases: self_aliases,
            arena,
            subcommands: subs,
            value: self_value,
            description: self_description,
            parameters: self_parameters,
            handler: self_handler,
        };
        proof {
            assert(r@.aliases =~= pre.aliases);
            assert(r@.parameters =~= pre.parameters);
            assert(r@.arena =~= pre.attach(child).arena);
            assert(r@.subcommands =~= pre.attach(child).subcommands);
            lemma_attach_wf(pre, child);
        }
        r
    }

    /// Sets the description shown in help.
    pub fn description(self, text: &str) -> (r: Self)
        ensures
            r@ == (BuilderV { description: Some(text@), ..self@ }),
    {
        let ghost pre = self@;
        let r = CommandBuilder { description: Some(text.to_owned()), ..self };
        proof {
            assert(r@.aliases =~= pre.aliases);
            assert(r@.arena =~= pre.arena);
            assert(r@.subcommands =~= pre.subcommands);
            assert(r@.parameters =~= pre.parameters);
        }
        r
    }
}

} // verus!
