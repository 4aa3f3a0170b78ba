//! The central unit: a frozen command tree with its handlers, and the
//! resolution state machine that drives a tokenized line against the tree,
//! accumulates a [`Context`], and invokes the matched command's handler.

use crate::command::{find_key, lemma_find_key_some, node_wf, Command, CommandBuilder, CommandV};
use crate::context::{bind_param, Context, ContextUnit, UnitV};
use crate::error::{Error, ErrorV, Span};
use crate::parameter::{ParamV, Parameter};
use crate::tokenizer::TokenV;
use crate::value::{spec_coerce, ArgType, ArgValue, ArgValueV};
use vstd::prelude::*;

verus! {

/// A command handler, implemented by the embedding application: invoked
/// synchronously with the per-call [`Context`] once resolution succeeds. An
/// implementor may hold mutable state of its own.
pub trait Handler {
    type Output;

    fn invoke(&mut self, ctx: Context) -> Self::Output;
}

/// The central unit: the arena of frozen command nodes, the index of the
/// root container node, and the output toggles an embedder reads.
pub struct Cli<H> {
    pub nodes: Vec<Command<H>>,
    pub root: usize,
    pub need_print_error: bool,
    pub need_print_help: bool,
}

/// The mathematical value of a [`Cli`]: the node arena and the root index.
#[verifier::ext_equal]
pub struct CliV {
    pub nodes: Seq<CommandV>,
    pub root: int,
}

impl<H> View for Cli<H> {
    type V = CliV;

    open spec fn view(&self) -> CliV {
        CliV {
            nodes: Seq::new(self.nodes@.len(), |i: int| self.nodes@[i]@),
            root: self.root as int,
        }
    }
}

impl CliV {
    /// The arena is well-formed: the root is a node, and every subcommand
    /// key of a node points at a node built earlier.
    pub open spec fn wf(self) -> bool {
        &&& 0 <= self.root < self.nodes.len()
        &&& forall|j: int| 0 <= j < self.nodes.len() ==> node_wf(#[trigger] self.nodes[j], j)
    }
}

/// The resolver's state between tokens: before the first token, between
/// ordinary tokens, or owing values to a queue of typed parameters.
pub enum StateV {
    ReadFirst,
    ReadNext,
    Pending(Seq<ParamV>),
}

/// A fresh context frame for the command at arena index `node`, matched
/// under the spelling `name`.
pub open spec fn new_unit(name: Seq<char>, node: int) -> UnitV {
    UnitV { name, command: node, parameters: Seq::empty(), value: None }
}

/// `units` with parameter `p` bound to `v` in the deepest frame.
pub open spec fn bind_in_last(units: Seq<UnitV>, p: ParamV, v: ArgValueV) -> Seq<UnitV> {
    let j = units.len() - 1;
    units.update(j, UnitV { parameters: bind_param(units[j].parameters, p, v), ..units[j] })
}

/// `units` with the deepest frame's positional value bound to `v`.
pub open spec fn set_value_in_last(units: Seq<UnitV>, v: ArgValueV) -> Seq<UnitV> {
    let j = units.len() - 1;
    units.update(j, UnitV { value: Some(v), ..units[j] })
}

/// Whether the token text is a long flag: `--` and a name.
pub open spec fn is_long_flag(text: Seq<char>) -> bool {
    text.len() >= 2 && text[0] == '-' && text[1] == '-'
}

/// Whether the token text is a short flag cluster: `-` and zero or more
/// single-character names (but not a long flag).
pub open spec fn is_short_flag(text: Seq<char>) -> bool {
    text.len() >= 1 && text[0] == '-' && !is_long_flag(text)
}

/// One short-flag cluster, walked left to right: each character names a
/// parameter of the current command; a boolean parameter is bound to `true`
/// on the spot, any other is queued for a value, and an unknown character
/// fails the whole token.
pub open spec fn cluster(
    params: Seq<(Seq<char>, ParamV)>,
    cs: Seq<char>,
    sp: Span,
    queue: Seq<ParamV>,
    units: Seq<UnitV>,
) -> Result<(Seq<ParamV>, Seq<UnitV>), ErrorV>
    decreases cs.len(),
{
    if cs.len() == 0 {
        Ok((queue, units))
    } else {
        match find_key(params, seq![cs[0]]) {
            None => Err(ErrorV::NotParameter(sp)),
            Some(p) => if p.value_type == ArgType::Bool {
                cluster(
                    params,
                    cs.drop_first(),
                    sp,
                    queue,
                    bind_in_last(units, p, ArgValueV::Bool(true)),
                )
            } else {
                cluster(params, cs.drop_first(), sp, queue.push(p), units)
            },
        }
    }
}

/// One token in the `ReadNext` state, against the deepest frame's command:
/// a `--name` flag and a `-xyz` cluster resolve among the command's
/// parameters, any other token resolves as a subcommand first and as the
/// command's positional value second.
pub open spec fn read_next_step(cli: CliV, t: TokenV, units: Seq<UnitV>) -> Result<
    (StateV, Seq<UnitV>),
    ErrorV,
> {
    let node = cli.nodes[units.last().command];
    if is_long_flag(t.text) {
        match find_key(node.parameters, t.text.skip(2)) {
            None => Err(ErrorV::NotParameter(t.span)),
            Some(p) => if p.value_type == ArgType::Bool {
                Ok((StateV::ReadNext, bind_in_last(units, p, ArgValueV::Bool(true))))
            } else {
                Ok((StateV::Pending(seq![p]), units))
            },
        }
    } else if is_short_flag(t.text) {
        match cluster(node.parameters, t.text.drop_first(), t.span, Seq::empty(), units) {
            Err(e) => Err(e),
            Ok((queue, units2)) => Ok(
                (
                    if queue.len() > 0 {
                        StateV::Pending(queue)
                    } else {
                        StateV::ReadNext
                    },
                    units2,
                ),
            ),
        }
    } else {
        match find_key(node.subcommands, t.text) {
            Some(idx) => Ok((StateV::ReadNext, units.push(new_unit(t.text, idx)))),
            None => match node.value {
                Some(vt) => match spec_coerce(vt, t.text, t.span) {
                    Ok(v) => Ok((StateV::ReadNext, set_value_in_last(units, v))),
                    Err(e) => Err(e),
                },
                None => Err(ErrorV::NotCommand(t.span)),
            },
        }
    }
}

/// One token of the resolution state machine.
///
/// In `ReadFirst` the token must name a top-level command: a flag-like
/// token cannot open a line. In `Pending` the token is coerced against the
/// front of the queue. A `Pending` state with an empty queue never arises;
/// it is read as `ReadNext`.
pub open spec fn step(cli: CliV, t: TokenV, st: StateV, units: Seq<UnitV>) -> Result<
    (StateV, Seq<UnitV>),
    ErrorV,
> {
    match st {
        StateV::ReadFirst => {
            if t.text.len() > 0 && t.text[0] == '-' {
                Err(ErrorV::CommandExpected(t.span))
            } else {
                match find_key(cli.nodes[cli.root].subcommands, t.text) {
                    Some(idx) => Ok((StateV::ReadNext, units.push(new_unit(t.text, idx)))),
                    None => Err(ErrorV::NotCommand(t.span)),
                }
            }
        },
        StateV::ReadNext => read_next_step(cli, t, units),
        StateV::Pending(queue) => {
            if queue.len() == 0 {
                read_next_step(cli, t, units)
            } else {
                let p = queue[0];
                match spec_coerce(p.value_type, t.text, t.span) {
                    Err(e) => Err(e),
                    Ok(v) => Ok(
                        (
                            if queue.len() == 1 {
                                StateV::ReadNext
                            } else {
                                StateV::Pending(queue.drop_first())
                            },
                            bind_in_last(units, p, v),
                        ),
                    ),
                }
            }
        },
    }
}

/// The end of the line: values still owed to typed parameters fail the
/// call, and the deepest matched command must carry a handler. A line that
/// matched no command at all — an empty line — is reported as the root
/// container lacking a handler. More than one still-pending parameter
/// cannot be reached and is reported as the defensive
/// [`ErrorV::ParserFault`].
pub open spec fn finish(cli: CliV, st: StateV, units: Seq<UnitV>) -> Result<Seq<UnitV>, ErrorV> {
    let pending_check: Result<(), ErrorV> = match st {
        StateV::Pending(queue) => {
            if queue.len() > 1 {
                Err(ErrorV::ParserFault)
            } else if queue.len() == 1 && queue[0].value_type != ArgType::Bool {
                Err(ErrorV::ParameterValueMissed)
            } else {
                Ok(())
            }
        },
        _ => Ok(()),
    };
    match pending_check {
        Err(e) => Err(e),
        Ok(_) => {
            if units.len() == 0 {
                Err(ErrorV::NoHandler("root"@))
            } else {
                let u = units.last();
                if cli.nodes[u.command].has_handler {
                    Ok(units)
                } else {
                    Err(ErrorV::NoHandler(u.name))
                }
            }
        },
    }
}

/// The state machine run over the tokens from position `i` on.
pub open spec fn run(
    cli: CliV,
    toks: Seq<TokenV>,
    i: int,
    st: StateV,
    units: Seq<UnitV>,
) -> Result<Seq<UnitV>, ErrorV>
    decreases toks.len() - i,
{
    if i < 0 || i >= toks.len() {
        finish(cli, st, units)
    } else {
        match step(cli, toks[i], st, units) {
            Err(e) => Err(e),
            Ok((st2, units2)) => run(cli, toks, i + 1, st2, units2),
        }
    }
}

/// What parsing the whole line yields: one frame per matched command, from
/// the first command named on the line down to the command invoked, or the
/// first failure. The implicit root container gets no frame of its own.
pub open spec fn spec_parse(cli: CliV, line: Seq<char>) -> Result<Seq<UnitV>, ErrorV> {
    run(cli, crate::tokenizer::spec_split(line), 0, StateV::ReadFirst, Seq::empty())
}

/// The first `j - i` steps of a run: the state and frames standing at
/// position `j`, or the failure met on the way.
pub open spec fn run_prefix(
    cli: CliV,
    toks: Seq<TokenV>,
    i: int,
    j: int,
    st: StateV,
    units: Seq<UnitV>,
) -> Result<(StateV, Seq<UnitV>), ErrorV>
    decreases j - i,
{
    if i >= j {
        Ok((st, units))
    } else {
        match step(cli, toks[i], st, units) {
            Err(e) => Err(e),
            Ok((st2, units2)) => run_prefix(cli, toks, i + 1, j, st2, units2),
        }
    }
}

/// A run is its prefix up to `j`, then the run from `j` on.
pub proof fn lemma_run_decompose(
    cli: CliV,
    toks: Seq<TokenV>,
    i: int,
    j: int,
    st: StateV,
    units: Seq<UnitV>,
)
    requires
        0 <= i <= j <= toks.len(),
    ensures
        run(cli, toks, i, st, units) == match run_prefix(cli, toks, i, j, st, units) {
            Err(e) => Err(e),
            Ok((st2, units2)) => run(cli, toks, j, st2, units2),
        },
    decreases j - i,
{
    if i < j {
        let r = step(cli, toks[i], st, units);
        if r is Ok {
            lemma_run_decompose(cli, toks, i + 1, j, r->Ok_0.0, r->Ok_0.1);
        }
    }
}

/// A prefix run reads only the tokens it consumes.
pub proof fn lemma_run_prefix_agree(
    cli: CliV,
    toks1: Seq<TokenV>,
    toks2: Seq<TokenV>,
    i: int,
    j: int,
    st: StateV,
    units: Seq<UnitV>,
)
    requires
        0 <= i <= j,
        forall|k: int| i <= k < j ==> toks1[k] == toks2[k],
    ensures
        run_prefix(cli, toks1, i, j, st, units) == run_prefix(cli, toks2, i, j, st, units),
    decreases j - i,
{
    if i < j {
        let r = step(cli, toks1[i], st, units);
        if r is Ok {
            lemma_run_prefix_agree(cli, toks1, toks2, i + 1, j, r->Ok_0.0, r->Ok_0.1);
        }
    }
}

/// A run from position `i` reads only the tokens from `i` on.
pub proof fn lemma_run_agree(
    cli: CliV,
    toks1: Seq<TokenV>,
    toks2: Seq<TokenV>,
    i: int,
    st: StateV,
    units: Seq<UnitV>,
)
    requires
        toks1.len() == toks2.len(),
        0 <= i,
        forall|k: int| i <= k < toks1.len() ==> toks1[k] == toks2[k],
    ensures
        run(cli, toks1, i, st, units) == run(cli, toks2, i, st, units),
    decreases toks1.len() - i,
{
    if i < toks1.len() {
        let r = step(cli, toks1[i], st, units);
        if r is Ok {
            lemma_run_agree(cli, toks1, toks2, i + 1, r->Ok_0.0, r->Ok_0.1);
        }
    }
}

/// The parameter key a single-flag token refers to: the name after `--`,
/// or the one character after `-`.
pub open spec fn flag_key(text: Seq<char>) -> Option<Seq<char>> {
    if is_long_flag(text) {
        Some(text.skip(2))
    } else if is_short_flag(text) && text.len() == 2 {
        Some(seq![text[1]])
    } else {
        None
    }
}

/// Alias equivalence at one step: two flag spellings that the current
/// command resolves to the same parameter record drive the machine to the
/// same state and the same context, whether spelled `--name`, `--alias` or
/// `-a`.
pub proof fn lemma_alias_step(cli: CliV, t1: TokenV, t2: TokenV, units: Seq<UnitV>)
    requires
        t1.span == t2.span,
        units.len() > 0,
        flag_key(t1.text) is Some,
        flag_key(t2.text) is Some,
        find_key(cli.nodes[units.last().command].parameters, flag_key(t1.text)->0) == find_key(
            cli.nodes[units.last().command].parameters,
            flag_key(t2.text)->0,
        ),
    ensures
        read_next_step(cli, t1, units) == read_next_step(cli, t2, units),
{
    let params = cli.nodes[units.last().command].parameters;
    lemma_single_flag_step(cli, t1, units);
    lemma_single_flag_step(cli, t2, units);
}

/// What a `ReadNext` step does with a single-flag token, written over the
/// key alone: an unknown key fails, a boolean parameter binds at once, and
/// a typed parameter becomes the one pending parameter.
pub proof fn lemma_single_flag_step(cli: CliV, t: TokenV, units: Seq<UnitV>)
    requires
        units.len() > 0,
        flag_key(t.text) is Some,
    ensures
        read_next_step(cli, t, units) == match find_key(
            cli.nodes[units.last().command].parameters,
            flag_key(t.text)->0,
        ) {
            None => Err::<(StateV, Seq<UnitV>), ErrorV>(ErrorV::NotParameter(t.span)),
            Some(p) => if p.value_type == ArgType::Bool {
                Ok((StateV::ReadNext, bind_in_last(units, p, ArgValueV::Bool(true))))
            } else {
                Ok((StateV::Pending(seq![p]), units))
            },
        },
{
    let params = cli.nodes[units.last().command].parameters;
    if is_long_flag(t.text) {
    } else {
        let c = t.text[1];
        let cs = t.text.drop_first();
        assert(cs =~= seq![c]);
        assert(cs[0] == c);
        assert(cs.drop_first() =~= Seq::<char>::empty());
        assert(seq![cs[0]] == seq![c]);
        match find_key(params, seq![c]) {
            None => {},
            Some(p) => {
                if p.value_type == ArgType::Bool {
                    let u2 = bind_in_last(units, p, ArgValueV::Bool(true));
                    assert(cluster(params, cs.drop_first(), t.span, Seq::empty(), u2) == Ok::<
                        _,
                        ErrorV,
                    >((Seq::<ParamV>::empty(), u2)));
                    assert(cluster(params, cs, t.span, Seq::empty(), units) == Ok::<
                        _,
                        ErrorV,
                    >((Seq::<ParamV>::empty(), u2)));
                } else {
                    let q2 = Seq::<ParamV>::empty().push(p);
                    assert(cluster(params, cs.drop_first(), t.span, q2, units) == Ok::<
                        _,
                        ErrorV,
                    >((q2, units)));
                    assert(q2 =~= seq![p]);
                    assert(cluster(params, cs, t.span, Seq::empty(), units) == Ok::<
                        _,
                        ErrorV,
                    >((seq![p], units)));
                }
            },
        }
    }
}

/// Alias equivalence over a whole line: where the machine stands in
/// `ReadNext` before the `j`th token, two lines that differ only in that
/// token's spelling of one and the same parameter resolve to identical
/// outcomes, context and all.
pub proof fn lemma_alias_equivalence(
    cli: CliV,
    toks1: Seq<TokenV>,
    toks2: Seq<TokenV>,
    j: int,
    mid_units: Seq<UnitV>,
)
    requires
        toks1.len() == toks2.len(),
        0 <= j < toks1.len(),
        forall|k: int| 0 <= k < toks1.len() && k != j ==> toks1[k] == toks2[k],
        run_prefix(cli, toks1, 0, j, StateV::ReadFirst, Seq::empty()) == Ok::<
            (StateV, Seq<UnitV>),
            ErrorV,
        >((StateV::ReadNext, mid_units)),
        mid_units.len() > 0,
        toks1[j].span == toks2[j].span,
        flag_key(toks1[j].text) is Some,
        flag_key(toks2[j].text) is Some,
        find_key(cli.nodes[mid_units.last().command].parameters, flag_key(toks1[j].text)->0)
            == find_key(
            cli.nodes[mid_units.last().command].parameters,
            flag_key(toks2[j].text)->0,
        ),
    ensures
        run(cli, toks1, 0, StateV::ReadFirst, Seq::empty()) == run(
            cli,
            toks2,
            0,
            StateV::ReadFirst,
            Seq::empty(),
        ),
{
    let init = Seq::<UnitV>::empty();
    lemma_run_decompose(cli, toks1, 0, j, StateV::ReadFirst, init);
    lemma_run_prefix_agree(cli, toks1, toks2, 0, j, StateV::ReadFirst, init);
    lemma_run_decompose(cli, toks2, 0, j, StateV::ReadFirst, init);
    lemma_alias_step(cli, toks1[j], toks2[j], mid_units);
    let r = step(cli, toks1[j], StateV::ReadNext, mid_units);
    if r is Ok {
        lemma_run_agree(cli, toks1, toks2, j + 1, r->Ok_0.0, r->Ok_0.1);
    }
}

/// Classification order over a whole line: a single-flag token that the
/// current command's parameters do not know fails the line with
/// `NotParameter`, whatever subcommands or positional value the command
/// declares — the `-`/`--` prefix check runs first, so the token never
/// resolves as a subcommand or a value.
pub proof fn lemma_flag_token_line(cli: CliV, toks: Seq<TokenV>, j: int, mid_units: Seq<UnitV>)
    requires
        0 <= j < toks.len(),
        run_prefix(cli, toks, 0, j, StateV::ReadFirst, Seq::empty()) == Ok::<
            (StateV, Seq<UnitV>),
            ErrorV,
        >((StateV::ReadNext, mid_units)),
        mid_units.len() > 0,
        flag_key(toks[j].text) is Some,
        find_key(
            cli.nodes[mid_units.last().command].parameters,
            flag_key(toks[j].text)->0,
        ) is None,
    ensures
        run(cli, toks, 0, StateV::ReadFirst, Seq::empty()) == Err::<Seq<UnitV>, ErrorV>(
            ErrorV::NotParameter(toks[j].span),
        ),
{
    lemma_run_decompose(cli, toks, 0, j, StateV::ReadFirst, Seq::empty());
    lemma_single_flag_step(cli, toks[j], mid_units);
    assert(step(cli, toks[j], StateV::ReadNext, mid_units) == Err::<
        (StateV, Seq<UnitV>),
        ErrorV,
    >(ErrorV::NotParameter(toks[j].span)));
}

/// Alias equivalence for command spellings: two non-flag tokens that the
/// consulted command resolves to the same subcommand node drive the machine
/// into the same state, pushing a frame for the same node with the same
/// empty bindings — the frames differ only in the recorded name, which
/// remembers the spelling the caller typed.
pub proof fn lemma_command_alias_step(
    cli: CliV,
    t1: TokenV,
    t2: TokenV,
    st: StateV,
    units: Seq<UnitV>,
    cur: int,
    ci: int,
)
    requires
        (st == StateV::ReadFirst && cur == cli.root) || (st == StateV::ReadNext && units.len() > 0
            && cur == units.last().command),
        t1.text.len() == 0 || t1.text[0] != '-',
        t2.text.len() == 0 || t2.text[0] != '-',
        find_key(cli.nodes[cur].subcommands, t1.text) == Some(ci),
        find_key(cli.nodes[cur].subcommands, t2.text) == Some(ci),
    ensures
        step(cli, t1, st, units) == Ok::<_, ErrorV>(
            (StateV::ReadNext, units.push(new_unit(t1.text, ci))),
        ),
        step(cli, t2, st, units) == Ok::<_, ErrorV>(
            (StateV::ReadNext, units.push(new_unit(t2.text, ci))),
        ),
{
    if st == StateV::ReadNext {
        assert(!is_long_flag(t1.text) && !is_short_flag(t1.text));
        assert(!is_long_flag(t2.text) && !is_short_flag(t2.text));
    }
}

/// Flag-prefix tokens always take the parameter branches: a `ReadNext`
/// step on a token opening with `-` comes out the same under any set of
/// subcommands of the current command, so such a token never resolves as a
/// subcommand.
pub proof fn lemma_flag_token_ignores_subcommands(
    cli1: CliV,
    cli2: CliV,
    t: TokenV,
    units: Seq<UnitV>,
)
    requires
        t.text.len() > 0,
        t.text[0] == '-',
        units.len() > 0,
        cli2.nodes[units.last().command].parameters == cli1.nodes[
            units.last().command
        ].parameters,
    ensures
        read_next_step(cli2, t, units) == read_next_step(cli1, t, units),
{
    let params = cli1.nodes[units.last().command].parameters;
    if is_long_flag(t.text) {
    } else {
        assert(is_short_flag(t.text));
    }
}

/// Missing value detection: a line that names a command and then a typed
/// parameter, and ends there, fails with `ParameterValueMissed` — never
/// with a silent default.
pub proof fn lemma_missing_parameter_value(
    cli: CliV,
    cmd_t: TokenV,
    flag_t: TokenV,
    ci: int,
    p: ParamV,
)
    requires
        cmd_t.text.len() == 0 || cmd_t.text[0] != '-',
        find_key(cli.nodes[cli.root].subcommands, cmd_t.text) == Some(ci),
        is_long_flag(flag_t.text),
        find_key(cli.nodes[ci].parameters, flag_t.text.skip(2)) == Some(p),
        p.value_type != ArgType::Bool,
    ensures
        run(cli, seq![cmd_t, flag_t], 0, StateV::ReadFirst, Seq::empty()) == Err::<
            Seq<UnitV>,
            ErrorV,
        >(ErrorV::ParameterValueMissed),
{
    let toks = seq![cmd_t, flag_t];
    let u0 = Seq::<UnitV>::empty();
    let u1 = u0.push(new_unit(cmd_t.text, ci));
    assert(toks[0] == cmd_t);
    assert(toks[1] == flag_t);
    assert(step(cli, cmd_t, StateV::ReadFirst, u0) == Ok::<_, ErrorV>((StateV::ReadNext, u1)));
    assert(u1.last() == new_unit(cmd_t.text, ci));
    assert(step(cli, flag_t, StateV::ReadNext, u1) == Ok::<_, ErrorV>(
        (StateV::Pending(seq![p]), u1),
    ));
    assert(run(cli, toks, 2, StateV::Pending(seq![p]), u1) == finish(
        cli,
        StateV::Pending(seq![p]),
        u1,
    ));
    assert(finish(cli, StateV::Pending(seq![p]), u1) == Err::<Seq<UnitV>, ErrorV>(
        ErrorV::ParameterValueMissed,
    ));
    assert(run(cli, toks, 1, StateV::ReadNext, u1) == run(
        cli,
        toks,
        2,
        StateV::Pending(seq![p]),
        u1,
    ));
    assert(run(cli, toks, 0, StateV::ReadFirst, u0) == run(cli, toks, 1, StateV::ReadNext, u1));
}

/// Nested context accumulation: `cmd --flag sub`, with `flag` a boolean
/// parameter of `cmd` and `sub` a subcommand of `cmd` that carries a
/// handler, resolves to exactly two frames — first `cmd` with the flag
/// bound `true`, then `sub` — and the handler of `sub` sees both.
pub proof fn lemma_nested_context_accumulation(
    cli: CliV,
    cmd_t: TokenV,
    flag_t: TokenV,
    sub_t: TokenV,
    ci: int,
    p: ParamV,
    si: int,
)
    requires
        cmd_t.text.len() == 0 || cmd_t.text[0] != '-',
        find_key(cli.nodes[cli.root].subcommands, cmd_t.text) == Some(ci),
        is_long_flag(flag_t.text),
        find_key(cli.nodes[ci].parameters, flag_t.text.skip(2)) == Some(p),
        p.value_type == ArgType::Bool,
        sub_t.text.len() > 0,
        sub_t.text[0] != '-',
        find_key(cli.nodes[ci].subcommands, sub_t.text) == Some(si),
        cli.nodes[si].has_handler,
    ensures
        run(cli, seq![cmd_t, flag_t, sub_t], 0, StateV::ReadFirst, Seq::empty()) == Ok::<
            Seq<UnitV>,
            ErrorV,
        >(
            seq![
                UnitV {
                    name: cmd_t.text,
                    command: ci,
                    parameters: seq![(p, ArgValueV::Bool(true))],
                    value: None,
                },
                new_unit(sub_t.text, si),
            ],
        ),
{
    let toks = seq![cmd_t, flag_t, sub_t];
    let u0 = Seq::<UnitV>::empty();
    let u1 = u0.push(new_unit(cmd_t.text, ci));
    assert(toks[0] == cmd_t);
    assert(toks[1] == flag_t);
    assert(toks[2] == sub_t);
    assert(step(cli, cmd_t, StateV::ReadFirst, u0) == Ok::<_, ErrorV>((StateV::ReadNext, u1)));
    assert(u1.last() == new_unit(cmd_t.text, ci));
    let bound = UnitV {
        name: cmd_t.text,
        command: ci,
        parameters: seq![(p, ArgValueV::Bool(true))],
        value: None,
    };
    let u2 = seq![bound];
    assert(bind_param(Seq::empty(), p, ArgValueV::Bool(true)) =~= seq![
        (p, ArgValueV::Bool(true)),
    ]);
    assert(bind_in_last(u1, p, ArgValueV::Bool(true)) =~~= u2);
    assert(step(cli, flag_t, StateV::ReadNext, u1) == Ok::<_, ErrorV>((StateV::ReadNext, u2)));
    let u3 = u2.push(new_unit(sub_t.text, si));
    assert(u2.last() == bound);
    assert(bound.command == ci);
    assert(step(cli, sub_t, StateV::ReadNext, u2) == Ok::<_, ErrorV>((StateV::ReadNext, u3)));
    assert(u3.last() == new_unit(sub_t.text, si));
    assert(run(cli, toks, 3, StateV::ReadNext, u3) == finish(cli, StateV::ReadNext, u3));
    assert(finish(cli, StateV::ReadNext, u3) == Ok::<Seq<UnitV>, ErrorV>(u3));
    assert(run(cli, toks, 2, StateV::ReadNext, u2) == run(cli, toks, 3, StateV::ReadNext, u3));
    assert(run(cli, toks, 1, StateV::ReadNext, u1) == run(cli, toks, 2, StateV::ReadNext, u2));
    assert(run(cli, toks, 0, StateV::ReadFirst, u0) == run(cli, toks, 1, StateV::ReadNext, u1));
    assert(u3 =~= seq![bound, new_unit(sub_t.text, si)]);
}

/// The mathematical value of a frame vector.
pub open spec fn units_view(units: Seq<ContextUnit>) -> Seq<UnitV> {
    Seq::new(units.len(), |i: int| units[i]@)
}

/// The mathematical value of a pending-parameter queue.
pub open spec fn queue_view(q: Seq<Parameter>) -> Seq<ParamV> {
    Seq::new(q.len(), |i: int| q[i]@)
}

/// The frames a run works on: never empty, and every frame's node index
/// points into the arena.
pub open spec fn units_ok(cli: CliV, units: Seq<UnitV>) -> bool {
    &&& units.len() > 0
    &&& forall|k: int| 0 <= k < units.len() ==> 0 <= (#[trigger] units[k]).command < cli.nodes.len()
}

/// Binds parameter `p` to `v` in the deepest frame.
fn bind_last(units: &mut Vec<ContextUnit>, p: Parameter, v: ArgValue)
    requires
        old(units)@.len() > 0,
    ensures
        units_view(final(units)@) == bind_in_last(units_view(old(units)@), p@, v@),
        final(units)@.len() == old(units)@.len(),
        units_view(final(units)@).last().command == units_view(old(units)@).last().command,
        forall|k: int|
            0 <= k < final(units)@.len() ==> (#[trigger] units_view(final(units)@)[k]).command
                == units_view(old(units)@)[k].command,
{
    let ghost pre = units_view(units@);
    let mut u = units.pop().unwrap();
    u.insert_parameter(p, v);
    units.push(u);
    proof {
        assert(units_view(units@) =~= bind_in_last(pre, p@, v@));
    }
}

/// Binds the deepest frame's positional value to `v`.
fn set_value_last(units: &mut Vec<ContextUnit>, v: ArgValue)
    requires
        old(units)@.len() > 0,
    ensures
        units_view(final(units)@) == set_value_in_last(units_view(old(units)@), v@),
        final(units)@.len() == old(units)@.len(),
        forall|k: int|
            0 <= k < final(units)@.len() ==> (#[trigger] units_view(final(units)@)[k]).command
                == units_view(old(units)@)[k].command,
{
    let ghost pre = units_view(units@);
    let mut u = units.pop().unwrap();
    u.value = Some(v);
    units.push(u);
    proof {
        assert(units_view(units@) =~= set_value_in_last(pre, v@));
    }
}

/// An owned copy of a parameter record.
fn copy_parameter(p: &Parameter) -> (r: Parameter)
    ensures
        r@ == p@,
{
    Parameter { name: p.name.clone(), value_type: p.value_type, description: p.description.clone() }
}

impl<H> Cli<H> {
    /// One token in the `ReadNext` state: resolves flags against the
    /// deepest frame's command and binds what can be bound at once, handing
    /// back the queue of parameters still owed a value.
    #[verifier::loop_isolation(false)]
    #[verifier::rlimit(100)]
    fn read_next(&self, text: &str, span: Span, units: &mut Vec<ContextUnit>) -> (r: Result<
        Vec<Parameter>,
        Error,
    >)
        requires
            self@.wf(),
            units_ok(self@, units_view(old(units)@)),
        ensures
            match r {
                Ok(queue) => {
                    &&& read_next_step(
                        self@,
                        TokenV { text: text@, span },
                        units_view(old(units)@),
                    ) == Ok::<_, ErrorV>(
                        (
                            if queue@.len() > 0 {
                                StateV::Pending(queue_view(queue@))
                            } else {
                                StateV::ReadNext
                            },
                            units_view(final(units)@),
                        ),
                    )
                    &&& units_ok(self@, units_view(final(units)@))
                },
                Err(e) => read_next_step(
                    self@,
                    TokenV { text: text@, span },
                    units_view(old(units)@),
                ) == Err::<(StateV, Seq<UnitV>), ErrorV>(e@),
            },
    {
        let ghost pre_units = units_view(units@);
        let ghost tv = TokenV { text: text@, span };
        let n = text.unicode_len();
        let last = units.len() - 1;
        let node_idx = units[last].command.1;
        proof {
            assert(pre_units.last() == pre_units[last as int]);
            assert(pre_units.last().command == node_idx as int);
        }
        let node = &self.nodes[node_idx];
        let ghost nodev = self@.nodes[node_idx as int];
        proof {
            assert(nodev == node@);
        }
        if n >= 2 && text.get_char(0) == '-' && text.get_char(1) == '-' {
            proof {
                assert(is_long_flag(tv.text));
            }
            let name = text.substring_char(2, n);
            proof {
                assert(name@ =~= tv.text.skip(2));
            }
            match node.find_parameter(name) {
                None => Err(Error::NotParameter(span)),
                Some(p) => {
                    if p.value_type == ArgType::Bool {
                        let record = copy_parameter(p);
                        bind_last(units, record, ArgValue::Bool(true));
                        Ok(Vec::new())
                    } else {
                        let record = copy_parameter(p);
                        let mut queue: Vec<Parameter> = Vec::new();
                        queue.push(record);
                        proof {
                            assert(queue_view(queue@) =~= seq![p@]);
                        }
                        Ok(queue)
                    }
                },
            }
        } else if n >= 1 && text.get_char(0) == '-' {
            proof {
                assert(is_short_flag(tv.text));
            }
            let mut queue: Vec<Parameter> = Vec::new();
            let mut pos: usize = 1;
            proof {
                assert(tv.text.skip(1) =~= tv.text.skip(pos as int));
                assert(queue_view(queue@) =~= Seq::<ParamV>::empty());
            }
            while pos < n
                invariant
                    1 <= pos <= n,
                    units_ok(self@, units_view(units@)),
                    units_view(units@).len() == pre_units.len(),
                    units_view(units@).last().command == node_idx as int,
                    cluster(nodev.parameters, tv.text.skip(1), span, Seq::empty(), pre_units)
                        == cluster(
                        nodev.parameters,
                        tv.text.skip(pos as int),
                        span,
                        queue_view(queue@),
                        units_view(units@),
                    ),
                decreases n - pos,
            {
                let c = text.get_char(pos);
                let ghost cs = tv.text.skip(pos as int);
                proof {
                    assert(cs[0] == tv.text[pos as int]);
                    assert(cs.drop_first() =~= tv.text.skip(pos + 1));
                }
                match node.find_parameter_char(c) {
                    None => {
                        return Err(Error::NotParameter(span));
                    },
                    Some(p) => {
                        let ghost pv = p@;
                        let ghost q_pre = queue_view(queue@);
                        let ghost u_pre = units_view(units@);
                        if p.value_type == ArgType::Bool {
                            let record = copy_parameter(p);
                            bind_last(units, record, ArgValue::Bool(true));
                            proof {
                                assert(cluster(nodev.parameters, cs, span, q_pre, u_pre)
                                    == cluster(
                                    nodev.parameters,
                                    cs.drop_first(),
                                    span,
                                    q_pre,
                                    bind_in_last(u_pre, pv, ArgValueV::Bool(true)),
                                ));
                            }
                        } else {
                            let record = copy_parameter(p);
                            queue.push(record);
                            proof {
                                assert(queue_view(queue@) =~= q_pre.push(pv));
                                assert(cluster(nodev.parameters, cs, span, q_pre, u_pre)
                                    == cluster(
                                    nodev.parameters,
                                    cs.drop_first(),
                                    span,
                                    q_pre.push(pv),
                                    u_pre,
                                ));
                            }
                        }
                    },
                }
                pos = pos + 1;
            }
            proof {
                assert(tv.text.skip(n as int) =~= Seq::<char>::empty());
            }
            Ok(queue)
        } else {
            match node.find_subcommand(text) {
                Some(idx) => {
                    proof {
                        lemma_find_key_some(nodev.subcommands, tv.text);
                        let k = choose|k: int|
                            0 <= k < nodev.subcommands.len() && #[trigger] nodev.subcommands[k] == (
                            tv.text,
                            find_key(nodev.subcommands, tv.text)->0,
                            );
                        assert(node_wf(nodev, node_idx as int));
                        assert(nodev.subcommands[k].1 == idx as int);
                        assert(0 <= (idx as int) < self@.nodes.len());
                    }
                    units.push(
                        ContextUnit {
                            command: (text.to_owned(), idx),
                            parameters: Vec::new(),
                            value: None,
                        },
                    );
                    proof {
                        assert(units_view(units@) =~~= pre_units.push(
                            new_unit(tv.text, idx as int),
                        ));
                    }
                    Ok(Vec::new())
                },
                None => {
                    match node.value {
                        Some(vt) => {
                            match crate::value::parse_arg(vt, text, span) {
                                Ok(v) => {
                                    set_value_last(units, v);
                                    Ok(Vec::new())
                                },
                                Err(e) => Err(e),
                            }
                        },
                        None => Err(Error::NotCommand(span)),
                    }
                },
            }
        }
    }
}

/// The resolver's executable state; [`rstate_view`] maps it onto
/// [`StateV`].
enum RState {
    ReadFirst,
    ReadNext,
    Pending(Vec<Parameter>),
}

spec fn rstate_view(st: RState) -> StateV {
    match st {
        RState::ReadFirst => StateV::ReadFirst,
        RState::ReadNext => StateV::ReadNext,
        RState::Pending(q) => StateV::Pending(queue_view(q@)),
    }
}

impl<H> Cli<H> {
    /// Resolves a line against the command tree: tokenizes it, walks the
    /// resolution state machine over the tokens, and hands back the
    /// accumulated context, whose deepest frame is a command with a
    /// handler.
    #[verifier::loop_isolation(false)]
    #[verifier::rlimit(100)]
    pub fn parse(&self, line: &str) -> (r: Result<Context, Error>)
        requires
            self@.wf(),
        ensures
            match r {
                Ok(ctx) => {
                    &&& spec_parse(self@, line@) == Ok::<_, ErrorV>(ctx@)
                    &&& ctx@.len() > 0
                    &&& 0 <= ctx@.last().command < self@.nodes.len()
                    &&& self@.nodes[ctx@.last().command].has_handler
                },
                Err(e) => spec_parse(self@, line@) == Err::<Seq<UnitV>, ErrorV>(e@),
            },
    {
        let toks = crate::tokenizer::split_line(line);
        let ghost toksv = crate::tokenizer::spec_split(line@);
        let mut units: Vec<ContextUnit> = Vec::new();
        proof {
            assert(units_view(units@) =~= Seq::<UnitV>::empty());
        }
        let mut st = RState::ReadFirst;
        let mut i: usize = 0;
        let n = toks.len();
        while i < n
            invariant
                i <= n,
                n == toks@.len(),
                st matches RState::ReadFirst ==> units@.len() == 0,
                !(st matches RState::ReadFirst) ==> units_ok(self@, units_view(units@)),
                st matches RState::Pending(q) ==> q@.len() > 0,
                run(self@, toksv, i as int, rstate_view(st), units_view(units@)) == spec_parse(
                    self@,
                    line@,
                ),
            decreases n - i,
        {
            let tok = &toks[i];
            let text = tok.0.as_str();
            let span = tok.1;
            let ghost tv = toksv[i as int];
            proof {
                assert(tv == TokenV { text: text@, span });
            }
            let ghost pre_st = rstate_view(st);
            let ghost pre_units = units_view(units@);
            st = match st {
                RState::ReadFirst => {
                    if text.unicode_len() > 0 && text.get_char(0) == '-' {
                        proof {
                            assert(step(self@, tv, pre_st, pre_units) == Err::<
                                (StateV, Seq<UnitV>),
                                ErrorV,
                            >(ErrorV::CommandExpected(span)));
                        }
                        return Err(Error::CommandExpected(span));
                    }
                    let node_idx = self.root;
                    match self.nodes[node_idx].find_subcommand(text) {
                        Some(idx) => {
                            proof {
                                let nodev = self@.nodes[node_idx as int];
                                lemma_find_key_some(nodev.subcommands, tv.text);
                                let k = choose|k: int|
                                    0 <= k < nodev.subcommands.len()
                                        && #[trigger] nodev.subcommands[k] == (
                                    tv.text,
                                    find_key(nodev.subcommands, tv.text)->0,
                                    );
                                assert(node_wf(nodev, node_idx as int));
                                assert(nodev.subcommands[k].1 == idx as int);
                            }
                            units.push(
                                ContextUnit {
                                    command: (text.to_owned(), idx),
                                    parameters: Vec::new(),
                                    value: None,
                                },
                            );
                            proof {
                                assert(units_view(units@) =~~= pre_units.push(
                                    new_unit(tv.text, idx as int),
                                ));
                                assert(step(self@, tv, pre_st, pre_units) == Ok::<
                                    _,
                                    ErrorV,
                                >((StateV::ReadNext, units_view(units@))));
                            }
                            RState::ReadNext
                        },
                        None => {
                            proof {
                                assert(step(self@, tv, pre_st, pre_units) == Err::<
                                    (StateV, Seq<UnitV>),
                                    ErrorV,
                                >(ErrorV::NotCommand(span)));
                            }
                            return Err(Error::NotCommand(span));
                        },
                    }
                },
                RState::ReadNext => {
                    match self.read_next(text, span, &mut units) {
                        Ok(queue) => {
                            if queue.len() > 0 {
                                RState::Pending(queue)
                            } else {
                                RState::ReadNext
                            }
                        },
                        Err(e) => {
                            return Err(e);
                        },
                    }
                },
                RState::Pending(mut queue) => {
                    let ghost qv = queue_view(queue@);
                    let p = queue.remove(0);
                    proof {
                        assert(qv[0] == p@);
                        assert(queue_view(queue@) =~= qv.drop_first());
                    }
                    match crate::value::parse_arg(p.value_type, text, span) {
                        Err(e) => {
                            return Err(e);
                        },
                        Ok(v) => {
                            bind_last(&mut units, p, v);
                            if queue.len() == 0 {
                                RState::ReadNext
                            } else {
                                RState::Pending(queue)
                            }
                        },
                    }
                },
            };
            proof {
                assert(step(self@, tv, pre_st, pre_units) == Ok::<_, ErrorV>(
                    (rstate_view(st), units_view(units@)),
                ));
            }
            i = i + 1;
        }
        match &st {
            RState::Pending(queue) => {
                if queue.len() > 1 {
                    proof {
                        assert(finish(self@, rstate_view(st), units_view(units@)) == Err::<
                            Seq<UnitV>,
                            ErrorV,
                        >(ErrorV::ParserFault));
                    }
                    return Err(Error::ParserFault);
                }
                if queue[0].value_type != ArgType::Bool {
                    proof {
                        assert(finish(self@, rstate_view(st), units_view(units@)) == Err::<
                            Seq<UnitV>,
                            ErrorV,
                        >(ErrorV::ParameterValueMissed));
                    }
                    return Err(Error::ParameterValueMissed);
                }
            },
            _ => {},
        }
        if units.len() == 0 {
            proof {
                assert(finish(self@, rstate_view(st), units_view(units@)) == Err::<
                    Seq<UnitV>,
                    ErrorV,
                >(ErrorV::NoHandler("root"@)));
            }
            return Err(Error::NoHandler("root".to_owned()));
        }
        let last = units.len() - 1;
        let node_idx = units[last].command.1;
        proof {
            assert(units_view(units@).last().command == node_idx as int);
        }
        if self.nodes[node_idx].handler.is_some() {
            let ctx = Context { units };
            proof {
                assert(ctx@ =~= units_view(ctx.units@));
            }
            Ok(ctx)
        } else {
            Err(Error::NoHandler(units[last].command.0.clone()))
        }
    }

}

impl<H: Handler> Cli<H> {
    /// Parses and dispatches one line: on success the matched command's
    /// handler runs synchronously with the accumulated context and its
    /// result is handed back; every failure is handed back as the typed
    /// error. The tree itself is left as it was.
    pub fn exec_line(&mut self, line: &str) -> (r: Result<H::Output, Error>)
        requires
            old(self)@.wf(),
        ensures
            final(self)@ == old(self)@,
            final(self).need_print_error == old(self).need_print_error,
            final(self).need_print_help == old(self).need_print_help,
            match r {
                Ok(_) => spec_parse(old(self)@, line@) is Ok,
                Err(e) => spec_parse(old(self)@, line@) == Err::<Seq<UnitV>, ErrorV>(e@),
            },
    {
        let ghost pre = self@;
        let ctx = match self.parse(line) {
            Ok(c) => c,
            Err(e) => {
                return Err(e);
            },
        };
        let last = ctx.units.len() - 1;
        let node_idx = ctx.units[last].command.1;
        proof {
            assert(ctx@.last().command == node_idx as int);
        }
        let mut node = Command {
            subcommands: Vec::new(),
            value: None,
            description: None,
            parameters: Vec::new(),
            handler: None,
        };
        self.nodes.set_and_swap(node_idx, &mut node);
        let out = match &mut node.handler {
            Some(h) => h.invoke(ctx),
            None => {
                proof {
                    assert(false);
                }
                return Err(Error::ParserFault);
            },
        };
        self.nodes.set_and_swap(node_idx, &mut node);
        proof {
            assert(self@.nodes =~~= pre.nodes);
        }
        Ok(out)
    }

    /// Parses and dispatches one line; see [`Cli::exec_line`]. An embedding
    /// application that enables error or help printing wraps this call and
    /// renders from the returned error and the tree.
    pub fn exec(&mut self, line: &str) -> (r: Result<H::Output, Error>)
        requires
            old(self)@.wf(),
        ensures
            final(self)@ == old(self)@,
            final(self).need_print_error == old(self).need_print_error,
            final(self).need_print_help == old(self).need_print_help,
            match r {
                Ok(_) => spec_parse(old(self)@, line@) is Ok,
                Err(e) => spec_parse(old(self)@, line@) == Err::<Seq<UnitV>, ErrorV>(e@),
            },
    {
        self.exec_line(line)
    }
}

/// Builder for a [`Cli`]: top-level commands are attached to an implicit
/// root container.
pub struct CliBuilder<H> {
    pub root: CommandBuilder<H>,
    pub need_print_error: bool,
    pub need_print_help: bool,
}

impl<H> Cli<H> {
    /// Starts building a command-line interface.
    pub fn builder() -> (r: CliBuilder<H>)
        ensures
            r.root@.wf(),
            r.root@.arena == Seq::<CommandV>::empty(),
            r.root@.subcommands == Seq::<(Seq<char>, int)>::empty(),
            r.root@.name == "root"@,
            !r.root@.has_handler,
            r.root@.value is None,
            !r.need_print_error,
            !r.need_print_help,
    {
        CliBuilder {
            root: CommandBuilder::with_name("root"),
            need_print_error: false,
            need_print_help: false,
        }
    }
}

impl<H> CliBuilder<H> {
    /// Registers a top-level command. As with subcommands, the command must
    /// be viable and its name and aliases must be fresh.
    pub fn command(self, cmd: CommandBuilder<H>) -> (r: Self)
        requires
            self.root@.wf(),
            cmd@.wf(),
            cmd@.viable(),
            self.root@.arena.len() + cmd@.arena.len() + 1 <= usize::MAX,
            forall|a: int, b: int|
                0 <= a < b < cmd@.keys().len() ==> cmd@.keys()[a] != cmd@.keys()[b],
            forall|a: int|
                0 <= a < cmd@.keys().len() ==> find_key(
                    self.root@.subcommands,
                    #[trigger] cmd@.keys()[a],
                ) is None,
        ensures
            r.root@ == self.root@.attach(cmd@),
            r.root@.wf(),
            r.need_print_error == self.need_print_error,
            r.need_print_help == self.need_print_help,
    {
        let CliBuilder { root, need_print_error, need_print_help } = self;
        CliBuilder { root: root.subcommand(cmd), need_print_error, need_print_help }
    }

    /// Switches printing of error messages on or off; the embedding
    /// application reads the toggle back from the built [`Cli`].
    pub fn print_error(self, enable: bool) -> (r: Self)
        ensures
            r.root == self.root,
            r.need_print_error == enable,
            r.need_print_help == self.need_print_help,
    {
        CliBuilder { need_print_error: enable, ..self }
    }

    /// Switches printing of help on or off; the embedding application reads
    /// the toggle back from the built [`Cli`].
    pub fn print_help(self, enable: bool) -> (r: Self)
        ensures
            r.root == self.root,
            r.need_print_help == enable,
            r.need_print_error == self.need_print_error,
    {
        CliBuilder { need_print_help: enable, ..self }
    }

    /// Freezes the tree and hands the finished [`Cli`] back: the builder's
    /// arena, closed by the root container node.
    pub fn build(self) -> (r: Cli<H>)
        requires
            self.root@.wf(),
            self.root@.arena.len() + 1 <= usize::MAX,
        ensures
            r@.wf(),
            r@.nodes == self.root@.arena + seq![self.root@.closed_node()],
            r@.root == self.root@.arena.len(),
            r.need_print_error == self.need_print_error,
            r.need_print_help == self.need_print_help,
    {
        let ghost rootv = self.root@;
        let CliBuilder { root, need_print_error, need_print_help } = self;
        let CommandBuilder {
            name: _,
            aliases: _,
            arena: mut nodes,
            subcommands,
            value,
            description,
            parameters,
            handler,
        } = root;
        let root_index = nodes.len();
        nodes.push(
            Command { subcommands, value, description, parameters, handler },
        );
        let r = Cli { nodes, root: root_index, need_print_error, need_print_help };
        proof {
            assert(r@.nodes =~= rootv.arena + seq![rootv.closed_node()]);
            assert forall|j: int| 0 <= j < r@.nodes.len() implies node_wf(#[trigger] r@.nodes[j], j) by {
                if j < rootv.arena.len() {
                    assert(r@.nodes[j] == rootv.arena[j]);
                } else {
                    assert(r@.nodes[j] == rootv.closed_node());
                }
            }
        }
        r
    }
}

} // verus!
