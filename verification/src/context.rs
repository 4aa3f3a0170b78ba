//! The per-call context: the chain of matched command frames, from the
//! first command named on the line down to the command invoked, with the
//! values bound along the way. A handler reads it; nothing outlives the
//! call.

use crate::parameter::{ParamV, Parameter};
use crate::value::{ArgValue, ArgValueV};
use vstd::prelude::*;

verus! {

/// One matched command frame: the name the caller typed (which may be an
/// alias), the arena index of the matched node, the parameters bound in
/// this frame under their canonical records, and the frame's positional
/// value if one was bound.
pub struct ContextUnit {
    pub command: (String, usize),
    pub parameters: Vec<(Parameter, ArgValue)>,
    pub value: Option<ArgValue>,
}

/// The mathematical value of a [`ContextUnit`].
#[verifier::ext_equal]
pub struct UnitV {
    pub name: Seq<char>,
    pub command: int,
    pub parameters: Seq<(ParamV, ArgValueV)>,
    pub value: Option<ArgValueV>,
}

impl View for ContextUnit {
    type V = UnitV;

    open spec fn view(&self) -> UnitV {
        UnitV {
            name: self.command.0@,
            command: self.command.1 as int,
            parameters: Seq::new(
                self.parameters@.len(),
                |i: int| (self.parameters@[i].0@, self.parameters@[i].1@),
            ),
            value: match self.value {
                Some(ref v) => Some(v@),
                None => None,
            },
        }
    }
}

/// The index of the binding whose parameter's canonical name is `name`, or
/// `-1` when no binding carries it.
pub open spec fn param_index(ps: Seq<(ParamV, ArgValueV)>, name: Seq<char>) -> int
    decreases ps.len(),
{
    if ps.len() == 0 {
        -1
    } else if ps[0].0.name == name {
        0
    } else {
        let r = param_index(ps.drop_first(), name);
        if r < 0 {
            -1
        } else {
            r + 1
        }
    }
}

/// The binding whose parameter's canonical name is `name`, if any.
pub open spec fn lookup_param(ps: Seq<(ParamV, ArgValueV)>, name: Seq<char>) -> Option<
    (ParamV, ArgValueV),
> {
    let j = param_index(ps, name);
    if j < 0 {
        None
    } else {
        Some(ps[j])
    }
}

/// The bindings after parameter `p` is bound to `v`: an existing binding
/// under the same canonical name is replaced, any other is kept, and a
/// fresh name is appended.
pub open spec fn bind_param(
    ps: Seq<(ParamV, ArgValueV)>,
    p: ParamV,
    v: ArgValueV,
) -> Seq<(ParamV, ArgValueV)> {
    let j = param_index(ps, p.name);
    if j < 0 {
        ps.push((p, v))
    } else {
        ps.update(j, (p, v))
    }
}

/// A name matched by none of the first `i` bindings is found, if at all,
/// among the remaining ones.
pub proof fn lemma_param_index_skip(ps: Seq<(ParamV, ArgValueV)>, name: Seq<char>, i: int)
    requires
        0 <= i <= ps.len(),
        forall|k: int| 0 <= k < i ==> ps[k].0.name != name,
    ensures
        param_index(ps, name) == if param_index(ps.skip(i), name) < 0 {
            -1
        } else {
            i + param_index(ps.skip(i), name)
        },
    decreases i,
{
    if i > 0 {
        assert(ps.drop_first() =~= ps.skip(1));
        lemma_param_index_skip(ps.skip(1), name, i - 1);
        assert(ps.skip(1).skip(i - 1) =~= ps.skip(i));
    } else {
        assert(ps.skip(0) =~= ps);
    }
}

impl ContextUnit {
    /// The command name as the caller typed it, which may be an alias.
    pub fn name(&self) -> (r: &String)
        ensures
            r@ == self@.name,
    {
        &self.command.0
    }

    /// Every parameter bound in this frame, with its value.
    pub fn parameters(&self) -> (r: &Vec<(Parameter, ArgValue)>)
        ensures
            r@.len() == self@.parameters.len(),
            forall|i: int|
                0 <= i < r@.len() ==> (#[trigger] r@[i].0@, r@[i].1@) == self@.parameters[i],
    {
        &self.parameters
    }

    /// The binding under this canonical parameter name, if the frame holds
    /// one.
    pub fn parameter(&self, name: &str) -> (r: Option<&(Parameter, ArgValue)>)
        ensures
            match r {
                Some(b) => lookup_param(self@.parameters, name@) == Some((b.0@, b.1@)),
                None => lookup_param(self@.parameters, name@) is None,
            },
    {
        let n = self.parameters.len();
        let mut i: usize = 0;
        while i < n
            invariant
                i <= n,
                n == self.parameters@.len(),
                forall|k: int| 0 <= k < i ==> self@.parameters[k].0.name != name@,
            decreases n - i,
        {
            if crate::str_eq(self.parameters[i].0.name.as_str(), name) {
                proof {
                    lemma_param_index_skip(self@.parameters, name@, i as int);
                    assert(self@.parameters.skip(i as int)[0] == self@.parameters[i as int]);
                }
                return Some(&self.parameters[i]);
            }
            i = i + 1;
        }
        proof {
            lemma_param_index_skip(self@.parameters, name@, n as int);
            assert(self@.parameters.skip(n as int) =~= Seq::<(ParamV, ArgValueV)>::empty());
        }
        None
    }

    /// The frame's positional value, if one was bound.
    pub fn value(&self) -> (r: Option<&ArgValue>)
        ensures
            match r {
                Some(v) => self@.value == Some(v@),
                None => self@.value is None,
            },
    {
        self.value.as_ref()
    }

    /// Binds parameter `p` to `v` in this frame, replacing any binding that
    /// already carries the same canonical name.
    #[verifier::loop_isolation(false)]
    pub fn insert_parameter(&mut self, p: Parameter, v: ArgValue) -> (nothing: ())
        ensures
            final(self)@ == (UnitV {
                parameters: bind_param(old(self)@.parameters, p@, v@),
                ..old(self)@
            }),
    {
        let ghost pre = self@;
        let n = self.parameters.len();
        let mut i: usize = 0;
        while i < n
            invariant
                i <= n,
                n == self.parameters@.len(),
                self@ == pre,
                forall|k: int| 0 <= k < i ==> pre.parameters[k].0.name != p@.name,
            decreases n - i,
        {
            if crate::str_eq(self.parameters[i].0.name.as_str(), p.name.as_str()) {
                proof {
                    lemma_param_index_skip(pre.parameters, p@.name, i as int);
                    assert(pre.parameters.skip(i as int)[0] == pre.parameters[i as int]);
                }
                proof {
                    assert(param_index(pre.parameters.skip(i as int), p@.name) == 0);
                    assert(param_index(pre.parameters, p@.name) == i);
                }
                self.parameters.set(i, (p, v));
                proof {
                    assert(self@.parameters =~= pre.parameters.update(i as int, (p@, v@)));
                    assert(self@ == (UnitV {
                        parameters: bind_param(pre.parameters, p@, v@),
                        ..pre
                    }));
                }
                return ;
            }
            i = i + 1;
        }
        proof {
            lemma_param_index_skip(pre.parameters, p@.name, n as int);
            assert(pre.parameters.skip(n as int) =~= Seq::<(ParamV, ArgValueV)>::empty());
        }
        self.parameters.push((p, v));
        proof {
            assert(self@.parameters =~= pre.parameters.push((p@, v@)));
        }
    }
}

/// The chain of matched command frames of one `parse` call, outermost
/// first: one frame per matched command, none for the implicit root
/// container.
pub struct Context {
    pub units: Vec<ContextUnit>,
}

impl View for Context {
    type V = Seq<UnitV>;

    open spec fn view(&self) -> Seq<UnitV> {
        Seq::new(self.units@.len(), |i: int| self.units@[i]@)
    }
}

impl Context {
    /// Every matched frame, outermost first; the last frame is the command
    /// that was invoked.
    pub fn command_units(&self) -> (r: &Vec<ContextUnit>)
        ensures
            r@.len() == self@.len(),
            forall|i: int| 0 <= i < r@.len() ==> #[trigger] r@[i]@ == self@[i],
    {
        &self.units
    }
}

} // verus!
