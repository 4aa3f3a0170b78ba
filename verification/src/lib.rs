//! An embeddable command-line parser and dispatcher.
//!
//! A static tree of commands, subcommands and typed parameters is assembled
//! through a builder, frozen into an arena of nodes, and consumed read-only
//! while a line is parsed: the line is tokenized with quote handling, the
//! tokens are resolved against the tree, string tokens are coerced into typed
//! values, and the matched command's handler is invoked with the accumulated
//! context.

pub mod cli;
pub mod command;
pub mod context;
pub mod error;
pub mod parameter;
pub mod tokenizer;
pub mod value;

pub use cli::Cli;
pub use cli::CliBuilder;
pub use cli::Handler;
pub use command::Command;
pub use command::CommandBuilder;
pub use context::Context;
pub use context::ContextUnit;
pub use error::Error;
pub use error::IntErrorKind;
pub use error::Kind;
pub use error::Span;
pub use parameter::Parameter;
pub use parameter::ParameterBuilder;
pub use tokenizer::split_line;
pub use value::parse_arg;
pub use value::ArgType;
pub use value::ArgValue;

use vstd::prelude::*;

verus! {

/// A character with the Unicode `White_Space` property, as
/// `char::is_whitespace` recognizes it.
pub open spec fn is_space_char(c: char) -> bool {
    let u = c as u32;
    u == 0x09 || u == 0x0A || u == 0x0B || u == 0x0C || u == 0x0D || u == 0x20 || u == 0x85
        || u == 0xA0 || u == 0x1680 || (0x2000 <= u && u <= 0x200A) || u == 0x2028 || u == 0x2029
        || u == 0x202F || u == 0x205F || u == 0x3000
}

/// Whether `c` ends an unquoted word, exactly as `char::is_whitespace` does.
pub fn is_space(c: char) -> (r: bool)
    ensures
        r == is_space_char(c),
{
    let u = c as u32;
    u == 0x09 || u == 0x0A || u == 0x0B || u == 0x0C || u == 0x0D || u == 0x20 || u == 0x85
        || u == 0xA0 || u == 0x1680 || (0x2000 <= u && u <= 0x200A) || u == 0x2028 || u == 0x2029
        || u == 0x202F || u == 0x205F || u == 0x3000
}

/// Whether two string slices spell the same sequence of characters.
pub fn str_eq(a: &str, b: &str) -> (r: bool)
    ensures
        r == (a@ == b@),
{
    let an = a.unicode_len();
    let bn = b.unicode_len();
    if an != bn {
        proof {
            assert(a@ != b@) by {
                if a@ == b@ {
                    assert(a@.len() == b@.len());
                }
            }
        }
        return false;
    }
    let mut i: usize = 0;
    while i < an
        invariant
            i <= an,
            an == a@.len(),
            an == b@.len(),
            forall|k: int| 0 <= k < i ==> a@[k] == b@[k],
        decreases an - i,
    {
        if a.get_char(i) != b.get_char(i) {
            proof {
                assert(a@ != b@) by {
                    if a@ == b@ {
                        assert(a@[i as int] == b@[i as int]);
                    }
                }
            }
            return false;
        }
        i = i + 1;
    }
    proof {
        assert(a@ =~= b@);
    }
    true
}

} // verus!
