//! Loading a source text into an interpreter program.

use vstd::prelude::*;

use crate::diagnostics::{Diagnostics, Origin};
use crate::interpreter::{definition_of, Binding, BindingValue, Native, Program, StatementNode, Term, Variable};
use crate::script_parser::{spec_statements, stmts_are, Parser};
use crate::stdlib::{parlance_control_if, parlance_string_concat};
use crate::text::owned;

verus! {

/// The bindings every program starts with: `true`, `false`, and the host
/// functions `std::io::print`, `std::string::concat` and `std::control::if`.
pub open spec fn prelude_bound(scope: Seq<Binding>) -> bool {
    &&& scope.len() >= 5
    &&& scope[0].name@ == "true"@ && scope[0].value == BindingValue::Value(Term::Bool(true))
    &&& scope[1].name@ == "false"@ && scope[1].value == BindingValue::Value(Term::Bool(false))
    &&& scope[2].name@ == "std::io::print"@ && scope[2].value == BindingValue::NativeFunction(Native::Print)
    &&& scope[3].name@ == "std::string::concat"@ && scope[3].value == BindingValue::NativeFunction(
        Native::StringConcat,
    )
    &&& scope[4].name@ == "std::control::if"@ && scope[4].value == BindingValue::NativeFunction(
        Native::StdControlIf,
    )
}

/// Parse `source` and bind, after the prelude, every definition it makes,
/// in order, in one scope.
/// The binding that statement `s` makes.
pub open spec fn binding_of(s: StatementNode) -> Binding {
    Binding { name: definition_of(s.kind).0, value: BindingValue::Value(definition_of(s.kind).1) }
}

pub fn load_source(source: &str) -> (r: Result<Program, Diagnostics>)
    ensures
        r matches Ok(p) ==> p.scopes().len() == 1 && prelude_bound(p.scopes()[0]) && p.printed().len() == 0,
        r is Ok <==> spec_statements(source@, 0, Seq::empty()) is Some,
        r matches Err(d) ==> d.origin == Origin::Parser,
        r matches Ok(p) ==> exists|stats: Seq<StatementNode>|
            #[trigger] stmts_are(stats, spec_statements(source@, 0, Seq::empty())->Some_0) && p.scopes()[0].len() == 5
                + stats.len() && forall|k: int| 0 <= k < stats.len() ==> p.scopes()[0][5 + k] == binding_of(
                #[trigger] stats[k],
            ),
{
    let mut parser = Parser::new(source);
    let stats = parser.parse()?;
    let ghost all = stats@;
    let mut program = Program::new();
    program.binding(Binding { name: owned("true"), value: BindingValue::Value(Term::Bool(true)) });
    program.binding(Binding { name: owned("false"), value: BindingValue::Value(Term::Bool(false)) });
    program.binding(Binding { name: owned("std::io::print"), value: BindingValue::NativeFunction(Native::Print) });
    program.binding(Binding { name: owned("std::string::concat"), value: parlance_string_concat() });
    program.binding(Binding { name: owned("std::control::if"), value: parlance_control_if() });
    proof {
        assert(prelude_bound(program.scopes()[0]));
    }
    let mut stats = stats;
    proof {
        assert(all.subrange(0, all.len() as int) =~= all);
    }
    while stats.len() > 0
        invariant
            program.scopes().len() == 1,
            prelude_bound(program.scopes()[0]),
            program.printed().len() == 0,
            stats@.len() <= all.len(),
            stats@ == all.subrange(all.len() - stats@.len(), all.len() as int),
            program.scopes()[0].len() == 5 + (all.len() - stats@.len()),
            forall|k: int| 0 <= k < all.len() - stats@.len() ==> program.scopes()[0][5 + k] == binding_of(#[trigger] all[k]),
        decreases stats@.len(),
    {
        let ghost done = all.len() - stats@.len();
        let s = stats.remove(0);
        proof {
            assert(s == all[done]);
            assert(stats@ =~= all.subrange(all.len() - stats@.len(), all.len() as int));
        }
        let ghost before = program.scopes()[0];
        let v = Variable::from_statement(s.kind);
        let b = Binding::from_variable(v);
        proof {
            assert(b == binding_of(all[done]));
        }
        program.binding(b);
        proof {
            assert(program.scopes()[0] == before.push(program.scopes()[0].last()));
            assert(prelude_bound(program.scopes()[0])) by {
                assert forall|i: int| 0 <= i < 5 implies program.scopes()[0][i] == before[i] by {}
            }
            assert forall|k: int| 0 <= k < all.len() - stats@.len() implies program.scopes()[0][5 + k] == binding_of(
                #[trigger] all[k],
            ) by {
                if k < done {
                    assert(program.scopes()[0][5 + k] == before[5 + k]);
                }
            }
        }
    }
    Ok(program)
}

} // verus!
