//! Where variables are bound in a statement.
use vstd::prelude::*;
use crate::bind;
use crate::bind::{Schemas, SyntaxNodeView, SyntaxView};
use crate::value::ValueView;

verus! {

/// A name becomes the value of the variable of that name, unless a column shadows it or there is no such
/// variable; a constant stays as it is.
pub proof fn law_names_become_values(
    name: Seq<char>,
    v: ValueView,
    parts: Seq<SyntaxView>,
    env: Map<Seq<char>, ValueView>,
    schemas: Schemas,
    shadowed: Set<Seq<char>>,
)
    ensures
        ({
            let s = SyntaxView { node: SyntaxNodeView::Column(name), parts };
            let after = bind::bound(s, env, schemas, shadowed);
            &&& env.contains_key(name) && !shadowed.contains(name) ==> after.node == SyntaxNodeView::Literal(
                env[name],
            )
            &&& !env.contains_key(name) || shadowed.contains(name) ==> after == s
        }),
        ({
            let s = SyntaxView { node: SyntaxNodeView::Literal(v), parts };
            bind::bound(s, env, schemas, shadowed) == s
        }),
{
}

/// A part of a statement is bound in all of its own parts, and keeps their number and its kind. A scope
/// adds the columns of its tables to what is shadowed, but not in the parts that it inherits from around
/// it.
pub proof fn law_parts_are_bound_in_their_scope(
    s: SyntaxView,
    i: int,
    env: Map<Seq<char>, ValueView>,
    schemas: Schemas,
    shadowed: Set<Seq<char>>,
)
    requires
        0 <= i < s.parts.len(),
    ensures
        s.node is Part ==> {
            let after = bind::bound(s, env, schemas, shadowed);
            &&& after.node == s.node
            &&& after.parts.len() == s.parts.len()
            &&& after.parts[i] == bind::bound(s.parts[i], env, schemas, shadowed)
        },
        s.node matches SyntaxNodeView::Scope { tables, inherited } ==> {
            let after = bind::bound(s, env, schemas, shadowed);
            let inner = Set::new(
                |n: Seq<char>|
                    shadowed.contains(n) || exists|t: int|
                        0 <= t < tables.len() && schemas.contains_key(#[trigger] tables[t])
                            && schemas[tables[t]].contains(n),
            );
            &&& after.node == s.node
            &&& after.parts.len() == s.parts.len()
            &&& i < inherited ==> after.parts[i] == bind::bound(s.parts[i], env, schemas, shadowed)
            &&& i >= inherited ==> after.parts[i] == bind::bound(s.parts[i], env, schemas, inner)
        },
{
    if let SyntaxNodeView::Scope { tables, inherited } = s.node {
        let inner = Set::new(
            |n: Seq<char>|
                shadowed.contains(n) || exists|t: int|
                    0 <= t < tables.len() && schemas.contains_key(#[trigger] tables[t])
                        && schemas[tables[t]].contains(n),
        );
        assert(inner =~= bind::with_tables(shadowed, tables, schemas));
    }
}

} // verus!
