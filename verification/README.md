# destructuring

A pass that lowers ECMAScript 2015 destructuring (declarations, parameters, loop heads, catch
clauses and assignments) to plain declarations and assignments, written and verified in Verus.

- `src/ast.rs`: the syntax tree, and the mathematical value of a node.
- `src/hygiene.rs`: marks and syntax contexts, which `swc_common` keeps. The items here whose
  contracts are trusted name the function of `swc_common` that they stand for.
- `src/rules.rs`: what the pass makes of a tree.
- `src/destructuring.rs`: the pass, with `src/factory.rs`, `src/nullness.rs` and `src/visitor.rs`.
- `src/measure.rs`, `src/weighing.rs`, `src/shrink.rs`: how much destructuring a tree holds, and
  that the pass never adds any.
- `src/bounds.rs`: that the bounds in the rules always hold, and that it does not matter which bound
  is taken.
- `src/reach.rs`, `src/standing.rs`, `src/lowered.rs`: where a pattern can stand so that the pass
  takes it apart, and that none is left where all stand so.
- `src/bindings.rs`, `src/values.rs`, `src/growth.rs`: that declarations declare the same names,
  that assignments keep their value, and that new names are told from all others.
- `src/unpacking.rs`: how the parameters of a function are taken apart.
- `src/quiet.rs`, `src/renaming.rs`, `src/joining.rs`: that a lowered declaration stays as it is,
  that what comes out does not depend on what was made before, up to the contexts of new names, and
  that lists of declarators can be lowered one after the other.
