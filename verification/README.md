# term_rewriting

A small term rewriting system, verified with Verus.

- `src/text.rs`: character equality of string slices.
- `src/term.rs`: terms (leaves and operator nodes), rules, and their
  mathematical values (`TermModel`, `RuleModel`).
- `src/semantics.rs`: the meaning of one rewriting step, when a step is
  defined, and where repeated steps lead (`rewrite_step`, `step_defined`,
  `reaches_leaf`, `normal_form`).
- `src/rewriter.rs`: the rewriter: building the rule table, one step
  (`try_rewrite`), and rewriting to a leaf (`do_traversal`).
- `src/boolean_rules.rs`: the ten rules of boolean logic.
- `src/laws.rs`: the boolean rules evaluate every boolean expression to the
  leaf of its truth value.
