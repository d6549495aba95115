# rntz_joins

Worst-case-optimal joins over hash-trie indexes, verified with Verus.

A query is a conjunction of relational atoms (`E(x, y)`) and computational operators
(`x + y = z`, `x <= y`) over variables. The pipeline:

1. `Query::self_check` checks the query against a database: distinct variables, atoms and
   operators of the right arity over declared variables, every variable grounded
   (`Query::ground_vars`).
2. `Query::structural_var_order` picks a variable order from the query's structure.
3. `Query::plan` derives an index shape per atom and assigns atoms and operators to one
   level per variable.
4. `QueryPlan::build_indexes` builds one trie per distinct (relation, shape) pair
   (`Trie::build`), and `QueryPlan::bind` binds them to the plan.
5. `ExecutableQuery::execute_dfs` / `collect_dfs` run the join depth-first;
   `execute_bfs` / `collect_bfs` run it breadth-first.

Layout of `src/`:

- `join.rs`: databases, queries, tries, planning, indexes, depth-first execution.
- `join_bfs.rs`: breadth-first execution, and its agreement with depth-first execution.
- `correctness.rs`: the join computes exactly the query's answer over the database.
- `grounding.rs`, `validation.rs`, `var_order.rs`: grounded variables, query checking,
  variable order picking.
- `op.rs`: the `Operator` trait, with `Add` and `Le`.
- `vec_db.rs`, `graph.rs`, `edge_list.rs`: an in-memory database, edge-list graphs with
  binary-join triangle queries, and the edge-list text format.
- `hash.rs`: FxHash. `value/`: the value representations. `ident.rs`, `counting.rs`,
  `sorting.rs`: identifiers, counting facts, lexicographic order and sorting.

`app/` holds what touches files and the terminal: loading edge lists and reporting
malformed queries with messages.
