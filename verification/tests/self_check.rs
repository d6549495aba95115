// Tests for Query::ground_vars and Query::self_check. Variables are `char` and relations
// are &str. A malformed query makes the check below panic with the problem it found, so
// each kind of problem gets a #[should_panic] test.
use std::fmt;
use std::rc::Rc;

use rntz_joins::op;
use rntz_joins::{Atom, Operator, Query, QueryError, VecDb};

fn db() -> VecDb {
    VecDb::new()
        .rel("E", 2, vec![vec![0, 1], vec![1, 2]])
        .rel("T", 1, vec![vec![5]])
}

fn atom(rel: &'static str, vars: &[char]) -> Atom<&'static str, char> {
    Atom { pred: rel, vars: vars.to_vec() }
}

fn op_atom(o: impl Operator + 'static, vars: &[char]) -> Atom<Rc<dyn Operator>, char> {
    Atom { pred: Rc::new(o), vars: vars.to_vec() }
}

// Shows a name as it stands, for atoms whose predicate is shown by name.
struct Name(&'static str);

impl fmt::Debug for Name {
    fn fmt(&self, f: &mut fmt::Formatter) -> fmt::Result {
        f.write_str(self.0)
    }
}

// `pred(var1, ..., varN)`.
fn show_atom<P: fmt::Debug>(pred: &P, vars: &[char]) -> String {
    let shown: Vec<String> = vars.iter().map(|v| format!("{v:?}")).collect();
    format!("{:?}({})", pred, shown.join(", "))
}

// Runs self_check against db(), panicking with a description of the problem it finds.
// Operators are shown by the names in `op_names`.
fn check(q: &Query<char, &'static str>, op_names: &[&'static str]) {
    let msg = match q.try_self_check(&db()) {
        Ok(()) => return,
        Err(QueryError::DuplicateVar(v)) => format!("duplicate query variable {v:?}"),
        Err(QueryError::AtomArity(a)) => format!(
            "atom {} has the wrong number of variables for its relation's arity",
            show_atom(&q.atoms[a].pred, &q.atoms[a].vars)
        ),
        Err(QueryError::AtomUndeclaredVar(a, v)) => format!(
            "atom {} uses {v:?}, which is not in query.vars",
            show_atom(&q.atoms[a].pred, &q.atoms[a].vars)
        ),
        Err(QueryError::OperatorArity(k)) => format!(
            "operator {} has the wrong number of variables for its arity",
            show_atom(&Name(op_names[k]), &q.operators[k].vars)
        ),
        Err(QueryError::OperatorNoVars(k)) => format!(
            "operator {} has zero variables; we don't know how to plan those yet",
            show_atom(&Name(op_names[k]), &q.operators[k].vars)
        ),
        Err(QueryError::OperatorUndeclaredVar(k, v)) => format!(
            "operator {} uses {v:?}, which is not in query.vars",
            show_atom(&Name(op_names[k]), &q.operators[k].vars)
        ),
        Err(QueryError::Ungrounded(v)) => format!("query variable {v:?} is not grounded"),
    };
    panic!("{}", msg);
}

#[test]
fn test_ground_vars() {
    // E(x,y), x + y = z: the atom grounds x,y and the operator then grounds z.
    let q: Query<char, &'static str> = Query {
        vars: vec!['x', 'y', 'z'],
        atoms: vec![atom("E", &['x', 'y'])],
        operators: vec![op_atom(op::Add, &['x', 'y', 'z'])],
    };
    assert_eq!(q.ground_vars(), vec!['x', 'y', 'z']);
    check(&q, &["Add"]);
    q.self_check(&db());

    // Saturation across operators listed in the "wrong" order: z + z = w needs z, which
    // x + y = z only supplies on a later pass.
    let q: Query<char, &'static str> = Query {
        vars: vec!['x', 'y', 'z', 'w'],
        atoms: vec![atom("E", &['x', 'y'])],
        operators: vec![op_atom(op::Add, &['z', 'z', 'w']), op_atom(op::Add, &['x', 'y', 'z'])],
    };
    assert_eq!(q.ground_vars(), vec!['x', 'y', 'z', 'w']);
    check(&q, &["Add", "Add"]);
    q.self_check(&db());

    // An operator without an output grounds nothing, so y stays ungrounded.
    let q: Query<char, &'static str> = Query {
        vars: vec!['x', 'y'],
        atoms: vec![atom("T", &['x'])],
        operators: vec![op_atom(op::Le, &['x', 'y'])],
    };
    assert_eq!(q.ground_vars(), vec!['x']);
}

#[test]
#[should_panic(expected = "query variable 'z' is not grounded")]
fn test_ungrounded_var() {
    let q: Query<char, &'static str> = Query {
        vars: vec!['x', 'y', 'z'], atoms: vec![atom("E", &['x', 'y'])], operators: vec![],
    };
    check(&q, &[]);
}

#[test]
#[should_panic(expected = "duplicate query variable 'x'")]
fn test_duplicate_var() {
    let q: Query<char, &'static str> = Query {
        vars: vec!['x', 'y', 'x'], atoms: vec![atom("E", &['x', 'y'])], operators: vec![],
    };
    check(&q, &[]);
}

#[test]
#[should_panic(expected = r#"atom "E"('x') has the wrong number of variables"#)]
fn test_atom_arity() {
    let q: Query<char, &'static str> = Query {
        vars: vec!['x'], atoms: vec![atom("E", &['x'])], operators: vec![],
    };
    check(&q, &[]);
}

#[test]
#[should_panic(expected = "operator Le('x') has the wrong number of variables")]
fn test_operator_arity() {
    let q: Query<char, &'static str> = Query {
        vars: vec!['x', 'y'],
        atoms: vec![atom("E", &['x', 'y'])],
        operators: vec![op_atom(op::Le, &['x'])],
    };
    check(&q, &["Le"]);
}

#[test]
#[should_panic(expected = r#"atom "E"('x', 'y') uses 'y', which is not in query.vars"#)]
fn test_undeclared_var() {
    let q: Query<char, &'static str> = Query {
        vars: vec!['x'], atoms: vec![atom("E", &['x', 'y'])], operators: vec![],
    };
    check(&q, &[]);
}
