// Further tests of the library: planning errors, checking errors, operators, executors
// with operators and callbacks, the hash, the graph utilities and the database.
use std::hash::{BuildHasher, Hasher};
use std::rc::Rc;

use rntz_joins::op::{self, Add, Le};
use rntz_joins::edge_list::{edges_from_lines, edges_from_text, parse_edge_line, EdgeLineError};
use rntz_joins::graph::{dedup_edges, edges_sorted, sort_edges};
use rntz_joins::value::tagged;
use rntz_joins::{
    binary_triangles_directed, binary_triangles_undirected, edge_db, to_low_high, Atom, Database, FxBuildHasher, FxHasher,
    Operator, PlanError, Query, QueryError, Value, VecDb,
};

fn atom(rel: &'static str, vars: &[char]) -> Atom<&'static str, char> {
    Atom { pred: rel, vars: vars.to_vec() }
}

fn op_atom(o: impl Operator + 'static, vars: &[char]) -> Atom<Rc<dyn Operator>, char> {
    Atom { pred: Rc::new(o), vars: vars.to_vec() }
}

// An operator with no variables at all.
#[derive(Debug)]
struct Nullary;

impl Operator for Nullary {
    fn input_arity(&self) -> usize {
        0
    }
    fn has_output(&self) -> bool {
        false
    }
    fn check(&self, _: &[Value]) -> bool {
        true
    }
    fn compute(&self, _: &[Value]) -> Option<Value> {
        None
    }
}

fn small_db() -> VecDb {
    VecDb::new()
        .rel("E", 2, vec![vec![1, 2], vec![2, 3], vec![3, 1], vec![1, 3]])
        .rel("T", 1, vec![vec![5]])
}

#[test]
fn add_computes_and_checks_sums() {
    assert_eq!(Add.compute(&[2, 3]), Some(5));
    assert!(Add.check(&[2, 3, 5]));
    assert!(!Add.check(&[2, 3, 6]));
    assert_eq!(Add.arity(), 3);
    // A sum that does not fit has no output and checks against nothing.
    assert_eq!(Add.compute(&[usize::MAX, 1]), None);
    assert!(!Add.check(&[usize::MAX, 1, 0]));
}

#[test]
fn le_checks_order() {
    assert!(Le.check(&[1, 1]));
    assert!(Le.check(&[1, 2]));
    assert!(!Le.check(&[2, 1]));
    assert_eq!(Le.arity(), 2);
    assert!(!Le.has_output());
}

#[test]
fn try_plan_reports_the_first_problem() {
    let q: Query<char, &'static str> = Query {
        vars: vec!['x', 'y'],
        atoms: vec![atom("E", &['x', 'y'])],
        operators: vec![],
    };
    assert!(matches!(q.try_plan(&['x', 'x']), Err(PlanError::RepeatedVar)));
    assert!(matches!(q.try_plan(&['x']), Err(PlanError::UnorderedAtomVar(0))));
    assert!(q.try_plan(&['y', 'x']).is_ok());

    let q: Query<char, &'static str> = Query {
        vars: vec!['x', 'y'],
        atoms: vec![atom("E", &['x', 'y'])],
        operators: vec![op_atom(op::Le, &['x'])],
    };
    assert!(matches!(q.try_plan(&['x', 'y']), Err(PlanError::OperatorArity(0))));

    let q: Query<char, &'static str> = Query {
        vars: vec!['x', 'y'],
        atoms: vec![atom("E", &['x', 'y'])],
        operators: vec![op_atom(Nullary, &[])],
    };
    assert!(matches!(q.try_plan(&['x', 'y']), Err(PlanError::OperatorNoVars(0))));

    let q: Query<char, &'static str> = Query {
        vars: vec!['x', 'y', 'z'],
        atoms: vec![atom("E", &['x', 'y'])],
        operators: vec![op_atom(op::Le, &['x', 'z'])],
    };
    assert!(matches!(q.try_plan(&['x', 'y']), Err(PlanError::UnorderedOperatorVar(0))));

    // z is in the order but nothing proposes it: Le only checks.
    assert!(matches!(q.try_plan(&['x', 'y', 'z']), Err(PlanError::NoProposer(2))));
}

#[test]
fn plan_places_operators() {
    // E(x,y), x + y = z, x <= y.
    let q: Query<char, &'static str> = Query {
        vars: vec!['x', 'y', 'z'],
        atoms: vec![atom("E", &['x', 'y'])],
        operators: vec![op_atom(op::Add, &['x', 'y', 'z']), op_atom(op::Le, &['x', 'y'])],
    };
    let plan = q.plan(&['x', 'y', 'z']);
    assert!(plan.levels[0].proposer.is_none());
    assert_eq!(plan.levels[1].filters.len(), 1);
    assert_eq!(plan.levels[1].filters[0].vars, vec![0, 1]);
    let prop = plan.levels[2].proposer.as_ref().expect("x + y proposes z");
    assert_eq!(prop.vars, vec![0, 1, 2]);
    assert!(plan.levels[2].atoms.is_empty());
}

#[test]
fn operators_in_a_join() {
    // E(x,y), x + y = z, x <= y over E = {(1,2),(2,3),(3,1),(1,3)}.
    let q: Query<char, &'static str> = Query {
        vars: vec!['x', 'y', 'z'],
        atoms: vec![atom("E", &['x', 'y'])],
        operators: vec![op_atom(op::Add, &['x', 'y', 'z']), op_atom(op::Le, &['x', 'y'])],
    };
    let db = small_db();
    assert!(q.try_self_check(&db).is_ok());
    let plan = q.plan(&['x', 'y', 'z']);
    let indexes = plan.build_indexes(&db);
    let exec = plan.bind(&indexes).unwrap();
    let want = vec![vec![1, 2, 3], vec![1, 3, 4], vec![2, 3, 5]];
    assert_eq!(exec.collect_dfs(), want);
    assert_eq!(exec.collect_bfs(), want);
    assert_eq!(exec.collect_dfs_untagged::<usize>(), want);
}

#[test]
fn executors_hand_each_row_once() {
    let edges: Vec<(Value, Value)> = vec![(0, 1), (1, 2), (2, 0), (0, 2)];
    let q: Query<char, &'static str> = Query {
        vars: vec!['x', 'y'],
        atoms: vec![atom("E", &['x', 'y'])],
        operators: vec![],
    };
    let db = edge_db(&edges);
    let plan = q.plan(&['x', 'y']);
    let indexes = plan.build_indexes(&db);
    let exec = plan.bind(&indexes).unwrap();
    let mut dfs: Vec<Vec<Value>> = Vec::new();
    exec.execute_dfs(|row| dfs.push(row.to_vec()));
    let mut bfs: Vec<Vec<Value>> = Vec::new();
    exec.execute_bfs(|row| bfs.push(row.to_vec()));
    dfs.sort();
    bfs.sort();
    assert_eq!(dfs, vec![vec![0, 1], vec![0, 2], vec![1, 2], vec![2, 0]]);
    assert_eq!(bfs, dfs);
}

#[test]
fn constant_atom_binds_no_level() {
    // T(x) where x is declared after a fully grounded atom E(x, y).
    let db = small_db();
    let q: Query<char, &'static str> = Query {
        vars: vec!['x', 'y'],
        atoms: vec![atom("E", &['x', 'y']), atom("E", &['y', 'x'])],
        operators: vec![],
    };
    let plan = q.plan(&['x', 'y']);
    let indexes = plan.build_indexes(&db);
    let exec = plan.bind(&indexes).unwrap();
    // Pairs with edges both ways: (1,3) and (3,1).
    assert_eq!(exec.collect_dfs(), vec![vec![1, 3], vec![3, 1]]);
    assert_eq!(exec.collect_bfs(), vec![vec![1, 3], vec![3, 1]]);
}

#[test]
fn self_check_reports_operator_problems() {
    let db = small_db();
    let q: Query<char, &'static str> = Query {
        vars: vec!['x', 'y'],
        atoms: vec![atom("E", &['x', 'y'])],
        operators: vec![op_atom(Nullary, &[])],
    };
    assert!(matches!(q.try_self_check(&db), Err(QueryError::OperatorNoVars(0))));

    let q: Query<char, &'static str> = Query {
        vars: vec!['x', 'y'],
        atoms: vec![atom("E", &['x', 'y'])],
        operators: vec![op_atom(op::Le, &['x', 'w'])],
    };
    assert!(matches!(q.try_self_check(&db), Err(QueryError::OperatorUndeclaredVar(0, 'w'))));

    // The first problem wins: the duplicate variable comes before the bad atom.
    let q: Query<char, &'static str> = Query {
        vars: vec!['x', 'x'],
        atoms: vec![atom("E", &['x'])],
        operators: vec![],
    };
    assert!(matches!(q.try_self_check(&db), Err(QueryError::DuplicateVar('x'))));
}

#[test]
fn var_order_gets_stuck_only_on_ungrounded_queries() {
    // y is only checked by x <= y, never bound.
    let q: Query<char, &'static str> = Query {
        vars: vec!['x', 'y'],
        atoms: vec![atom("T", &['x'])],
        operators: vec![op_atom(op::Le, &['x', 'y'])],
    };
    assert_eq!(q.try_structural_var_order(), None);

    let q: Query<char, &'static str> = Query {
        vars: vec!['x', 'y', 'z'],
        atoms: vec![atom("E", &['x', 'y'])],
        operators: vec![op_atom(op::Add, &['x', 'y', 'z'])],
    };
    assert_eq!(q.try_structural_var_order(), Some(vec!['x', 'y', 'z']));

    // z + z = w is passed over before x + y = z fires; firing repeats, so w still comes
    // as soon as z does.
    let q: Query<char, &'static str> = Query {
        vars: vec!['x', 'y', 'z', 'w'],
        atoms: vec![atom("E", &['x', 'y'])],
        operators: vec![op_atom(op::Add, &['z', 'z', 'w']), op_atom(op::Add, &['x', 'y', 'z'])],
    };
    assert_eq!(q.try_structural_var_order(), Some(vec!['x', 'y', 'z', 'w']));

    // The determined w comes before the unrelated u.
    let q: Query<char, &'static str> = Query {
        vars: vec!['x', 'y', 'z', 'w', 'u'],
        atoms: vec![atom("E", &['x', 'y']), atom("T", &['u'])],
        operators: vec![op_atom(op::Add, &['z', 'z', 'w']), op_atom(op::Add, &['x', 'y', 'z'])],
    };
    assert_eq!(q.structural_var_order(), vec!['x', 'y', 'z', 'w', 'u']);
}

#[test]
fn ground_vars_follow_the_rules() {
    // Atoms ground x, y; y + y = w fires; w + x = v then fires on the same pass.
    let q: Query<char, &'static str> = Query {
        vars: vec!['x', 'y', 'w', 'v', 'u'],
        atoms: vec![atom("E", &['y', 'x'])],
        operators: vec![
            op_atom(op::Add, &['y', 'y', 'w']),
            op_atom(op::Add, &['w', 'x', 'v']),
            op_atom(op::Le, &['u', 'x']),
        ],
    };
    assert_eq!(q.ground_vars(), vec!['y', 'x', 'w', 'v']);
}

#[test]
fn fx_hash_values() {
    let seed: u64 = 0x517c_c1b7_2722_0a95;
    let mut h = FxHasher::new();
    assert_eq!(h.finish_hash(), 0);
    h.write_word(1);
    assert_eq!(h.finish_hash(), seed);
    h.write_word(2);
    assert_eq!(h.finish_hash(), (seed.rotate_left(5) ^ 2).wrapping_mul(seed));

    // Bytes are read in little-endian words; the tail is padded with zeros.
    let mut b = FxHasher::new();
    b.write_bytes(&[1, 0, 0, 0, 0, 0, 0, 0, 2]);
    assert_eq!(b.finish_hash(), h.finish_hash());
    let mut t = FxHasher::new();
    t.write_bytes(&[1, 2, 3]);
    assert_eq!(t.finish_hash(), 0x0003_0201u64.wrapping_mul(seed));

    // Through std's traits.
    let mut s = FxBuildHasher.build_hasher();
    assert_eq!(s.finish(), 0);
    s.write_u64(1);
    s.write_u8(2);
    assert_eq!(s.finish(), h.finish_hash());
    let mut z = FxHasher::new();
    z.write_usize(0);
    z.write_u32(0);
    assert_eq!(z.finish(), 0);
}

#[test]
fn low_high_normalizes_edges() {
    let raw: Vec<(Value, Value)> = vec![(3, 1), (1, 0), (2, 2), (0, 1), (1, 3), (4, 0)];
    assert_eq!(to_low_high(&raw), vec![(0, 1), (0, 4), (1, 3)]);
    assert_eq!(to_low_high(&[]), vec![]);
}

#[test]
fn directed_triangles_keep_duplicate_edges() {
    let edges: Vec<(Value, Value)> = vec![(0, 1), (1, 2), (2, 0)];
    assert_eq!(
        binary_triangles_directed(&edges),
        vec![vec![0, 1, 2], vec![1, 2, 0], vec![2, 0, 1]]
    );
    // Each copy of (0, 1) starts its own triangle, and is its own way on from 0.
    let doubled: Vec<(Value, Value)> = vec![(0, 1), (0, 1), (1, 2), (2, 0)];
    assert_eq!(
        binary_triangles_directed(&doubled),
        vec![vec![0, 1, 2], vec![0, 1, 2], vec![1, 2, 0], vec![2, 0, 1], vec![2, 0, 1]]
    );
}

#[test]
fn vec_db_replaces_relations() {
    let db = VecDb::new()
        .rel("R", 2, vec![vec![1, 2]])
        .rel("S", 0, vec![vec![], vec![]])
        .rel("R", 1, vec![vec![7], vec![8], vec![9]]);
    assert_eq!(db.arity("R"), 1);
    assert_eq!(db.count("R"), 3);
    assert_eq!(db.row("R", 2), &[9]);
    assert_eq!(db.arity("S"), 0);
    assert_eq!(db.count("S"), 2);
    let empty: &[Value] = &[];
    assert_eq!(db.row("S", 1), empty);
    let e = edge_db(&[(4, 5), (6, 7)]);
    assert_eq!(e.arity("E"), 2);
    assert_eq!(e.row("E", 1), &[6, 7]);
}

#[test]
fn tagged_values_convert() {
    let v: tagged::Value = 5usize.into();
    assert_eq!(v.tag(), tagged::Tag::Int);
    assert_eq!(v.untag::<usize>(), 5);
    let s: tagged::Value = Rc::new(String::from("hi")).into();
    assert_eq!(s.tag(), tagged::Tag::Str);
    assert!(<usize as tagged::ValueType>::from_value(&s).is_err());
}

#[test]
fn edge_lines_parse() {
    assert_eq!(parse_edge_line(b""), Ok(None));
    assert_eq!(parse_edge_line(b"# FromNodeId ToNodeId"), Ok(None));
    assert_eq!(parse_edge_line(b"1 2"), Ok(Some((1, 2))));
    assert_eq!(parse_edge_line(b"  3\t4 ignored"), Ok(Some((3, 4))));
    assert_eq!(parse_edge_line(b"+5 06"), Ok(Some((5, 6))));
    assert_eq!(parse_edge_line(b"   "), Err(EdgeLineError::MissingSource));
    assert_eq!(parse_edge_line(b"x 1"), Err(EdgeLineError::MalformedSource));
    assert_eq!(parse_edge_line(b"-1 1"), Err(EdgeLineError::MalformedSource));
    assert_eq!(parse_edge_line(b"+ 1"), Err(EdgeLineError::MalformedSource));
    assert_eq!(parse_edge_line(b"7"), Err(EdgeLineError::MissingTarget));
    assert_eq!(parse_edge_line(b"7 y"), Err(EdgeLineError::MalformedTarget));
    let too_big = format!("{}0 1", usize::MAX);
    assert_eq!(parse_edge_line(too_big.as_bytes()), Err(EdgeLineError::MalformedSource));
    let biggest = format!("{} 1", usize::MAX);
    assert_eq!(parse_edge_line(biggest.as_bytes()), Ok(Some((usize::MAX, 1))));
}

#[test]
fn edges_sort_and_dedup() {
    let mut edges: Vec<(Value, Value)> = vec![(2, 1), (1, 5), (2, 1), (1, 3)];
    assert!(!edges_sorted(&edges));
    sort_edges(&mut edges);
    assert_eq!(edges, vec![(1, 3), (1, 5), (2, 1), (2, 1)]);
    assert!(edges_sorted(&edges));
    assert_eq!(dedup_edges(&edges), vec![(1, 3), (1, 5), (2, 1)]);
    assert!(edges_sorted(&[]));
    assert!(edges_sorted(&[(4, 4)]));
}

#[test]
fn zeros_hash_to_zero() {
    let mut h = FxHasher::new();
    h.write_bytes(&[0; 20]);
    h.write_word(0);
    assert_eq!(h.finish_hash(), 0);
}

#[test]
fn edge_lists_read_up_to_the_cap() {
    let lines: Vec<Vec<u8>> = vec![
        b"# comment".to_vec(),
        b"1 2".to_vec(),
        b"".to_vec(),
        b"3 4".to_vec(),
        b"bad line".to_vec(),
    ];
    assert_eq!(edges_from_lines(&lines, Some(2)), Ok(vec![(1, 2), (3, 4)]));
    assert_eq!(edges_from_lines(&lines, None), Err((4, EdgeLineError::MalformedSource)));
    assert_eq!(edges_from_lines(&lines, Some(0)), Ok(vec![]));
    assert_eq!(edges_from_lines(&lines[..4], None), Ok(vec![(1, 2), (3, 4)]));
}

#[test]
fn empty_query_hands_one_empty_row() {
    let q: Query<char, &'static str> = Query { vars: vec![], atoms: vec![], operators: vec![] };
    let plan = q.plan(&[]);
    let db = VecDb::new();
    let indexes = plan.build_indexes(&db);
    let exec = plan.bind(&indexes).unwrap();
    let mut dfs: Vec<Vec<Value>> = Vec::new();
    exec.execute_dfs(|row| dfs.push(row.to_vec()));
    assert_eq!(dfs, vec![Vec::<Value>::new()]);
    let mut bfs: Vec<Vec<Value>> = Vec::new();
    exec.execute_bfs(|row| bfs.push(row.to_vec()));
    assert_eq!(bfs, vec![Vec::<Value>::new()]);
}

#[test]
fn edge_lines_split_on_unicode_whitespace() {
    assert_eq!(parse_edge_line("1\u{a0}2".as_bytes()), Ok(Some((1, 2))));
    assert_eq!(parse_edge_line("1\u{3000}\u{2003}2".as_bytes()), Ok(Some((1, 2))));
    assert_eq!(parse_edge_line("\u{85}7\u{2029}8 9".as_bytes()), Ok(Some((7, 8))));
    assert_eq!(parse_edge_line("\u{a0}".as_bytes()), Err(EdgeLineError::MissingSource));
    assert_eq!(parse_edge_line("1\u{a0}".as_bytes()), Err(EdgeLineError::MissingTarget));
    // A non-breaking-space-like character that is not whitespace stays part of the word.
    assert_eq!(parse_edge_line("1\u{200b}2 3".as_bytes()), Err(EdgeLineError::MalformedSource));
}

#[test]
fn edge_text_loads_sorted_without_repeats() {
    use_edges_from_text();
}

fn use_edges_from_text() {
    let lines: Vec<Vec<u8>> = vec![
        b"5 6".to_vec(),
        b"# skip".to_vec(),
        b"1 2".to_vec(),
        b"5 6".to_vec(),
        b"3 4".to_vec(),
        b"x".to_vec(),
    ];
    assert_eq!(edges_from_text(&lines, Some(4)), Ok(vec![(1, 2), (3, 4), (5, 6)]));
    assert_eq!(edges_from_text(&lines, None), Err((5, EdgeLineError::MalformedSource)));
}

#[test]
fn triangles_without_repeats_for_distinct_edges() {
    let edges: Vec<(Value, Value)> = vec![(0, 1), (1, 2), (0, 2), (2, 3), (1, 3)];
    assert_eq!(binary_triangles_undirected(&edges), vec![vec![0, 1, 2], vec![1, 2, 3]]);
}
