use declarative_dataflow::attribute::{Arena, Attribute, Binding, Change, QueryError};
use declarative_dataflow::hector::{result_at, Hector, OutputRecord};
use declarative_dataflow::time::Product;
use declarative_dataflow::value::Value;

fn eid(e: u64) -> Value {
    Value::Eid(e)
}

fn edge(from: u64, to: u64, round: u64, diff: i64) -> Change {
    Change {
        entity: eid(from),
        value: eid(to),
        time: Product { outer: round, inner: 0 },
        diff,
    }
}

fn sorted_result(out: &Vec<OutputRecord>, round: u64) -> Vec<Vec<u64>> {
    let res = result_at(out, Product { outer: round, inner: 0 }).expect("inconsistent output");
    let mut plain: Vec<Vec<u64>> = res
        .iter()
        .map(|t| {
            t.iter()
                .map(|v| match v {
                    Value::Eid(e) => *e,
                    _ => panic!("expected an entity"),
                })
                .collect()
        })
        .collect();
    plain.sort();
    plain
}

fn run_query(variables: Vec<u32>, bindings: Vec<Binding>, changes: Vec<Change>) -> Vec<OutputRecord> {
    let attributes = vec![Attribute::new(&changes)];
    let query = Hector { variables, bindings };
    assert_eq!(query.validate(attributes.len()), Ok(()));
    query.implement(&attributes).expect("query evaluation failed")
}

/// The six edges of the original triangle scenario.
fn scenario_edges() -> Vec<Change> {
    vec![
        edge(100, 200, 0, 1),
        edge(200, 300, 0, 1),
        edge(100, 300, 0, 1),
        edge(100, 400, 0, 1),
        edge(400, 500, 0, 1),
        edge(500, 100, 0, 1),
    ]
}

#[test]
fn hector() {
    // [?a :edge ?b] [?b :edge ?c] [?a :edge ?c] over the six scenario
    // edges: only 100 -> 200 -> 300 is closed, by the edge 100 -> 300.
    let (a, b, c) = (1, 2, 3);
    let out = run_query(
        vec![a, b, c],
        vec![
            Binding { symbols: (a, b), attribute: 0 },
            Binding { symbols: (b, c), attribute: 0 },
            Binding { symbols: (a, c), attribute: 0 },
        ],
        scenario_edges(),
    );
    assert_eq!(sorted_result(&out, 0), vec![vec![100, 200, 300]]);
}

#[test]
fn triangle_cycle() {
    // [?a :edge ?b] [?b :edge ?c] [?c :edge ?a]: the only directed
    // three-cycle is 100 -> 400 -> 500 -> 100, closed by 500 -> 100; it is
    // found under each of its three rotations and nothing else is.
    let (a, b, c) = (1, 2, 3);
    let out = run_query(
        vec![a, b, c],
        vec![
            Binding { symbols: (a, b), attribute: 0 },
            Binding { symbols: (b, c), attribute: 0 },
            Binding { symbols: (c, a), attribute: 0 },
        ],
        scenario_edges(),
    );
    assert_eq!(
        sorted_result(&out, 0),
        vec![vec![100, 400, 500], vec![400, 500, 100], vec![500, 100, 400]]
    );
}

#[test]
fn no_double_counting_single_insert() {
    // Inserting the closing edge of exactly one triangle raises the match
    // count by exactly one: the net weight of the new match is one, not the
    // number of branches.
    let (a, b, c) = (1, 2, 3);
    let changes = vec![
        edge(100, 200, 0, 1),
        edge(200, 300, 0, 1),
        edge(100, 300, 1, 1),
    ];
    let out = run_query(
        vec![a, b, c],
        vec![
            Binding { symbols: (a, b), attribute: 0 },
            Binding { symbols: (b, c), attribute: 0 },
            Binding { symbols: (a, c), attribute: 0 },
        ],
        changes,
    );
    assert_eq!(sorted_result(&out, 0), Vec::<Vec<u64>>::new());
    assert_eq!(sorted_result(&out, 1), vec![vec![100, 200, 300]]);
    // The accumulated weight of the match is exactly one.
    let total: i64 = out
        .iter()
        .filter(|r| {
            r.tuple.len() == 3
                && r.tuple[0].eq_value(&eid(100))
                && r.tuple[1].eq_value(&eid(200))
                && r.tuple[2].eq_value(&eid(300))
        })
        .map(|r| r.diff)
        .sum();
    assert_eq!(total, 1);
}

#[test]
fn retraction_removes_matches() {
    // The edge 100 -> 200 is part of exactly one triangle; retracting it
    // removes exactly that match and nothing else.
    let (a, b, c) = (1, 2, 3);
    let mut changes = scenario_edges();
    changes.push(edge(100, 200, 1, -1));
    let out = run_query(
        vec![a, b, c],
        vec![
            Binding { symbols: (a, b), attribute: 0 },
            Binding { symbols: (b, c), attribute: 0 },
            Binding { symbols: (a, c), attribute: 0 },
        ],
        changes,
    );
    assert_eq!(sorted_result(&out, 0), vec![vec![100, 200, 300]]);
    assert_eq!(sorted_result(&out, 1), Vec::<Vec<u64>>::new());
}

/// Recomputes the triangle matches of the pattern (a,b),(b,c),(a,c) from
/// scratch over the edges alive at the given round.
fn triangles_from_scratch(changes: &[Change], round: u64) -> Vec<Vec<u64>> {
    let mut live: Vec<(u64, u64)> = Vec::new();
    for ch in changes {
        if ch.time.outer <= round {
            let (e, v) = match (&ch.entity, &ch.value) {
                (Value::Eid(e), Value::Eid(v)) => (*e, *v),
                _ => panic!("expected entities"),
            };
            if ch.diff > 0 {
                live.push((e, v));
            } else {
                let pos = live.iter().position(|p| *p == (e, v)).unwrap();
                live.remove(pos);
            }
        }
    }
    let mut found = Vec::new();
    for (x, y) in live.iter() {
        for (y2, z) in live.iter() {
            if y2 == y && live.contains(&(*x, *z)) {
                found.push(vec![*x, *y, *z]);
            }
        }
    }
    found.sort();
    found.dedup();
    found
}

#[test]
fn differential_correctness_over_rounds() {
    // At every prefix of a sequence of inserts and retracts, the
    // incrementally maintained result equals the result recomputed from
    // scratch.
    let (a, b, c) = (1, 2, 3);
    let changes = vec![
        edge(1, 2, 0, 1),
        edge(2, 3, 1, 1),
        edge(1, 3, 2, 1),
        edge(3, 4, 3, 1),
        edge(2, 4, 4, 1),
        edge(1, 3, 5, -1),
        edge(1, 4, 6, 1),
        edge(2, 3, 7, -1),
    ];
    let out = run_query(
        vec![a, b, c],
        vec![
            Binding { symbols: (a, b), attribute: 0 },
            Binding { symbols: (b, c), attribute: 0 },
            Binding { symbols: (a, c), attribute: 0 },
        ],
        changes.clone(),
    );
    for round in 0..8 {
        assert_eq!(
            sorted_result(&out, round),
            triangles_from_scratch(&changes, round),
            "round {}",
            round
        );
    }
}

#[test]
fn validate_rejects_self_intersection() {
    let (a, b) = (1, 2);
    let query = Hector {
        variables: vec![a, b],
        bindings: vec![
            Binding { symbols: (a, b), attribute: 0 },
            Binding { symbols: (a, b), attribute: 0 },
        ],
    };
    assert_eq!(query.validate(1), Err(QueryError::SelfIntersection));
}

#[test]
fn validate_rejects_unbound_symbol() {
    let (a, b, c) = (1, 2, 3);
    let query = Hector {
        variables: vec![a, b],
        bindings: vec![Binding { symbols: (a, c), attribute: 0 }],
    };
    assert_eq!(query.validate(1), Err(QueryError::MalformedBinding));
}

#[test]
fn validate_rejects_empty_pattern() {
    let query = Hector { variables: vec![1, 2], bindings: vec![] };
    assert_eq!(query.validate(1), Err(QueryError::UnboundExtenders));
}

#[test]
fn intersect_finds_shared_symbol() {
    let (a, b, c) = (1, 2, 3);
    let ab = Binding { symbols: (a, b), attribute: 0 };
    let bc = Binding { symbols: (b, c), attribute: 0 };
    let ca = Binding { symbols: (c, a), attribute: 0 };
    assert_eq!(ab.intersect(&bc), Ok(Some(b)));
    assert_eq!(bc.intersect(&ca), Ok(Some(c)));
    assert_eq!(ca.intersect(&ab), Ok(Some(a)));
    assert_eq!(ab.intersect(&ab.clone()), Err(QueryError::SelfIntersection));
    let ba = Binding { symbols: (b, a), attribute: 0 };
    assert_eq!(ab.intersect(&ba), Err(QueryError::SelfIntersection));
    let cd = Binding { symbols: (c, 4), attribute: 0 };
    assert_eq!(ab.intersect(&cd), Ok(None));
}

#[test]
fn empty_relation_has_no_matches() {
    let (a, b, c) = (1, 2, 3);
    let out = run_query(
        vec![a, b, c],
        vec![
            Binding { symbols: (a, b), attribute: 0 },
            Binding { symbols: (b, c), attribute: 0 },
            Binding { symbols: (a, c), attribute: 0 },
        ],
        vec![],
    );
    assert_eq!(sorted_result(&out, 0), Vec::<Vec<u64>>::new());
}

#[test]
fn two_binding_path_query() {
    // A simple two-binding pattern: paths a -> b -> c.
    let (a, b, c) = (1, 2, 3);
    let out = run_query(
        vec![a, b, c],
        vec![
            Binding { symbols: (a, b), attribute: 0 },
            Binding { symbols: (b, c), attribute: 0 },
        ],
        vec![edge(1, 2, 0, 1), edge(2, 3, 0, 1), edge(2, 4, 1, 1)],
    );
    assert_eq!(sorted_result(&out, 0), vec![vec![1, 2, 3]]);
    assert_eq!(sorted_result(&out, 1), vec![vec![1, 2, 3], vec![1, 2, 4]]);
}

#[test]
fn arena_registers_and_looks_up_by_name() {
    let mut arena = Arena::new();
    let edges = vec![edge(1, 2, 0, 1)];
    let idx = arena.register("edge".to_string(), &edges);
    assert_eq!(idx, 0);
    let other = arena.register("parent".to_string(), &vec![]);
    assert_eq!(other, 1);
    assert_eq!(arena.lookup(&"edge".to_string()), Some(0));
    assert_eq!(arena.lookup(&"parent".to_string()), Some(1));
    assert_eq!(arena.lookup(&"missing".to_string()), None);

    // A query built against the arena evaluates over its attributes.
    let (a, b, c) = (1, 2, 3);
    let e = arena.lookup(&"edge".to_string()).unwrap();
    let query = Hector {
        variables: vec![a, b, c],
        bindings: vec![
            Binding { symbols: (a, b), attribute: e },
            Binding { symbols: (b, c), attribute: e },
            Binding { symbols: (a, c), attribute: e },
        ],
    };
    assert_eq!(query.validate(arena.attributes.len()), Ok(()));
    let out = query.implement(&arena.attributes).expect("query evaluation failed");
    assert_eq!(sorted_result(&out, 0), Vec::<Vec<u64>>::new());
}

#[test]
fn result_reports_negative_multiplicity() {
    // A retraction without a matching insertion is a consistency violation:
    // reading the result reports it rather than clamping.
    let out = vec![OutputRecord {
        tuple: vec![eid(1), eid(2)],
        time: Product { outer: 0, inner: 0 },
        diff: -1,
    }];

    assert!(matches!(
        result_at(&out, Product { outer: 0, inner: 0 }),
        Err(QueryError::NegativeMultiplicity)
    ));
    // Before the retraction is visible the reading is clean and empty.
    let sound = vec![OutputRecord {
        tuple: vec![eid(1), eid(2)],
        time: Product { outer: 1, inner: 0 },
        diff: -1,
    }];
    let clean = result_at(&sound, Product { outer: 0, inner: 0 }).expect("inconsistent output");
    assert!(clean.is_empty());
}

#[test]
fn implement_rejects_branch_without_extenders() {
    // A path pattern read from its far end: the branch driven by (c,d)
    // orders its symbols c, d, a, b, and the step binding `a` has no other
    // binding with an already-bound endpoint. Evaluation reports the
    // unbound extender set instead of building that branch.
    let (a, b, c, d) = (1, 2, 3, 4);
    let query = Hector {
        variables: vec![a, b, c, d],
        bindings: vec![
            Binding { symbols: (a, b), attribute: 0 },
            Binding { symbols: (b, c), attribute: 0 },
            Binding { symbols: (c, d), attribute: 0 },
        ],
    };
    let attributes = vec![Attribute::new(&vec![edge(1, 2, 0, 1)])];
    assert_eq!(query.validate(attributes.len()), Ok(()));
    assert!(matches!(
        query.implement(&attributes),
        Err(QueryError::UnboundExtenders)
    ));
}
