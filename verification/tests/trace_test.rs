use declarative_dataflow::attribute::{Attribute, Change, QueryError};
use declarative_dataflow::extend::{extend, CollectionExtender, CountRecord, PrefixRecord};
use declarative_dataflow::time::{AltNeu, Product};
use declarative_dataflow::trace::{Entry, Trace};
use declarative_dataflow::value::Value;

fn t(outer: u64) -> Product {
    Product { outer, inner: 0 }
}

fn entry(key: u64, val: u64, outer: u64, diff: i64) -> Entry {
    Entry { key: Value::Eid(key), val: Value::Eid(val), time: AltNeu::alt(t(outer)), diff }
}

#[test]
fn trace_lookup_accumulates() {
    let trace = Trace {
        entries: vec![entry(1, 10, 0, 1), entry(1, 10, 1, 1), entry(1, 10, 2, -1), entry(1, 11, 0, 1)],
    };
    let k = Value::Eid(1);
    let v = Value::Eid(10);
    assert_eq!(trace.lookup(&k, &v, &AltNeu::alt(t(0))), 1);
    assert_eq!(trace.lookup(&k, &v, &AltNeu::alt(t(1))), 2);
    assert_eq!(trace.lookup(&k, &v, &AltNeu::alt(t(2))), 1);
    assert_eq!(trace.lookup(&k, &Value::Eid(11), &AltNeu::alt(t(0))), 1);
    assert_eq!(trace.lookup(&Value::Eid(9), &v, &AltNeu::alt(t(5))), 0);
}

#[test]
fn trace_distinct_present_deduplicates() {
    let trace = Trace {
        entries: vec![
            entry(1, 10, 0, 1),
            entry(1, 10, 0, 1),
            entry(1, 11, 0, 1),
            entry(1, 12, 0, 1),
            entry(1, 12, 1, -1),
        ],
    };
    let k = Value::Eid(1);
    let present = trace.distinct_present(&k, &AltNeu::alt(t(1)));
    let mut ids: Vec<u64> = present
        .iter()
        .map(|v| match v {
            Value::Eid(e) => *e,
            _ => panic!("expected an entity"),
        })
        .collect();
    ids.sort();
    assert_eq!(ids, vec![10, 11]);
    assert_eq!(trace.count_present(&k, &AltNeu::alt(t(1))), 2);
    assert_eq!(trace.count_present(&Value::Eid(2), &AltNeu::alt(t(1))), 0);
}

#[test]
fn trace_advance_preserves_later_queries() {
    let mut trace = Trace {
        entries: vec![entry(1, 10, 0, 1), entry(1, 10, 3, 1), entry(2, 20, 1, 1)],
    };
    let k = Value::Eid(1);
    let v = Value::Eid(10);
    let frontier = AltNeu::alt(t(2));
    let at_three = trace.lookup(&k, &v, &AltNeu::alt(t(3)));
    let at_five = trace.lookup(&k, &v, &AltNeu::alt(t(5)));
    trace.advance_by(&frontier);
    // Queries at or beyond the frontier are unchanged by compaction.
    assert_eq!(trace.lookup(&k, &v, &AltNeu::alt(t(3))), at_three);
    assert_eq!(trace.lookup(&k, &v, &AltNeu::alt(t(5))), at_five);
    // Detail below the frontier has been given up: the early entry now
    // carries the compacted time.
    assert_eq!(trace.lookup(&k, &v, &AltNeu::alt(t(2))), 1);
}

#[test]
fn altneu_order() {
    let alt = AltNeu::alt(t(4));
    let neu = AltNeu::neu(t(4));
    assert!(alt.less_equal(&neu));
    assert!(!neu.less_equal(&alt));
    assert!(alt.less_equal(&alt));
    assert!(AltNeu::neu(t(3)).less_equal(&alt));
    let joined = AltNeu::alt(t(3)).join(&neu);
    assert_eq!(joined, neu);
}

#[test]
fn extend_is_order_independent() {
    // The same prefixes extended through the same two extenders, supplied
    // in both orders, accumulate to the same result.
    let first = Attribute::new(&vec![
        Change { entity: Value::Eid(1), value: Value::Eid(10), time: t(0), diff: 1 },
        Change { entity: Value::Eid(1), value: Value::Eid(11), time: t(0), diff: 1 },
        Change { entity: Value::Eid(2), value: Value::Eid(10), time: t(0), diff: 1 },
    ]);
    let second = Attribute::new(&vec![
        Change { entity: Value::Eid(1), value: Value::Eid(10), time: t(0), diff: 1 },
        Change { entity: Value::Eid(1), value: Value::Eid(12), time: t(0), diff: 1 },
        Change { entity: Value::Eid(2), value: Value::Eid(13), time: t(0), diff: 1 },
    ]);
    let prefixes = || -> Vec<PrefixRecord> {
        vec![
            PrefixRecord { prefix: vec![Value::Eid(1)], time: AltNeu::alt(t(0)), diff: 1 },
            PrefixRecord { prefix: vec![Value::Eid(2)], time: AltNeu::alt(t(0)), diff: 1 },
        ]
    };
    let one: Vec<CollectionExtender> = vec![
        first.alt_forward.extend_using(0),
        second.alt_forward.extend_using(0),
    ];
    let two: Vec<CollectionExtender> = vec![
        second.alt_forward.extend_using(0),
        first.alt_forward.extend_using(0),
    ];
    let r1 = extend(&prefixes(), &one, 1).expect("extend failed");
    let r2 = extend(&prefixes(), &two, 1).expect("extend failed");
    let decode = |recs: &Vec<declarative_dataflow::extend::ExtensionRecord>| -> Vec<(u64, u64, i64)> {
        let mut plain: Vec<(u64, u64, i64)> = recs
            .iter()
            .map(|x| match (&x.prefix[0], &x.extension) {
                (Value::Eid(a), Value::Eid(c)) => (*a, *c, x.diff),
                _ => panic!("unexpected record shape"),
            })
            .collect();
        plain.sort();
        plain
    };
    let s1 = decode(&r1);
    let s2 = decode(&r2);
    assert_eq!(s1, s2);
    assert_eq!(s1, vec![(1, 10, 1)]);
}

#[test]
fn extend_rejects_empty_extender_set() {
    let prefixes: Vec<PrefixRecord> = vec![];
    let extenders: Vec<CollectionExtender> = vec![];
    assert!(extend(&prefixes, &extenders, 2).is_err());
}

#[test]
fn operators_defer_requests_past_the_frontier() {
    // Requests whose time the input frontier has not passed are buffered
    // unanswered; once the input is exhausted the buffer drains and the
    // operator is released.
    let attribute = Attribute::new(&vec![
        Change { entity: Value::Eid(1), value: Value::Eid(10), time: t(0), diff: 1 },
        Change { entity: Value::Eid(1), value: Value::Eid(11), time: t(4), diff: 1 },
    ]);
    let extender = attribute.alt_forward.extend_using(0);
    let requests = vec![
        PrefixRecord { prefix: vec![Value::Eid(1)], time: AltNeu::alt(t(0)), diff: 1 },
        PrefixRecord { prefix: vec![Value::Eid(1)], time: AltNeu::alt(t(5)), diff: 1 },
    ];
    let frontier = Some(AltNeu::alt(t(3)));
    let (answered, deferred) = extender.propose(&requests, frontier);
    // Only the early request is answered, and only from what its own time
    // can see.
    assert_eq!(answered.len(), 1);
    assert!(answered[0].extension.eq_value(&Value::Eid(10)));
    assert_eq!(deferred.len(), 1);
    assert_eq!(deferred[0].time, AltNeu::alt(t(5)));
    // Exhausting the input drains the buffer; the late request now also
    // sees the later insertion.
    let (drained, rest) = extender.propose(&deferred, None);
    assert_eq!(drained.len(), 2);
    assert_eq!(rest.len(), 0);
}

#[test]
fn consistency_check_reports_negative_multiplicity() {
    let sound = Trace { entries: vec![entry(1, 10, 0, 1), entry(1, 10, 1, -1)] };
    assert_eq!(sound.check_consistent(&AltNeu::alt(t(5))), Ok(()));
    let broken = Trace { entries: vec![entry(1, 10, 0, 1), entry(1, 10, 1, -2)] };
    assert_eq!(
        broken.check_consistent(&AltNeu::alt(t(5))),
        Err(QueryError::NegativeMultiplicity)
    );
    // Below the offending retraction the trace is still consistent.
    assert_eq!(broken.check_consistent(&AltNeu::alt(t(0))), Ok(()));
}

#[test]
fn count_keeps_the_strictly_smaller_annotation() {
    let attribute = Attribute::new(&vec![
        Change { entity: Value::Eid(1), value: Value::Eid(10), time: t(0), diff: 1 },
        Change { entity: Value::Eid(1), value: Value::Eid(11), time: t(0), diff: 1 },
    ]);
    let extender = attribute.alt_forward.extend_using(0);
    let requests = vec![
        // The running best is larger: this extender's count of two wins and
        // brings its index.
        CountRecord {
            prefix: vec![Value::Eid(1)],
            count: 1000,
            index: 0,
            time: AltNeu::alt(t(0)),
            diff: 1,
        },
        // The running best of one is strictly smaller: it is kept, with the
        // earlier extender's index.
        CountRecord {
            prefix: vec![Value::Eid(1)],
            count: 1,
            index: 2,
            time: AltNeu::alt(t(0)),
            diff: 1,
        },
        // A tie keeps the running best: the earlier-registered extender.
        CountRecord {
            prefix: vec![Value::Eid(1)],
            count: 2,
            index: 1,
            time: AltNeu::alt(t(0)),
            diff: 1,
        },
        // A prefix this extender proposes nothing for is eliminated.
        CountRecord {
            prefix: vec![Value::Eid(9)],
            count: 1000,
            index: 0,
            time: AltNeu::alt(t(0)),
            diff: 1,
        },
    ];
    let (answered, deferred) = extender.count(&requests, 3, None);
    assert_eq!(answered.len(), 3);
    assert_eq!((answered[0].count, answered[0].index), (2, 3));
    assert_eq!((answered[1].count, answered[1].index), (1, 2));
    assert_eq!((answered[2].count, answered[2].index), (2, 1));
    assert_eq!(deferred.len(), 0);
}
