//! Prefix extenders and their three operations.
//!
//! A `CollectionExtender` wraps a `CollectionIndex` together with the prefix
//! position that selects its key, and answers the three questions of the
//! worst-case-optimal join: `count` (how many extensions would this index
//! propose), `propose` (emit them) and `validate` (confirm extensions
//! proposed by another extender). Each operation is a stateful operator in
//! the sense of the progress-tracking discipline: requests whose time is not
//! yet past the input frontier are deferred, the rest are answered by point
//! lookups and released. The generic multiway `extend` driver folds `count`
//! over all extenders, partitions prefixes by their cheapest extender,
//! proposes per partition and cross-validates against every other extender.
//!
//! Contracts speak of collections through their accumulation functions: a
//! time-indexed multiset of records is the map from (data, time) to the sum
//! of the diffs recorded for it.

use vstd::prelude::*;

use crate::attribute::QueryError;
use crate::index::CollectionIndex;
use crate::time::AltNeu;
use crate::trace::{present, EntryV};
use crate::value::{Value, ValueV};

verus! {

/// The view of a sequence of values.
pub open spec fn vals(s: Seq<Value>) -> Seq<ValueV> {
    s.map_values(|v: Value| v@)
}

/// A prefix awaiting extension: a partial result tuple with a time and a
/// signed multiplicity.
pub struct PrefixRecord {
    /// The already-bound symbol values, in the branch's symbol order.
    pub prefix: Vec<Value>,
    /// The logical time the prefix is valid at.
    pub time: AltNeu,
    /// The signed multiplicity of the prefix at that time.
    pub diff: i64,
}

/// The mathematical shape of a `PrefixRecord`.
pub struct PrefixRecV {
    pub prefix: Seq<ValueV>,
    pub time: AltNeu,
    pub diff: int,
}

impl View for PrefixRecord {
    type V = PrefixRecV;

    open spec fn view(&self) -> PrefixRecV {
        PrefixRecV { prefix: vals(self.prefix@), time: self.time, diff: self.diff as int }
    }
}

/// A prefix annotated with the running best (count, extender index) pair of
/// the count fold.
pub struct CountRecord {
    /// The already-bound symbol values.
    pub prefix: Vec<Value>,
    /// The smallest extension count seen so far.
    pub count: usize,
    /// The extender that reported it.
    pub index: usize,
    /// The logical time the prefix is valid at.
    pub time: AltNeu,
    /// The signed multiplicity of the prefix at that time.
    pub diff: i64,
}

/// The mathematical shape of a `CountRecord`.
pub struct CountRecV {
    pub prefix: Seq<ValueV>,
    pub count: int,
    pub index: int,
    pub time: AltNeu,
    pub diff: int,
}

impl View for CountRecord {
    type V = CountRecV;

    open spec fn view(&self) -> CountRecV {
        CountRecV {
            prefix: vals(self.prefix@),
            count: self.count as int,
            index: self.index as int,
            time: self.time,
            diff: self.diff as int,
        }
    }
}

/// A proposed extension: a prefix together with one candidate value.
pub struct ExtensionRecord {
    /// The already-bound symbol values.
    pub prefix: Vec<Value>,
    /// The proposed value for the next symbol.
    pub extension: Value,
    /// The logical time the pair is valid at.
    pub time: AltNeu,
    /// The signed multiplicity of the pair at that time.
    pub diff: i64,
}

/// The mathematical shape of an `ExtensionRecord`.
pub struct ExtRecV {
    pub prefix: Seq<ValueV>,
    pub extension: ValueV,
    pub time: AltNeu,
    pub diff: int,
}

impl View for ExtensionRecord {
    type V = ExtRecV;

    open spec fn view(&self) -> ExtRecV {
        ExtRecV {
            prefix: vals(self.prefix@),
            extension: self.extension@,
            time: self.time,
            diff: self.diff as int,
        }
    }
}

/// Views of a vector of records.
pub open spec fn pviews(s: Seq<PrefixRecord>) -> Seq<PrefixRecV> {
    s.map_values(|r: PrefixRecord| r@)
}

/// Views of a vector of count records.
pub open spec fn cviews(s: Seq<CountRecord>) -> Seq<CountRecV> {
    s.map_values(|r: CountRecord| r@)
}

/// Views of a vector of extension records.
pub open spec fn eviews(s: Seq<ExtensionRecord>) -> Seq<ExtRecV> {
    s.map_values(|r: ExtensionRecord| r@)
}

/// Accumulated multiplicity of prefix `p` at time `t` over a collection of
/// prefix records.
pub open spec fn pacc(recs: Seq<PrefixRecV>, p: Seq<ValueV>, t: AltNeu) -> int
    decreases recs.len(),
{
    if recs.len() == 0 {
        0
    } else {
        pacc(recs.drop_last(), p, t) + if recs.last().prefix == p && recs.last().time == t {
            recs.last().diff
        } else {
            0
        }
    }
}

/// Accumulated multiplicity of prefix `p` at time `t` over a collection of
/// count records; the running (count, index) annotations do not weigh.
pub open spec fn cacc(recs: Seq<CountRecV>, p: Seq<ValueV>, t: AltNeu) -> int
    decreases recs.len(),
{
    if recs.len() == 0 {
        0
    } else {
        cacc(recs.drop_last(), p, t) + if recs.last().prefix == p && recs.last().time == t {
            recs.last().diff
        } else {
            0
        }
    }
}

/// Accumulated multiplicity of the pair (`p`, `v`) at time `t` over a
/// collection of extension records.
pub open spec fn eacc(recs: Seq<ExtRecV>, p: Seq<ValueV>, v: ValueV, t: AltNeu) -> int
    decreases recs.len(),
{
    if recs.len() == 0 {
        0
    } else {
        eacc(recs.drop_last(), p, v, t) + if recs.last().prefix == p && recs.last().extension == v
            && recs.last().time == t {
            recs.last().diff
        } else {
            0
        }
    }
}

/// What an extender is, mathematically: the change log of its index and the
/// prefix position its key is read from.
pub struct ExtenderView {
    pub log: Seq<EntryV>,
    pub key_pos: int,
}

/// The extender would propose value `v` for prefix `p` at time `t`.
pub open spec fn ext_present(ext: ExtenderView, p: Seq<ValueV>, v: ValueV, t: AltNeu) -> bool {
    present(ext.log, p[ext.key_pos], v, t)
}

/// The extender would propose at least one value for prefix `p` at time `t`.
pub open spec fn ext_some(ext: ExtenderView, p: Seq<ValueV>, t: AltNeu) -> bool {
    exists|v: ValueV| ext_present(ext, p, v, t)
}

/// Every extender of `exts` would propose value `v` for prefix `p` at `t`.
pub open spec fn all_present(exts: Seq<ExtenderView>, p: Seq<ValueV>, v: ValueV, t: AltNeu) -> bool {
    forall|k: int| 0 <= k < exts.len() ==> ext_present(#[trigger] exts[k], p, v, t)
}

/// A request at time `t` may be answered: the input frontier has passed it.
/// An absent frontier means the request input is exhausted.
pub open spec fn answerable(t: AltNeu, frontier: Option<AltNeu>) -> bool {
    match frontier {
        Option::None => true,
        Option::Some(f) => !f.le(t),
    }
}

/// Every count record's prefix has exactly `b` positions.
pub open spec fn plen_counts(recs: Seq<CountRecord>, b: int) -> bool {
    forall|j: int| #![trigger recs[j]] 0 <= j < recs.len() ==> b == recs[j].prefix@.len()
}

/// Every prefix record's prefix has exactly `b` positions.
pub open spec fn plen_prefixes(recs: Seq<PrefixRecord>, b: int) -> bool {
    forall|j: int| #![trigger recs[j]] 0 <= j < recs.len() ==> b == recs[j].prefix@.len()
}

/// Every extension record's prefix has exactly `b` positions.
pub open spec fn plen_exts(recs: Seq<ExtensionRecord>, b: int) -> bool {
    forall|j: int| #![trigger recs[j]] 0 <= j < recs.len() ==> b == recs[j].prefix@.len()
}

/// Every running best index of `recs` lies in `[0, n)`.
pub open spec fn index_bounded(recs: Seq<CountRecord>, n: int) -> bool {
    forall|j: int| #![trigger recs[j]] 0 <= j < recs.len() ==> 0 <= recs[j]@.index < n
}

/// A type capable of extending a stream of prefixes: an index together with
/// the prefix position that selects the key to look up.
pub struct CollectionExtender {
    /// A shared handle onto the three trace forms.
    pub indices: CollectionIndex,
    /// The prefix position whose value keys every lookup.
    pub key_pos: usize,
}

impl View for CollectionExtender {
    type V = ExtenderView;

    open spec fn view(&self) -> ExtenderView {
        ExtenderView { log: self.indices@, key_pos: self.key_pos as int }
    }
}

impl CollectionExtender {
    /// The underlying traces are mutually consistent.
    pub open spec fn wf(&self) -> bool {
        self.indices.wf()
    }
}

impl CollectionIndex {
    /// An extender over this index whose key is the prefix value at
    /// `key_pos`.
    pub fn extend_using(&self, key_pos: usize) -> (r: CollectionExtender)
        requires
            self.wf(),
        ensures
            r.wf(),
            r@ == (ExtenderView { log: self@, key_pos: key_pos as int }),
    {
        CollectionExtender { indices: self.clone(), key_pos }
    }
}

/// The number of extensions the extender would propose for a prefix at a
/// time: the size of its index's proposal set under the prefix's key.
pub open spec fn ext_count(ext: ExtenderView, p: Seq<ValueV>, t: AltNeu) -> int {
    crate::trace::present_set(ext.log, p[ext.key_pos], t).len() as int
}

/// One request after the count fold's update: the strictly smaller count
/// wins and brings this extender's index; on a tie or a larger count the
/// running best — and so the earlier-registered extender — is kept.
pub open spec fn count_step(rec: CountRecV, ext: ExtenderView, index: int) -> CountRecV {
    let n = ext_count(ext, rec.prefix, rec.time);
    if n < rec.count {
        CountRecV { prefix: rec.prefix, count: n, index, time: rec.time, diff: rec.diff }
    } else {
        rec
    }
}

/// What the count operator answers: each request the frontier has passed
/// and for which the extender proposes at least one value, annotated by
/// `count_step`, in request order; a prefix the extender proposes nothing
/// for is eliminated.
pub open spec fn count_answered(
    requests: Seq<CountRecV>,
    ext: ExtenderView,
    index: int,
    frontier: Option<AltNeu>,
) -> Seq<CountRecV>
    decreases requests.len(),
{
    if requests.len() == 0 {
        Seq::empty()
    } else {
        let rest = count_answered(requests.drop_last(), ext, index, frontier);
        let rec = requests.last();
        if answerable(rec.time, frontier) && ext_count(ext, rec.prefix, rec.time) > 0 {
            rest.push(count_step(rec, ext, index))
        } else {
            rest
        }
    }
}

/// What the count operator defers: the requests the frontier has not
/// passed, unchanged, in request order.
pub open spec fn count_deferred(requests: Seq<CountRecV>, frontier: Option<AltNeu>) -> Seq<CountRecV>
    decreases requests.len(),
{
    if requests.len() == 0 {
        Seq::empty()
    } else {
        let rest = count_deferred(requests.drop_last(), frontier);
        if answerable(requests.last().time, frontier) {
            rest
        } else {
            rest.push(requests.last())
        }
    }
}

/// Copies a prefix value for value.
pub fn clone_prefix(v: &Vec<Value>) -> (r: Vec<Value>)
    ensures
        vals(r@) == vals(v@),
        r@.len() == v@.len(),
{
    let mut out: Vec<Value> = Vec::new();
    let mut i: usize = 0;
    while i < v.len()
        invariant
            i <= v@.len(),
            out@.len() == i,
            forall|j: int| 0 <= j < i ==> #[trigger] out@[j]@ == v@[j]@,
        decreases v@.len() - i,
    {
        out.push(v[i].clone());
        i = i + 1;
    }
    proof {
        assert(vals(out@) =~= vals(v@));
    }
    out
}

impl CollectionExtender {
    /// Annotates prefixes with the number of extensions this index would
    /// propose, keeping the smaller of the running best and its own count
    /// and dropping prefixes it would propose nothing for. Requests the
    /// input frontier has not passed are deferred unanswered; the rest are
    /// answered by point lookups and released.
    pub fn count(
        &self,
        requests: &Vec<CountRecord>,
        index: usize,
        frontier: Option<AltNeu>,
    ) -> (r: (Vec<CountRecord>, Vec<CountRecord>))
        requires
            self.wf(),
            crate::trace::nonnegative(self.indices@),
            forall|j: int| 0 <= j < requests@.len() ==> self.key_pos
                < #[trigger] requests@[j].prefix@.len(),
        ensures
            forall|p: Seq<ValueV>, t: AltNeu| answerable(t, frontier) ==> #[trigger] cacc(
                cviews(r.0@),
                p,
                t,
            ) == if ext_some(self@, p, t) {
                cacc(cviews(requests@), p, t)
            } else {
                0
            },
            forall|p: Seq<ValueV>, t: AltNeu| !answerable(t, frontier) ==> #[trigger] cacc(
                cviews(r.0@),
                p,
                t,
            ) == 0,
            forall|p: Seq<ValueV>, t: AltNeu| answerable(t, frontier) ==> #[trigger] cacc(
                cviews(r.1@),
                p,
                t,
            ) == 0,
            forall|p: Seq<ValueV>, t: AltNeu| !answerable(t, frontier) ==> #[trigger] cacc(
                cviews(r.1@),
                p,
                t,
            ) == cacc(cviews(requests@), p, t),
            forall|b: int| plen_counts(requests@, b) ==> plen_counts(r.0@, b) && plen_counts(
                r.1@,
                b,
            ),
            forall|nn: int| index_bounded(requests@, nn) && (index as int) < nn ==> index_bounded(
                r.0@,
                nn,
            ) && index_bounded(r.1@, nn),
            cr_rounds(requests@) ==> cr_rounds(r.0@) && cr_rounds(r.1@),
            cviews(r.0@) == count_answered(cviews(requests@), self@, index as int, frontier),
            cviews(r.1@) == count_deferred(cviews(requests@), frontier),
    {
        let mut answered: Vec<CountRecord> = Vec::new();
        let mut deferred: Vec<CountRecord> = Vec::new();
        let mut i: usize = 0;
        let n = requests.len();
        proof {
            assert(cviews(requests@).take(0) =~= Seq::<CountRecV>::empty());
            assert(cviews(answered@) =~= Seq::<CountRecV>::empty());
            assert(cviews(deferred@) =~= Seq::<CountRecV>::empty());
        }
        while i < n
            invariant
                i <= n,
                n == requests@.len(),
                self.wf(),
                crate::trace::nonnegative(self.indices@),
                forall|j: int| 0 <= j < requests@.len() ==> self.key_pos
                    < #[trigger] requests@[j].prefix@.len(),
                forall|p: Seq<ValueV>, t: AltNeu| answerable(t, frontier) ==> #[trigger] cacc(
                    cviews(answered@),
                    p,
                    t,
                ) == if ext_some(self@, p, t) {
                    cacc(cviews(requests@).take(i as int), p, t)
                } else {
                    0
                },
                forall|p: Seq<ValueV>, t: AltNeu| !answerable(t, frontier) ==> #[trigger] cacc(
                    cviews(answered@),
                    p,
                    t,
                ) == 0,
                forall|p: Seq<ValueV>, t: AltNeu| answerable(t, frontier) ==> #[trigger] cacc(
                    cviews(deferred@),
                    p,
                    t,
                ) == 0,
                forall|p: Seq<ValueV>, t: AltNeu| !answerable(t, frontier) ==> #[trigger] cacc(
                    cviews(deferred@),
                    p,
                    t,
                ) == cacc(cviews(requests@).take(i as int), p, t),
                forall|b: int| plen_counts(requests@, b) ==> plen_counts(answered@, b)
                    && plen_counts(deferred@, b),
                forall|nn: int| index_bounded(requests@, nn) && (index as int) < nn
                    ==> index_bounded(answered@, nn) && index_bounded(deferred@, nn),
                cr_rounds(requests@) ==> cr_rounds(answered@) && cr_rounds(deferred@),
                cviews(answered@) == count_answered(
                    cviews(requests@).take(i as int),
                    self@,
                    index as int,
                    frontier,
                ),
                cviews(deferred@) == count_deferred(cviews(requests@).take(i as int), frontier),
            decreases n - i,
        {
            let req = &requests[i];
            let ghost reqv = requests@[i as int]@;
            proof {
                assert(cviews(requests@).take(i + 1).drop_last() =~= cviews(requests@).take(
                    i as int,
                ));
                assert(cviews(requests@).take(i + 1).last() == reqv);
            }
            let answer_now = match frontier {
                Option::None => true,
                Option::Some(f) => !f.less_equal(&req.time),
            };
            if answer_now {
                let key = &req.prefix[self.key_pos];
                let c = self.indices.count(key, &req.time);
                proof {
                    assert(reqv.prefix[self.key_pos as int] == key@);
                    assert(c as int == ext_count(self@, reqv.prefix, reqv.time));
                    assert(answerable(reqv.time, frontier));
                }
                if c > 0 {
                    let ghost before = cviews(answered@);
                    let ghost recs_before = answered@;
                    if c < req.count {
                        answered.push(
                            CountRecord {
                                prefix: clone_prefix(&req.prefix),
                                count: c,
                                index,
                                time: req.time,
                                diff: req.diff,
                            },
                        );
                    } else {
                        answered.push(
                            CountRecord {
                                prefix: clone_prefix(&req.prefix),
                                count: req.count,
                                index: req.index,
                                time: req.time,
                                diff: req.diff,
                            },
                        );
                    }
                    proof {
                        assert(cviews(answered@).drop_last() =~= before);
                        assert(cviews(answered@).last().prefix == reqv.prefix);
                        assert(cviews(answered@).last().time == reqv.time);
                        assert(cviews(answered@).last().diff == reqv.diff);
                        // The pushed record is exactly the annotated request.
                        assert(cviews(answered@).last() == count_step(
                            reqv,
                            self@,
                            index as int,
                        )) by {
                            if c < req.count {
                                assert(cviews(answered@).last().count == c as int);
                                assert(cviews(answered@).last().index == index as int);
                            } else {
                                assert(cviews(answered@).last().count == reqv.count);
                                assert(cviews(answered@).last().index == reqv.index);
                            }
                        }
                        assert(cviews(answered@) == count_answered(
                            cviews(requests@).take(i + 1),
                            self@,
                            index as int,
                            frontier,
                        )) by {
                            assert(cviews(answered@) == before.push(cviews(answered@).last()));
                        }
                        assert(cviews(deferred@) == count_deferred(
                            cviews(requests@).take(i + 1),
                            frontier,
                        ));
                        let w = choose|v: ValueV| present(
                            self.indices@,
                            reqv.prefix[self.key_pos as int],
                            v,
                            reqv.time,
                        );
                        assert(ext_present(self@, reqv.prefix, w, reqv.time));
                        assert(ext_some(self@, reqv.prefix, reqv.time));
                        assert forall|p: Seq<ValueV>, t: AltNeu| answerable(t, frontier)
                            implies #[trigger] cacc(cviews(answered@), p, t) == (if ext_some(
                            self@,
                            p,
                            t,
                        ) {
                            cacc(cviews(requests@).take(i + 1), p, t)
                        } else {
                            0
                        }) by {
                            assert(cacc(cviews(answered@), p, t) == cacc(before, p, t)
                                + if reqv.prefix == p && reqv.time == t {
                                reqv.diff
                            } else {
                                0
                            });
                            assert(cacc(cviews(requests@).take(i + 1), p, t) == cacc(
                                cviews(requests@).take(i as int),
                                p,
                                t,
                            ) + if reqv.prefix == p && reqv.time == t {
                                reqv.diff
                            } else {
                                0
                            });
                        }
                        assert forall|p: Seq<ValueV>, t: AltNeu| !answerable(t, frontier)
                            implies #[trigger] cacc(cviews(answered@), p, t) == 0 by {
                            assert(cacc(cviews(answered@), p, t) == cacc(before, p, t)
                                + if reqv.prefix == p && reqv.time == t {
                                reqv.diff
                            } else {
                                0
                            });
                            assert(answerable(reqv.time, frontier));
                        }
                        assert forall|b: int| plen_counts(requests@, b) implies plen_counts(
                            answered@,
                            b,
                        ) && plen_counts(deferred@, b) by {
                            assert(b == requests@[i as int].prefix@.len());
                            assert(b == answered@.last().prefix@.len());
                            lemma_plen_counts_push(recs_before, answered@.last(), b);
                            assert(answered@ == recs_before.push(answered@.last()));
                        }
                        assert forall|nn: int| index_bounded(requests@, nn) && (index as int) < nn
                            implies index_bounded(answered@, nn) && index_bounded(
                            deferred@,
                            nn,
                        ) by {
                            assert(0 <= requests@[i as int]@.index < nn);
                            assert(0 <= answered@.last()@.index < nn);
                            lemma_index_push(recs_before, answered@.last(), nn);
                            assert(answered@ == recs_before.push(answered@.last()));
                        }
                        if cr_rounds(requests@) {
                            assert(!requests@[i as int].time.neu && requests@[
                                i as int
                            ].time.time.inner == 0);
                            lemma_cr_rounds_push(recs_before, answered@.last());
                            assert(answered@ == recs_before.push(answered@.last()));
                        }
                    }
                } else {
                    proof {
                        if ext_some(self@, reqv.prefix, reqv.time) {
                            let v = choose|v: ValueV| ext_present(self@, reqv.prefix, v, reqv.time);
                            assert(present(self.indices@, reqv.prefix[self.key_pos as int], v, reqv.time));
                        }
                        assert forall|p: Seq<ValueV>, t: AltNeu| answerable(t, frontier)
                            implies #[trigger] cacc(cviews(answered@), p, t) == (if ext_some(
                            self@,
                            p,
                            t,
                        ) {
                            cacc(cviews(requests@).take(i + 1), p, t)
                        } else {
                            0
                        }) by {
                            assert(cacc(cviews(requests@).take(i + 1), p, t) == cacc(
                                cviews(requests@).take(i as int),
                                p,
                                t,
                            ) + if reqv.prefix == p && reqv.time == t {
                                reqv.diff
                            } else {
                                0
                            });
                        }
                    }
                }
            } else {
                let ghost before = cviews(deferred@);
                let ghost recs_before = deferred@;
                deferred.push(
                    CountRecord {
                        prefix: clone_prefix(&req.prefix),
                        count: req.count,
                        index: req.index,
                        time: req.time,
                        diff: req.diff,
                    },
                );
                proof {
                    assert(cviews(deferred@).drop_last() =~= before);
                    assert(cviews(deferred@).last() == reqv);
                    assert(!answerable(reqv.time, frontier));
                    assert forall|b: int| plen_counts(requests@, b) implies plen_counts(
                        answered@,
                        b,
                    ) && plen_counts(deferred@, b) by {
                        assert(b == requests@[i as int].prefix@.len());
                        assert(b == deferred@.last().prefix@.len());
                        lemma_plen_counts_push(recs_before, deferred@.last(), b);
                        assert(deferred@ == recs_before.push(deferred@.last()));
                    }
                    assert forall|nn: int| index_bounded(requests@, nn) && (index as int) < nn
                        implies index_bounded(answered@, nn) && index_bounded(deferred@, nn) by {
                        assert(0 <= requests@[i as int]@.index < nn);
                        assert(0 <= deferred@.last()@.index < nn);
                        lemma_index_push(recs_before, deferred@.last(), nn);
                        assert(deferred@ == recs_before.push(deferred@.last()));
                    }
                    if cr_rounds(requests@) {
                        assert(!requests@[i as int].time.neu && requests@[
                            i as int
                        ].time.time.inner == 0);
                        lemma_cr_rounds_push(recs_before, deferred@.last());
                        assert(deferred@ == recs_before.push(deferred@.last()));
                    }
                    assert forall|p: Seq<ValueV>, t: AltNeu| !answerable(t, frontier)
                        implies #[trigger] cacc(cviews(deferred@), p, t) == cacc(
                        cviews(requests@).take(i + 1),
                        p,
                        t,
                    ) by {
                        assert(cacc(cviews(deferred@), p, t) == cacc(before, p, t)
                            + if reqv.prefix == p && reqv.time == t {
                            reqv.diff
                        } else {
                            0
                        });
                        assert(cacc(cviews(requests@).take(i + 1), p, t) == cacc(
                            cviews(requests@).take(i as int),
                            p,
                            t,
                        ) + if reqv.prefix == p && reqv.time == t {
                            reqv.diff
                        } else {
                            0
                        });
                    }
                    assert forall|p: Seq<ValueV>, t: AltNeu| answerable(t, frontier)
                        implies #[trigger] cacc(cviews(deferred@), p, t) == 0 by {
                        assert(cacc(cviews(deferred@), p, t) == cacc(before, p, t)
                            + if reqv.prefix == p && reqv.time == t {
                            reqv.diff
                        } else {
                            0
                        });
                    }
                }
            }
            i = i + 1;
        }
        proof {
            assert(cviews(requests@).take(n as int) =~= cviews(requests@));
        }
        (answered, deferred)
    }
}


impl CollectionExtender {
    /// Extends each prefix with every value this index holds for it at the
    /// prefix's time, one output row per (prefix, value) pair, carrying the
    /// prefix's multiplicity. Requests the input frontier has not passed are
    /// deferred unanswered.
    pub fn propose(
        &self,
        requests: &Vec<PrefixRecord>,
        frontier: Option<AltNeu>,
    ) -> (r: (Vec<ExtensionRecord>, Vec<PrefixRecord>))
        requires
            self.wf(),
            crate::trace::nonnegative(self.indices@),
            forall|j: int| 0 <= j < requests@.len() ==> self.key_pos
                < #[trigger] requests@[j].prefix@.len(),
        ensures
            forall|p: Seq<ValueV>, v: ValueV, t: AltNeu| answerable(t, frontier)
                ==> #[trigger] eacc(eviews(r.0@), p, v, t) == if ext_present(self@, p, v, t) {
                pacc(pviews(requests@), p, t)
            } else {
                0
            },
            forall|p: Seq<ValueV>, v: ValueV, t: AltNeu| !answerable(t, frontier)
                ==> #[trigger] eacc(eviews(r.0@), p, v, t) == 0,
            forall|p: Seq<ValueV>, t: AltNeu| answerable(t, frontier) ==> #[trigger] pacc(
                pviews(r.1@),
                p,
                t,
            ) == 0,
            forall|p: Seq<ValueV>, t: AltNeu| !answerable(t, frontier) ==> #[trigger] pacc(
                pviews(r.1@),
                p,
                t,
            ) == pacc(pviews(requests@), p, t),
            forall|b: int| plen_prefixes(requests@, b) ==> plen_exts(r.0@, b) && plen_prefixes(
                r.1@,
                b,
            ),
            pr_rounds(requests@) ==> er_rounds(r.0@) && pr_rounds(r.1@),
    {
        let mut answered: Vec<ExtensionRecord> = Vec::new();
        let mut deferred: Vec<PrefixRecord> = Vec::new();
        let mut i: usize = 0;
        let n = requests.len();
        proof {
            assert(pviews(requests@).take(0) =~= Seq::<PrefixRecV>::empty());
        }
        while i < n
            invariant
                i <= n,
                n == requests@.len(),
                self.wf(),
                crate::trace::nonnegative(self.indices@),
                forall|j: int| 0 <= j < requests@.len() ==> self.key_pos
                    < #[trigger] requests@[j].prefix@.len(),
                forall|p: Seq<ValueV>, v: ValueV, t: AltNeu| answerable(t, frontier)
                    ==> #[trigger] eacc(eviews(answered@), p, v, t) == if ext_present(
                    self@,
                    p,
                    v,
                    t,
                ) {
                    pacc(pviews(requests@).take(i as int), p, t)
                } else {
                    0
                },
                forall|p: Seq<ValueV>, v: ValueV, t: AltNeu| !answerable(t, frontier)
                    ==> #[trigger] eacc(eviews(answered@), p, v, t) == 0,
                forall|p: Seq<ValueV>, t: AltNeu| answerable(t, frontier) ==> #[trigger] pacc(
                    pviews(deferred@),
                    p,
                    t,
                ) == 0,
                forall|p: Seq<ValueV>, t: AltNeu| !answerable(t, frontier) ==> #[trigger] pacc(
                    pviews(deferred@),
                    p,
                    t,
                ) == pacc(pviews(requests@).take(i as int), p, t),
                forall|b: int| plen_prefixes(requests@, b) ==> plen_exts(answered@, b)
                    && plen_prefixes(deferred@, b),
                pr_rounds(requests@) ==> er_rounds(answered@) && pr_rounds(deferred@),
            decreases n - i,
        {
            let req = &requests[i];
            let ghost reqv = requests@[i as int]@;
            proof {
                assert(pviews(requests@).take(i + 1).drop_last() =~= pviews(requests@).take(
                    i as int,
                ));
                assert(pviews(requests@).take(i + 1).last() == reqv);
            }
            let answer_now = match frontier {
                Option::None => true,
                Option::Some(f) => !f.less_equal(&req.time),
            };
            if answer_now {
                let key = &req.prefix[self.key_pos];
                proof {
                    assert(reqv.prefix[self.key_pos as int] == key@);
                }
                let vs = self.indices.propose(key, &req.time);
                let ghost base = eviews(answered@);
                let mut k: usize = 0;
                while k < vs.len()
                    invariant
                        k <= vs@.len(),
                        i < n,
                        n == requests@.len(),
                        self.wf(),
                        reqv == requests@[i as int]@,
                        vals(req.prefix@) == reqv.prefix,
                        reqv.prefix[self.key_pos as int] == key@,
                        forall|j: int| 0 <= j < vs@.len() ==> present(
                            self.indices@,
                            key@,
                            #[trigger] vs@[j]@,
                            req.time,
                        ),
                        forall|v: ValueV| present(self.indices@, key@, v, req.time)
                            ==> exists|j: int| 0 <= j < vs@.len() && vs@[j]@ == v,
                        forall|j1: int, j2: int| 0 <= j1 < j2 < vs@.len() ==> vs@[j1]@ != vs@[j2]@,
                        req.time == reqv.time,
                        req.diff as int == reqv.diff,
                        forall|p: Seq<ValueV>, v: ValueV, t: AltNeu| #[trigger] eacc(
                            eviews(answered@),
                            p,
                            v,
                            t,
                        ) == eacc(base, p, v, t) + if p == reqv.prefix && t == reqv.time
                            && (exists|j: int| 0 <= j < k && vs@[j]@ == v) {
                            reqv.diff
                        } else {
                            0
                        },
                        forall|b: int| plen_prefixes(requests@, b) ==> plen_exts(answered@, b),
                        forall|b: int| plen_prefixes(requests@, b) ==> plen_prefixes(deferred@, b),
                        pr_rounds(requests@) ==> er_rounds(answered@) && pr_rounds(deferred@),
                    decreases vs@.len() - k,
                {
                    let ghost before = eviews(answered@);
                    let ghost recs_before = answered@;
                    answered.push(
                        ExtensionRecord {
                            prefix: clone_prefix(&req.prefix),
                            extension: vs[k].clone(),
                            time: req.time,
                            diff: req.diff,
                        },
                    );
                    proof {
                        assert forall|b: int| plen_prefixes(requests@, b) implies plen_exts(
                            answered@,
                            b,
                        ) by {
                            assert(b == requests@[i as int].prefix@.len());
                            assert(vals(req.prefix@).len() == req.prefix@.len());
                            assert(reqv.prefix.len() == requests@[i as int].prefix@.len());
                            assert(b == answered@.last().prefix@.len());
                            lemma_plen_exts_push(recs_before, answered@.last(), b);
                            assert(answered@ == recs_before.push(answered@.last()));
                        }
                        if pr_rounds(requests@) {
                            assert(!requests@[i as int].time.neu && requests@[
                                i as int
                            ].time.time.inner == 0);
                            assert(answered@.last().time == requests@[i as int].time);
                            lemma_er_rounds_push(recs_before, answered@.last());
                            assert(answered@ == recs_before.push(answered@.last()));
                        }
                        assert(eviews(answered@).drop_last() =~= before);
                        assert(eviews(answered@).last().prefix == reqv.prefix);
                        assert(eviews(answered@).last().extension == vs@[k as int]@);
                        assert(eviews(answered@).last().time == reqv.time);
                        assert(eviews(answered@).last().diff == reqv.diff);
                        assert forall|p: Seq<ValueV>, v: ValueV, t: AltNeu| #[trigger] eacc(
                            eviews(answered@),
                            p,
                            v,
                            t,
                        ) == eacc(base, p, v, t) + (if p == reqv.prefix && t == reqv.time
                            && (exists|j: int| 0 <= j < k + 1 && vs@[j]@ == v) {
                            reqv.diff
                        } else {
                            0
                        }) by {
                            assert(eacc(eviews(answered@), p, v, t) == eacc(before, p, v, t)
                                + if p == reqv.prefix && v == vs@[k as int]@ && t == reqv.time {
                                reqv.diff
                            } else {
                                0
                            });
                            if p == reqv.prefix && t == reqv.time {
                                if v == vs@[k as int]@ {
                                    assert(forall|j: int| 0 <= j < k ==> vs@[j]@ != v);
                                    assert(exists|j: int| 0 <= j < k + 1 && vs@[j]@ == v);
                                } else {
                                    assert((exists|j: int| 0 <= j < k + 1 && vs@[j]@ == v)
                                        == (exists|j: int| 0 <= j < k && vs@[j]@ == v));
                                }
                            }
                        }
                    }
                    k = k + 1;
                }
                proof {
                    assert forall|p: Seq<ValueV>, v: ValueV, t: AltNeu| answerable(t, frontier)
                        implies #[trigger] eacc(eviews(answered@), p, v, t) == (if ext_present(
                        self@,
                        p,
                        v,
                        t,
                    ) {
                        pacc(pviews(requests@).take(i + 1), p, t)
                    } else {
                        0
                    }) by {
                        assert(pacc(pviews(requests@).take(i + 1), p, t) == pacc(
                            pviews(requests@).take(i as int),
                            p,
                            t,
                        ) + if reqv.prefix == p && reqv.time == t {
                            reqv.diff
                        } else {
                            0
                        });
                        if p == reqv.prefix && t == reqv.time {
                            assert((exists|j: int| 0 <= j < vs@.len() && vs@[j]@ == v)
                                == present(self.indices@, key@, v, req.time));
                            assert(present(self.indices@, key@, v, req.time) == ext_present(
                                self@,
                                p,
                                v,
                                t,
                            ));
                        }
                    }
                    assert forall|p: Seq<ValueV>, v: ValueV, t: AltNeu| !answerable(t, frontier)
                        implies #[trigger] eacc(eviews(answered@), p, v, t) == 0 by {
                        assert(answerable(reqv.time, frontier));
                        assert(eacc(eviews(answered@), p, v, t) == eacc(base, p, v, t));
                    }
                }
            } else {
                let ghost before = pviews(deferred@);
                let ghost recs_before = deferred@;
                deferred.push(
                    PrefixRecord {
                        prefix: clone_prefix(&req.prefix),
                        time: req.time,
                        diff: req.diff,
                    },
                );
                proof {
                    assert forall|b: int| plen_prefixes(requests@, b) implies plen_exts(
                        answered@,
                        b,
                    ) && plen_prefixes(deferred@, b) by {
                        assert(b == requests@[i as int].prefix@.len());
                        assert(b == deferred@.last().prefix@.len());
                        lemma_plen_prefixes_push(recs_before, deferred@.last(), b);
                        assert(deferred@ == recs_before.push(deferred@.last()));
                    }
                    if pr_rounds(requests@) {
                        assert(!requests@[i as int].time.neu && requests@[
                            i as int
                        ].time.time.inner == 0);
                        lemma_pr_rounds_push(recs_before, deferred@.last());
                        assert(deferred@ == recs_before.push(deferred@.last()));
                    }
                    assert(pviews(deferred@).drop_last() =~= before);
                    assert(pviews(deferred@).last() == reqv);
                    assert(!answerable(reqv.time, frontier));
                    assert forall|p: Seq<ValueV>, t: AltNeu| !answerable(t, frontier)
                        implies #[trigger] pacc(pviews(deferred@), p, t) == pacc(
                        pviews(requests@).take(i + 1),
                        p,
                        t,
                    ) by {
                        assert(pacc(pviews(deferred@), p, t) == pacc(before, p, t)
                            + if reqv.prefix == p && reqv.time == t {
                            reqv.diff
                        } else {
                            0
                        });
                        assert(pacc(pviews(requests@).take(i + 1), p, t) == pacc(
                            pviews(requests@).take(i as int),
                            p,
                            t,
                        ) + if reqv.prefix == p && reqv.time == t {
                            reqv.diff
                        } else {
                            0
                        });
                    }
                    assert forall|p: Seq<ValueV>, t: AltNeu| answerable(t, frontier)
                        implies #[trigger] pacc(pviews(deferred@), p, t) == 0 by {
                        assert(pacc(pviews(deferred@), p, t) == pacc(before, p, t)
                            + if reqv.prefix == p && reqv.time == t {
                            reqv.diff
                        } else {
                            0
                        });
                    }
                }
            }
            i = i + 1;
        }
        proof {
            assert(pviews(requests@).take(n as int) =~= pviews(requests@));
        }
        (answered, deferred)
    }

    /// Restricts proposed extensions to those this index also holds at their
    /// time, dropping the rest. Requests the input frontier has not passed
    /// are deferred unanswered.
    pub fn validate(
        &self,
        requests: &Vec<ExtensionRecord>,
        frontier: Option<AltNeu>,
    ) -> (r: (Vec<ExtensionRecord>, Vec<ExtensionRecord>))
        requires
            self.wf(),
            crate::trace::nonnegative(self.indices@),
            forall|j: int| 0 <= j < requests@.len() ==> self.key_pos
                < #[trigger] requests@[j].prefix@.len(),
        ensures
            forall|p: Seq<ValueV>, v: ValueV, t: AltNeu| answerable(t, frontier)
                ==> #[trigger] eacc(eviews(r.0@), p, v, t) == if ext_present(self@, p, v, t) {
                eacc(eviews(requests@), p, v, t)
            } else {
                0
            },
            forall|p: Seq<ValueV>, v: ValueV, t: AltNeu| !answerable(t, frontier)
                ==> #[trigger] eacc(eviews(r.0@), p, v, t) == 0,
            forall|p: Seq<ValueV>, v: ValueV, t: AltNeu| answerable(t, frontier)
                ==> #[trigger] eacc(eviews(r.1@), p, v, t) == 0,
            forall|p: Seq<ValueV>, v: ValueV, t: AltNeu| !answerable(t, frontier)
                ==> #[trigger] eacc(eviews(r.1@), p, v, t) == eacc(eviews(requests@), p, v, t),
            forall|b: int| plen_exts(requests@, b) ==> plen_exts(r.0@, b) && plen_exts(r.1@, b),
            er_rounds(requests@) ==> er_rounds(r.0@) && er_rounds(r.1@),
    {
        let mut answered: Vec<ExtensionRecord> = Vec::new();
        let mut deferred: Vec<ExtensionRecord> = Vec::new();
        let mut i: usize = 0;
        let n = requests.len();
        proof {
            assert(eviews(requests@).take(0) =~= Seq::<ExtRecV>::empty());
        }
        while i < n
            invariant
                i <= n,
                n == requests@.len(),
                self.wf(),
                crate::trace::nonnegative(self.indices@),
                forall|j: int| 0 <= j < requests@.len() ==> self.key_pos
                    < #[trigger] requests@[j].prefix@.len(),
                forall|p: Seq<ValueV>, v: ValueV, t: AltNeu| answerable(t, frontier)
                    ==> #[trigger] eacc(eviews(answered@), p, v, t) == if ext_present(
                    self@,
                    p,
                    v,
                    t,
                ) {
                    eacc(eviews(requests@).take(i as int), p, v, t)
                } else {
                    0
                },
                forall|p: Seq<ValueV>, v: ValueV, t: AltNeu| !answerable(t, frontier)
                    ==> #[trigger] eacc(eviews(answered@), p, v, t) == 0,
                forall|p: Seq<ValueV>, v: ValueV, t: AltNeu| answerable(t, frontier)
                    ==> #[trigger] eacc(eviews(deferred@), p, v, t) == 0,
                forall|p: Seq<ValueV>, v: ValueV, t: AltNeu| !answerable(t, frontier)
                    ==> #[trigger] eacc(eviews(deferred@), p, v, t) == eacc(
                    eviews(requests@).take(i as int),
                    p,
                    v,
                    t,
                ),
                forall|b: int| plen_exts(requests@, b) ==> plen_exts(answered@, b) && plen_exts(
                    deferred@,
                    b,
                ),
                er_rounds(requests@) ==> er_rounds(answered@) && er_rounds(deferred@),
            decreases n - i,
        {
            let req = &requests[i];
            let ghost reqv = requests@[i as int]@;
            proof {
                assert(eviews(requests@).take(i + 1).drop_last() =~= eviews(requests@).take(
                    i as int,
                ));
                assert(eviews(requests@).take(i + 1).last() == reqv);
            }
            let answer_now = match frontier {
                Option::None => true,
                Option::Some(f) => !f.less_equal(&req.time),
            };
            if answer_now {
                let key = &req.prefix[self.key_pos];
                proof {
                    assert(reqv.prefix[self.key_pos as int] == key@);
                }
                let m = self.indices.validate_lookup(key, &req.extension, &req.time);
                if m > 0 {
                    let ghost before = eviews(answered@);
                    let ghost recs_before = answered@;
                    answered.push(
                        ExtensionRecord {
                            prefix: clone_prefix(&req.prefix),
                            extension: req.extension.clone(),
                            time: req.time,
                            diff: req.diff,
                        },
                    );
                    proof {
                        assert forall|b: int| plen_exts(requests@, b) implies plen_exts(
                            answered@,
                            b,
                        ) && plen_exts(deferred@, b) by {
                            assert(b == requests@[i as int].prefix@.len());
                            assert(b == answered@.last().prefix@.len());
                            lemma_plen_exts_push(recs_before, answered@.last(), b);
                            assert(answered@ == recs_before.push(answered@.last()));
                        }
                        if er_rounds(requests@) {
                            assert(!requests@[i as int].time.neu && requests@[
                                i as int
                            ].time.time.inner == 0);
                            lemma_er_rounds_push(recs_before, answered@.last());
                            assert(answered@ == recs_before.push(answered@.last()));
                        }
                        assert(eviews(answered@).drop_last() =~= before);
                        assert(eviews(answered@).last() == reqv);
                        assert(ext_present(self@, reqv.prefix, reqv.extension, reqv.time));
                        assert forall|p: Seq<ValueV>, v: ValueV, t: AltNeu| answerable(t, frontier)
                            implies #[trigger] eacc(eviews(answered@), p, v, t) == (if ext_present(
                            self@,
                            p,
                            v,
                            t,
                        ) {
                            eacc(eviews(requests@).take(i + 1), p, v, t)
                        } else {
                            0
                        }) by {
                            assert(eacc(eviews(answered@), p, v, t) == eacc(before, p, v, t)
                                + if reqv.prefix == p && reqv.extension == v && reqv.time == t {
                                reqv.diff
                            } else {
                                0
                            });
                            assert(eacc(eviews(requests@).take(i + 1), p, v, t) == eacc(
                                eviews(requests@).take(i as int),
                                p,
                                v,
                                t,
                            ) + if reqv.prefix == p && reqv.extension == v && reqv.time == t {
                                reqv.diff
                            } else {
                                0
                            });
                        }
                        assert forall|p: Seq<ValueV>, v: ValueV, t: AltNeu| !answerable(t, frontier)
                            implies #[trigger] eacc(eviews(answered@), p, v, t) == 0 by {
                            assert(eacc(eviews(answered@), p, v, t) == eacc(before, p, v, t)
                                + if reqv.prefix == p && reqv.extension == v && reqv.time == t {
                                reqv.diff
                            } else {
                                0
                            });
                            assert(answerable(reqv.time, frontier));
                        }
                    }
                } else {
                    proof {
                        assert(!ext_present(self@, reqv.prefix, reqv.extension, reqv.time));
                        assert forall|p: Seq<ValueV>, v: ValueV, t: AltNeu| answerable(t, frontier)
                            implies #[trigger] eacc(eviews(answered@), p, v, t) == (if ext_present(
                            self@,
                            p,
                            v,
                            t,
                        ) {
                            eacc(eviews(requests@).take(i + 1), p, v, t)
                        } else {
                            0
                        }) by {
                            assert(eacc(eviews(requests@).take(i + 1), p, v, t) == eacc(
                                eviews(requests@).take(i as int),
                                p,
                                v,
                                t,
                            ) + if reqv.prefix == p && reqv.extension == v && reqv.time == t {
                                reqv.diff
                            } else {
                                0
                            });
                        }
                    }
                }
            } else {
                let ghost before = eviews(deferred@);
                let ghost recs_before = deferred@;
                deferred.push(
                    ExtensionRecord {
                        prefix: clone_prefix(&req.prefix),
                        extension: req.extension.clone(),
                        time: req.time,
                        diff: req.diff,
                    },
                );
                proof {
                    assert forall|b: int| plen_exts(requests@, b) implies plen_exts(
                        answered@,
                        b,
                    ) && plen_exts(deferred@, b) by {
                        assert(b == requests@[i as int].prefix@.len());
                        assert(b == deferred@.last().prefix@.len());
                        lemma_plen_exts_push(recs_before, deferred@.last(), b);
                        assert(deferred@ == recs_before.push(deferred@.last()));
                    }
                    if er_rounds(requests@) {
                        assert(!requests@[i as int].time.neu && requests@[
                            i as int
                        ].time.time.inner == 0);
                        lemma_er_rounds_push(recs_before, deferred@.last());
                        assert(deferred@ == recs_before.push(deferred@.last()));
                    }
                    assert(eviews(deferred@).drop_last() =~= before);
                    assert(eviews(deferred@).last() == reqv);
                    assert(!answerable(reqv.time, frontier));
                    assert forall|p: Seq<ValueV>, v: ValueV, t: AltNeu| !answerable(t, frontier)
                        implies #[trigger] eacc(eviews(deferred@), p, v, t) == eacc(
                        eviews(requests@).take(i + 1),
                        p,
                        v,
                        t,
                    ) by {
                        assert(eacc(eviews(deferred@), p, v, t) == eacc(before, p, v, t)
                            + if reqv.prefix == p && reqv.extension == v && reqv.time == t {
                            reqv.diff
                        } else {
                            0
                        });
                        assert(eacc(eviews(requests@).take(i + 1), p, v, t) == eacc(
                            eviews(requests@).take(i as int),
                            p,
                            v,
                            t,
                        ) + if reqv.prefix == p && reqv.extension == v && reqv.time == t {
                            reqv.diff
                        } else {
                            0
                        });
                    }
                    assert forall|p: Seq<ValueV>, v: ValueV, t: AltNeu| answerable(t, frontier)
                        implies #[trigger] eacc(eviews(deferred@), p, v, t) == 0 by {
                        assert(eacc(eviews(deferred@), p, v, t) == eacc(before, p, v, t)
                            + if reqv.prefix == p && reqv.extension == v && reqv.time == t {
                            reqv.diff
                        } else {
                            0
                        });
                    }
                }
            }
            i = i + 1;
        }
        proof {
            assert(eviews(requests@).take(n as int) =~= eviews(requests@));
        }
        (answered, deferred)
    }
}


/// Appending a long-enough record keeps a length bound.
proof fn lemma_plen_counts_push(s: Seq<CountRecord>, r: CountRecord, b: int)
    requires
        plen_counts(s, b),
        b == r.prefix@.len(),
    ensures
        plen_counts(s.push(r), b),
{
    assert forall|j: int| #![trigger s.push(r)[j]] 0 <= j < s.push(r).len() implies b == s.push(
        r,
    )[j].prefix@.len() by {
        if j < s.len() {
            assert(s.push(r)[j] == s[j]);
        } else {
            assert(s.push(r)[j] == r);
        }
    }
}

/// Appending a long-enough record keeps a length bound.
proof fn lemma_plen_prefixes_push(s: Seq<PrefixRecord>, r: PrefixRecord, b: int)
    requires
        plen_prefixes(s, b),
        b == r.prefix@.len(),
    ensures
        plen_prefixes(s.push(r), b),
{
    assert forall|j: int| #![trigger s.push(r)[j]] 0 <= j < s.push(r).len() implies b == s.push(
        r,
    )[j].prefix@.len() by {
        if j < s.len() {
            assert(s.push(r)[j] == s[j]);
        } else {
            assert(s.push(r)[j] == r);
        }
    }
}

/// Appending a long-enough record keeps a length bound.
proof fn lemma_plen_exts_push(s: Seq<ExtensionRecord>, r: ExtensionRecord, b: int)
    requires
        plen_exts(s, b),
        b == r.prefix@.len(),
    ensures
        plen_exts(s.push(r), b),
{
    assert forall|j: int| #![trigger s.push(r)[j]] 0 <= j < s.push(r).len() implies b == s.push(
        r,
    )[j].prefix@.len() by {
        if j < s.len() {
            assert(s.push(r)[j] == s[j]);
        } else {
            assert(s.push(r)[j] == r);
        }
    }
}

/// Appending a record with a bounded index keeps the bound.
proof fn lemma_index_push(s: Seq<CountRecord>, r: CountRecord, n: int)
    requires
        index_bounded(s, n),
        0 <= r@.index < n,
    ensures
        index_bounded(s.push(r), n),
{
    assert forall|j: int| #![trigger s.push(r)[j]] 0 <= j < s.push(r).len() implies 0 <= s.push(
        r,
    )[j]@.index < n by {
        if j < s.len() {
            assert(s.push(r)[j] == s[j]);
        } else {
            assert(s.push(r)[j] == r);
        }
    }
}

/// Every count record's time is the alt phase of a round time.
pub open spec fn cr_rounds(recs: Seq<CountRecord>) -> bool {
    forall|j: int| #![trigger recs[j]] 0 <= j < recs.len() ==> !recs[j].time.neu
        && recs[j].time.time.inner == 0
}

/// Every prefix record's time is the alt phase of a round time.
pub open spec fn pr_rounds(recs: Seq<PrefixRecord>) -> bool {
    forall|j: int| #![trigger recs[j]] 0 <= j < recs.len() ==> !recs[j].time.neu
        && recs[j].time.time.inner == 0
}

/// Every extension record's time is the alt phase of a round time.
pub open spec fn er_rounds(recs: Seq<ExtensionRecord>) -> bool {
    forall|j: int| #![trigger recs[j]] 0 <= j < recs.len() ==> !recs[j].time.neu
        && recs[j].time.time.inner == 0
}

/// Appending a round-timed record keeps the round-time bound.
proof fn lemma_cr_rounds_push(s: Seq<CountRecord>, r: CountRecord)
    requires
        cr_rounds(s),
        !r.time.neu,
        r.time.time.inner == 0,
    ensures
        cr_rounds(s.push(r)),
{
    assert forall|j: int| #![trigger s.push(r)[j]] 0 <= j < s.push(r).len() implies !s.push(
        r,
    )[j].time.neu && s.push(r)[j].time.time.inner == 0 by {
        if j < s.len() {
            assert(s.push(r)[j] == s[j]);
        } else {
            assert(s.push(r)[j] == r);
        }
    }
}

/// Appending a round-timed record keeps the round-time bound.
proof fn lemma_pr_rounds_push(s: Seq<PrefixRecord>, r: PrefixRecord)
    requires
        pr_rounds(s),
        !r.time.neu,
        r.time.time.inner == 0,
    ensures
        pr_rounds(s.push(r)),
{
    assert forall|j: int| #![trigger s.push(r)[j]] 0 <= j < s.push(r).len() implies !s.push(
        r,
    )[j].time.neu && s.push(r)[j].time.time.inner == 0 by {
        if j < s.len() {
            assert(s.push(r)[j] == s[j]);
        } else {
            assert(s.push(r)[j] == r);
        }
    }
}

/// Appending a round-timed record keeps the round-time bound.
proof fn lemma_er_rounds_push(s: Seq<ExtensionRecord>, r: ExtensionRecord)
    requires
        er_rounds(s),
        !r.time.neu,
        r.time.time.inner == 0,
    ensures
        er_rounds(s.push(r)),
{
    assert forall|j: int| #![trigger s.push(r)[j]] 0 <= j < s.push(r).len() implies !s.push(
        r,
    )[j].time.neu && s.push(r)[j].time.time.inner == 0 by {
        if j < s.len() {
            assert(s.push(r)[j] == s[j]);
        } else {
            assert(s.push(r)[j] == r);
        }
    }
}

/// The sentinel a prefix's running best count starts from: larger than any
/// real candidate set the fold should prefer.
pub const COUNT_SENTINEL: usize = 0x8000_0000;

/// The views of a list of extenders.
pub open spec fn extviews(s: Seq<CollectionExtender>) -> Seq<ExtenderView> {
    s.map_values(|e: CollectionExtender| e@)
}

/// The first `upto` extenders each propose at least one value for `p` at `t`.
pub open spec fn chain_some(exts: Seq<ExtenderView>, upto: int, p: Seq<ValueV>, t: AltNeu) -> bool {
    forall|k: int| 0 <= k < upto ==> ext_some(#[trigger] exts[k], p, t)
}

/// Every extender before `upto` other than `idx` holds (`p`, `v`) at `t`.
pub open spec fn others_present(
    exts: Seq<ExtenderView>,
    idx: int,
    upto: int,
    p: Seq<ValueV>,
    v: ValueV,
    t: AltNeu,
) -> bool {
    forall|k: int| 0 <= k < upto && k != idx ==> ext_present(#[trigger] exts[k], p, v, t)
}

/// The prefixes of the count records assigned to extender `idx`, in order.
pub open spec fn filterproj(recs: Seq<CountRecV>, idx: int) -> Seq<PrefixRecV>
    decreases recs.len(),
{
    if recs.len() == 0 {
        Seq::empty()
    } else if recs.last().index == idx {
        filterproj(recs.drop_last(), idx).push(
            PrefixRecV {
                prefix: recs.last().prefix,
                time: recs.last().time,
                diff: recs.last().diff,
            },
        )
    } else {
        filterproj(recs.drop_last(), idx)
    }
}

/// The total multiplicity of `p` at `t` across the first `n` partitions.
pub open spec fn parts_acc(recs: Seq<CountRecV>, n: int, p: Seq<ValueV>, t: AltNeu) -> int
    decreases n,
{
    if n <= 0 {
        0
    } else {
        parts_acc(recs, n - 1, p, t) + pacc(filterproj(recs, n - 1), p, t)
    }
}

/// Peeling the last record off the partition total.
proof fn lemma_parts_unfold(recs: Seq<CountRecV>, n: int, p: Seq<ValueV>, t: AltNeu)
    requires
        recs.len() > 0,
    ensures
        parts_acc(recs, n, p, t) == parts_acc(recs.drop_last(), n, p, t) + if 0
            <= recs.last().index < n && recs.last().prefix == p && recs.last().time == t {
            recs.last().diff
        } else {
            0
        },
    decreases n,
{
    if n > 0 {
        lemma_parts_unfold(recs, n - 1, p, t);
        let rest = recs.drop_last();
        if recs.last().index == n - 1 {
            let pv = PrefixRecV {
                prefix: recs.last().prefix,
                time: recs.last().time,
                diff: recs.last().diff,
            };
            assert(filterproj(recs, n - 1) == filterproj(rest, n - 1).push(pv));
            assert(filterproj(rest, n - 1).push(pv).drop_last() =~= filterproj(rest, n - 1));
            assert(pacc(filterproj(recs, n - 1), p, t) == pacc(filterproj(rest, n - 1), p, t)
                + if pv.prefix == p && pv.time == t {
                pv.diff
            } else {
                0
            });
        } else {
            assert(filterproj(recs, n - 1) == filterproj(rest, n - 1));
        }
    }
}

/// Partitioning by assigned extender neither loses nor doubles weight: the
/// partition totals add back up to the collection's accumulation.
pub proof fn lemma_partition_sum(recs: Seq<CountRecV>, n: int, p: Seq<ValueV>, t: AltNeu)
    requires
        forall|j: int| 0 <= j < recs.len() ==> 0 <= (#[trigger] recs[j]).index < n,
    ensures
        parts_acc(recs, n, p, t) == cacc(recs, p, t),
    decreases recs.len(),
{
    if recs.len() == 0 {
        lemma_parts_empty(recs, n, p, t);
    } else {
        lemma_parts_unfold(recs, n, p, t);
        lemma_partition_sum(recs.drop_last(), n, p, t);
    }
}

/// An empty collection has empty partitions.
proof fn lemma_parts_empty(recs: Seq<CountRecV>, n: int, p: Seq<ValueV>, t: AltNeu)
    requires
        recs.len() == 0,
    ensures
        parts_acc(recs, n, p, t) == 0,
    decreases n,
{
    if n > 0 {
        lemma_parts_empty(recs, n - 1, p, t);
    }
}

/// Collects the prefixes the count fold assigned to extender `idx`.
fn take_partition(counts: &Vec<CountRecord>, idx: usize) -> (r: Vec<PrefixRecord>)
    ensures
        pviews(r@) == filterproj(cviews(counts@), idx as int),
        forall|b: int| plen_counts(counts@, b) ==> plen_prefixes(r@, b),
        cr_rounds(counts@) ==> pr_rounds(r@),
{
    let mut out: Vec<PrefixRecord> = Vec::new();
    let mut i: usize = 0;
    let n = counts.len();
    proof {
        assert(filterproj(cviews(counts@).take(0), idx as int) =~= Seq::<PrefixRecV>::empty());
        assert(pviews(out@) =~= Seq::<PrefixRecV>::empty());
    }
    while i < n
        invariant
            i <= n,
            n == counts@.len(),
            pviews(out@) == filterproj(cviews(counts@).take(i as int), idx as int),
            forall|b: int| plen_counts(counts@, b) ==> plen_prefixes(out@, b),
            cr_rounds(counts@) ==> pr_rounds(out@),
        decreases n - i,
    {
        let c = &counts[i];
        let ghost cv = counts@[i as int]@;
        proof {
            assert(cviews(counts@).take(i + 1).drop_last() =~= cviews(counts@).take(i as int));
            assert(cviews(counts@).take(i + 1).last() == cv);
        }
        if c.index == idx {
            let ghost before = pviews(out@);
            let ghost recs_before = out@;
            out.push(PrefixRecord { prefix: clone_prefix(&c.prefix), time: c.time, diff: c.diff });
            proof {
                assert forall|b: int| plen_counts(counts@, b) implies plen_prefixes(out@, b) by {
                    assert(b == counts@[i as int].prefix@.len());
                    assert(b == out@.last().prefix@.len());
                    lemma_plen_prefixes_push(recs_before, out@.last(), b);
                    assert(out@ == recs_before.push(out@.last()));
                }
                if cr_rounds(counts@) {
                    assert(!counts@[i as int].time.neu && counts@[i as int].time.time.inner == 0);
                    lemma_pr_rounds_push(recs_before, out@.last());
                    assert(out@ == recs_before.push(out@.last()));
                }
                assert(pviews(out@).drop_last() =~= before);
                assert(pviews(out@).last() == (PrefixRecV {
                    prefix: cv.prefix,
                    time: cv.time,
                    diff: cv.diff,
                }));
                assert(pviews(out@) =~= filterproj(cviews(counts@).take(i + 1), idx as int));
            }
        }
        i = i + 1;
    }
    proof {
        assert(cviews(counts@).take(n as int) =~= cviews(counts@));
    }
    out
}

/// The generic multiway extend: annotates every prefix with a running best
/// count, folds `count` across all extenders, partitions prefixes by their
/// cheapest extender, has that extender propose and every other extender
/// validate, and concatenates the partitions' results.
///
/// The result accumulates, for every prefix and candidate value, the
/// prefix's own multiplicity exactly when every extender holds the pair at
/// the prefix's time, and nothing otherwise: which extender proposed is not
/// observable in the result. Supplying no extenders at all is a
/// construction-time error.
pub fn extend(
    prefixes: &Vec<PrefixRecord>,
    extenders: &Vec<CollectionExtender>,
    plen: usize,
) -> (r: Result<Vec<ExtensionRecord>, QueryError>)
    requires
        forall|k: int| 0 <= k < extenders@.len() ==> (#[trigger] extenders@[k]).wf()
            && crate::trace::nonnegative(extenders@[k].indices@),
        plen_prefixes(prefixes@, plen as int),
        forall|k: int| 0 <= k < extenders@.len() ==> (#[trigger] extenders@[k]).key_pos
            < plen as int,
    ensures
        match r {
            Result::Ok(out) => forall|p: Seq<ValueV>, v: ValueV, t: AltNeu| #[trigger] eacc(
                eviews(out@),
                p,
                v,
                t,
            ) == if all_present(extviews(extenders@), p, v, t) {
                pacc(pviews(prefixes@), p, t)
            } else {
                0
            },
            Result::Err(e) => e == QueryError::UnboundExtenders,
        },
        match r {
            Result::Ok(out) => plen_exts(out@, plen as int) && (pr_rounds(prefixes@)
                ==> er_rounds(out@)),
            Result::Err(_) => true,
        },
        r is Err <==> extenders@.len() == 0,
{
    let n = extenders.len();
    if n == 0 {
        return Err(QueryError::UnboundExtenders);
    }
    if n == 1 {
        proof {
            assert forall|j: int| 0 <= j < prefixes@.len() implies extenders@[0].key_pos
                < #[trigger] prefixes@[j].prefix@.len() by {
                assert(plen as int == prefixes@[j].prefix@.len());
            }
        }
        let (out, _pending) = extenders[0].propose(prefixes, None);
        proof {
            assert forall|p: Seq<ValueV>, v: ValueV, t: AltNeu| #[trigger] eacc(
                eviews(out@),
                p,
                v,
                t,
            ) == (if all_present(extviews(extenders@), p, v, t) {
                pacc(pviews(prefixes@), p, t)
            } else {
                0
            }) by {
                assert(extviews(extenders@)[0] == extenders@[0]@);
                if all_present(extviews(extenders@), p, v, t) {
                    assert(ext_present(extenders@[0]@, p, v, t));
                } else {
                    assert(!ext_present(extviews(extenders@)[0], p, v, t));
                }
            }
        }
        proof {
            assert(plen_exts(out@, plen as int));
        }
        return Ok(out);
    }

    // Annotate every prefix with the starting (count, extender) pair.
    let mut counts: Vec<CountRecord> = Vec::new();
    let mut i: usize = 0;
    proof {
        assert(pviews(prefixes@).take(0) =~= Seq::<PrefixRecV>::empty());
    }
    while i < prefixes.len()
        invariant
            i <= prefixes@.len(),
            counts@.len() == i,
            forall|j: int| 0 <= j < i ==> (#[trigger] counts@[j])@.prefix == prefixes@[j]@.prefix
                && counts@[j]@.time == prefixes@[j]@.time && counts@[j]@.diff == prefixes@[j]@.diff
                && counts@[j]@.index == 0 && counts@[j].time == prefixes@[j].time,
        decreases prefixes@.len() - i,
    {
        let pr = &prefixes[i];
        counts.push(
            CountRecord {
                prefix: clone_prefix(&pr.prefix),
                count: COUNT_SENTINEL,
                index: 0,
                time: pr.time,
                diff: pr.diff,
            },
        );
        i = i + 1;
    }
    proof {
        lemma_cacc_matches_pacc(cviews(counts@), pviews(prefixes@));
        assert forall|b: int| plen_prefixes(prefixes@, b) implies plen_counts(counts@, b) by {
            assert forall|j: int| #![trigger counts@[j]] 0 <= j < counts@.len() implies b
                == counts@[j].prefix@.len() by {
                assert(counts@[j]@.prefix == prefixes@[j]@.prefix);
                assert(counts@[j]@.prefix.len() == counts@[j].prefix@.len());
                assert(prefixes@[j]@.prefix.len() == prefixes@[j].prefix@.len());
            }
        }
        assert(index_bounded(counts@, n as int));
    }

    // Fold `count` across all extenders; each keeps the strictly smaller
    // candidate count.
    let mut k: usize = 0;
    while k < n
        invariant
            k <= n,
            n == extenders@.len(),
            n > 1,
            forall|kk: int| 0 <= kk < extenders@.len() ==> (#[trigger] extenders@[kk]).wf()
                && crate::trace::nonnegative(extenders@[kk].indices@),
            plen_prefixes(prefixes@, plen as int),
            forall|kk: int| 0 <= kk < extenders@.len() ==> (#[trigger] extenders@[kk]).key_pos
                < plen as int,
            forall|b: int| plen_prefixes(prefixes@, b) ==> plen_counts(counts@, b),
            pr_rounds(prefixes@) ==> cr_rounds(counts@),
            index_bounded(counts@, n as int),
            forall|p: Seq<ValueV>, t: AltNeu| #[trigger] cacc(cviews(counts@), p, t)
                == if chain_some(extviews(extenders@), k as int, p, t) {
                pacc(pviews(prefixes@), p, t)
            } else {
                0
            },
        decreases n - k,
    {
        proof {
            assert(plen_counts(counts@, plen as int));
            assert forall|j: int| 0 <= j < counts@.len() implies extenders@[k as int].key_pos
                < #[trigger] counts@[j].prefix@.len() by {
                assert(plen as int == counts@[j].prefix@.len());
            }
        }
        let (next, _pending) = extenders[k].count(&counts, k, None);
        proof {
            assert forall|b: int| plen_prefixes(prefixes@, b) implies plen_counts(next@, b) by {
                assert(plen_counts(counts@, b));
            }
            if pr_rounds(prefixes@) {
                assert(cr_rounds(counts@));
                assert(cr_rounds(next@));
            }
            assert(index_bounded(counts@, n as int) && (k as int) < n);
            assert(index_bounded(next@, n as int));
            assert forall|p: Seq<ValueV>, t: AltNeu| #[trigger] cacc(cviews(next@), p, t)
                == (if chain_some(extviews(extenders@), k + 1, p, t) {
                pacc(pviews(prefixes@), p, t)
            } else {
                0
            }) by {
                assert(extviews(extenders@)[k as int] == extenders@[k as int]@);
                if chain_some(extviews(extenders@), k + 1, p, t) {
                    assert(ext_some(extenders@[k as int]@, p, t));
                    assert(chain_some(extviews(extenders@), k as int, p, t));
                } else {
                    if chain_some(extviews(extenders@), k as int, p, t) {
                        assert(!ext_some(extviews(extenders@)[k as int], p, t));
                    }
                }
            }
        }
        counts = next;
        k = k + 1;
    }

    // Partition by winning extender; propose there and validate everywhere
    // else; concatenate.
    let mut results: Vec<ExtensionRecord> = Vec::new();
    let mut idx: usize = 0;
    while idx < n
        invariant
            idx <= n,
            n == extenders@.len(),
            n > 1,
            forall|kk: int| 0 <= kk < extenders@.len() ==> (#[trigger] extenders@[kk]).wf()
                && crate::trace::nonnegative(extenders@[kk].indices@),
            plen_prefixes(prefixes@, plen as int),
            forall|kk: int| 0 <= kk < extenders@.len() ==> (#[trigger] extenders@[kk]).key_pos
                < plen as int,
            forall|b: int| plen_prefixes(prefixes@, b) ==> plen_counts(counts@, b),
            pr_rounds(prefixes@) ==> cr_rounds(counts@),
            index_bounded(counts@, n as int),
            forall|p: Seq<ValueV>, t: AltNeu| #[trigger] cacc(cviews(counts@), p, t)
                == if chain_some(extviews(extenders@), n as int, p, t) {
                pacc(pviews(prefixes@), p, t)
            } else {
                0
            },
            plen_exts(results@, plen as int),
            pr_rounds(prefixes@) ==> er_rounds(results@),
            forall|p: Seq<ValueV>, v: ValueV, t: AltNeu| #[trigger] eacc(eviews(results@), p, v, t)
                == if all_present(extviews(extenders@), p, v, t) {
                parts_acc(cviews(counts@), idx as int, p, t)
            } else {
                0
            },
        decreases n - idx,
    {
        let part = take_partition(&counts, idx);
        proof {
            assert(plen_counts(counts@, plen as int));
            assert(plen_prefixes(part@, plen as int));
            assert forall|j: int| 0 <= j < part@.len() implies extenders@[idx as int].key_pos
                < #[trigger] part@[j].prefix@.len() by {
                assert(plen as int == part@[j].prefix@.len());
            }
        }
        let (mut extensions, _pending) = extenders[idx].propose(&part, None);
        let mut o: usize = 0;
        while o < n
            invariant
                o <= n,
                idx < n,
                n == extenders@.len(),
                forall|kk: int| 0 <= kk < extenders@.len() ==> (#[trigger] extenders@[kk]).wf()
                    && crate::trace::nonnegative(extenders@[kk].indices@),
                forall|b: int| plen_counts(counts@, b) ==> plen_prefixes(part@, b),
                forall|b: int| plen_prefixes(prefixes@, b) ==> plen_counts(counts@, b),
                pr_rounds(prefixes@) ==> cr_rounds(counts@),
                cr_rounds(counts@) ==> pr_rounds(part@),
                plen_prefixes(prefixes@, plen as int),
                forall|kk: int| 0 <= kk < extenders@.len() ==> (#[trigger] extenders@[kk]).key_pos
                    < plen as int,
                forall|b: int| plen_prefixes(part@, b) ==> plen_exts(extensions@, b),
                pr_rounds(part@) ==> er_rounds(extensions@),
                forall|p: Seq<ValueV>, v: ValueV, t: AltNeu| #[trigger] eacc(
                    eviews(extensions@),
                    p,
                    v,
                    t,
                ) == if ext_present(extviews(extenders@)[idx as int], p, v, t) && others_present(
                    extviews(extenders@),
                    idx as int,
                    o as int,
                    p,
                    v,
                    t,
                ) {
                    pacc(pviews(part@), p, t)
                } else {
                    0
                },
            decreases n - o,
        {
            if o != idx {
                proof {
                    assert(plen_counts(counts@, plen as int));
                    assert(plen_prefixes(part@, plen as int));
                    assert(plen_exts(extensions@, plen as int));
                    assert forall|j: int| 0 <= j < extensions@.len() implies extenders@[o as int].key_pos
                        < #[trigger] extensions@[j].prefix@.len() by {
                        assert(plen as int == extensions@[j].prefix@.len());
                    }
                }
                let (next, _pending2) = extenders[o].validate(&extensions, None);
                proof {
                    assert forall|b: int| plen_prefixes(part@, b) implies plen_exts(next@, b) by {
                        assert(plen_exts(extensions@, b));
                    }
                    if pr_rounds(part@) {
                        assert(er_rounds(extensions@));
                        assert(er_rounds(next@));
                    }
                    assert forall|p: Seq<ValueV>, v: ValueV, t: AltNeu| #[trigger] eacc(
                        eviews(next@),
                        p,
                        v,
                        t,
                    ) == (if ext_present(extviews(extenders@)[idx as int], p, v, t)
                        && others_present(extviews(extenders@), idx as int, o + 1, p, v, t) {
                        pacc(pviews(part@), p, t)
                    } else {
                        0
                    }) by {
                        assert(extviews(extenders@)[o as int] == extenders@[o as int]@);
                        if ext_present(extviews(extenders@)[idx as int], p, v, t)
                            && others_present(extviews(extenders@), idx as int, o + 1, p, v, t) {
                            assert(ext_present(extenders@[o as int]@, p, v, t));
                            assert(others_present(extviews(extenders@), idx as int, o as int, p, v, t));
                        } else {
                            if ext_present(extviews(extenders@)[idx as int], p, v, t)
                                && others_present(extviews(extenders@), idx as int, o as int, p, v, t) {
                                assert(!ext_present(extviews(extenders@)[o as int], p, v, t));
                            }
                        }
                    }
                }
                extensions = next;
            } else {
                proof {
                    assert forall|p: Seq<ValueV>, v: ValueV, t: AltNeu| #[trigger] eacc(
                        eviews(extensions@),
                        p,
                        v,
                        t,
                    ) == (if ext_present(extviews(extenders@)[idx as int], p, v, t)
                        && others_present(extviews(extenders@), idx as int, o + 1, p, v, t) {
                        pacc(pviews(part@), p, t)
                    } else {
                        0
                    }) by {
                        if ext_present(extviews(extenders@)[idx as int], p, v, t) {
                            assert(others_present(extviews(extenders@), idx as int, o + 1, p, v, t)
                                == others_present(extviews(extenders@), idx as int, o as int, p, v, t));
                        }
                    }
                }
            }
            o = o + 1;
        }
        // Append this partition's validated extensions to the result.
        let ghost results_before = eviews(results@);
        let ghost extv = eviews(extensions@);
        let mut e: usize = 0;
        proof {
            assert(extv.take(0) =~= Seq::<ExtRecV>::empty());
        }
        while e < extensions.len()
            invariant
                e <= extensions@.len(),
                extv == eviews(extensions@),
                plen_exts(results@, plen as int),
                plen_exts(extensions@, plen as int),
                pr_rounds(prefixes@) ==> er_rounds(results@) && er_rounds(extensions@),
                forall|p: Seq<ValueV>, v: ValueV, t: AltNeu| #[trigger] eacc(
                    eviews(results@),
                    p,
                    v,
                    t,
                ) == eacc(results_before, p, v, t) + eacc(extv.take(e as int), p, v, t),
            decreases extensions@.len() - e,
        {
            let x = &extensions[e];
            let ghost before = eviews(results@);
            let ghost recs_before = results@;
            results.push(
                ExtensionRecord {
                    prefix: clone_prefix(&x.prefix),
                    extension: x.extension.clone(),
                    time: x.time,
                    diff: x.diff,
                },
            );
            proof {
                assert(plen as int == extensions@[e as int].prefix@.len());
                assert(plen as int == results@.last().prefix@.len());
                lemma_plen_exts_push(recs_before, results@.last(), plen as int);
                assert(results@ == recs_before.push(results@.last()));
                if pr_rounds(prefixes@) {
                    assert(!extensions@[e as int].time.neu && extensions@[
                        e as int
                    ].time.time.inner == 0);
                    lemma_er_rounds_push(recs_before, results@.last());
                    assert(results@ == recs_before.push(results@.last()));
                }
                assert(eviews(results@).drop_last() =~= before);
                assert(eviews(results@).last() == extv[e as int]);
                assert(extv.take(e + 1).drop_last() =~= extv.take(e as int));
                assert(extv.take(e + 1).last() == extv[e as int]);
                assert forall|p: Seq<ValueV>, v: ValueV, t: AltNeu| #[trigger] eacc(
                    eviews(results@),
                    p,
                    v,
                    t,
                ) == eacc(results_before, p, v, t) + eacc(extv.take(e + 1), p, v, t) by {
                    assert(eacc(eviews(results@), p, v, t) == eacc(before, p, v, t) + if extv[
                        e as int
                    ].prefix == p && extv[e as int].extension == v && extv[e as int].time == t {
                        extv[e as int].diff
                    } else {
                        0
                    });
                    assert(eacc(extv.take(e + 1), p, v, t) == eacc(extv.take(e as int), p, v, t)
                        + if extv[e as int].prefix == p && extv[e as int].extension == v && extv[
                        e as int
                    ].time == t {
                        extv[e as int].diff
                    } else {
                        0
                    });
                }
            }
            e = e + 1;
        }
        proof {
            assert(extv.take(extensions@.len() as int) =~= extv);
            assert forall|p: Seq<ValueV>, v: ValueV, t: AltNeu| #[trigger] eacc(
                eviews(results@),
                p,
                v,
                t,
            ) == (if all_present(extviews(extenders@), p, v, t) {
                parts_acc(cviews(counts@), idx + 1, p, t)
            } else {
                0
            }) by {
                assert(eacc(eviews(results@), p, v, t) == eacc(results_before, p, v, t) + eacc(
                    extv,
                    p,
                    v,
                    t,
                ));
                assert(parts_acc(cviews(counts@), idx + 1, p, t) == parts_acc(
                    cviews(counts@),
                    idx as int,
                    p,
                    t,
                ) + pacc(filterproj(cviews(counts@), idx as int), p, t));
                assert(pviews(part@) == filterproj(cviews(counts@), idx as int));
                if all_present(extviews(extenders@), p, v, t) {
                    assert(ext_present(extviews(extenders@)[idx as int], p, v, t));
                    assert(others_present(extviews(extenders@), idx as int, n as int, p, v, t));
                } else {
                    let bad = choose|kk: int| 0 <= kk < extviews(extenders@).len() && !ext_present(
                        extviews(extenders@)[kk],
                        p,
                        v,
                        t,
                    );
                    if bad == idx as int {
                        assert(!ext_present(extviews(extenders@)[idx as int], p, v, t));
                    } else {
                        assert(!others_present(extviews(extenders@), idx as int, n as int, p, v, t));
                    }
                }
            }
        }
        idx = idx + 1;
    }
    proof {
        assert forall|p: Seq<ValueV>, v: ValueV, t: AltNeu| #[trigger] eacc(
            eviews(results@),
            p,
            v,
            t,
        ) == (if all_present(extviews(extenders@), p, v, t) {
            pacc(pviews(prefixes@), p, t)
        } else {
            0
        }) by {
            lemma_partition_sum(cviews(counts@), n as int, p, t);
            if all_present(extviews(extenders@), p, v, t) {
                assert forall|kk: int| 0 <= kk < n implies ext_some(
                    #[trigger] extviews(extenders@)[kk],
                    p,
                    t,
                ) by {
                    assert(ext_present(extviews(extenders@)[kk], p, v, t));
                }
                assert(chain_some(extviews(extenders@), n as int, p, t));
            }
        }
    }
    Ok(results)
}

/// Count annotations do not change what a collection accumulates.
proof fn lemma_cacc_matches_pacc(cs: Seq<CountRecV>, ps: Seq<PrefixRecV>)
    requires
        cs.len() == ps.len(),
        forall|j: int| 0 <= j < cs.len() ==> (#[trigger] cs[j]).prefix == ps[j].prefix
            && cs[j].time == ps[j].time && cs[j].diff == ps[j].diff,
    ensures
        forall|p: Seq<ValueV>, t: AltNeu| #[trigger] cacc(cs, p, t) == pacc(ps, p, t),
    decreases cs.len(),
{
    if cs.len() > 0 {
        lemma_cacc_matches_pacc(cs.drop_last(), ps.drop_last());
        assert forall|p: Seq<ValueV>, t: AltNeu| #[trigger] cacc(cs, p, t) == pacc(ps, p, t) by {
            assert(cacc(cs.drop_last(), p, t) == pacc(ps.drop_last(), p, t));
        }
    }
}


/// Reordering the extenders supplied to the multiway extend leaves the
/// final result unchanged: two outputs meeting `extend`'s contract over the
/// same prefixes and the same extenders, given in any two orders,
/// accumulate identically at every (prefix, value, time) — and a
/// time-indexed multiset of records is exactly its accumulation function.
/// Which extender proposes may differ; what survives validation does not.
pub proof fn theorem_extender_order_independent(
    exts1: Seq<ExtenderView>,
    exts2: Seq<ExtenderView>,
    input: Seq<PrefixRecV>,
    out1: Seq<ExtRecV>,
    out2: Seq<ExtRecV>,
)
    requires
        exts1.to_multiset() == exts2.to_multiset(),
        forall|p: Seq<ValueV>, v: ValueV, t: AltNeu| #[trigger] eacc(out1, p, v, t)
            == if all_present(exts1, p, v, t) {
            pacc(input, p, t)
        } else {
            0
        },
        forall|p: Seq<ValueV>, v: ValueV, t: AltNeu| #[trigger] eacc(out2, p, v, t)
            == if all_present(exts2, p, v, t) {
            pacc(input, p, t)
        } else {
            0
        },
    ensures
        forall|p: Seq<ValueV>, v: ValueV, t: AltNeu| #[trigger] eacc(out1, p, v, t) == eacc(
            out2,
            p,
            v,
            t,
        ),
{
    assert forall|p: Seq<ValueV>, v: ValueV, t: AltNeu| #[trigger] all_present(exts1, p, v, t)
        == all_present(exts2, p, v, t) by {
        lemma_same_extenders_same_presence(exts1, exts2, p, v, t);
        lemma_same_extenders_same_presence(exts2, exts1, p, v, t);
    }
}

/// If one extender list holds every extender of another, its joint presence
/// condition follows from the other's.
proof fn lemma_same_extenders_same_presence(
    exts1: Seq<ExtenderView>,
    exts2: Seq<ExtenderView>,
    p: Seq<ValueV>,
    v: ValueV,
    t: AltNeu,
)
    requires
        exts1.to_multiset() == exts2.to_multiset(),
    ensures
        all_present(exts1, p, v, t) ==> all_present(exts2, p, v, t),
{
    broadcast use vstd::seq_lib::group_to_multiset_ensures;

    if all_present(exts1, p, v, t) {
        assert forall|k: int| 0 <= k < exts2.len() implies ext_present(
            #[trigger] exts2[k],
            p,
            v,
            t,
        ) by {
            assert(exts2.contains(exts2[k]));
            assert(exts2.to_multiset().count(exts2[k]) > 0);
            assert(exts1.to_multiset().count(exts2[k]) > 0);
            assert(exts1.contains(exts2[k]));
            let m = choose|m: int| 0 <= m < exts1.len() && exts1[m] == exts2[k];
            assert(ext_present(exts1[m], p, v, t));
        }
    }
}

} // verus!
