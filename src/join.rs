use std::rc::Rc;
use vstd::prelude::*;
use crate::index::{Index, Position, key_slot, level_len, slot};
use crate::relation::{keys_sorted, strictly_sorted, well_formed};

verus! {

/// `rel` holds the pair `(a, b)`: `b` is among the values of key `a`.
pub open spec fn has_edge(rel: Seq<(u64, Seq<u64>)>, a: u64, b: u64) -> bool {
    exists|i: int| 0 <= i < rel.len() && rel[i].0 == a && rel[i].1.contains(b)
}

/// `x = (a, b, c)` satisfies `R(a, b)`, `S(b, c)` and `T(a, c)`.
pub open spec fn in_join(
    r: Seq<(u64, Seq<u64>)>,
    s: Seq<(u64, Seq<u64>)>,
    t: Seq<(u64, Seq<u64>)>,
    x: (u64, u64, u64),
) -> bool {
    &&& has_edge(r, x.0, x.1)
    &&& has_edge(s, x.1, x.2)
    &&& has_edge(t, x.0, x.2)
}

/// Lexicographic order on triples.
pub open spec fn triple_lt(x: (u64, u64, u64), y: (u64, u64, u64)) -> bool {
    ||| x.0 < y.0
    ||| x.0 == y.0 && x.1 < y.1
    ||| x.0 == y.0 && x.1 == y.1 && x.2 < y.2
}

/// `q` lists every triple of the join exactly once, in ascending order.
pub open spec fn lists_join(
    q: Seq<(u64, u64, u64)>,
    r: Seq<(u64, Seq<u64>)>,
    s: Seq<(u64, Seq<u64>)>,
    t: Seq<(u64, Seq<u64>)>,
) -> bool {
    &&& forall|k: int| 0 <= k < q.len() ==> in_join(r, s, t, #[trigger] q[k])
    &&& forall|x: (u64, u64, u64)| #[trigger] in_join(r, s, t, x) ==> q.contains(x)
    &&& forall|i: int, j: int| 0 <= i < j < q.len() ==> triple_lt(q[i], q[j])
}

/// One past the largest `u64`: stands for an exhausted level.
pub open spec fn beyond() -> int {
    u64::MAX as int + 1
}

/// A cursor's current value as an integer, `beyond()` once exhausted.
pub open spec fn bound_of(o: Option<u64>) -> int {
    match o {
        Some(v) => v as int,
        None => beyond(),
    }
}

/// The larger of two integers.
pub open spec fn max_int(a: int, b: int) -> int {
    if a < b {
        b
    } else {
        a
    }
}

/// `x` comes before the point `f` in lexicographic order.
pub open spec fn before(x: (u64, u64, u64), f: (int, int, int)) -> bool {
    ||| x.0 < f.0
    ||| x.0 == f.0 && x.1 < f.1
    ||| x.0 == f.0 && x.1 == f.1 && x.2 < f.2
}

/// `q` lists, in ascending order, exactly the triples of the join that come
/// before `f`.
pub open spec fn emitted_below(
    q: Seq<(u64, u64, u64)>,
    r: Seq<(u64, Seq<u64>)>,
    s: Seq<(u64, Seq<u64>)>,
    t: Seq<(u64, Seq<u64>)>,
    f: (int, int, int),
) -> bool {
    &&& forall|k: int| 0 <= k < q.len() ==> in_join(r, s, t, #[trigger] q[k]) && before(q[k], f)
    &&& forall|x: (u64, u64, u64)| #[trigger] in_join(r, s, t, x) && before(x, f) ==> q.contains(x)
    &&& forall|i: int, j: int| 0 <= i < j < q.len() ==> triple_lt(q[i], q[j])
}

/// Pushing onto a sequence keeps what it held and adds the new element.
proof fn lemma_push_contains(q: Seq<(u64, u64, u64)>, e: (u64, u64, u64), x: (u64, u64, u64))
    requires
        q.contains(x) || x == e,
    ensures
        q.push(e).contains(x),
{
    if x == e {
        assert(q.push(e)[q.len() as int] == e);
    } else {
        let i = choose|i: int| 0 <= i < q.len() && q[i] == x;
        assert(q.push(e)[i] == x);
    }
}

/// Once every slot before `k` holds less than `lo`, any stored `x >= lo`
/// sits at or after slot `k`.
proof fn lemma_gap(vals: Seq<u64>, k: int, lo: int, x: u64)
    requires
        strictly_sorted(vals),
        0 <= k <= vals.len(),
        forall|p: int| 0 <= p < k ==> vals[p] < lo,
        vals.contains(x),
        lo <= x,
    ensures
        k < vals.len(),
        vals[k] <= x,
{
    let q = choose|q: int| 0 <= q < vals.len() && vals[q] == x;
    assert(k <= q);
    if k < q {
        assert(vals[k] < vals[q]);
    }
}

/// Once every key before slot `k` is less than `lo`, any stored key
/// `x >= lo` sits at or after slot `k`.
proof fn lemma_key_gap(rel: Seq<(u64, Seq<u64>)>, k: int, lo: int, x: u64, y: u64)
    requires
        keys_sorted(rel),
        0 <= k <= rel.len(),
        forall|p: int| 0 <= p < k ==> rel[p].0 < lo,
        has_edge(rel, x, y),
        lo <= x,
    ensures
        k < rel.len(),
        rel[k].0 <= x,
{
    let q = choose|q: int| 0 <= q < rel.len() && rel[q].0 == x && rel[q].1.contains(y);
    assert(k <= q);
    if k < q {
        assert(rel[k].0 < rel[q].0);
    }
}

/// In a relation with sorted keys, an edge out of the key at slot `i`
/// lies in that slot's values.
proof fn lemma_edge_at(rel: Seq<(u64, Seq<u64>)>, i: int, a: u64, b: u64)
    requires
        keys_sorted(rel),
        0 <= i < rel.len(),
        rel[i].0 == a,
        has_edge(rel, a, b),
    ensures
        rel[i].1.contains(b),
{
    let p = choose|p: int| 0 <= p < rel.len() && rel[p].0 == a && rel[p].1.contains(b);
    assert(p == i);
}

/// Third level: with `a` and `b` bound, intersects the values of `b` in `s`
/// with the values of `a` in `t`, emitting `(a, b, c)` for every common `c`.
fn leapfrog_c(
    r: &Index,
    s: &mut Index,
    t: &mut Index,
    a: u64,
    b: u64,
    out: &mut Vec<(u64, u64, u64)>,
)
    requires
        r.wf(),
        old(s).wf(),
        old(t).wf(),
        has_edge(r.relation(), a, b),
        old(s).position() is Lower,
        slot(old(s).position()) == 0,
        0 <= key_slot(old(s).position()) < old(s).relation().len(),
        old(s).relation()[key_slot(old(s).position())].0 == b,
        old(t).position() is Lower,
        slot(old(t).position()) == 0,
        0 <= key_slot(old(t).position()) < old(t).relation().len(),
        old(t).relation()[key_slot(old(t).position())].0 == a,
        emitted_below(
            old(out)@,
            r.relation(),
            old(s).relation(),
            old(t).relation(),
            (a as int, b as int, 0),
        ),
    ensures
        final(s).wf(),
        final(t).wf(),
        final(s).relation() == old(s).relation(),
        final(t).relation() == old(t).relation(),
        final(s).position() is Lower,
        final(t).position() is Lower,
        key_slot(final(s).position()) == key_slot(old(s).position()),
        key_slot(final(t).position()) == key_slot(old(t).position()),
        emitted_below(
            final(out)@,
            r.relation(),
            old(s).relation(),
            old(t).relation(),
            (a as int, b as int, beyond()),
        ),
{
    let ghost rr = r.relation();
    let ghost sr = s.relation();
    let ghost tr = t.relation();
    let ghost si = key_slot(s.position());
    let ghost ti = key_slot(t.position());
    let mut sc = s.value();
    let mut tc = t.value();
    assert(emitted_below(
        out@, rr, sr, tr, (a as int, b as int, max_int(bound_of(sc), bound_of(tc))),
    )) by {
        assert forall|x: (u64, u64, u64)|
            #[trigger] in_join(rr, sr, tr, x) && before(
                x,
                (a as int, b as int, max_int(bound_of(sc), bound_of(tc))),
            ) implies out@.contains(x) by {
            if x.0 == a && x.1 == b {
                let p = choose|p: int| 0 <= p < sr.len() && sr[p].0 == b && sr[p].1.contains(x.2);
                let q = choose|q: int| 0 <= q < tr.len() && tr[q].0 == a && tr[q].1.contains(x.2);
                assert(p == si);
                assert(q == ti);
                let ps = choose|k: int| 0 <= k < sr[p].1.len() && sr[p].1[k] == x.2;
                let qs = choose|k: int| 0 <= k < tr[q].1.len() && tr[q].1[k] == x.2;
                assert(sr[p].1[0] <= x.2);
                assert(tr[q].1[0] <= x.2);
            }
        }
    }
    while sc.is_some() && tc.is_some()
        invariant
            s.wf(),
            t.wf(),
            s.relation() == sr,
            t.relation() == tr,
            r.relation() == rr,
            has_edge(rr, a, b),
            s.position() is Lower,
            t.position() is Lower,
            key_slot(s.position()) == si,
            key_slot(t.position()) == ti,
            0 <= si < sr.len(),
            0 <= ti < tr.len(),
            sr[si].0 == b,
            tr[ti].0 == a,
            sc == s.current(),
            tc == t.current(),
            emitted_below(
                out@, rr, sr, tr, (a as int, b as int, max_int(bound_of(sc), bound_of(tc))),
            ),
        decreases
            (level_len(sr, s.position()) - slot(s.position())) + (level_len(tr, t.position())
                - slot(t.position())),
    {
        let c_s = sc.unwrap();
        let c_t = tc.unwrap();
        let ghost q0 = out@;
        let ghost sp = s.position();
        let ghost tp = t.position();
        let ghost f0 = (a as int, b as int, max_int(c_s as int, c_t as int));
        if c_s < c_t {
            s.seek(c_t);
        } else if c_s > c_t {
            t.seek(c_s);
        } else {
            out.push((a, b, c_s));
            s.next();
            t.next();
        }
        sc = s.value();
        tc = t.value();
        proof {
            let f1 = (a as int, b as int, max_int(bound_of(sc), bound_of(tc)));
            let sv = sr[si].1;
            let tv = tr[ti].1;
            assert(strictly_sorted(sv));
            assert(strictly_sorted(tv));
            assert(slot(s.position()) > slot(sp) || slot(t.position()) > slot(tp)) by {
                if c_s < c_t {
                    assert(sv[slot(sp)] == c_s);
                } else if c_s > c_t {
                    assert(tv[slot(tp)] == c_t);
                }
            }
            if c_s == c_t {
                assert(out@ == q0.push((a, b, c_s)));
                assert(has_edge(sr, b, c_s)) by {
                    assert(sv[slot(sp)] == c_s);
                }
                assert(has_edge(tr, a, c_s)) by {
                    assert(tv[slot(tp)] == c_s);
                }
                assert(out@[q0.len() as int] == (a, b, c_s));
            }
            assert forall|x: (u64, u64, u64)|
                #[trigger] in_join(rr, sr, tr, x) && before(x, f1) implies out@.contains(x) by {
                if before(x, f0) {
                    if c_s == c_t {
                        lemma_push_contains(q0, (a, b, c_s), x);
                    }
                } else {
                    lemma_edge_at(sr, si, b, x.2);
                    lemma_edge_at(tr, ti, a, x.2);
                    if c_s < c_t {
                        lemma_gap(sv, slot(s.position()), c_t as int, x.2);
                    } else if c_s > c_t {
                        lemma_gap(tv, slot(t.position()), c_s as int, x.2);
                    } else {
                        if x.2 == c_s {
                            lemma_push_contains(q0, (a, b, c_s), x);
                        } else {
                            lemma_gap(sv, slot(s.position()), c_s as int + 1, x.2);
                            lemma_gap(tv, slot(t.position()), c_t as int + 1, x.2);
                        }
                    }
                }
            }
        }
    }
}

/// Second level: with `a` bound, intersects the values of `a` in `r` with
/// the keys of `s`; for every common `b`, descends into the third level.
fn leapfrog_b(r: &mut Index, s: &mut Index, t: &mut Index, a: u64, out: &mut Vec<(u64, u64, u64)>)
    requires
        old(r).wf(),
        old(s).wf(),
        old(t).wf(),
        old(r).position() is Lower,
        slot(old(r).position()) == 0,
        0 <= key_slot(old(r).position()) < old(r).relation().len(),
        old(r).relation()[key_slot(old(r).position())].0 == a,
        old(s).position() == Position::Upper(0),
        old(t).position() is Lower,
        0 <= key_slot(old(t).position()) < old(t).relation().len(),
        old(t).relation()[key_slot(old(t).position())].0 == a,
        emitted_below(
            old(out)@,
            old(r).relation(),
            old(s).relation(),
            old(t).relation(),
            (a as int, 0, 0),
        ),
    ensures
        final(r).wf(),
        final(s).wf(),
        final(t).wf(),
        final(r).relation() == old(r).relation(),
        final(s).relation() == old(s).relation(),
        final(t).relation() == old(t).relation(),
        final(r).position() is Lower,
        final(s).position() is Upper,
        final(t).position() is Lower,
        key_slot(final(r).position()) == key_slot(old(r).position()),
        key_slot(final(t).position()) == key_slot(old(t).position()),
        emitted_below(
            final(out)@,
            old(r).relation(),
            old(s).relation(),
            old(t).relation(),
            (a as int, beyond(), 0),
        ),
{
    let ghost rr = r.relation();
    let ghost sr = s.relation();
    let ghost tr = t.relation();
    let ghost ri = key_slot(r.position());
    let ghost ti = key_slot(t.position());
    let mut rb = r.value();
    let mut sb = s.value();
    assert(emitted_below(out@, rr, sr, tr, (a as int, max_int(bound_of(rb), bound_of(sb)), 0)))
        by {
        assert forall|x: (u64, u64, u64)|
            #[trigger] in_join(rr, sr, tr, x) && before(
                x,
                (a as int, max_int(bound_of(rb), bound_of(sb)), 0),
            ) implies out@.contains(x) by {
            if x.0 == a {
                lemma_edge_at(rr, ri, a, x.1);
                lemma_gap(rr[ri].1, 0, 0, x.1);
                lemma_key_gap(sr, 0, 0, x.1, x.2);
            }
        }
    }
    while rb.is_some() && sb.is_some()
        invariant
            r.wf(),
            s.wf(),
            t.wf(),
            r.relation() == rr,
            s.relation() == sr,
            t.relation() == tr,
            r.position() is Lower,
            s.position() is Upper,
            t.position() is Lower,
            key_slot(r.position()) == ri,
            key_slot(t.position()) == ti,
            0 <= ri < rr.len(),
            0 <= ti < tr.len(),
            rr[ri].0 == a,
            tr[ti].0 == a,
            rb == r.current(),
            sb == s.current(),
            emitted_below(out@, rr, sr, tr, (a as int, max_int(bound_of(rb), bound_of(sb)), 0)),
        decreases
            (level_len(rr, r.position()) - slot(r.position())) + (level_len(sr, s.position())
                - slot(s.position())),
    {
        let b_r = rb.unwrap();
        let b_s = sb.unwrap();
        let ghost rp = r.position();
        let ghost sp = s.position();
        let ghost f0 = (a as int, max_int(b_r as int, b_s as int), 0int);
        if b_r < b_s {
            r.seek(b_s);
        } else if b_r > b_s {
            s.seek(b_r);
        } else {
            s.down();
            t.reset();
            assert(has_edge(rr, a, b_r)) by {
                assert(rr[ri].1[slot(rp)] == b_r);
            }
            leapfrog_c(r, s, t, a, b_r, out);
            s.up();
            s.next();
        }
        rb = r.value();
        sb = s.value();
        proof {
            let f1 = (a as int, max_int(bound_of(rb), bound_of(sb)), 0int);
            let rv = rr[ri].1;
            assert(strictly_sorted(rv));
            assert(slot(r.position()) > slot(rp) || slot(s.position()) > slot(sp)) by {
                if b_r < b_s {
                    assert(rv[slot(rp)] == b_r);
                } else if b_r > b_s {
                    assert(sr[slot(sp)].0 == b_s);
                }
            }
            assert forall|x: (u64, u64, u64)|
                #[trigger] in_join(rr, sr, tr, x) && before(x, f1) implies out@.contains(x) by {
                if !before(x, f0) && x.0 == a {
                    if b_r < b_s {
                        lemma_edge_at(rr, ri, a, x.1);
                        lemma_gap(rv, slot(r.position()), b_s as int, x.1);
                    } else if b_r > b_s {
                        lemma_key_gap(sr, slot(s.position()), b_r as int, x.1, x.2);
                    } else if x.1 != b_r {
                        lemma_key_gap(sr, slot(s.position()), b_s as int + 1, x.1, x.2);
                    }
                }
            }
        }
    }
}

/// Every triple `(a, b, c)` with `(a, b)` in `r_data`, `(b, c)` in `s_data`
/// and `(a, c)` in `t_data`, in ascending order, found by leapfrog triejoin.
pub fn join(
    r_data: Rc<Vec<(u64, Vec<u64>)>>,
    s_data: Rc<Vec<(u64, Vec<u64>)>>,
    t_data: Rc<Vec<(u64, Vec<u64>)>>,
) -> (out: Vec<(u64, u64, u64)>)
    requires
        well_formed(r_data.deep_view()),
        well_formed(s_data.deep_view()),
        well_formed(t_data.deep_view()),
    ensures
        lists_join(out@, r_data.deep_view(), s_data.deep_view(), t_data.deep_view()),
{
    let ghost rr = r_data.deep_view();
    let ghost sr = s_data.deep_view();
    let ghost tr = t_data.deep_view();
    let mut r = Index::new(r_data);
    let mut s = Index::new(s_data);
    let mut t = Index::new(t_data);
    let mut out: Vec<(u64, u64, u64)> = Vec::new();
    let mut ra = r.value();
    let mut ta = t.value();
    assert(emitted_below(out@, rr, sr, tr, (max_int(bound_of(ra), bound_of(ta)), 0, 0))) by {
        assert forall|x: (u64, u64, u64)|
            #[trigger] in_join(rr, sr, tr, x) && before(
                x,
                (max_int(bound_of(ra), bound_of(ta)), 0, 0),
            ) implies out@.contains(x) by {
            lemma_key_gap(rr, 0, 0, x.0, x.1);
            lemma_key_gap(tr, 0, 0, x.0, x.2);
        }
    }
    while ra.is_some() && ta.is_some()
        invariant
            r.wf(),
            s.wf(),
            t.wf(),
            r.relation() == rr,
            s.relation() == sr,
            t.relation() == tr,
            r.position() is Upper,
            s.position() == Position::Upper(0),
            t.position() is Upper,
            ra == r.current(),
            ta == t.current(),
            emitted_below(out@, rr, sr, tr, (max_int(bound_of(ra), bound_of(ta)), 0, 0)),
        decreases
            (level_len(rr, r.position()) - slot(r.position())) + (level_len(tr, t.position())
                - slot(t.position())),
    {
        let a_r = ra.unwrap();
        let a_t = ta.unwrap();
        let ghost rp = r.position();
        let ghost tp = t.position();
        let ghost f0 = (max_int(a_r as int, a_t as int), 0int, 0int);
        if a_r < a_t {
            r.seek(a_t);
        } else if a_r > a_t {
            t.seek(a_r);
        } else {
            r.down();
            t.down();
            leapfrog_b(&mut r, &mut s, &mut t, a_r, &mut out);
            s.reset();
            r.up();
            r.next();
            t.up();
            t.next();
        }
        ra = r.value();
        ta = t.value();
        proof {
            let f1 = (max_int(bound_of(ra), bound_of(ta)), 0int, 0int);
            assert(slot(r.position()) > slot(rp) || slot(t.position()) > slot(tp)) by {
                if a_r < a_t {
                    assert(rr[slot(rp)].0 == a_r);
                } else if a_r > a_t {
                    assert(tr[slot(tp)].0 == a_t);
                }
            }
            assert forall|x: (u64, u64, u64)|
                #[trigger] in_join(rr, sr, tr, x) && before(x, f1) implies out@.contains(x) by {
                if !before(x, f0) {
                    if a_r < a_t {
                        lemma_key_gap(rr, slot(r.position()), a_t as int, x.0, x.1);
                    } else if a_r > a_t {
                        lemma_key_gap(tr, slot(t.position()), a_r as int, x.0, x.2);
                    } else if x.0 != a_r {
                        lemma_key_gap(rr, slot(r.position()), a_r as int + 1, x.0, x.1);
                        lemma_key_gap(tr, slot(t.position()), a_t as int + 1, x.0, x.2);
                    }
                }
            }
        }
    }
    out
}

/// The triangles `a -> b -> c` with the chord `a -> c` of the graph whose
/// edges `data` lists, in ascending order.
pub fn triangles(data: Rc<Vec<(u64, Vec<u64>)>>) -> (out: Vec<(u64, u64, u64)>)
    requires
        well_formed(data.deep_view()),
    ensures
        lists_join(out@, data.deep_view(), data.deep_view(), data.deep_view()),
{
    join(data.clone(), data.clone(), data)
}

/// The number of triangles `a -> b -> c` with the chord `a -> c` of the graph
/// whose edges `data` lists.
pub fn count_triangles(data: Rc<Vec<(u64, Vec<u64>)>>) -> (n: u64)
    requires
        well_formed(data.deep_view()),
    ensures
        exists|q: Seq<(u64, u64, u64)>|
            lists_join(q, data.deep_view(), data.deep_view(), data.deep_view()) && n == q.len(),
        forall|q: Seq<(u64, u64, u64)>|
            lists_join(q, data.deep_view(), data.deep_view(), data.deep_view()) ==> n == q.len(),
{
    let ghost rel = data.deep_view();
    let found = triangles(data);
    proof {
        assert forall|q: Seq<(u64, u64, u64)>| lists_join(q, rel, rel, rel) implies found@.len()
            == q.len() by {
            lemma_join_deterministic(found@, q, rel, rel, rel);
        }
    }
    found.len() as u64
}

/// Two ascending sequences without repeats that hold the same triples are
/// the same sequence.
proof fn lemma_sorted_unique(q1: Seq<(u64, u64, u64)>, q2: Seq<(u64, u64, u64)>)
    requires
        forall|i: int, j: int| 0 <= i < j < q1.len() ==> triple_lt(q1[i], q1[j]),
        forall|i: int, j: int| 0 <= i < j < q2.len() ==> triple_lt(q2[i], q2[j]),
        forall|x: (u64, u64, u64)| q1.contains(x) <==> q2.contains(x),
    ensures
        q1 == q2,
    decreases q1.len(),
{
    if q1.len() == 0 {
        if q2.len() > 0 {
            assert(q2.contains(q2[0]));
        }
        assert(q1 =~= q2);
    } else if q2.len() == 0 {
        assert(q1.contains(q1[0]));
    } else {
        assert(q1.contains(q1[0]));
        assert(q2.contains(q2[0]));
        let j = choose|j: int| 0 <= j < q2.len() && q2[j] == q1[0];
        let i = choose|i: int| 0 <= i < q1.len() && q1[i] == q2[0];
        if j > 0 {
            assert(triple_lt(q2[0], q2[j]));
            if i > 0 {
                assert(triple_lt(q1[0], q1[i]));
            }
        }
        assert(q1[0] == q2[0]);
        let t1 = q1.drop_first();
        let t2 = q2.drop_first();
        assert forall|x: (u64, u64, u64)| t1.contains(x) implies t2.contains(x) by {
            let k = choose|k: int| 0 <= k < t1.len() && t1[k] == x;
            assert(q1[k + 1] == x);
            assert(triple_lt(q1[0], q1[k + 1]));
            assert(q1.contains(x));
            let m = choose|m: int| 0 <= m < q2.len() && q2[m] == x;
            assert(m != 0);
            assert(t2[m - 1] == x);
        }
        assert forall|x: (u64, u64, u64)| t2.contains(x) implies t1.contains(x) by {
            let k = choose|k: int| 0 <= k < t2.len() && t2[k] == x;
            assert(q2[k + 1] == x);
            assert(triple_lt(q2[0], q2[k + 1]));
            assert(q2.contains(x));
            let m = choose|m: int| 0 <= m < q1.len() && q1[m] == x;
            assert(m != 0);
            assert(t1[m - 1] == x);
        }
        lemma_sorted_unique(t1, t2);
        assert(q1 =~= q2) by {
            assert forall|k: int| 0 <= k < q1.len() implies q1[k] == q2[k] by {
                if k > 0 {
                    assert(q1[k] == t1[k - 1]);
                    assert(q2[k] == t2[k - 1]);
                }
            }
        }
    }
}

/// Determinism: the join has exactly one ascending listing, so any two runs
/// over the same relations give the same triples in the same order, and
/// hence the same count.
pub proof fn lemma_join_deterministic(
    q1: Seq<(u64, u64, u64)>,
    q2: Seq<(u64, u64, u64)>,
    r: Seq<(u64, Seq<u64>)>,
    s: Seq<(u64, Seq<u64>)>,
    t: Seq<(u64, Seq<u64>)>,
)
    requires
        lists_join(q1, r, s, t),
        lists_join(q2, r, s, t),
    ensures
        q1 == q2,
        q1.len() == q2.len(),
{
    assert forall|x: (u64, u64, u64)| q1.contains(x) <==> q2.contains(x) by {
        if q1.contains(x) {
            let k = choose|k: int| 0 <= k < q1.len() && q1[k] == x;
            assert(in_join(r, s, t, q1[k]));
        }
        if q2.contains(x) {
            let k = choose|k: int| 0 <= k < q2.len() && q2[k] == x;
            assert(in_join(r, s, t, q2[k]));
        }
    }
    lemma_sorted_unique(q1, q2);
}

} // verus!
