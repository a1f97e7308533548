use vstd::prelude::*;

verus! {

/// Keys of the top level are strictly increasing.
pub open spec fn keys_sorted(rel: Seq<(u64, Seq<u64>)>) -> bool {
    forall|i: int, j: int| 0 <= i < j < rel.len() ==> rel[i].0 < rel[j].0
}

/// A sequence of values that is strictly increasing.
pub open spec fn strictly_sorted(s: Seq<u64>) -> bool {
    forall|i: int, j: int| 0 <= i < j < s.len() ==> s[i] < s[j]
}

/// A two-level sorted relation: keys strictly increasing, and each key's
/// values strictly increasing.
pub open spec fn well_formed(rel: Seq<(u64, Seq<u64>)>) -> bool {
    &&& keys_sorted(rel)
    &&& forall|i: int| 0 <= i < rel.len() ==> strictly_sorted(#[trigger] rel[i].1)
}

/// Index of the first value of `s` that is at least `v` (`s.len()` if none);
/// `s` must be sorted.
pub fn lower_bound(s: &Vec<u64>, v: u64) -> (k: usize)
    requires
        strictly_sorted(s@),
    ensures
        k <= s@.len(),
        forall|p: int| 0 <= p < k ==> s@[p] < v,
        forall|p: int| k <= p < s@.len() ==> s@[p] >= v,
{
    let mut lo: usize = 0;
    let mut hi: usize = s.len();
    while lo < hi
        invariant
            lo <= hi <= s@.len(),
            strictly_sorted(s@),
            forall|p: int| 0 <= p < lo ==> s@[p] < v,
            forall|p: int| hi <= p < s@.len() ==> s@[p] >= v,
        decreases hi - lo,
    {
        let mid: usize = lo + (hi - lo) / 2;
        if s[mid] < v {
            lo = mid + 1;
        } else {
            hi = mid;
        }
    }
    lo
}

/// Index of the first entry of `rel` whose key is at least `v`
/// (`rel.len()` if none).
pub fn lower_bound_key(rel: &Vec<(u64, Vec<u64>)>, v: u64) -> (k: usize)
    requires
        keys_sorted(rel.deep_view()),
    ensures
        k <= rel.deep_view().len(),
        forall|p: int| 0 <= p < k ==> rel.deep_view()[p].0 < v,
        forall|p: int| k <= p < rel.deep_view().len() ==> rel.deep_view()[p].0 >= v,
{
    let ghost r = rel.deep_view();
    let mut lo: usize = 0;
    let mut hi: usize = rel.len();
    while lo < hi
        invariant
            r == rel.deep_view(),
            lo <= hi <= r.len(),
            keys_sorted(r),
            forall|p: int| 0 <= p < lo ==> r[p].0 < v,
            forall|p: int| hi <= p < r.len() ==> r[p].0 >= v,
        decreases hi - lo,
    {
        let mid: usize = lo + (hi - lo) / 2;
        assert(r[mid as int].0 == rel[mid as int].0);
        if rel[mid].0 < v {
            lo = mid + 1;
        } else {
            hi = mid;
        }
    }
    lo
}

/// Whether `vals` is strictly increasing.
pub fn is_strictly_sorted(vals: &Vec<u64>) -> (r: bool)
    ensures
        r == strictly_sorted(vals@),
{
    let mut i: usize = 1;
    if vals.len() == 0 {
        return true;
    }
    while i < vals.len()
        invariant
            1 <= i <= vals@.len(),
            forall|p: int, q: int| 0 <= p < q < i ==> vals@[p] < vals@[q],
        decreases vals@.len() - i,
    {
        if vals[i - 1] >= vals[i] {
            assert(vals@[i - 1] >= vals@[i as int]);
            return false;
        }
        assert(forall|p: int| 0 <= p < i - 1 ==> #[trigger] vals@[p] < vals@[i - 1]);
        i = i + 1;
    }
    true
}

/// Whether `rel` is a two-level sorted relation: keys strictly increasing,
/// and each key's values strictly increasing.
pub fn is_well_formed(rel: &Vec<(u64, Vec<u64>)>) -> (r: bool)
    ensures
        r == well_formed(rel.deep_view()),
{
    let ghost d = rel.deep_view();
    let mut i: usize = 0;
    while i < rel.len()
        invariant
            d == rel.deep_view(),
            0 <= i <= d.len(),
            forall|p: int, q: int| 0 <= p < q < i ==> d[p].0 < d[q].0,
            forall|p: int| 0 <= p < i ==> strictly_sorted(#[trigger] d[p].1),
        decreases d.len() - i,
    {
        assert(d[i as int].1 == rel@[i as int].1@);
        if i > 0 && rel[i - 1].0 >= rel[i].0 {
            assert(d[i - 1].0 >= d[i as int].0);
            return false;
        }
        if !is_strictly_sorted(&rel[i].1) {
            return false;
        }
        i = i + 1;
    }
    true
}

} // verus!
