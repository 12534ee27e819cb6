//! The delays that occur in a batch of records, in ascending order.
use vstd::prelude::*;
use crate::record::{record_views, Record, RecordView};

verus! {

pub open spec fn strictly_increasing(v: Seq<usize>) -> bool {
    forall|i: int, j: int| 0 <= i < j < v.len() ==> v[i] < v[j]
}

/// Record `r` takes part in grouping: any record, or only one with corrupted locations.
pub open spec fn counted(r: RecordView, corrupted_only: bool) -> bool {
    !corrupted_only || r.locations.len() > 0
}

/// Some record of `rs` has delay `d` (and, if asked, corrupted locations).
pub open spec fn delay_occurs(rs: Seq<RecordView>, d: nat, corrupted_only: bool) -> bool {
    exists|i: int| 0 <= i < rs.len() && (#[trigger] rs[i]).delay == d && counted(rs[i], corrupted_only)
}

/// The distinct delays of the records, ascending; with `corrupted_only`,
/// of those records only that list a corrupted location.
pub fn collect_delays(records: &[Record], corrupted_only: bool) -> (r: Vec<usize>)
    ensures
        strictly_increasing(r@),
        forall|d: usize| r@.contains(d) <==> delay_occurs(record_views(records@), d as nat, corrupted_only),
{
    let ghost rs = record_views(records@);
    let mut out: Vec<usize> = Vec::new();
    let mut k: usize = 0;
    while k < records.len()
        invariant
            k <= records.len(),
            rs == record_views(records@),
            strictly_increasing(out@),
            forall|d: usize| out@.contains(d) <==> delay_occurs(rs.take(k as int), d as nat, corrupted_only),
        decreases records.len() - k,
    {
        let ghost prev = rs.take(k as int);
        let ghost next = rs.take(k + 1);
        assert(next[k as int] == rs[k as int]);
        assert(rs[k as int] == records@[k as int]@);
        assert(forall|i: int| 0 <= i < k ==> prev[i] == #[trigger] next[i]);
        let r = &records[k];
        let ghost old_out = out@;
        if !corrupted_only || r.corrupted_locations.len() > 0 {
            let d = r.delay;
            let mut p: usize = 0;
            while p < out.len() && out[p] < d
                invariant
                    p <= out.len(),
                    forall|i: int| 0 <= i < p ==> out@[i] < d,
                decreases out.len() - p,
            {
                p = p + 1;
            }
            if p == out.len() || out[p] != d {
                out.insert(p, d);
                assert(forall|i: int| 0 <= i < p ==> out@[i] == old_out[i]);
                assert(forall|i: int| p < i < out@.len() ==> out@[i] == old_out[i - 1]);
                assert(out@[p as int] == d);
            }
            assert forall|e: usize| out@.contains(e) <==> delay_occurs(next, e as nat, corrupted_only) by {
                if out@.contains(e) && e != d {
                    let j = choose|j: int| 0 <= j < out@.len() && out@[j] == e;
                    if p == old_out.len() || old_out[p as int] != d {
                        if j < p {
                            assert(old_out[j] == e);
                        } else {
                            assert(old_out[j - 1] == e);
                        }
                    }
                    assert(old_out.contains(e));
                    let i = choose|i: int| 0 <= i < prev.len() && (#[trigger] prev[i]).delay == e && counted(prev[i], corrupted_only);
                    assert(next[i] == prev[i]);
                }
                if delay_occurs(next, e as nat, corrupted_only) && e != d {
                    let i = choose|i: int| 0 <= i < next.len() && (#[trigger] next[i]).delay == e && counted(next[i], corrupted_only);
                    assert(prev[i] == next[i]);
                    assert(old_out.contains(e));
                    let j = choose|j: int| 0 <= j < old_out.len() && old_out[j] == e;
                    if p == old_out.len() || old_out[p as int] != d {
                        if j < p {
                            assert(out@[j] == e);
                        } else {
                            assert(out@[j + 1] == e);
                        }
                    }
                }
                if e == d {
                    assert(next[k as int].delay == d);
                    if p < old_out.len() && old_out[p as int] == d {
                        assert(out@[p as int] == d);
                    }
                }
            }
        } else {
            assert forall|e: usize| out@.contains(e) <==> delay_occurs(next, e as nat, corrupted_only) by {
                if delay_occurs(next, e as nat, corrupted_only) {
                    let i = choose|i: int| 0 <= i < next.len() && (#[trigger] next[i]).delay == e && counted(next[i], corrupted_only);
                    assert(prev[i] == next[i]);
                }
                if old_out.contains(e) {
                    let i = choose|i: int| 0 <= i < prev.len() && (#[trigger] prev[i]).delay == e && counted(prev[i], corrupted_only);
                    assert(next[i] == prev[i]);
                }
            }
        }
        k = k + 1;
    }
    assert(rs.take(records.len() as int) =~= rs);
    out
}

} // verus!
