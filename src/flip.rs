//! Average bit-flip rate per delay.
use vstd::prelude::*;
use crate::delays::{collect_delays, delay_occurs, strictly_increasing};
use crate::record::{record_views, Record, RecordView};

verus! {

/// Bits tested in each observation: a region of 4096 bytes.
pub const TESTED_BITS: usize = 4096 * 8;

/// Number of records of `rs` with delay `d`.
pub open spec fn records_at(rs: Seq<RecordView>, d: nat) -> nat
    decreases rs.len(),
{
    if rs.len() == 0 {
        0
    } else {
        records_at(rs.drop_last(), d) + if rs.last().delay == d { 1nat } else { 0nat }
    }
}

/// Total of the bit counts of the records of `rs` with delay `d`.
pub open spec fn flips_at(rs: Seq<RecordView>, d: nat) -> nat
    decreases rs.len(),
{
    if rs.len() == 0 {
        0
    } else {
        flips_at(rs.drop_last(), d) + if rs.last().delay == d { rs.last().bit_flips } else { 0nat }
    }
}

/// The flip rate at one delay, as the fraction `numerator / denominator`.
#[derive(Clone, Copy, Debug, PartialEq, Eq, Structural)]
pub struct FlipRate {
    pub delay: usize,
    pub numerator: u128,
    pub denominator: u128,
}

/// `r` is the flip-rate table of `rs`: one entry per delay, delays ascending,
/// each with the bits flipped at that delay over the bits tested there.
pub open spec fn is_flip_rate_table(rs: Seq<RecordView>, r: Seq<FlipRate>) -> bool {
    &&& strictly_increasing(r.map_values(|f: FlipRate| f.delay))
    &&& forall|d: usize|
        r.map_values(|f: FlipRate| f.delay).contains(d) <==> delay_occurs(rs, d as nat, false)
    &&& forall|i: int|
        0 <= i < r.len() ==> {
            &&& (#[trigger] r[i]).numerator == flips_at(rs, r[i].delay as nat)
            &&& r[i].denominator == records_at(rs, r[i].delay as nat) * TESTED_BITS
        }
}

proof fn lemma_take_step(rs: Seq<RecordView>, k: int)
    requires
        0 <= k < rs.len(),
    ensures
        rs.take(k + 1).drop_last() == rs.take(k),
        rs.take(k + 1).last() == rs[k],
{
    assert(rs.take(k + 1).drop_last() =~= rs.take(k));
}

/// Bits flipped at delay `d` and the number of records there.
fn totals_at(records: &[Record], d: usize) -> (r: (u128, usize))
    ensures
        r.0 == flips_at(record_views(records@), d as nat),
        r.1 == records_at(record_views(records@), d as nat),
{
    let ghost rs = record_views(records@);
    let mut sum: u128 = 0;
    let mut n: usize = 0;
    let mut k: usize = 0;
    while k < records.len()
        invariant
            k <= records.len(),
            rs == record_views(records@),
            sum == flips_at(rs.take(k as int), d as nat),
            n == records_at(rs.take(k as int), d as nat),
            n <= k,
            sum <= k * (usize::MAX as int),
        decreases records.len() - k,
    {
        proof {
            lemma_take_step(rs, k as int);
        }
        assert(rs[k as int] == records@[k as int]@);
        if records[k].delay == d {
            proof {
                assert(k * (usize::MAX as int) + usize::MAX == (k + 1) * (usize::MAX as int)) by (nonlinear_arith);
                assert((k + 1) * (usize::MAX as int) <= (usize::MAX as int) * (usize::MAX as int)) by (nonlinear_arith)
                    requires k + 1 <= usize::MAX;
                let m = usize::MAX as int;
                assert(m * m <= 0xffff_ffff_ffff_ffffint * 0xffff_ffff_ffff_ffffint) by (nonlinear_arith)
                    requires 0 <= m <= 0xffff_ffff_ffff_ffffint;
            }
            sum = sum + records[k].bit_flip_count as u128;
            n = n + 1;
        } else {
            assert(k * (usize::MAX as int) <= (k + 1) * (usize::MAX as int)) by (nonlinear_arith);
        }
        k = k + 1;
    }
    assert(rs.take(records.len() as int) =~= rs);
    (sum, n)
}

/// The average bit-flip rate at each delay of the records, delays ascending.
pub fn generate_flip_rates(records: &[Record]) -> (r: Vec<FlipRate>)
    ensures
        is_flip_rate_table(record_views(records@), r@),
{
    let delays = collect_delays(records, false);
    let mut out: Vec<FlipRate> = Vec::new();
    let mut j: usize = 0;
    assert(out@.map_values(|f: FlipRate| f.delay) =~= delays@.take(0));
    while j < delays.len()
        invariant
            j <= delays.len(),
            out@.map_values(|f: FlipRate| f.delay) == delays@.take(j as int),
            forall|i: int|
                0 <= i < j ==> {
                    &&& (#[trigger] out@[i]).numerator == flips_at(record_views(records@), out@[i].delay as nat)
                    &&& out@[i].denominator == records_at(record_views(records@), out@[i].delay as nat) * TESTED_BITS
                },
        decreases delays.len() - j,
    {
        let d = delays[j];
        let (sum, n) = totals_at(records, d);
        let f = FlipRate { delay: d, numerator: sum, denominator: n as u128 * TESTED_BITS as u128 };
        let ghost before = out@;
        out.push(f);
        assert(out@.map_values(|f: FlipRate| f.delay) =~= before.map_values(|f: FlipRate| f.delay).push(d));
        assert(delays@.take(j + 1) =~= delays@.take(j as int).push(d));
        j = j + 1;
    }
    assert(delays@.take(delays.len() as int) =~= delays@);
    out
}

} // verus!
