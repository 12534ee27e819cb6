//! Properties that relate the library's functions to each other.
use vstd::prelude::*;
use crate::corrupt::{
    covers, denominator, is_corruptability_table, lemma_row_before_irreflexive,
    lemma_row_before_transitive, numerator, row_before, Cell,
};
use crate::delays::strictly_increasing;
use crate::record::{block_result, RecordView, TRUNCATION_LIMIT};
use crate::text::seq_le;

verus! {

/// A parsed block whose list is shorter than the truncation limit has
/// exactly as many differing bits as listed locations.
pub proof fn lemma_short_list_counts_every_flip(b: Seq<char>)
    ensures
        block_result(b) is Ok && block_result(b)->Ok_0.locations.len() < TRUNCATION_LIMIT
            ==> block_result(b)->Ok_0.bit_flips == block_result(b)->Ok_0.locations.len(),
{
}

/// A truncated list ends with its largest location.
pub open spec fn ends_with_ceiling(r: RecordView) -> bool {
    r.locations.len() == TRUNCATION_LIMIT ==> forall|j: int|
        0 <= j < r.locations.len() ==> seq_le(#[trigger] r.locations[j], r.locations[TRUNCATION_LIMIT - 1])
}

proof fn lemma_numerator_le_denominator(rs: Seq<RecordView>, d: nat, l: Seq<char>)
    requires
        forall|i: int| 0 <= i < rs.len() ==> ends_with_ceiling(#[trigger] rs[i]),
    ensures
        numerator(rs, d, l) <= denominator(rs, d, l),
    decreases rs.len(),
{
    if rs.len() > 0 {
        let r = rs.last();
        assert(ends_with_ceiling(rs[rs.len() - 1]));
        assert forall|i: int| 0 <= i < rs.drop_last().len() implies ends_with_ceiling(#[trigger] rs.drop_last()[i]) by {
            assert(rs.drop_last()[i] == rs[i]);
        }
        lemma_numerator_le_denominator(rs.drop_last(), d, l);
        if r.delay == d && r.locations.contains(l) {
            let j = choose|j: int| 0 <= j < r.locations.len() && r.locations[j] == l;
            assert(covers(r, l));
        }
    }
}

/// Every cell of the corruption table has `numerator <= denominator`,
/// provided that each truncated list ends with its largest location.
pub proof fn lemma_cells_are_fractions(
    rs: Seq<RecordView>,
    delays: Seq<usize>,
    locs: Seq<Seq<char>>,
    cells: Seq<Seq<Cell>>,
)
    requires
        is_corruptability_table(rs, delays, locs, cells),
        forall|i: int| 0 <= i < rs.len() ==> ends_with_ceiling(#[trigger] rs[i]),
    ensures
        forall|a: int, b: int|
            0 <= a < locs.len() && 0 <= b < delays.len() ==> 0 <= (#[trigger] cells[a][b]).numerator
                <= cells[a][b].denominator,
{
    assert forall|a: int, b: int| 0 <= a < locs.len() && 0 <= b < delays.len() implies 0 <= (#[trigger] cells[a][b]).numerator
        <= cells[a][b].denominator by {
        lemma_numerator_le_denominator(rs, delays[b] as nat, locs[a]);
    }
}

spec fn ranked(rs: Seq<RecordView>, s: Seq<Seq<char>>) -> bool {
    forall|a: int, b: int| 0 <= a < b < s.len() ==> row_before(rs, #[trigger] s[a], #[trigger] s[b])
}

proof fn lemma_ranked_unique(rs: Seq<RecordView>, s1: Seq<Seq<char>>, s2: Seq<Seq<char>>)
    requires
        ranked(rs, s1),
        ranked(rs, s2),
        forall|l: Seq<char>| s1.contains(l) <==> s2.contains(l),
    ensures
        s1 == s2,
    decreases s1.len(),
{
    if s1.len() == 0 {
        if s2.len() > 0 {
            assert(s2.contains(s2[0]));
        }
        assert(s1 =~= s2);
    } else {
        assert(s1.contains(s1[0]));
        assert(s2.len() > 0);
        assert(s2.contains(s2[0]));
        if s1[0] != s2[0] {
            let i = choose|i: int| 0 <= i < s1.len() && s1[i] == s2[0];
            let j = choose|j: int| 0 <= j < s2.len() && s2[j] == s1[0];
            assert(row_before(rs, s1[0], s1[i]));
            assert(row_before(rs, s2[0], s2[j]));
            lemma_row_before_transitive(rs, s1[0], s2[0], s1[0]);
            lemma_row_before_irreflexive(rs, s1[0]);
        }
        let t1 = s1.drop_first();
        let t2 = s2.drop_first();
        assert forall|l: Seq<char>| t1.contains(l) <==> t2.contains(l) by {
            if t1.contains(l) {
                let i = choose|i: int| 0 <= i < t1.len() && t1[i] == l;
                assert(s1[i + 1] == l);
                assert(row_before(rs, s1[0], s1[i + 1]));
                lemma_row_before_irreflexive(rs, l);
                assert(s2.contains(l));
                let j = choose|j: int| 0 <= j < s2.len() && s2[j] == l;
                assert(t2[j - 1] == l);
            }
            if t2.contains(l) {
                let i = choose|i: int| 0 <= i < t2.len() && t2[i] == l;
                assert(s2[i + 1] == l);
                assert(row_before(rs, s2[0], s2[i + 1]));
                lemma_row_before_irreflexive(rs, l);
                assert(s1.contains(l));
                let j = choose|j: int| 0 <= j < s1.len() && s1[j] == l;
                assert(t1[j - 1] == l);
            }
        }
        assert forall|a: int, b: int| 0 <= a < b < t1.len() implies row_before(rs, #[trigger] t1[a], #[trigger] t1[b]) by {
            assert(t1[a] == s1[a + 1] && t1[b] == s1[b + 1]);
        }
        assert forall|a: int, b: int| 0 <= a < b < t2.len() implies row_before(rs, #[trigger] t2[a], #[trigger] t2[b]) by {
            assert(t2[a] == s2[a + 1] && t2[b] == s2[b + 1]);
        }
        lemma_ranked_unique(rs, t1, t2);
        assert(s1 =~= seq![s1[0]] + t1);
        assert(s2 =~= seq![s2[0]] + t2);
    }
}

proof fn lemma_increasing_unique(s1: Seq<usize>, s2: Seq<usize>)
    requires
        strictly_increasing(s1),
        strictly_increasing(s2),
        forall|d: usize| s1.contains(d) <==> s2.contains(d),
    ensures
        s1 == s2,
    decreases s1.len(),
{
    if s1.len() == 0 {
        if s2.len() > 0 {
            assert(s2.contains(s2[0]));
        }
        assert(s1 =~= s2);
    } else {
        assert(s1.contains(s1[0]));
        assert(s2.contains(s2[0]));
        if s1[0] != s2[0] {
            let i = choose|i: int| 0 <= i < s1.len() && s1[i] == s2[0];
            let j = choose|j: int| 0 <= j < s2.len() && s2[j] == s1[0];
            assert(s1[0] < s1[i] && s2[0] < s2[j]);
        }
        let t1 = s1.drop_first();
        let t2 = s2.drop_first();
        assert forall|d: usize| t1.contains(d) <==> t2.contains(d) by {
            if t1.contains(d) {
                let i = choose|i: int| 0 <= i < t1.len() && t1[i] == d;
                assert(s1[i + 1] == d);
                assert(s2.contains(d));
                let j = choose|j: int| 0 <= j < s2.len() && s2[j] == d;
                assert(s1[0] < s1[i + 1]);
                assert(t2[j - 1] == d);
            }
            if t2.contains(d) {
                let i = choose|i: int| 0 <= i < t2.len() && t2[i] == d;
                assert(s2[i + 1] == d);
                assert(s1.contains(d));
                let j = choose|j: int| 0 <= j < s1.len() && s1[j] == d;
                assert(s2[0] < s2[i + 1]);
                assert(t1[j - 1] == d);
            }
        }
        lemma_increasing_unique(t1, t2);
        assert(s1 =~= seq![s1[0]] + t1);
        assert(s2 =~= seq![s2[0]] + t2);
    }
}

/// The corruption table is determined by the records: two tables of the
/// same records have the same columns, the same rows in the same order, and
/// the same cells.
pub proof fn lemma_row_order_deterministic(
    rs: Seq<RecordView>,
    delays1: Seq<usize>,
    locs1: Seq<Seq<char>>,
    cells1: Seq<Seq<Cell>>,
    delays2: Seq<usize>,
    locs2: Seq<Seq<char>>,
    cells2: Seq<Seq<Cell>>,
)
    requires
        is_corruptability_table(rs, delays1, locs1, cells1),
        is_corruptability_table(rs, delays2, locs2, cells2),
    ensures
        delays1 == delays2,
        locs1 == locs2,
        cells1 == cells2,
{
    lemma_ranked_unique(rs, locs1, locs2);
    lemma_increasing_unique(delays1, delays2);
    assert forall|a: int| 0 <= a < cells1.len() implies cells1[a] == cells2[a] by {
        assert forall|b: int| 0 <= b < cells1[a].len() implies cells1[a][b] == cells2[a][b] by {}
        assert(cells1[a] =~= cells2[a]);
    }
    assert(cells1 =~= cells2);
}

} // verus!
