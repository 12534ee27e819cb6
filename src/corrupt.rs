//! Per-location, per-delay corruption fractions.
use vstd::prelude::*;
use crate::delays::{collect_delays, delay_occurs, strictly_increasing};
use crate::record::{record_views, string_views, Record, RecordView, TRUNCATION_LIMIT};
use crate::text::{chars_lt, chars_of, lemma_seq_lt_irreflexive, lemma_seq_lt_total, lemma_seq_lt_transitive, seq_le, seq_lt};

verus! {

/// Some record of `rs` lists location `l` as corrupted.
pub open spec fn location_occurs(rs: Seq<RecordView>, l: Seq<char>) -> bool {
    exists|i: int| 0 <= i < rs.len() && (#[trigger] rs[i]).locations.contains(l)
}

/// Location `l` is known for record `r`: either the list was not truncated,
/// or `l` does not sort after the last location recorded.
pub open spec fn covers(r: RecordView, l: Seq<char>) -> bool {
    r.locations.len() != TRUNCATION_LIMIT || seq_le(l, r.locations[TRUNCATION_LIMIT - 1])
}

/// Records at delay `d` that list `l` as corrupted.
pub open spec fn numerator(rs: Seq<RecordView>, d: nat, l: Seq<char>) -> nat
    decreases rs.len(),
{
    if rs.len() == 0 {
        0
    } else {
        numerator(rs.drop_last(), d, l) + if rs.last().delay == d && rs.last().locations.contains(l) {
            1nat
        } else {
            0nat
        }
    }
}

/// Records at delay `d` for which `l` is known.
pub open spec fn denominator(rs: Seq<RecordView>, d: nat, l: Seq<char>) -> nat
    decreases rs.len(),
{
    if rs.len() == 0 {
        0
    } else {
        denominator(rs.drop_last(), d, l) + if rs.last().delay == d && covers(rs.last(), l) {
            1nat
        } else {
            0nat
        }
    }
}

/// The smallest delay at which `l` was seen corrupted (0 if it never was).
pub open spec fn first_delay(rs: Seq<RecordView>, l: Seq<char>) -> nat
    decreases rs.len(),
{
    if rs.len() == 0 {
        0
    } else {
        let f = first_delay(rs.drop_last(), l);
        if rs.last().locations.contains(l) && (!location_occurs(rs.drop_last(), l)
            || rs.last().delay < f) {
            rs.last().delay
        } else {
            f
        }
    }
}

/// Secondary sort key of a row: `100 - numerator * 100 / denominator` at the
/// first delay, so that a larger corruption fraction sorts first.
pub open spec fn tie_key(rs: Seq<RecordView>, l: Seq<char>) -> int {
    let d = first_delay(rs, l);
    100 - (numerator(rs, d, l) * 100 / denominator(rs, d, l)) as int
}

/// Row order: first delay, then tie key, then the location itself.
pub open spec fn row_before(rs: Seq<RecordView>, a: Seq<char>, b: Seq<char>) -> bool {
    ||| first_delay(rs, a) < first_delay(rs, b)
    ||| first_delay(rs, a) == first_delay(rs, b) && tie_key(rs, a) < tie_key(rs, b)
    ||| first_delay(rs, a) == first_delay(rs, b) && tie_key(rs, a) == tie_key(rs, b) && seq_lt(a, b)
}

proof fn lemma_take_step(rs: Seq<RecordView>, k: int)
    requires
        0 <= k < rs.len(),
    ensures
        rs.take(k + 1).drop_last() == rs.take(k),
        rs.take(k + 1).last() == rs[k],
        forall|l: Seq<char>|
            #[trigger] location_occurs(rs.take(k + 1), l) == (location_occurs(rs.take(k), l)
                || rs[k].locations.contains(l)),
{
    let next = rs.take(k + 1);
    let prev = rs.take(k);
    assert(next.drop_last() =~= prev);
    assert(next[k] == rs[k]);
    assert forall|l: Seq<char>|
        #[trigger] location_occurs(next, l) == (location_occurs(prev, l) || rs[k].locations.contains(l)) by {
        if location_occurs(prev, l) {
            let i = choose|i: int| 0 <= i < prev.len() && (#[trigger] prev[i]).locations.contains(l);
            assert(next[i] == prev[i]);
        }
        if location_occurs(next, l) {
            let i = choose|i: int| 0 <= i < next.len() && (#[trigger] next[i]).locations.contains(l);
            if i < k {
                assert(next[i] == prev[i]);
            }
        }
    }
}

pub proof fn lemma_row_before_irreflexive(rs: Seq<RecordView>, a: Seq<char>)
    ensures
        !row_before(rs, a, a),
{
    lemma_seq_lt_irreflexive(a);
}

pub proof fn lemma_row_before_transitive(rs: Seq<RecordView>, a: Seq<char>, b: Seq<char>, c: Seq<char>)
    requires
        row_before(rs, a, b),
        row_before(rs, b, c),
    ensures
        row_before(rs, a, c),
{
    if seq_lt(a, b) && seq_lt(b, c) {
        lemma_seq_lt_transitive(a, b, c);
    }
}

pub proof fn lemma_row_before_total(rs: Seq<RecordView>, a: Seq<char>, b: Seq<char>)
    requires
        a != b,
    ensures
        row_before(rs, a, b) || row_before(rs, b, a),
{
    lemma_seq_lt_total(a, b);
}

/// One fraction of the table.
#[derive(Clone, Copy, Debug, PartialEq, Eq, Structural)]
pub struct Cell {
    pub numerator: usize,
    pub denominator: usize,
}

/// The corruption table: delay columns, location rows, and one cell for
/// each pair (`cells[row][column]`).
#[derive(Clone, Debug)]
pub struct CorruptabilityTable {
    pub delays: Vec<usize>,
    pub locations: Vec<String>,
    pub cells: Vec<Vec<Cell>>,
}

/// A location whose fraction at its first delay has no known observation,
/// so its rank is undefined.
#[derive(Clone, Debug)]
pub struct DataInsufficiencyError {
    pub location: String,
    pub delay: usize,
}

pub open spec fn cell_views(c: Seq<Vec<Cell>>) -> Seq<Seq<Cell>> {
    c.map_values(|v: Vec<Cell>| v@)
}

/// Every location has an observation at its first delay.
pub open spec fn ranks_defined(rs: Seq<RecordView>) -> bool {
    forall|l: Seq<char>| #[trigger] location_occurs(rs, l) ==> denominator(rs, first_delay(rs, l), l) > 0
}

/// `e` names a location seen corrupted whose first delay has no known observation.
pub open spec fn insufficient(rs: Seq<RecordView>, e: DataInsufficiencyError) -> bool {
    &&& location_occurs(rs, e.location@)
    &&& e.delay == first_delay(rs, e.location@)
    &&& denominator(rs, e.delay as nat, e.location@) == 0
}

/// `(delays, locs, cells)` is the corruption table of `rs`.
pub open spec fn is_corruptability_table(
    rs: Seq<RecordView>,
    delays: Seq<usize>,
    locs: Seq<Seq<char>>,
    cells: Seq<Seq<Cell>>,
) -> bool {
    &&& strictly_increasing(delays)
    &&& forall|d: usize| delays.contains(d) <==> delay_occurs(rs, d as nat, true)
    &&& forall|l: Seq<char>| locs.contains(l) <==> location_occurs(rs, l)
    &&& forall|a: int, b: int| 0 <= a < b < locs.len() ==> row_before(rs, #[trigger] locs[a], #[trigger] locs[b])
    &&& cells.len() == locs.len()
    &&& forall|a: int| 0 <= a < cells.len() ==> (#[trigger] cells[a]).len() == delays.len()
    &&& forall|a: int, b: int|
        0 <= a < locs.len() && 0 <= b < delays.len() ==> {
            &&& (#[trigger] cells[a][b]).numerator == numerator(rs, delays[b] as nat, locs[a])
            &&& cells[a][b].denominator == denominator(rs, delays[b] as nat, locs[a])
        }
}

struct Row {
    name: String,
    chars: Vec<char>,
    first: usize,
    q: u128,
}

spec fn row_ok(rs: Seq<RecordView>, r: Row) -> bool {
    let d = first_delay(rs, r.name@);
    &&& r.chars@ == r.name@
    &&& r.first == d
    &&& location_occurs(rs, r.name@)
    &&& denominator(rs, d, r.name@) > 0
    &&& r.q == numerator(rs, d, r.name@) * 100 / denominator(rs, d, r.name@)
}

spec fn row_names(rows: Seq<Row>) -> Seq<Seq<char>> {
    rows.map_values(|r: Row| r.name@)
}

fn row_lt(a: &Row, b: &Row, Ghost(rs): Ghost<Seq<RecordView>>) -> (r: bool)
    requires
        row_ok(rs, *a),
        row_ok(rs, *b),
    ensures
        r == row_before(rs, a.name@, b.name@),
{
    a.first < b.first || (a.first == b.first && (a.q > b.q || (a.q == b.q && chars_lt(&a.chars, &b.chars))))
}

fn find_row(rows: &Vec<Row>, name: &String) -> (r: bool)
    ensures
        r == row_names(rows@).contains(name@),
{
    let mut m: usize = 0;
    while m < rows.len()
        invariant
            m <= rows.len(),
            forall|i: int| 0 <= i < m ==> rows@[i].name@ != name@,
        decreases rows.len() - m,
    {
        if rows[m].name == *name {
            assert(row_names(rows@)[m as int] == name@);
            return true;
        }
        m = m + 1;
    }
    assert forall|i: int| 0 <= i < row_names(rows@).len() implies row_names(rows@)[i] != name@ by {
        assert(row_names(rows@)[i] == rows@[i].name@);
    }
    false
}

spec fn rows_ranked(rs: Seq<RecordView>, rows: Seq<Row>) -> bool {
    &&& forall|a: int| 0 <= a < rows.len() ==> row_ok(rs, #[trigger] rows[a])
    &&& forall|a: int, b: int|
        0 <= a < b < rows.len() ==> row_before(rs, (#[trigger] rows[a]).name@, (#[trigger] rows[b]).name@)
}

/// Puts `new` at its place in the ranked rows.
fn insert_row(rows: &mut Vec<Row>, new: Row, Ghost(rs): Ghost<Seq<RecordView>>)
    requires
        rows_ranked(rs, old(rows)@),
        row_ok(rs, new),
        !row_names(old(rows)@).contains(new.name@),
    ensures
        rows_ranked(rs, final(rows)@),
        forall|l: Seq<char>|
            #[trigger] row_names(final(rows)@).contains(l) <==> (row_names(old(rows)@).contains(l) || l
                == new.name@),
{
    let ghost before = rows@;
    let mut p: usize = 0;
    while p < rows.len() && row_lt(&rows[p], &new, Ghost(rs))
        invariant
            rows@ == before,
            rows_ranked(rs, before),
            row_ok(rs, new),
            p <= rows.len(),
            forall|a: int| 0 <= a < p ==> row_before(rs, (#[trigger] before[a]).name@, new.name@),
        decreases rows.len() - p,
    {
        p = p + 1;
    }
    proof {
        assert forall|b: int| p <= b < before.len() implies row_before(rs, new.name@, (#[trigger] before[b]).name@) by {
            assert(row_names(before)[p as int] == before[p as int].name@);
            assert(row_names(before)[b] == before[b].name@);
            lemma_row_before_total(rs, new.name@, before[p as int].name@);
            if b > p {
                lemma_row_before_transitive(rs, new.name@, before[p as int].name@, before[b].name@);
            }
        }
    }
    rows.insert(p, new);
    proof {
        let after = rows@;
        assert(forall|a: int| 0 <= a < p ==> after[a] == before[a]);
        assert(forall|a: int| p < a < after.len() ==> after[a] == before[a - 1]);
        assert(after[p as int] == new);
        assert forall|a: int, b: int| 0 <= a < b < after.len() implies row_before(rs, (#[trigger] after[a]).name@, (#[trigger] after[b]).name@) by {
            if a < p && b > p {
                lemma_row_before_transitive(rs, after[a].name@, new.name@, after[b].name@);
            }
        }
        assert forall|l: Seq<char>|
            #[trigger] row_names(after).contains(l) <==> (row_names(before).contains(l) || l == new.name@) by {
            if row_names(after).contains(l) {
                let j = choose|j: int| 0 <= j < row_names(after).len() && row_names(after)[j] == l;
                if j < p {
                    assert(row_names(before)[j] == l);
                } else if j > p {
                    assert(row_names(before)[j - 1] == l);
                }
            }
            if row_names(before).contains(l) {
                let j = choose|j: int| 0 <= j < row_names(before).len() && row_names(before)[j] == l;
                if j < p {
                    assert(row_names(after)[j] == l);
                } else {
                    assert(row_names(after)[j + 1] == l);
                }
            }
            if l == new.name@ {
                assert(row_names(after)[p as int] == l);
            }
        }
    }
}

/// The distinct locations of the records with their ranks, in row order.
fn ranked_rows(records: &[Record]) -> (r: Result<Vec<Row>, DataInsufficiencyError>)
    ensures
        match r {
            Ok(rows) => {
                &&& rows_ranked(record_views(records@), rows@)
                &&& forall|l: Seq<char>|
                    #[trigger] row_names(rows@).contains(l) <==> location_occurs(record_views(records@), l)
            },
            Err(e) => insufficient(record_views(records@), e),
        },
{
    let ghost rs = record_views(records@);
    let mut rows: Vec<Row> = Vec::new();
    let mut i: usize = 0;
    while i < records.len()
        invariant
            i <= records.len(),
            rs == record_views(records@),
            rows_ranked(rs, rows@),
            forall|l: Seq<char>| #[trigger] row_names(rows@).contains(l) <==> location_occurs(rs.take(i as int), l),
        decreases records.len() - i,
    {
        proof {
            lemma_take_step(rs, i as int);
        }
        let names = &records[i].corrupted_locations;
        let ghost locs = rs[i as int].locations;
        assert(locs == string_views(names@));
        let mut j: usize = 0;
        while j < names.len()
            invariant
                i < records.len(),
                j <= names.len(),
                rs == record_views(records@),
                names == &records@[i as int].corrupted_locations,
                locs == string_views(names@),
                locs == rs[i as int].locations,
                rows_ranked(rs, rows@),
                forall|l: Seq<char>|
                    #[trigger] row_names(rows@).contains(l) <==> (location_occurs(rs.take(i as int), l)
                        || locs.take(j as int).contains(l)),
            decreases names.len() - j,
        {
            let name = &names[j];
            assert(locs[j as int] == name@);
            assert(locs.take(j + 1) =~= locs.take(j as int).push(name@));
            if !find_row(&rows, name) {
                assert(locs.contains(name@));
                assert(location_occurs(rs, name@)) by {
                    assert(rs[i as int].locations.contains(name@));
                }
                let (seen, fd) = first_delay_of(records, name);
                let chars = chars_of(name.as_str());
                let (num, den) = cell_counts(records, fd, name, &chars);
                if den == 0 {
                    return Err(DataInsufficiencyError { location: name.clone(), delay: fd });
                }
                let q = (num as u128 * 100) / (den as u128);
                let new = Row { name: name.clone(), chars, first: fd, q };
                insert_row(&mut rows, new, Ghost(rs));
            }
            proof {
                let prev = locs.take(j as int);
                let next = locs.take(j + 1);
                assert forall|l: Seq<char>| next.contains(l) <==> (prev.contains(l) || l == name@) by {
                    if next.contains(l) {
                        let x = choose|x: int| 0 <= x < next.len() && next[x] == l;
                        if x < j {
                            assert(prev[x] == l);
                        }
                    }
                    if prev.contains(l) {
                        let x = choose|x: int| 0 <= x < prev.len() && prev[x] == l;
                        assert(next[x] == l);
                    }
                    if l == name@ {
                        assert(next[j as int] == l);
                    }
                }
            }
            j = j + 1;
        }
        assert(locs.take(names.len() as int) =~= locs);
        i = i + 1;
    }
    assert(rs.take(records.len() as int) =~= rs);
    Ok(rows)
}

/// The corruption table of the records: for every location seen corrupted
/// and every delay at which some record lists a corrupted location, the
/// records at that delay that list the location over those for which it is
/// known; rows ranked by first delay, then by larger fraction there.
pub fn generate_corruptability(records: &[Record]) -> (r: Result<CorruptabilityTable, DataInsufficiencyError>)
    ensures
        match r {
            Ok(t) => {
                &&& ranks_defined(record_views(records@))
                &&& is_corruptability_table(
                    record_views(records@),
                    t.delays@,
                    string_views(t.locations@),
                    cell_views(t.cells@),
                )
            },
            Err(e) => insufficient(record_views(records@), e),
        },
{
    let ghost rs = record_views(records@);
    let delays = collect_delays(records, true);
    let rows = match ranked_rows(records) {
        Ok(rows) => rows,
        Err(e) => {
            return Err(e);
        },
    };
    let mut locations: Vec<String> = Vec::new();
    let mut cells: Vec<Vec<Cell>> = Vec::new();
    let mut a: usize = 0;
    while a < rows.len()
        invariant
            a <= rows.len(),
            rs == record_views(records@),
            rows_ranked(rs, rows@),
            string_views(locations@) == row_names(rows@).take(a as int),
            cells.len() == a,
            forall|x: int| 0 <= x < a ==> (#[trigger] cells@[x]).len() == delays.len(),
            forall|x: int, b: int|
                0 <= x < a && 0 <= b < delays.len() ==> {
                    &&& (#[trigger] cells@[x]@[b]).numerator == numerator(rs, delays@[b] as nat, rows@[x].name@)
                    &&& cells@[x]@[b].denominator == denominator(rs, delays@[b] as nat, rows@[x].name@)
                },
        decreases rows.len() - a,
    {
        let row = &rows[a];
        assert(row_ok(rs, *row));
        let mut line: Vec<Cell> = Vec::new();
        let mut b: usize = 0;
        while b < delays.len()
            invariant
                b <= delays.len(),
                rs == record_views(records@),
                row_ok(rs, *row),
                line.len() == b,
                forall|y: int|
                    0 <= y < b ==> {
                        &&& (#[trigger] line@[y]).numerator == numerator(rs, delays@[y] as nat, row.name@)
                        &&& line@[y].denominator == denominator(rs, delays@[y] as nat, row.name@)
                    },
            decreases delays.len() - b,
        {
            let (num, den) = cell_counts(records, delays[b], &row.name, &row.chars);
            line.push(Cell { numerator: num, denominator: den });
            b = b + 1;
        }
        let ghost old_locs = locations@;
        locations.push(row.name.clone());
        assert(string_views(locations@) =~= string_views(old_locs).push(row.name@));
        assert(row_names(rows@).take(a + 1) =~= row_names(rows@).take(a as int).push(row.name@));
        cells.push(line);
        a = a + 1;
    }
    proof {
        let names = row_names(rows@);
        assert(names.take(rows.len() as int) =~= names);
        assert forall|x: int| 0 <= x < names.len() implies names[x] == rows@[x].name@ by {}
        assert forall|l: Seq<char>| #[trigger] location_occurs(rs, l) implies denominator(rs, first_delay(rs, l), l) > 0 by {
            assert(names.contains(l));
            let x = choose|x: int| 0 <= x < names.len() && names[x] == l;
            assert(row_ok(rs, rows@[x]));
        }
        assert forall|x: int| 0 <= x < cells.len() implies (#[trigger] cell_views(cells@)[x]).len() == delays@.len() by {
            assert(cell_views(cells@)[x] == cells@[x]@);
        }
    }
    Ok(CorruptabilityTable { delays, locations, cells })
}

/// Whether `name` is among `names`.
fn lists(names: &Vec<String>, name: &String) -> (r: bool)
    ensures
        r == string_views(names@).contains(name@),
{
    let mut m: usize = 0;
    while m < names.len()
        invariant
            m <= names.len(),
            forall|i: int| 0 <= i < m ==> names@[i]@ != name@,
        decreases names.len() - m,
    {
        if names[m] == *name {
            assert(string_views(names@)[m as int] == name@);
            return true;
        }
        m = m + 1;
    }
    assert forall|i: int| 0 <= i < string_views(names@).len() implies string_views(names@)[i] != name@ by {
        assert(string_views(names@)[i] == names@[i]@);
    }
    false
}

/// Whether `name` is known for the record: see `covers`.
fn record_covers(r: &Record, name: &Vec<char>) -> (b: bool)
    ensures
        b == covers(r@, name@),
{
    if r.corrupted_locations.len() != TRUNCATION_LIMIT {
        return true;
    }
    let last = chars_of(r.corrupted_locations[TRUNCATION_LIMIT - 1].as_str());
    assert(last@ == r@.locations[TRUNCATION_LIMIT - 1]);
    proof {
        if name@ != last@ {
            lemma_seq_lt_total(name@, last@);
        } else {
            lemma_seq_lt_irreflexive(name@);
        }
        if seq_lt(name@, last@) && seq_lt(last@, name@) {
            lemma_seq_lt_transitive(name@, last@, name@);
            lemma_seq_lt_irreflexive(name@);
        }
    }
    !chars_lt(&last, name)
}

/// Numerator and denominator of the cell at delay `d` and location `name`.
fn cell_counts(records: &[Record], d: usize, name: &String, name_chars: &Vec<char>) -> (r: (usize, usize))
    requires
        name_chars@ == name@,
    ensures
        r.0 == numerator(record_views(records@), d as nat, name@),
        r.1 == denominator(record_views(records@), d as nat, name@),
        r.0 <= records.len(),
        r.1 <= records.len(),
{
    let ghost rs = record_views(records@);
    let mut num: usize = 0;
    let mut den: usize = 0;
    let mut k: usize = 0;
    while k < records.len()
        invariant
            k <= records.len(),
            rs == record_views(records@),
            name_chars@ == name@,
            num == numerator(rs.take(k as int), d as nat, name@),
            den == denominator(rs.take(k as int), d as nat, name@),
            num <= k,
            den <= k,
        decreases records.len() - k,
    {
        proof {
            lemma_take_step(rs, k as int);
        }
        assert(rs[k as int] == records@[k as int]@);
        let r = &records[k];
        if r.delay == d {
            if lists(&r.corrupted_locations, name) {
                num = num + 1;
            }
            if record_covers(r, name_chars) {
                den = den + 1;
            }
        }
        k = k + 1;
    }
    assert(rs.take(records.len() as int) =~= rs);
    (num, den)
}

/// Whether `name` was seen corrupted, and the smallest delay at which it was.
fn first_delay_of(records: &[Record], name: &String) -> (r: (bool, usize))
    ensures
        r.0 == location_occurs(record_views(records@), name@),
        r.1 == first_delay(record_views(records@), name@),
{
    let ghost rs = record_views(records@);
    let mut seen = false;
    let mut first: usize = 0;
    let mut k: usize = 0;
    while k < records.len()
        invariant
            k <= records.len(),
            rs == record_views(records@),
            seen == location_occurs(rs.take(k as int), name@),
            first == first_delay(rs.take(k as int), name@),
        decreases records.len() - k,
    {
        proof {
            lemma_take_step(rs, k as int);
        }
        assert(rs[k as int] == records@[k as int]@);
        let r = &records[k];
        if lists(&r.corrupted_locations, name) && (!seen || r.delay < first) {
            first = r.delay;
        }
        if lists(&r.corrupted_locations, name) {
            seen = true;
        }
        k = k + 1;
    }
    assert(rs.take(records.len() as int) =~= rs);
    (seen, first)
}

} // verus!
