//! Writing a record as a block, and reading it back.
use vstd::prelude::*;
use crate::record::{
    block_result, counts_agree, delay_of, delay_syntax, diffs_of, lemma_delay_field, locations_of,
    FormatError, RecordView,
};
use crate::text::{all_digits, decimal, digit_char, digit_value, digits_value, is_digit, split_from, split_on};

verus! {

/// A comma-terminated list of locations.
pub open spec fn list_text(locs: Seq<Seq<char>>) -> Seq<char>
    decreases locs.len(),
{
    if locs.len() == 0 {
        Seq::empty()
    } else {
        locs[0].push(',') + list_text(locs.drop_first())
    }
}

/// The block that the tester writes for record `r` with test pattern `pattern`.
pub open spec fn block_text(r: RecordView, pattern: nat) -> Seq<char> {
    "Delay: "@ + decimal(r.delay) + ", Pattern: "@ + decimal(pattern) + seq!['\n'] + list_text(
        r.locations,
    ) + seq!['\n'] + "Diffs: "@ + decimal(r.bit_flips)
}

proof fn lemma_digit_char(n: nat)
    requires
        n < 10,
    ensures
        digit_value(digit_char(n)) == n,
        is_digit(digit_char(n)),
{
    assert('0' as u32 == 48);
    assert('1' as u32 == 49);
}

proof fn lemma_decimal(n: nat)
    ensures
        decimal(n).len() > 0,
        all_digits(decimal(n)),
        digits_value(decimal(n)) == n,
    decreases n,
{
    lemma_digit_char(n % 10);
    if n >= 10 {
        lemma_decimal(n / 10);
        assert(n == (n / 10) * 10 + n % 10);
        let s = decimal(n);
        assert(s.drop_last() =~= decimal(n / 10));
        assert(s.last() == digit_char(n % 10));
        assert(digits_value(s) == digits_value(decimal(n / 10)) * 10 + digit_value(digit_char(n % 10)));
        assert forall|k: int| 0 <= k < s.len() implies is_digit(#[trigger] s[k]) by {
            if k < s.len() - 1 {
                assert(s[k] == decimal(n / 10)[k]);
            }
        }
    } else {
        lemma_digit_char(n);
        assert(decimal(n).drop_last() =~= Seq::<char>::empty());
        assert(digits_value(decimal(n)) == digits_value(Seq::<char>::empty()) * 10 + digit_value(digit_char(n)));
    }
}

proof fn lemma_split_no_sep(s: Seq<char>, c: char, start: int, i: int)
    requires
        0 <= start <= i <= s.len(),
        forall|k: int| i <= k < s.len() ==> s[k] != c,
    ensures
        split_from(s, seq![c], start, i) == seq![s.subrange(start, s.len() as int)],
    decreases s.len() - i,
{
    if i + 1 <= s.len() {
        assert(s.subrange(i, i + 1)[0] == s[i]);
        lemma_split_no_sep(s, c, start, i + 1);
    }
}

proof fn lemma_split_at_sep(s: Seq<char>, c: char, start: int, i: int, m: int)
    requires
        0 <= start <= i <= m < s.len(),
        s[m] == c,
        forall|k: int| i <= k < m ==> s[k] != c,
    ensures
        split_from(s, seq![c], start, i) == seq![s.subrange(start, m)] + split_from(s, seq![c], m + 1, m + 1),
    decreases m - i,
{
    if i < m {
        assert(s.subrange(i, i + 1)[0] == s[i]);
        lemma_split_at_sep(s, c, start, i + 1, m);
    } else {
        assert(s.subrange(m, m + 1) =~= seq![c]);
    }
}

proof fn lemma_split_shift(pre: Seq<char>, t: Seq<char>, c: char, st: int, i: int)
    requires
        0 <= st <= i <= t.len(),
    ensures
        split_from(pre + t, seq![c], pre.len() + st, pre.len() + i) == split_from(t, seq![c], st, i),
    decreases t.len() - i,
{
    let s = pre + t;
    let n = pre.len() as int;
    assert(s.subrange(n + st, s.len() as int) =~= t.subrange(st, t.len() as int));
    if i + 1 <= t.len() {
        assert(s.subrange(n + i, n + i + 1) =~= t.subrange(i, i + 1));
        assert(s.subrange(n + st, n + i) =~= t.subrange(st, i));
        lemma_split_shift(pre, t, c, i + 1, i + 1);
        lemma_split_shift(pre, t, c, st, i + 1);
    }
}

/// Splitting `a c t` on `c`, where `a` has no `c`.
proof fn lemma_split_cons(a: Seq<char>, c: char, t: Seq<char>)
    requires
        forall|k: int| 0 <= k < a.len() ==> a[k] != c,
    ensures
        split_on(a.push(c) + t, seq![c]) == seq![a] + split_on(t, seq![c]),
{
    let s = a.push(c) + t;
    lemma_split_at_sep(s, c, 0, 0, a.len() as int);
    assert(s.subrange(0, a.len() as int) =~= a);
    assert(s =~= a.push(c) + t);
    lemma_split_shift(a.push(c), t, c, 0, 0);
}

proof fn lemma_split_single(a: Seq<char>, c: char)
    requires
        forall|k: int| 0 <= k < a.len() ==> a[k] != c,
    ensures
        split_on(a, seq![c]) == seq![a],
{
    lemma_split_no_sep(a, c, 0, 0);
    assert(a.subrange(0, a.len() as int) =~= a);
}

proof fn lemma_list_text_split(locs: Seq<Seq<char>>)
    requires
        forall|i: int, k: int| 0 <= i < locs.len() && 0 <= k < locs[i].len() ==> #[trigger] locs[i][k] != ',',
    ensures
        split_on(list_text(locs), seq![',']) == locs.push(Seq::<char>::empty()),
    decreases locs.len(),
{
    if locs.len() == 0 {
        lemma_split_single(Seq::<char>::empty(), ',');
        assert(locs.push(Seq::<char>::empty()) =~= seq![Seq::<char>::empty()]);
    } else {
        let rest = locs.drop_first();
        assert forall|i: int, k: int| 0 <= i < rest.len() && 0 <= k < rest[i].len() implies #[trigger] rest[i][k] != ',' by {
            assert(rest[i] == locs[i + 1]);
        }
        lemma_list_text_split(rest);
        assert forall|k: int| 0 <= k < locs[0].len() implies locs[0][k] != ',' by {
            assert(locs[0][k] == locs[0][k]);
        }
        lemma_split_cons(locs[0], ',', list_text(rest));
        assert(locs.push(Seq::<char>::empty()) =~= seq![locs[0]] + rest.push(Seq::<char>::empty()));
    }
}

proof fn lemma_list_text_avoids(locs: Seq<Seq<char>>, c: char)
    requires
        c != ',',
        forall|i: int, k: int| 0 <= i < locs.len() && 0 <= k < locs[i].len() ==> #[trigger] locs[i][k] != c,
    ensures
        forall|k: int| 0 <= k < list_text(locs).len() ==> list_text(locs)[k] != c,
    decreases locs.len(),
{
    if locs.len() > 0 {
        let rest = locs.drop_first();
        assert forall|i: int, k: int| 0 <= i < rest.len() && 0 <= k < rest[i].len() implies #[trigger] rest[i][k] != c by {
            assert(rest[i] == locs[i + 1]);
        }
        lemma_list_text_avoids(rest, c);
        let h = locs[0].push(',');
        assert forall|k: int| 0 <= k < list_text(locs).len() implies list_text(locs)[k] != c by {
            if k < h.len() {
                if k < locs[0].len() {
                    assert(locs[0][k] != c);
                }
            } else {
                assert(list_text(locs)[k] == list_text(rest)[k - h.len()]);
            }
        }
    }
}

/// Reading back the block written for a record gives that record, where the
/// record is one the tester can write: numbers that fit `usize`, locations
/// without commas or line breaks, and counts that obey the truncation rule.
pub proof fn lemma_block_round_trip(r: RecordView, pattern: nat)
    requires
        r.delay <= usize::MAX,
        r.bit_flips <= usize::MAX,
        counts_agree(r.locations, r.bit_flips),
        forall|i: int, k: int|
            0 <= i < r.locations.len() && 0 <= k < r.locations[i].len() ==> #[trigger] r.locations[i][k]
                != ',' && r.locations[i][k] != '\n',
    ensures
        block_result(block_text(r, pattern)) == Ok::<RecordView, FormatError>(r),
{
    reveal_strlit("Delay: ");
    reveal_strlit(", Pattern: ");
    reveal_strlit("Diffs: ");
    lemma_decimal(r.delay);
    lemma_decimal(pattern);
    lemma_decimal(r.bit_flips);
    let dd = decimal(r.delay);
    let pd = decimal(pattern);
    let l1 = "Delay: "@ + dd + ", Pattern: "@ + pd;
    let l2 = list_text(r.locations);
    let l3 = "Diffs: "@ + decimal(r.bit_flips);
    let nl = seq!['\n'];
    assert(block_text(r, pattern) =~= l1.push('\n') + (l2.push('\n') + l3));
    assert forall|k: int| 0 <= k < l1.len() implies l1[k] != '\n' by {
        if 7 <= k < 7 + dd.len() as int {
            assert(l1[k] == dd[k - 7]);
        } else if 18 + dd.len() <= k {
            assert(l1[k] == pd[k - 18 - dd.len()]);
        }
    }
    assert forall|i: int, k: int| 0 <= i < r.locations.len() && 0 <= k < r.locations[i].len() implies #[trigger] r.locations[i][k] != '\n' by {}
    lemma_list_text_avoids(r.locations, '\n');
    assert forall|k: int| 0 <= k < l3.len() implies l3[k] != '\n' by {
        if 7 <= k {
            assert(l3[k] == decimal(r.bit_flips)[k - 7]);
        }
    }
    lemma_split_cons(l1, '\n', l2.push('\n') + l3);
    lemma_split_cons(l2, '\n', l3);
    lemma_split_single(l3, '\n');
    let lines = split_on(block_text(r, pattern), nl);
    assert(lines =~= seq![l1, l2, l3]);

    // First line.
    assert(all_digits(dd) && all_digits(pd) && l1 == "Delay: "@ + dd + ", Pattern: "@ + pd);
    assert(delay_syntax(l1, dd));
    let a = choose|a: Seq<char>| delay_syntax(l1, a);
    assert(l1.subrange(7, 7 + dd.len() as int) =~= dd);
    assert(l1[7 + dd.len() as int] == ',');
    lemma_delay_field(l1, a, 7 + dd.len() as int);
    assert(delay_of(l1) == Some(r.delay));

    // Location list.
    assert forall|i: int, k: int| 0 <= i < r.locations.len() && 0 <= k < r.locations[i].len() implies #[trigger] r.locations[i][k] != ',' by {}
    lemma_list_text_split(r.locations);
    assert(split_on(l2, seq![',']).drop_last() =~= r.locations);
    assert(locations_of(l2) == Some(r.locations));

    // Third line.
    assert(l3.take(7) =~= "Diffs: "@);
    assert(l3.skip(7) =~= decimal(r.bit_flips));
    assert(diffs_of(l3) == Some(r.bit_flips));
}

} // verus!
