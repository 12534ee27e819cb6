//! One observation of the tester, and the grammar of the text block that
//! describes it.
use vstd::prelude::*;
use crate::text::{
    all_digits, chars_of, decimal_value, digit_run, digits_value, is_digit, occurs_at, split_chars,
    split_on, string_of, views,
};

verus! {

/// How many corrupted locations the tester records at most; a record that
/// holds this many may have had more.
pub const TRUNCATION_LIMIT: usize = 31;

/// One observation: the retention delay, the corrupted locations in the
/// order the tester listed them, and the number of differing bits.
#[derive(Clone, Debug)]
pub struct Record {
    pub delay: usize,
    pub corrupted_locations: Vec<String>,
    pub bit_flip_count: usize,
}

/// The mathematical content of a `Record`.
pub struct RecordView {
    pub delay: nat,
    pub locations: Seq<Seq<char>>,
    pub bit_flips: nat,
}

pub open spec fn string_views(v: Seq<String>) -> Seq<Seq<char>> {
    v.map_values(|s: String| s@)
}

impl View for Record {
    type V = RecordView;

    open spec fn view(&self) -> RecordView {
        RecordView {
            delay: self.delay as nat,
            locations: string_views(self.corrupted_locations@),
            bit_flips: self.bit_flip_count as nat,
        }
    }
}

pub open spec fn record_views(v: Seq<Record>) -> Seq<RecordView> {
    v.map_values(|r: Record| r@)
}

/// Which part of a block is malformed.
#[derive(Clone, Copy, Debug, PartialEq, Eq, Structural)]
pub enum FormatError {
    /// Not three lines, nor four with an empty fourth.
    LineCount,
    /// The first line is not `Delay: <n>, Pattern: <m>`, with both fields
    /// non-empty decimals and `n` fitting `usize`.
    DelayLine,
    /// The location list is not terminated by a comma.
    LocationList,
    /// The third line is not `Diffs: <n>` with `n` fitting `usize`.
    DiffsLine,
    /// Fewer locations than the truncation limit, and a count that differs from them.
    Truncation,
}

/// `a` is the delay field of the first line `l`.
pub open spec fn delay_syntax(l: Seq<char>, a: Seq<char>) -> bool {
    exists|b: Seq<char>|
        all_digits(a) && #[trigger] all_digits(b) && b.len() > 0 && l == "Delay: "@ + a + ", Pattern: "@ + b
}

/// The delay that the first line gives, if it is well formed.
pub open spec fn delay_of(l: Seq<char>) -> Option<nat> {
    if exists|a: Seq<char>| delay_syntax(l, a) {
        let a = choose|a: Seq<char>| delay_syntax(l, a);
        if a.len() > 0 && digits_value(a) <= usize::MAX {
            Some(digits_value(a))
        } else {
            None
        }
    } else {
        None
    }
}

/// The locations of a comma-terminated list, if it is one.
pub open spec fn locations_of(l: Seq<char>) -> Option<Seq<Seq<char>>> {
    let parts = split_on(l, seq![',']);
    if parts.len() > 0 && parts.last().len() == 0 {
        Some(parts.drop_last())
    } else {
        None
    }
}

/// The bit count that the third line gives, if it is well formed.
pub open spec fn diffs_of(l: Seq<char>) -> Option<nat> {
    let p = "Diffs: "@;
    let a = l.skip(p.len() as int);
    if l.len() > p.len() && l.take(p.len() as int) == p && all_digits(a) && digits_value(a)
        <= usize::MAX {
        Some(digits_value(a))
    } else {
        None
    }
}

pub open spec fn line_count_ok(lines: Seq<Seq<char>>) -> bool {
    lines.len() == 3 || (lines.len() == 4 && lines[3].len() == 0)
}

/// The truncation rule: a short list accounts for every differing bit.
pub open spec fn counts_agree(locations: Seq<Seq<char>>, bit_flips: nat) -> bool {
    locations.len() == TRUNCATION_LIMIT || bit_flips == locations.len()
}

/// What a block of text parses to.
pub open spec fn block_result(b: Seq<char>) -> Result<RecordView, FormatError> {
    let lines = split_on(b, seq!['\n']);
    if !line_count_ok(lines) {
        Err(FormatError::LineCount)
    } else {
        match delay_of(lines[0]) {
            None => Err(FormatError::DelayLine),
            Some(d) => match locations_of(lines[1]) {
                None => Err(FormatError::LocationList),
                Some(locs) => match diffs_of(lines[2]) {
                    None => Err(FormatError::DiffsLine),
                    Some(n) => if counts_agree(locs, n) {
                        Ok(RecordView { delay: d, locations: locs, bit_flips: n })
                    } else {
                        Err(FormatError::Truncation)
                    },
                },
            },
        }
    }
}

/// Any delay field of `l` ends where the run of digits after the prefix ends.
pub proof fn lemma_delay_field(l: Seq<char>, a: Seq<char>, e: int)
    requires
        delay_syntax(l, a),
        "Delay: "@.len() <= e <= l.len(),
        all_digits(l.subrange("Delay: "@.len() as int, e)),
        e == l.len() || !is_digit(l[e]),
    ensures
        a == l.subrange("Delay: "@.len() as int, e),
{
    reveal_strlit(", Pattern: ");
    let p = "Delay: "@;
    let q = ", Pattern: "@;
    let b = choose|b: Seq<char>| all_digits(a) && #[trigger] all_digits(b) && b.len() > 0 && l == p + a + q + b;
    let s = p.len() as int;
    assert(l[s + a.len()] == ',');
    if e < s + a.len() {
        assert(l[e] == a[e - s]);
    } else if e > s + a.len() {
        assert(l.subrange(s, e)[a.len() as int] == ',');
    }
    assert(a =~= l.subrange(s, e));
}

fn parse_delay_line(l: &Vec<char>) -> (r: Option<usize>)
    ensures
        match r {
            Some(v) => delay_of(l@) == Some(v as nat),
            None => delay_of(l@) is None,
        },
{
    let pre = chars_of("Delay: ");
    let mid = chars_of(", Pattern: ");
    let ghost p = "Delay: "@;
    let ghost q = ", Pattern: "@;
    if !occurs_at(l, &pre, 0) {
        proof {
            if exists|a: Seq<char>| delay_syntax(l@, a) {
                let a = choose|a: Seq<char>| delay_syntax(l@, a);
                let b = choose|b: Seq<char>|
                    all_digits(a) && #[trigger] all_digits(b) && b.len() > 0 && l@ == p + a + q + b;
                assert(l@.subrange(0, p.len() as int) =~= p);
            }
        }
        return None;
    }
    let s = pre.len();
    let e = digit_run(l, s);
    let ghost a0 = l@.subrange(s as int, e as int);
    proof {
        if exists|a: Seq<char>| delay_syntax(l@, a) {
            let a = choose|a: Seq<char>| delay_syntax(l@, a);
            lemma_delay_field(l@, a, e as int);
        }
    }
    if !occurs_at(l, &mid, e) {
        proof {
            if exists|a: Seq<char>| delay_syntax(l@, a) {
                let a = choose|a: Seq<char>| delay_syntax(l@, a);
                let b = choose|b: Seq<char>|
                    all_digits(a) && #[trigger] all_digits(b) && b.len() > 0 && l@ == p + a + q + b;
                assert(l@.subrange(e as int, e + q.len()) =~= q);
            }
        }
        return None;
    }
    let t = e + mid.len();
    let f = digit_run(l, t);
    if f != l.len() {
        proof {
            if exists|a: Seq<char>| delay_syntax(l@, a) {
                let a = choose|a: Seq<char>| delay_syntax(l@, a);
                let b = choose|b: Seq<char>|
                    all_digits(a) && #[trigger] all_digits(b) && b.len() > 0 && l@ == p + a + q + b;
                assert(l@[f as int] == b[f - t]);
            }
        }
        return None;
    }
    if f == t {
        proof {
            if exists|a: Seq<char>| delay_syntax(l@, a) {
                let a = choose|a: Seq<char>| delay_syntax(l@, a);
                let b = choose|b: Seq<char>|
                    all_digits(a) && #[trigger] all_digits(b) && b.len() > 0 && l@ == p + a + q + b;
                lemma_delay_field(l@, a, e as int);
                assert(l@.len() == t + b.len());
            }
        }
        return None;
    }
    proof {
        let b = l@.subrange(t as int, l@.len() as int);
        assert(l@ =~= p + a0 + q + b);
        assert(all_digits(a0) && all_digits(b) && b.len() > 0 && l@ == p + a0 + q + b);
        assert(delay_syntax(l@, a0));
        let a = choose|a: Seq<char>| delay_syntax(l@, a);
        lemma_delay_field(l@, a, e as int);
    }
    if e == s {
        return None;
    }
    decimal_value(l, s, e)
}

fn parse_diffs_line(l: &Vec<char>) -> (r: Option<usize>)
    ensures
        match r {
            Some(v) => diffs_of(l@) == Some(v as nat),
            None => diffs_of(l@) is None,
        },
{
    let pre = chars_of("Diffs: ");
    if !occurs_at(l, &pre, 0) {
        assert(l@.subrange(0, pre@.len() as int) =~= l@.take(pre@.len() as int));
        return None;
    }
    assert(l@.subrange(0, pre@.len() as int) =~= l@.take(pre@.len() as int));
    let s = pre.len();
    let e = digit_run(l, s);
    assert(l@.subrange(s as int, l@.len() as int) =~= l@.skip(s as int));
    if e != l.len() {
        assert(l@.skip(s as int)[e - s] == l@[e as int]);
        return None;
    }
    if e == s {
        return None;
    }
    decimal_value(l, s, e)
}

fn parse_locations(l: &Vec<char>) -> (r: Option<Vec<String>>)
    ensures
        match r {
            Some(v) => locations_of(l@) == Some(string_views(v@)),
            None => locations_of(l@) is None,
        },
{
    let comma = vec![','];
    let parts = split_chars(l, &comma);
    assert(comma@ =~= seq![',']);
    let n = parts.len();
    if n == 0 || parts[n - 1].len() != 0 {
        return None;
    }
    let mut out: Vec<String> = Vec::new();
    let mut k: usize = 0;
    assert(string_views(out@) =~= views(parts@).take(0));
    while k < n - 1
        invariant
            n == parts.len(),
            0 < n,
            k <= n - 1,
            string_views(out@) == views(parts@).take(k as int),
        decreases n - 1 - k,
    {
        let s = string_of(parts[k].as_slice());
        let ghost before = out@;
        out.push(s);
        assert(string_views(out@) =~= string_views(before).push(s@));
        assert(views(parts@).take(k + 1) =~= views(parts@).take(k as int).push(parts@[k as int]@));
        k = k + 1;
    }
    assert(views(parts@).drop_last() =~= views(parts@).take(n - 1));
    Some(out)
}

/// Parses one block given as characters.
pub fn parse_block(b: &Vec<char>) -> (r: Result<Record, FormatError>)
    ensures
        match r {
            Ok(rec) => block_result(b@) == Ok::<RecordView, FormatError>(rec@),
            Err(e) => block_result(b@) == Err::<RecordView, FormatError>(e),
        },
{
    let newline = vec!['\n'];
    assert(newline@ =~= seq!['\n']);
    let lines = split_chars(b, &newline);
    let ghost ls = views(lines@);
    let n = lines.len();
    if !(n == 3 || (n == 4 && lines[3].len() == 0)) {
        return Err(FormatError::LineCount);
    }
    assert(ls[0] == lines[0]@ && ls[1] == lines[1]@ && ls[2] == lines[2]@);
    let delay = match parse_delay_line(&lines[0]) {
        Some(d) => d,
        None => {
            return Err(FormatError::DelayLine);
        },
    };
    let locations = match parse_locations(&lines[1]) {
        Some(v) => v,
        None => {
            return Err(FormatError::LocationList);
        },
    };
    let bits = match parse_diffs_line(&lines[2]) {
        Some(d) => d,
        None => {
            return Err(FormatError::DiffsLine);
        },
    };
    if !(locations.len() == TRUNCATION_LIMIT || bits == locations.len()) {
        return Err(FormatError::Truncation);
    }
    let rec = Record { delay, corrupted_locations: locations, bit_flip_count: bits };
    assert(rec@ == RecordView { delay: delay as nat, locations: string_views(locations@), bit_flips: bits as nat });
    Ok(rec)
}

/// Parses one block of text into a `Record`.
pub fn parse_record(block: &str) -> (r: Result<Record, FormatError>)
    ensures
        match r {
            Ok(rec) => block_result(block@) == Ok::<RecordView, FormatError>(rec@),
            Err(e) => block_result(block@) == Err::<RecordView, FormatError>(e),
        },
{
    let b = chars_of(block);
    parse_block(&b)
}

} // verus!
