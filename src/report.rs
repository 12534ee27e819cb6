//! Text layout of the two reports. The fractions themselves are rendered by
//! the caller and handed in as text.
use vstd::prelude::*;
use crate::flip::FlipRate;
use crate::record::string_views;
use crate::text::{chars_of, decimal, digit_char, string_of};

verus! {

/// `fields` separated by `sep`.
pub open spec fn join(fields: Seq<Seq<char>>, sep: Seq<char>) -> Seq<char>
    decreases fields.len(),
{
    if fields.len() == 0 {
        Seq::empty()
    } else if fields.len() == 1 {
        fields[0]
    } else {
        join(fields.drop_last(), sep) + sep + fields.last()
    }
}

/// Each of `fields` preceded by `sep`.
pub open spec fn prefixed(fields: Seq<Seq<char>>, sep: Seq<char>) -> Seq<char>
    decreases fields.len(),
{
    if fields.len() == 0 {
        Seq::empty()
    } else {
        prefixed(fields.drop_last(), sep) + sep + fields.last()
    }
}

pub open spec fn decimals(ns: Seq<usize>) -> Seq<Seq<char>> {
    ns.map_values(|n: usize| decimal(n as nat))
}

fn push_all(out: &mut Vec<char>, s: &Vec<char>)
    ensures
        final(out)@ == old(out)@ + s@,
{
    let ghost start = out@;
    let mut k: usize = 0;
    while k < s.len()
        invariant
            k <= s.len(),
            out@ == start + s@.take(k as int),
        decreases s.len() - k,
    {
        out.push(s[k]);
        assert(s@.take(k + 1) =~= s@.take(k as int).push(s@[k as int]));
        assert(start + s@.take(k + 1) =~= (start + s@.take(k as int)).push(s@[k as int]));
        k = k + 1;
    }
    assert(s@.take(s.len() as int) =~= s@);
}

fn digit_char_of(k: usize) -> (c: char)
    requires
        k < 10,
    ensures
        c == digit_char(k as nat),
{
    if k == 0 { '0' } else if k == 1 { '1' } else if k == 2 { '2' } else if k == 3 { '3' }
    else if k == 4 { '4' } else if k == 5 { '5' } else if k == 6 { '6' } else if k == 7 { '7' }
    else if k == 8 { '8' } else { '9' }
}

fn decimal_chars(n: usize) -> (r: Vec<char>)
    ensures
        r@ == decimal(n as nat),
{
    let mut v: usize = n;
    let mut low: Vec<char> = Vec::new();
    while v >= 10
        invariant
            decimal(n as nat) == decimal(v as nat) + low@,
        decreases v,
    {
        let c = digit_char_of(v % 10);
        let ghost before = low@;
        low.insert(0, c);
        assert(low@ =~= seq![c] + before);
        assert(decimal(v as nat) == decimal((v / 10) as nat).push(c));
        assert(decimal((v / 10) as nat).push(c) + before =~= decimal((v / 10) as nat) + (seq![c] + before));
        v = v / 10;
    }
    let mut r: Vec<char> = Vec::new();
    r.push(digit_char_of(v));
    assert(r@ =~= decimal(v as nat));
    push_all(&mut r, &low);
    r
}

/// Decimal notation of `n`.
pub fn decimal_string(n: usize) -> (r: String)
    ensures
        r@ == decimal(n as nat),
{
    let cs = decimal_chars(n);
    string_of(cs.as_slice())
}

/// Appends each field, preceded by `sep`, to `out`; with `first_bare`, the
/// first field goes without `sep`.
fn push_fields(out: &mut Vec<char>, fields: &Vec<Vec<char>>, sep: &Vec<char>, first_bare: bool)
    ensures
        final(out)@ == old(out)@ + if first_bare {
            join(fields@.map_values(|f: Vec<char>| f@), sep@)
        } else {
            prefixed(fields@.map_values(|f: Vec<char>| f@), sep@)
        },
{
    let ghost start = out@;
    let ghost fs = fields@.map_values(|f: Vec<char>| f@);
    let mut k: usize = 0;
    while k < fields.len()
        invariant
            k <= fields.len(),
            fs == fields@.map_values(|f: Vec<char>| f@),
            out@ == start + if first_bare {
                join(fs.take(k as int), sep@)
            } else {
                prefixed(fs.take(k as int), sep@)
            },
        decreases fields.len() - k,
    {
        let ghost before = out@;
        if !first_bare || k > 0 {
            push_all(out, sep);
        }
        push_all(out, &fields[k]);
        proof {
            let t = fs.take(k + 1);
            assert(t.drop_last() =~= fs.take(k as int));
            assert(t.last() == fields@[k as int]@);
            if first_bare {
                assert(out@ =~= start + join(t, sep@));
            } else {
                assert(out@ =~= start + prefixed(t, sep@));
            }
        }
        k = k + 1;
    }
    assert(fs.take(fields.len() as int) =~= fs);
}

fn chars_of_strings(v: &Vec<String>) -> (r: Vec<Vec<char>>)
    ensures
        r@.map_values(|f: Vec<char>| f@) == string_views(v@),
{
    let mut r: Vec<Vec<char>> = Vec::new();
    let mut k: usize = 0;
    while k < v.len()
        invariant
            k <= v.len(),
            r@.map_values(|f: Vec<char>| f@) == string_views(v@).take(k as int),
        decreases v.len() - k,
    {
        let cs = chars_of(v[k].as_str());
        let ghost before = r@;
        r.push(cs);
        assert(r@.map_values(|f: Vec<char>| f@) =~= before.map_values(|f: Vec<char>| f@).push(cs@));
        assert(string_views(v@).take(k + 1) =~= string_views(v@).take(k as int).push(v@[k as int]@));
        k = k + 1;
    }
    assert(string_views(v@).take(v.len() as int) =~= string_views(v@));
    r
}

fn decimals_of(ns: &Vec<usize>) -> (r: Vec<Vec<char>>)
    ensures
        r@.map_values(|f: Vec<char>| f@) == decimals(ns@),
{
    let mut r: Vec<Vec<char>> = Vec::new();
    let mut k: usize = 0;
    while k < ns.len()
        invariant
            k <= ns.len(),
            r@.map_values(|f: Vec<char>| f@) == decimals(ns@).take(k as int),
        decreases ns.len() - k,
    {
        let cs = decimal_chars(ns[k]);
        let ghost before = r@;
        r.push(cs);
        assert(r@.map_values(|f: Vec<char>| f@) =~= before.map_values(|f: Vec<char>| f@).push(cs@));
        assert(decimals(ns@).take(k + 1) =~= decimals(ns@).take(k as int).push(decimal(ns@[k as int] as nat)));
        k = k + 1;
    }
    assert(decimals(ns@).take(ns.len() as int) =~= decimals(ns@));
    r
}

/// `fields` separated by `sep`.
pub fn join_fields(fields: &Vec<String>, sep: &str) -> (r: String)
    ensures
        r@ == join(string_views(fields@), sep@),
{
    let sep_chars = chars_of(sep);
    let fs = chars_of_strings(fields);
    let mut out: Vec<char> = Vec::new();
    push_fields(&mut out, &fs, &sep_chars, true);
    assert(out@ =~= join(string_views(fields@), sep@));
    string_of(out.as_slice())
}

/// Header of the corruption table: an empty first cell, `", "`, then the
/// delays separated by `", "`.
pub fn corruptability_header(delays: &Vec<usize>) -> (r: String)
    ensures
        r@ == seq![',', ' '] + join(decimals(delays@), seq![',', ' ']),
{
    let sep = vec![',', ' '];
    assert(sep@ =~= seq![',', ' ']);
    let ds = decimals_of(delays);
    let mut out: Vec<char> = vec![',', ' '];
    assert(out@ =~= seq![',', ' ']);
    push_fields(&mut out, &ds, &sep, true);
    string_of(out.as_slice())
}

/// One row of the corruption table: the location, then each rendered
/// fraction after `", "`.
pub fn corruptability_row(location: &String, fractions: &Vec<String>) -> (r: String)
    ensures
        r@ == location@ + prefixed(string_views(fractions@), seq![',', ' ']),
{
    let sep = vec![',', ' '];
    assert(sep@ =~= seq![',', ' ']);
    let fs = chars_of_strings(fractions);
    let mut out = chars_of(location.as_str());
    push_fields(&mut out, &fs, &sep, false);
    string_of(out.as_slice())
}

/// First line of the flip-rate table: the delays separated by commas.
pub fn flip_rate_delays(rates: &Vec<FlipRate>) -> (r: String)
    ensures
        r@ == join(decimals(rates@.map_values(|f: FlipRate| f.delay)), seq![',']),
{
    let mut delays: Vec<usize> = Vec::new();
    let mut k: usize = 0;
    while k < rates.len()
        invariant
            k <= rates.len(),
            delays@ == rates@.map_values(|f: FlipRate| f.delay).take(k as int),
        decreases rates.len() - k,
    {
        delays.push(rates[k].delay);
        assert(rates@.map_values(|f: FlipRate| f.delay).take(k + 1) =~= rates@.map_values(|f: FlipRate| f.delay).take(k as int).push(rates@[k as int].delay));
        k = k + 1;
    }
    assert(rates@.map_values(|f: FlipRate| f.delay).take(rates.len() as int) =~= rates@.map_values(|f: FlipRate| f.delay));
    let sep = vec![','];
    assert(sep@ =~= seq![',']);
    let ds = decimals_of(&delays);
    let mut out: Vec<char> = Vec::new();
    push_fields(&mut out, &ds, &sep, true);
    assert(out@ =~= join(decimals(delays@), seq![',']));
    string_of(out.as_slice())
}

} // verus!
