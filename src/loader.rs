//! Splitting the whole input into blocks and parsing each of them.
use vstd::prelude::*;
use crate::record::{block_result, parse_block, record_views, FormatError, Record, RecordView};
use crate::text::{chars_of, split_chars, split_on, views};

verus! {

/// Number of hyphens in the line that separates two blocks.
pub const SEPARATOR_DASHES: usize = 32;

/// The separator between blocks: a line of hyphens, with its newlines.
pub open spec fn separator() -> Seq<char> {
    seq!['\n'] + Seq::new(SEPARATOR_DASHES as nat, |i: int| '-') + seq!['\n']
}

/// The blocks of an input text.
pub open spec fn blocks_of(text: Seq<char>) -> Seq<Seq<char>> {
    split_on(text, separator())
}

/// A malformed block: its position in the input and what is wrong with it.
#[derive(Clone, Copy, Debug, PartialEq, Eq, Structural)]
pub struct InputFormatError {
    pub block: usize,
    pub kind: FormatError,
}

/// `rs` are the records of the blocks of `text`, one for each, in order.
pub open spec fn all_parsed(text: Seq<char>, rs: Seq<RecordView>) -> bool {
    &&& rs.len() == blocks_of(text).len()
    &&& forall|i: int|
        0 <= i < rs.len() ==> block_result(#[trigger] blocks_of(text)[i]) == Ok::<
            RecordView,
            FormatError,
        >(rs[i])
}

/// `e` names the first malformed block of `text` and what is wrong with it.
pub open spec fn first_rejected(text: Seq<char>, e: InputFormatError) -> bool {
    &&& e.block < blocks_of(text).len()
    &&& block_result(blocks_of(text)[e.block as int]) == Err::<RecordView, FormatError>(e.kind)
    &&& forall|i: int| 0 <= i < e.block ==> (#[trigger] block_result(blocks_of(text)[i])) is Ok
}

fn separator_chars() -> (r: Vec<char>)
    ensures
        r@ == separator(),
{
    let mut r: Vec<char> = Vec::new();
    r.push('\n');
    let mut k: usize = 0;
    while k < SEPARATOR_DASHES
        invariant
            k <= SEPARATOR_DASHES,
            r@ =~= seq!['\n'] + Seq::new(k as nat, |i: int| '-'),
        decreases SEPARATOR_DASHES - k,
    {
        r.push('-');
        k = k + 1;
    }
    r.push('\n');
    assert(r@ =~= separator());
    r
}

/// Parses every block of `text`, in order, stopping at the first malformed one.
pub fn load_records(text: &str) -> (r: Result<Vec<Record>, InputFormatError>)
    ensures
        match r {
            Ok(v) => all_parsed(text@, record_views(v@)),
            Err(e) => first_rejected(text@, e),
        },
{
    let chars = chars_of(text);
    let sep = separator_chars();
    let blocks = split_chars(&chars, &sep);
    let ghost bs = blocks_of(text@);
    assert(views(blocks@) == bs);
    let mut out: Vec<Record> = Vec::new();
    let mut k: usize = 0;
    while k < blocks.len()
        invariant
            k <= blocks.len(),
            views(blocks@) == bs,
            bs == blocks_of(text@),
            bs.len() == blocks.len(),
            out.len() == k,
            forall|i: int|
                0 <= i < k ==> block_result(#[trigger] bs[i]) == Ok::<RecordView, FormatError>(
                    out@[i]@,
                ),
        decreases blocks.len() - k,
    {
        assert(bs[k as int] == blocks@[k as int]@);
        match parse_block(&blocks[k]) {
            Ok(rec) => {
                out.push(rec);
            },
            Err(kind) => {
                assert(forall|i: int| 0 <= i < k ==> (#[trigger] block_result(bs[i])) is Ok);
                assert(block_result(bs[k as int]) == Err::<RecordView, FormatError>(kind));
                assert(k < bs.len());
                let e = InputFormatError { block: k, kind };
                assert(first_rejected(text@, e));
                return Err(e);
            },
        }
        k = k + 1;
    }
    assert(all_parsed(text@, record_views(out@)));
    Ok(out)
}

} // verus!
