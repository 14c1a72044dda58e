//! The decisions of a line-by-line FASTA reader: a record starts at a `>`
//! header line, and its sequence is the following lines, each without
//! trailing whitespace, up to the next header or the end of the input.
use vstd::prelude::*;

verus! {

/// The byte that starts a header line, `>`.
pub const HEADER_MARK: u8 = 62;

/// ASCII whitespace: space, tab, line feed, vertical tab, form feed, carriage return.
pub open spec fn is_space(b: u8) -> bool {
    b == 32 || (9 <= b && b <= 13)
}

/// Whether a line is a record header.
pub open spec fn is_header(line: Seq<u8>) -> bool {
    line.len() > 0 && line[0] == HEADER_MARK
}

/// Whether a line read inside a record ends it: the end of the input (an
/// empty read) or the next header.
pub open spec fn ends_record(line: Seq<u8>) -> bool {
    line.len() == 0 || is_header(line)
}

/// A line without its trailing whitespace.
pub open spec fn trim_end_of(line: Seq<u8>) -> Seq<u8>
    decreases line.len(),
{
    if line.len() > 0 && is_space(line.last()) {
        trim_end_of(line.drop_last())
    } else {
        line
    }
}

/// Whether the first line of a record is a header; the error says what was
/// expected otherwise.
pub fn check_record_start(line: &[u8]) -> (r: Result<(), String>)
    ensures
        r is Ok <==> is_header(line@),
{
    if line.len() > 0 && line[0] == HEADER_MARK {
        Ok(())
    } else {
        Err(String::from_str("Expected > at record start."))
    }
}

/// The sequence that a line read inside a record adds to it, or `None` where
/// the line ends the record.
pub fn sequence_line(line: &[u8]) -> (r: Option<Vec<u8>>)
    ensures
        ends_record(line@) ==> r is None,
        !ends_record(line@) ==> (r matches Some(s) && s@ == trim_end_of(line@)),
{
    let n = line.len();
    if n == 0 || line[0] == HEADER_MARK {
        return None;
    }
    let mut end: usize = n;
    assert(line@.take(n as int) =~= line@);
    while end > 0 && (line[end - 1] == 32 || (9 <= line[end - 1] && line[end - 1] <= 13))
        invariant
            end <= n,
            n == line@.len(),
            trim_end_of(line@) == trim_end_of(line@.take(end as int)),
        decreases end,
    {
        assert(line@.take(end as int).drop_last() =~= line@.take(end - 1));
        end = end - 1;
    }
    let mut s: Vec<u8> = Vec::new();
    let mut i: usize = 0;
    while i < end
        invariant
            i <= end,
            end <= n,
            n == line@.len(),
            s@ =~= line@.take(i as int),
        decreases end - i,
    {
        s.push(line[i]);
        i = i + 1;
    }
    Some(s)
}

} // verus!
