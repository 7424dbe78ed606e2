use vstd::prelude::*;
use crate::codec::ArchiveError;

verus! {

/// What a newest-first scan does with one index entry while reading a page.
#[derive(Debug, Clone, Copy, PartialEq, Eq, Structural)]
pub enum PageStep {
    /// The entry lies before the page: pass over it.
    Skip,
    /// The entry is on the page: resolve it.
    Take,
    /// The page is full: end the scan.
    Stop,
}

/// The step for the entry at position `idx` (0 for the newest) of a scan for
/// page `page`, `PAGE_SIZE` entries to a page.
pub fn page_step(idx: usize, page: usize) -> (r: PageStep)
    ensures
        idx < page * 20 ==> r == PageStep::Skip,
        page * 20 <= idx < page * 20 + 20 ==> r == PageStep::Take,
        page * 20 + 20 <= idx ==> r == PageStep::Stop,
{
    let q = idx / 20;
    assert(q * 20 <= idx < q * 20 + 20) by (nonlinear_arith)
        requires q == idx / 20;
    if q < page {
        assert(idx < page * 20) by (nonlinear_arith)
            requires q < page, idx < q * 20 + 20;
        PageStep::Skip
    } else if q == page {
        PageStep::Take
    } else {
        assert(page * 20 + 20 <= idx) by (nonlinear_arith)
            requires q > page, q * 20 <= idx;
        PageStep::Stop
    }
}

/// The payload that the content store gave for an id taken from an index;
/// an id with no payload is a `ConsistencyViolation`.
pub fn resolve_payload(found: Option<Vec<u8>>) -> (r: Result<Vec<u8>, ArchiveError>)
    ensures
        found is None ==> r == Err::<Vec<u8>, ArchiveError>(ArchiveError::ConsistencyViolation),
        found is Some ==> r is Ok && r.unwrap()@ == found.unwrap()@,
{
    match found {
        None => Err(ArchiveError::ConsistencyViolation),
        Some(v) => Ok(v),
    }
}

/// Where the next feed request starts after `fetched` items were read at
/// `offset` of a feed of `count` items; `None` when the feed is exhausted or
/// the last request brought nothing.
pub fn next_offset(offset: usize, fetched: usize, count: usize) -> (r: Option<usize>)
    ensures
        fetched == 0 || offset + fetched >= count ==> r is None,
        fetched > 0 && offset + fetched < count ==> r == Some((offset + fetched) as usize),
{
    if fetched == 0 || offset >= count || fetched >= count - offset {
        None
    } else {
        Some(offset + fetched)
    }
}

} // verus!
