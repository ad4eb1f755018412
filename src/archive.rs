use vstd::prelude::*;

use crate::text::string_from;

verus! {

/// A record of the bibliographic archive, with the fields the index uses.
#[derive(Clone, Debug)]
pub struct ArchiveRecord {
    pub id: i64,
    pub path: String,
    pub author: String,
    pub title: Option<String>,
    pub description: Option<String>,
    pub status: String,
    pub rating: String,
    pub likes: i64,
    pub dislikes: i64,
    pub words: i64,
    pub tags: Vec<String>,
}

/// A document of the search index.
#[derive(Clone, Debug)]
pub struct SearchDocument {
    pub title: String,
    pub description: String,
    pub author: String,
    pub path: String,
    pub likes: i64,
    pub dislikes: i64,
    pub words: i64,
    /// Lower bound of the Wilson score interval, in units of 10^-18.
    pub wilson: u64,
    pub status: String,
    pub rating: String,
    pub tags: Vec<String>,
}

/// Where a record starts on an archive line: its first `{`, or 0 when it has none.
pub open spec fn record_start(line: Seq<u8>, j: int) -> int
    decreases line.len() - j,
{
    if j < 0 || j >= line.len() {
        0
    } else if line[j] == 123u8 {
        j
    } else {
        record_start(line, j + 1)
    }
}

/// Where a record ends on an archive line: the end of the line when its last
/// byte is `}`, else one byte earlier (a trailing comma).
pub open spec fn record_end(line: Seq<u8>) -> int {
    if line.last() == 125u8 {
        line.len() as int
    } else {
        line.len() - 1
    }
}

/// The bytes `[start, end)` of an archive line that hold its JSON record. A
/// line of at most one byte (a brace of the enclosing object, or nothing)
/// holds none.
pub fn record_span(line: &[u8]) -> (r: Option<(usize, usize)>)
    ensures
        line@.len() <= 1 ==> r is None,
        line@.len() > 1 ==> r == Some((record_start(line@, 0) as usize, record_end(line@) as usize)),
        r matches Some((s, e)) ==> s <= e <= line@.len(),
{
    let n = line.len();
    if n <= 1 {
        return None;
    }
    let mut j: usize = 0;
    while j < n && line[j] != 123u8
        invariant
            j <= n == line@.len(),
            record_start(line@, j as int) == record_start(line@, 0),
            forall|k: int| 0 <= k < j ==> line@[k] != 123u8,
        decreases n - j,
    {
        j += 1;
    }
    let start = if j < n { j } else { 0 };
    let end = if line[n - 1] == 125u8 { n } else { n - 1 };
    Some((start, end))
}

/// The Wilson estimate applies to a record with likes and no negative dislikes;
/// gives the positive and negative vote counts.
pub fn wilson_votes(likes: i64, dislikes: i64) -> (r: Option<(u64, u64)>)
    ensures
        r is Some <==> likes > 0 && dislikes >= 0,
        r matches Some((p, q)) ==> p == likes && q == dislikes,
{
    if likes > 0 && dislikes >= 0 {
        Some((likes as u64, dislikes as u64))
    } else {
        None
    }
}

pub open spec fn untitled() -> Seq<char> {
    seq!['U', 'N', 'T', 'I', 'T', 'L', 'E', 'D']
}

/// The index document of a record. `wilson` is the record's Wilson lower
/// bound, used when the estimate applies to it; otherwise the document's is 0.
pub fn document_from_record(rec: ArchiveRecord, wilson: u64) -> (d: SearchDocument)
    ensures
        d.title@ == (match rec.title {
            Some(t) => t@,
            None => untitled(),
        }),
        d.description@ == (match rec.description {
            Some(t) => t@,
            None => Seq::<char>::empty(),
        }),
        d.author@ == rec.author@,
        d.path@ == rec.path@,
        d.likes == rec.likes,
        d.dislikes == rec.dislikes,
        d.words == rec.words,
        d.wilson == (if rec.likes > 0 && rec.dislikes >= 0 {
            wilson
        } else {
            0
        }),
        d.status@ == rec.status@,
        d.rating@ == rec.rating@,
        d.tags@ == rec.tags@,
{
    let w = match wilson_votes(rec.likes, rec.dislikes) {
        Some(_) => wilson,
        None => 0,
    };
    let title = match rec.title {
        Some(t) => t,
        None => string_from(&['U', 'N', 'T', 'I', 'T', 'L', 'E', 'D']),
    };
    let description = match rec.description {
        Some(t) => t,
        None => String::new(),
    };
    SearchDocument {
        title,
        description,
        author: rec.author,
        path: rec.path,
        likes: rec.likes,
        dislikes: rec.dislikes,
        words: rec.words,
        wilson: w,
        status: rec.status,
        rating: rec.rating,
        tags: rec.tags,
    }
}

} // verus!
