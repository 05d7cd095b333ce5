//! The pipeline orchestrator: normalize, chunk, then extract entities per
//! chunk, producing one structured record per chunk.

use vstd::prelude::*;
use crate::text::{char_len, str_views};
use crate::clean::{clean_text, clean_spec};
use crate::chunk::{chunk_text, chunk_spec, ChunkError};
use crate::extract::{
    extract_metadata,
    Metadata,
    money_scan,
    pct_scan,
    date_scan,
    tickers_spec,
};

verus! {

/// One pipeline output record: the chunk's ordinal position, its text, its
/// length in Unicode code points, and its extracted entities.
pub struct ChunkRecord {
    pub chunk_index: usize,
    pub text: String,
    pub char_count: usize,
    pub metadata: Metadata,
}

/// The record for chunk `c` at position `i` carries the chunk text, its
/// code-point length, and the entity set extracted from it.
pub open spec fn record_matches(rec: ChunkRecord, i: int, c: Seq<char>) -> bool {
    &&& rec.chunk_index == i
    &&& rec.text@ == c
    &&& rec.char_count == c.len()
    &&& str_views(rec.metadata.monetary_amounts@) == money_scan(c)
    &&& str_views(rec.metadata.percentages@) == pct_scan(c)
    &&& str_views(rec.metadata.dates@) == date_scan(c)
    &&& str_views(rec.metadata.potential_tickers@) == tickers_spec(c)
}

/// Process a document through the full pipeline: clean, chunk, and extract
/// metadata per chunk. Fails with the invalid-configuration error exactly
/// when `chunk_size` is zero.
pub fn process_document(text: &str, chunk_size: usize, chunk_overlap: usize) -> (r: Result<
    Vec<ChunkRecord>,
    ChunkError,
>)
    ensures
        r is Err <==> chunk_size == 0,
        r is Err ==> r == Result::<Vec<ChunkRecord>, ChunkError>::Err(
            ChunkError::InvalidConfiguration,
        ),
        r is Ok ==> ({
            let chunks = chunk_spec(
                clean_spec(text@),
                chunk_size as nat,
                chunk_overlap as nat,
            );
            &&& r.unwrap()@.len() == chunks.len()
            &&& forall|i: int|
                0 <= i < chunks.len() ==> record_matches(#[trigger] r.unwrap()@[i], i, chunks[i])
        }),
{
    let cleaned = clean_text(text);
    match chunk_text(cleaned.as_str(), chunk_size, chunk_overlap) {
        Err(e) => Err(e),
        Ok(chunks) => {
            let ghost cview = str_views(chunks@);
            let mut out: Vec<ChunkRecord> = Vec::new();
            let mut i: usize = 0;
            while i < chunks.len()
                invariant
                    i <= chunks@.len(),
                    cview == str_views(chunks@),
                    out@.len() == i,
                    forall|k: int| 0 <= k < i ==> record_matches(#[trigger] out@[k], k, cview[k]),
                decreases chunks@.len() - i,
            {
                let ctext = chunks[i].clone();
                let cc = char_len(chunks[i].as_str());
                let md = extract_metadata(chunks[i].as_str());
                let rec = ChunkRecord { chunk_index: i, text: ctext, char_count: cc, metadata: md };
                proof {
                    assert(cview[i as int] == chunks@[i as int]@);
                    assert(record_matches(rec, i as int, cview[i as int]));
                }
                out.push(rec);
                i = i + 1;
            }
            Ok(out)
        },
    }
}

} // verus!
