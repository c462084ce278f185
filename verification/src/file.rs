//! The file that is transferred: what is told about it, and how it is cut into
//! chunks.

use vstd::prelude::*;

use crate::protocol::{Payload, PayloadView};

verus! {

/// How many bytes of the file go into one chunk: 32 KiB. Only the last chunk
/// has fewer.
pub const CHUNK_SIZE: u64 = 0x8000;

/// What the sender tells about the file.
#[derive(Debug)]
pub struct FileInfo {
    pub filename: String,
    pub filesize: u64,
    pub sha256: [u8; 32],
}

impl FileInfo {
    /// The offer of this file.
    pub open spec fn offer(&self) -> PayloadView {
        PayloadView::Offer {
            filename: self.filename@,
            filesize: self.filesize,
            sha256: self.sha256@,
        }
    }

    /// Makes the offer of this file.
    pub fn to_offer(&self) -> (p: Payload)
        ensures
            p@ == self.offer(),
    {
        Payload::Offer {
            filename: self.filename.clone(),
            filesize: self.filesize,
            sha256: self.sha256,
        }
    }
}

/// Whether two digests are the same.
pub fn same_digest(a: &[u8; 32], b: &[u8; 32]) -> (same: bool)
    ensures
        same == (a@ == b@),
{
    let mut i: usize = 0;
    while i < 32
        invariant
            i <= 32,
            a@.len() == 32,
            b@.len() == 32,
            forall|j: int| 0 <= j < i ==> a@[j] == b@[j],
        decreases 32 - i,
    {
        if a[i] != b[i] {
            return false;
        }
        i = i + 1;
    }
    assert(a@ =~= b@);
    true
}

/// Where a chunk begins.
pub open spec fn chunk_start(file: Seq<u8>, i: nat) -> nat {
    if i * CHUNK_SIZE <= file.len() {
        (i * CHUNK_SIZE) as nat
    } else {
        file.len()
    }
}

/// The chunk with this number.
pub open spec fn chunk_of(file: Seq<u8>, i: nat) -> Seq<u8> {
    file.subrange(chunk_start(file, i) as int, chunk_start(file, i + 1) as int)
}

/// How many chunks a file is cut into.
pub open spec fn chunk_count(file: Seq<u8>) -> nat {
    (file.len() + CHUNK_SIZE - 1) as nat / CHUNK_SIZE as nat
}

/// Everything that the sender sends, each under the counter that is its index:
/// the offer, the chunks in order, and the end.
pub open spec fn outgoing(info: FileInfo, file: Seq<u8>) -> Seq<PayloadView> {
    Seq::new(
        chunk_count(file) + 2,
        |k: int|
            if k == 0 {
                info.offer()
            } else if k <= chunk_count(file) {
                PayloadView::Chunk { seq: (k - 1) as u64, data: chunk_of(file, (k - 1) as nat) }
            } else {
                PayloadView::Done { total_chunks: chunk_count(file) as u64 }
            },
    )
}

/// The offer of a file tells its name, its size and its digest.
pub proof fn law_offer_tells_the_file(info: FileInfo)
    ensures
        info.offer() == (PayloadView::Offer {
            filename: info.filename@,
            filesize: info.filesize,
            sha256: info.sha256@,
        }),
{
}

/// Chunk `i` holds the 32768 bytes of the file from place `i * 32768` on, or
/// what is left of them, and there are as many chunks as it takes. The sender
/// sends the offer, then every chunk under the counter behind its number, and
/// then the number of chunks.
pub proof fn law_chunks_are_cut_at_fixed_places(
    info: FileInfo,
    file: Seq<u8>,
    i: nat,
    j: int,
)
    ensures
        ({
            let n = chunk_count(file);
            let all = outgoing(info, file);
            &&& file.len() <= n * 32768
            &&& n > 0 ==> (n - 1) * 32768 < file.len()
            &&& all.len() == n + 2
            &&& all[0] == info.offer()
            &&& all[(n + 1) as int] == (PayloadView::Done { total_chunks: n as u64 })
            &&& i < n ==> {
                let chunk = chunk_of(file, i);
                &&& all[(i + 1) as int] == (PayloadView::Chunk { seq: i as u64, data: chunk })
                &&& chunk.len() == (if file.len() - i * 32768 < 32768 {
                    file.len() - i * 32768
                } else {
                    32768
                })
                &&& 0 <= j < chunk.len() ==> chunk[j] == file[i * 32768 + j]
            }
        }),
{
}

/// The chunks of a file, one behind the other, are the file. No chunk is empty
/// and none is larger than the chunk size.
pub proof fn law_chunks_make_up_the_file(file: Seq<u8>, i: nat)
    ensures
        file.take(chunk_start(file, i) as int) + chunk_of(file, i) == file.take(
            chunk_start(file, i + 1) as int,
        ),
        i < chunk_count(file) ==> 0 < chunk_of(file, i).len() <= CHUNK_SIZE,
        chunk_start(file, 0) == 0,
        chunk_start(file, chunk_count(file)) == file.len(),
{
    assert(file.take(chunk_start(file, i) as int) + chunk_of(file, i) =~= file.take(
        chunk_start(file, i + 1) as int,
    ));
}

} // verus!
