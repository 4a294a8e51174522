//! The chunk transfer engine: partitions a file of a given total size
//! into contiguous fixed-size chunks and tracks per-chunk status.

use vstd::prelude::*;

use crate::util::str_eq;

verus! {

/// Size of one transfer chunk in bytes (1 MiB).
pub const CHUNK_SIZE: u64 = 1024 * 1024;

/// Per-chunk download state. Transitions move forward only:
/// `Pending -> Downloading -> Completed`, or to `Failed`.
#[derive(Debug)]
pub enum ChunkStatus {
    Pending,
    Downloading(String),
    Completed,
    Failed,
}

impl Clone for ChunkStatus {
    fn clone(&self) -> (r: Self)
        ensures
            r == *self,
    {
        match self {
            ChunkStatus::Pending => ChunkStatus::Pending,
            ChunkStatus::Downloading(peer) => ChunkStatus::Downloading(peer.clone()),
            ChunkStatus::Completed => ChunkStatus::Completed,
            ChunkStatus::Failed => ChunkStatus::Failed,
        }
    }
}

/// One contiguous byte range `[start, end)` of a file. `index` is the
/// 0-based position of the range in the partition of the whole file.
/// `hash` is reserved for integrity verification and never populated.
#[derive(Debug)]
pub struct Chunk {
    pub index: u64,
    pub start: u64,
    pub end: u64,
    pub status: ChunkStatus,
    pub hash: Option<String>,
}

impl Clone for Chunk {
    fn clone(&self) -> (r: Self)
        ensures
            r == *self,
    {
        Chunk {
            index: self.index,
            start: self.start,
            end: self.end,
            status: self.status.clone(),
            hash: match &self.hash {
                Some(h) => Some(h.clone()),
                None => None,
            },
        }
    }
}

/// Number of chunks a file of `total_size` bytes is split into:
/// the ceiling of `total_size / CHUNK_SIZE`, and 0 for an empty file.
pub open spec fn spec_chunk_count(total_size: u64) -> int {
    (total_size + CHUNK_SIZE - 1) / (CHUNK_SIZE as int)
}

/// The bounds chunk `i` of a partition of `total_size` bytes must have:
/// it starts at `i * CHUNK_SIZE` and runs one full `CHUNK_SIZE`, unless
/// the file ends first.
pub open spec fn chunk_bounds_ok(c: Chunk, i: int, total_size: u64) -> bool {
    &&& c.index == i
    &&& c.start == i * (CHUNK_SIZE as int)
    &&& c.end == if (i + 1) * (CHUNK_SIZE as int) <= total_size {
        (i + 1) * (CHUNK_SIZE as int)
    } else {
        total_size as int
    }
}

/// `chunks` partitions `[0, total_size)` contiguously, with no gaps and
/// no overlap: exactly `ceil(total_size / CHUNK_SIZE)` chunks, each at
/// its prescribed offsets.
pub open spec fn is_partition(chunks: Seq<Chunk>, total_size: u64) -> bool {
    &&& chunks.len() == spec_chunk_count(total_size)
    &&& forall|i: int|
        0 <= i < chunks.len() ==> chunk_bounds_ok(#[trigger] chunks[i], i, total_size)
}

/// Every chunk of a partition lies inside `[0, total_size)`, is at most
/// `CHUNK_SIZE` long, is exactly `CHUNK_SIZE` long unless it is the
/// last, and the last one ends at `total_size`.
pub proof fn lemma_partition_sizes(chunks: Seq<Chunk>, total_size: u64, i: int)
    requires
        is_partition(chunks, total_size),
        0 <= i < chunks.len(),
    ensures
        chunks[i].start < chunks[i].end <= total_size,
        chunks[i].end - chunks[i].start <= CHUNK_SIZE,
        i < chunks.len() - 1 ==> chunks[i].end - chunks[i].start == CHUNK_SIZE,
        i == chunks.len() - 1 ==> chunks[i].end == total_size,
        i == chunks.len() - 1 ==> chunks[i].end - chunks[i].start == total_size - (chunks.len()
            - 1) * (CHUNK_SIZE as int),
{
    let c = CHUNK_SIZE as int;
    let n = chunks.len() as int;
    let t = total_size as int;
    assert(n == (t + c - 1) / c);
    assert(n * c <= t + c - 1 && t <= n * c) by (nonlinear_arith)
        requires
            n == (t + c - 1) / c,
            c == CHUNK_SIZE as int,
            t >= 0,
    ;
    assert(i * c <= (n - 1) * c && (i + 1) * c <= n * c && (i < n - 1 ==> (i + 1) * c <= (n - 1)
        * c)) by (nonlinear_arith)
        requires
            0 <= i < n,
            c > 0,
    ;
}

/// The chunk lengths of a partition, summed left to right.
pub open spec fn sum_chunk_lens(chunks: Seq<Chunk>) -> int
    decreases chunks.len(),
{
    if chunks.len() == 0 {
        0
    } else {
        sum_chunk_lens(chunks.drop_last()) + (chunks.last().end - chunks.last().start)
    }
}

proof fn lemma_partition_prefix_sum(chunks: Seq<Chunk>, total_size: u64, k: int)
    requires
        is_partition(chunks, total_size),
        0 <= k <= chunks.len(),
    ensures
        sum_chunk_lens(chunks.take(k)) == if k == 0 {
            0int
        } else {
            chunks[k - 1].end as int
        },
    decreases k,
{
    if k > 0 {
        lemma_partition_prefix_sum(chunks, total_size, k - 1);
        let p = chunks.take(k);
        assert(p.drop_last() =~= chunks.take(k - 1));
        assert(p.last() == chunks[k - 1]);
        if k - 1 > 0 {
            lemma_partition_sizes(chunks, total_size, k - 2);
            lemma_partition_sizes(chunks, total_size, k - 1);
            assert((k - 1) * (CHUNK_SIZE as int) == (k - 2) * (CHUNK_SIZE as int) + (
            CHUNK_SIZE as int)) by (nonlinear_arith);
            assert(chunks[k - 2].end == chunks[k - 1].start);
        }
    }
}

/// The chunk lengths of a partition sum to the file's total size.
pub proof fn lemma_partition_sum(chunks: Seq<Chunk>, total_size: u64)
    requires
        is_partition(chunks, total_size),
    ensures
        sum_chunk_lens(chunks) == total_size,
{
    let n = chunks.len() as int;
    lemma_partition_prefix_sum(chunks, total_size, n);
    assert(chunks.take(n) =~= chunks);
    if n > 0 {
        lemma_partition_sizes(chunks, total_size, n - 1);
    }
}

/// A transfer: one file's chunk partition plus its role. A sink has an
/// `output_path` and receives written chunks; a source has a
/// `source_path` and serves read chunks.
#[derive(Debug, Clone)]
pub struct FileTransfer {
    pub file_id: String,
    pub file_name: String,
    pub total_size: u64,
    pub chunks: Vec<Chunk>,
    pub output_path: String,
    pub source_path: Option<String>,
}

/// Some transfer in `s` carries the id.
pub open spec fn has_transfer(s: Seq<FileTransfer>, id: Seq<char>) -> bool {
    exists|i: int| 0 <= i < s.len() && s[i].file_id@ == id
}

/// The position of the transfer with the id; meaningful only when
/// `has_transfer(s, id)` and the ids in `s` are unique.
pub open spec fn transfer_index(s: Seq<FileTransfer>, id: Seq<char>) -> int {
    choose|i: int| 0 <= i < s.len() && s[i].file_id@ == id
}

/// The transfer in `s` that carries the id; meaningful only when
/// `has_transfer(s, id)` and the ids in `s` are unique.
pub open spec fn lookup_transfer(s: Seq<FileTransfer>, id: Seq<char>) -> FileTransfer {
    s[transfer_index(s, id)]
}

/// No two transfers share a file id.
pub open spec fn unique_ids(s: Seq<FileTransfer>) -> bool {
    forall|i: int, j: int| 0 <= i < j < s.len() ==> s[i].file_id@ != s[j].file_id@
}

/// A registered transfer is internally consistent: its chunks
/// partition `[0, total_size)`.
pub open spec fn transfer_wf(t: FileTransfer) -> bool {
    is_partition(t.chunks@, t.total_size)
}

/// When ids are unique, any position holding the id is the position
/// `transfer_index` denotes.
pub proof fn lemma_transfer_index(s: Seq<FileTransfer>, id: Seq<char>, i: int)
    requires
        unique_ids(s),
        0 <= i < s.len(),
        s[i].file_id@ == id,
    ensures
        has_transfer(s, id),
        transfer_index(s, id) == i,
        lookup_transfer(s, id) == s[i],
{
    assert(has_transfer(s, id));
    let j = transfer_index(s, id);
    if i < j {
        assert(s[i].file_id@ != s[j].file_id@);
    } else if j < i {
        assert(s[j].file_id@ != s[i].file_id@);
    }
}

/// A status-only change of one chunk of one transfer keeps the whole
/// table well-formed.
proof fn lemma_mark_update_wf(prev: Seq<FileTransfer>, cur: Seq<FileTransfer>, i: int, j: int)
    requires
        unique_ids(prev),
        forall|k: int| 0 <= k < prev.len() ==> transfer_wf(#[trigger] prev[k]),
        prev.len() == cur.len(),
        0 <= i < prev.len(),
        0 <= j < prev[i].chunks@.len(),
        forall|k: int| 0 <= k < prev.len() && k != i ==> cur[k] == prev[k],
        cur[i].file_id == prev[i].file_id,
        cur[i].total_size == prev[i].total_size,
        cur[i].chunks@.len() == prev[i].chunks@.len(),
        forall|m: int|
            0 <= m < prev[i].chunks@.len() && m != j ==> cur[i].chunks@[m] == prev[i].chunks@[m],
        cur[i].chunks@[j].index == prev[i].chunks@[j].index,
        cur[i].chunks@[j].start == prev[i].chunks@[j].start,
        cur[i].chunks@[j].end == prev[i].chunks@[j].end,
    ensures
        unique_ids(cur),
        forall|k: int| 0 <= k < cur.len() ==> transfer_wf(#[trigger] cur[k]),
{
    assert forall|k: int| 0 <= k < cur.len() implies transfer_wf(#[trigger] cur[k]) by {
        if k == i {
            assert forall|m: int| 0 <= m < cur[i].chunks@.len() implies chunk_bounds_ok(
                #[trigger] cur[i].chunks@[m],
                m,
                cur[i].total_size,
            ) by {
                assert(chunk_bounds_ok(prev[i].chunks@[m], m, prev[i].total_size));
            }
        }
    }
    assert forall|a: int, b: int| 0 <= a < b < cur.len() implies cur[a].file_id@
        != cur[b].file_id@ by {
        assert(cur[a].file_id == prev[a].file_id);
        assert(cur[b].file_id == prev[b].file_id);
    }
}

/// One chunk's disk window: which file to touch, and where in it the
/// chunk's bytes live.
#[derive(Debug, Clone)]
pub struct ChunkIo {
    pub path: String,
    pub start: u64,
    pub len: u64,
}

/// The transfer table: every registered transfer, keyed by its
/// `file_id`. Mutated only through its methods, which keep the ids
/// unique and every partition well-formed.
pub struct ChunkManager {
    transfers: Vec<FileTransfer>,
}

impl View for ChunkManager {
    type V = Seq<FileTransfer>;

    closed spec fn view(&self) -> Seq<FileTransfer> {
        self.transfers@
    }
}

/// Generates a fresh transfer id.
///
/// Relies on `uuid::Uuid::new_v4` and its hyphenated `Display` form:
/// a random version-4 UUID rendered as text. The value is random, so
/// nothing is promised of it.
#[verifier::external_body]
fn new_transfer_id() -> String {
    uuid::Uuid::new_v4().to_string()
}

impl ChunkManager {
    /// The table is well-formed: ids are unique and every transfer's
    /// chunks partition its size.
    pub open spec fn wf(&self) -> bool {
        &&& unique_ids(self@)
        &&& forall|i: int| 0 <= i < self@.len() ==> transfer_wf(#[trigger] self@[i])
    }

    pub fn new() -> (r: Self)
        ensures
            r@ == Seq::<FileTransfer>::empty(),
            r.wf(),
    {
        Self { transfers: Vec::new() }
    }

    /// The position of the transfer with the id, if any.
    fn find_index(&self, file_id: &str) -> (r: Option<usize>)
        ensures
            match r {
                Some(i) => i < self@.len() && self@[i as int].file_id@ == file_id@,
                None => !has_transfer(self@, file_id@),
            },
    {
        let n = self.transfers.len();
        let mut i: usize = 0;
        while i < n
            invariant
                i <= n,
                n == self@.len(),
                forall|j: int| 0 <= j < i ==> self@[j].file_id@ != file_id@,
            decreases n - i,
        {
            if str_eq(self.transfers[i].file_id.as_str(), file_id) {
                return Some(i);
            }
            i = i + 1;
        }
        None
    }

    /// Registers `t`, replacing any transfer that already carries its
    /// id, as a map insert would.
    fn upsert(&mut self, t: FileTransfer)
        requires
            old(self).wf(),
            transfer_wf(t),
        ensures
            final(self).wf(),
            has_transfer(final(self)@, t.file_id@),
            lookup_transfer(final(self)@, t.file_id@) == t,
            forall|id: Seq<char>|
                id != t.file_id@ ==> (has_transfer(final(self)@, id) <==> has_transfer(
                    old(self)@,
                    id,
                )),
            forall|id: Seq<char>|
                id != t.file_id@ && has_transfer(old(self)@, id) ==> lookup_transfer(
                    final(self)@,
                    id,
                ) == lookup_transfer(old(self)@, id),
            final(self)@.len() == old(self)@.len() + (if has_transfer(old(self)@, t.file_id@) {
                0int
            } else {
                1int
            }),
    {
        let ghost prev = self@;
        let pos = self.find_index(t.file_id.as_str());
        let ghost tid = t.file_id@;
        match pos {
            Some(i) => {
                proof {
                    lemma_transfer_index(prev, tid, i as int);
                }
                self.transfers[i] = t;
                proof {
                    lemma_transfer_index(self@, tid, i as int);
                    assert forall|id: Seq<char>| id != tid implies (has_transfer(self@, id)
                        <==> has_transfer(prev, id)) by {
                        if has_transfer(self@, id) {
                            let k = choose|k: int|
                                0 <= k < self@.len() && self@[k].file_id@ == id;
                            assert(prev[k].file_id@ == id);
                        }
                        if has_transfer(prev, id) {
                            let k = choose|k: int| 0 <= k < prev.len() && prev[k].file_id@ == id;
                            assert(self@[k].file_id@ == id);
                        }
                    }
                    assert forall|id: Seq<char>|
                        id != tid && has_transfer(prev, id) implies lookup_transfer(self@, id)
                        == lookup_transfer(prev, id) by {
                        let k = choose|k: int| 0 <= k < prev.len() && prev[k].file_id@ == id;
                        lemma_transfer_index(prev, id, k);
                        assert(self@[k] == prev[k]);
                        lemma_transfer_index(self@, id, k);
                    }
                }
            },
            None => {
                self.transfers.push(t);
                proof {
                    assert(self@ == prev.push(t));
                    lemma_transfer_index(self@, tid, prev.len() as int);
                    assert forall|id: Seq<char>| id != tid implies (has_transfer(self@, id)
                        <==> has_transfer(prev, id)) by {
                        if has_transfer(self@, id) {
                            let k = choose|k: int|
                                0 <= k < self@.len() && self@[k].file_id@ == id;
                            assert(k < prev.len());
                            assert(prev[k].file_id@ == id);
                        }
                        if has_transfer(prev, id) {
                            let k = choose|k: int| 0 <= k < prev.len() && prev[k].file_id@ == id;
                            assert(self@[k].file_id@ == id);
                        }
                    }
                    assert forall|id: Seq<char>|
                        id != tid && has_transfer(prev, id) implies lookup_transfer(self@, id)
                        == lookup_transfer(prev, id) by {
                        let k = choose|k: int| 0 <= k < prev.len() && prev[k].file_id@ == id;
                        lemma_transfer_index(prev, id, k);
                        assert(self@[k] == prev[k]);
                        lemma_transfer_index(self@, id, k);
                    }
                }
            },
        }
    }

    /// Registers a sink transfer: partitions `[0, total_size)` into
    /// pending chunks and records where received data is written.
    /// Returns the new transfer's id.
    pub fn start_transfer(&mut self, file_name: String, total_size: u64, output_path: String) -> (r:
        String)
        requires
            old(self).wf(),
        ensures
            final(self).wf(),
            has_transfer(final(self)@, r@),
            ({
                let t = lookup_transfer(final(self)@, r@);
                &&& t.file_id@ == r@
                &&& t.file_name == file_name
                &&& t.total_size == total_size
                &&& is_partition(t.chunks@, total_size)
                &&& forall|i: int|
                    0 <= i < t.chunks@.len() ==> (#[trigger] t.chunks@[i]).status is Pending
                        && t.chunks@[i].hash is None
                &&& t.output_path == output_path
                &&& t.source_path is None
            }),
            forall|id: Seq<char>|
                id != r@ ==> (has_transfer(final(self)@, id) <==> has_transfer(old(self)@, id)),
            forall|id: Seq<char>|
                id != r@ && has_transfer(old(self)@, id) ==> lookup_transfer(final(self)@, id)
                    == lookup_transfer(old(self)@, id),
    {
        let file_id = new_transfer_id();
        let chunks = self.calculate_chunks(total_size);
        let transfer = FileTransfer {
            file_id: file_id.clone(),
            file_name,
            total_size,
            chunks,
            output_path,
            source_path: None,
        };
        self.upsert(transfer);
        file_id
    }

    /// Registers a source transfer: the same partitioning, but the
    /// transfer serves reads from an existing local file instead of
    /// receiving writes. Returns the new transfer's id.
    pub fn register_source_file(&mut self, path: String, total_size: u64) -> (r: String)
        requires
            old(self).wf(),
        ensures
            final(self).wf(),
            has_transfer(final(self)@, r@),
            ({
                let t = lookup_transfer(final(self)@, r@);
                &&& t.file_id@ == r@
                &&& t.file_name@ == "source"@
                &&& t.total_size == total_size
                &&& is_partition(t.chunks@, total_size)
                &&& forall|i: int|
                    0 <= i < t.chunks@.len() ==> (#[trigger] t.chunks@[i]).status is Pending
                        && t.chunks@[i].hash is None
                &&& t.output_path@ == Seq::<char>::empty()
                &&& t.source_path == Some(path)
            }),
            forall|id: Seq<char>|
                id != r@ ==> (has_transfer(final(self)@, id) <==> has_transfer(old(self)@, id)),
            forall|id: Seq<char>|
                id != r@ && has_transfer(old(self)@, id) ==> lookup_transfer(final(self)@, id)
                    == lookup_transfer(old(self)@, id),
    {
        let file_id = new_transfer_id();
        let chunks = self.calculate_chunks(total_size);
        let transfer = FileTransfer {
            file_id: file_id.clone(),
            file_name: "source".to_owned(),
            total_size,
            chunks,
            output_path: String::new(),
            source_path: Some(path),
        };
        self.upsert(transfer);
        file_id
    }

    /// How many transfers are registered.
    pub fn get_active_transfers(&self) -> (r: usize)
        ensures
            r == self@.len(),
    {
        self.transfers.len()
    }

    /// Where chunk `index` of the transfer is read from: the backing
    /// file (the source path, or the output path when no source path
    /// is set) and the chunk's byte window. `None` exactly when the
    /// transfer or the chunk does not exist.
    pub fn read_chunk_plan(&self, file_id: &str, index: u64) -> (r: Option<ChunkIo>)
        requires
            self.wf(),
        ensures
            r is Some <==> has_transfer(self@, file_id@) && index < lookup_transfer(
                self@,
                file_id@,
            ).chunks@.len(),
            r matches Some(io) ==> {
                let t = lookup_transfer(self@, file_id@);
                let c = t.chunks@[index as int];
                &&& io.start == c.start
                &&& io.len == c.end - c.start
                &&& io.path@ == match t.source_path {
                    Some(p) => p@,
                    None => t.output_path@,
                }
            },
    {
        let i = match self.find_index(file_id) {
            Some(i) => i,
            None => {
                return None;
            },
        };
        proof {
            lemma_transfer_index(self@, file_id@, i as int);
        }
        let t = &self.transfers[i];
        if index >= t.chunks.len() as u64 {
            return None;
        }
        let c = &t.chunks[index as usize];
        proof {
            lemma_partition_sizes(t.chunks@, t.total_size, index as int);
        }
        let path = match &t.source_path {
            Some(p) => p.clone(),
            None => t.output_path.clone(),
        };
        Some(ChunkIo { path, start: c.start, len: c.end - c.start })
    }

    /// Where chunk `index` of the transfer is written to: the output
    /// path and the chunk's byte window. `None` exactly when the
    /// transfer or the chunk does not exist.
    pub fn write_chunk_plan(&self, file_id: &str, index: u64) -> (r: Option<ChunkIo>)
        requires
            self.wf(),
        ensures
            r is Some <==> has_transfer(self@, file_id@) && index < lookup_transfer(
                self@,
                file_id@,
            ).chunks@.len(),
            r matches Some(io) ==> {
                let t = lookup_transfer(self@, file_id@);
                let c = t.chunks@[index as int];
                &&& io.start == c.start
                &&& io.len == c.end - c.start
                &&& io.path@ == t.output_path@
            },
    {
        let i = match self.find_index(file_id) {
            Some(i) => i,
            None => {
                return None;
            },
        };
        proof {
            lemma_transfer_index(self@, file_id@, i as int);
        }
        let t = &self.transfers[i];
        if index >= t.chunks.len() as u64 {
            return None;
        }
        let c = &t.chunks[index as usize];
        proof {
            lemma_partition_sizes(t.chunks@, t.total_size, index as int);
        }
        Some(ChunkIo { path: t.output_path.clone(), start: c.start, len: c.end - c.start })
    }

    /// Marks chunk `index` of the transfer `Completed`. When the
    /// transfer or the chunk does not exist, nothing changes.
    pub fn mark_chunk_completed(&mut self, file_id: &str, index: u64)
        requires
            old(self).wf(),
        ensures
            final(self).wf(),
            final(self)@.len() == old(self)@.len(),
            !(has_transfer(old(self)@, file_id@) && index < lookup_transfer(
                old(self)@,
                file_id@,
            ).chunks@.len()) ==> final(self)@ == old(self)@,
            has_transfer(old(self)@, file_id@) && index < lookup_transfer(
                old(self)@,
                file_id@,
            ).chunks@.len() ==> {
                let pos = transfer_index(old(self)@, file_id@);
                let t = old(self)@[pos];
                let t2 = final(self)@[pos];
                &&& forall|k: int| 0 <= k < old(self)@.len() && k != pos ==> final(self)@[k]
                    == old(self)@[k]
                &&& t2.file_id == t.file_id
                &&& t2.file_name == t.file_name
                &&& t2.total_size == t.total_size
                &&& t2.output_path == t.output_path
                &&& t2.source_path == t.source_path
                &&& t2.chunks@ == t.chunks@.update(
                    index as int,
                    (Chunk { status: ChunkStatus::Completed, ..t.chunks@[index as int] }),
                )
            },
    {
        let i = match self.find_index(file_id) {
            Some(i) => i,
            None => {
                return ;
            },
        };
        proof {
            lemma_transfer_index(self@, file_id@, i as int);
        }
        if index >= self.transfers[i].chunks.len() as u64 {
            return ;
        }
        let j = index as usize;
        let ghost prev = self@;
        self.transfers[i].chunks[j].status = ChunkStatus::Completed;
        proof {
            lemma_mark_update_wf(prev, self@, i as int, j as int);
        }
    }

    /// Scans the transfer's chunks in index order for the first
    /// `Pending` one, marks it `Downloading(peer_id)`, and returns it.
    /// `None` exactly when the transfer does not exist or no chunk is
    /// `Pending`; nothing changes in that case.
    pub fn assign_chunk(&mut self, file_id: &str, peer_id: String) -> (r: Option<Chunk>)
        requires
            old(self).wf(),
        ensures
            final(self).wf(),
            r is Some <==> has_transfer(old(self)@, file_id@) && exists|k: int|
                0 <= k < lookup_transfer(old(self)@, file_id@).chunks@.len() && (
                #[trigger] lookup_transfer(old(self)@, file_id@).chunks@[k]).status is Pending,
            r matches Some(c) ==> {
                let pos = transfer_index(old(self)@, file_id@);
                let t = old(self)@[pos];
                let t2 = final(self)@[pos];
                let k = c.index as int;
                &&& 0 <= k < t.chunks@.len()
                &&& t.chunks@[k].status is Pending
                &&& forall|m: int| 0 <= m < k ==> !((#[trigger] t.chunks@[m]).status is Pending)
                &&& c == (Chunk {
                    status: ChunkStatus::Downloading(peer_id),
                    ..t.chunks@[k]
                })
                &&& final(self)@.len() == old(self)@.len()
                &&& forall|m: int| 0 <= m < old(self)@.len() && m != pos ==> final(self)@[m]
                    == old(self)@[m]
                &&& t2.file_id == t.file_id
                &&& t2.file_name == t.file_name
                &&& t2.total_size == t.total_size
                &&& t2.output_path == t.output_path
                &&& t2.source_path == t.source_path
                &&& t2.chunks@ == t.chunks@.update(k, c)
            },
            r is None ==> final(self)@ == old(self)@,
    {
        let i = match self.find_index(file_id) {
            Some(i) => i,
            None => {
                return None;
            },
        };
        proof {
            lemma_transfer_index(self@, file_id@, i as int);
        }
        let n = self.transfers[i].chunks.len();
        let mut j: usize = 0;
        while j < n
            invariant
                j <= n,
                self.wf(),
                self@ == old(self)@,
                i < self@.len(),
                self@[i as int].file_id@ == file_id@,
                n == self@[i as int].chunks@.len(),
                forall|m: int|
                    0 <= m < j ==> !((#[trigger] self@[i as int].chunks@[m]).status is Pending),
            decreases n - j,
        {
            let pending = match &self.transfers[i].chunks[j].status {
                ChunkStatus::Pending => true,
                _ => false,
            };
            if pending {
                let ghost prev = self@;
                self.transfers[i].chunks[j].status = ChunkStatus::Downloading(peer_id);
                let c = self.transfers[i].chunks[j].clone();
                proof {
                    lemma_transfer_index(prev, file_id@, i as int);
                    lemma_mark_update_wf(prev, self@, i as int, j as int);
                    assert(self@[i as int].chunks@ =~= prev[i as int].chunks@.update(
                        j as int,
                        (Chunk {
                            status: ChunkStatus::Downloading(peer_id),
                            ..prev[i as int].chunks@[j as int]
                        }),
                    ));
                }
                return Some(c);
            }
            j = j + 1;
        }
        proof {
            lemma_transfer_index(self@, file_id@, i as int);
        }
        None
    }

    /// Partition `[0, total_size)` into `CHUNK_SIZE` chunks, the last
    /// truncated to the remainder, all `Pending` and without a hash.
    pub fn calculate_chunks(&self, total_size: u64) -> (r: Vec<Chunk>)
        ensures
            is_partition(r@, total_size),
            forall|i: int|
                0 <= i < r@.len() ==> (#[trigger] r@[i]).status is Pending && r@[i].hash is None,
    {
        let mut chunks: Vec<Chunk> = Vec::new();
        let mut start: u64 = 0;
        let mut index: u64 = 0;
        while start < total_size
            invariant
                index == chunks@.len(),
                start == if index * (CHUNK_SIZE as int) <= total_size {
                    index * (CHUNK_SIZE as int)
                } else {
                    total_size as int
                },
                index == 0 || (index - 1) * (CHUNK_SIZE as int) < total_size,
                forall|i: int|
                    0 <= i < chunks@.len() ==> chunk_bounds_ok(#[trigger] chunks@[i], i, total_size),
                forall|i: int|
                    0 <= i < chunks@.len() ==> (#[trigger] chunks@[i]).status is Pending
                        && chunks@[i].hash is None,
            decreases total_size - start,
        {
            proof {
                assert((index + 1) * (CHUNK_SIZE as int) == index * (CHUNK_SIZE as int)
                    + (CHUNK_SIZE as int)) by (nonlinear_arith);
            }
            let remaining = total_size - start;
            let end = if remaining > CHUNK_SIZE {
                start + CHUNK_SIZE
            } else {
                total_size
            };
            chunks.push(Chunk { index, start, end, status: ChunkStatus::Pending, hash: None });
            start = end;
            index = index + 1;
        }
        chunks
    }
}


impl Default for ChunkManager {
    fn default() -> (r: Self)
        ensures
            r@ == Seq::<FileTransfer>::empty(),
            r.wf(),
    {
        ChunkManager::new()
    }
}

/// The content of a file after `data` is written at offset `start`:
/// the window `[start, start + data.len())` holds `data`, bytes outside
/// it are unchanged, and a gap between the old end of the file and
/// `start` is zero-filled, as a write past the end of a file leaves it.
pub open spec fn spec_write_window(file: Seq<u8>, start: int, data: Seq<u8>) -> Seq<u8> {
    let end = start + data.len();
    let n = if file.len() > end {
        file.len() as int
    } else {
        end
    };
    Seq::new(
        n as nat,
        |i: int|
            if start <= i < end {
                data[i - start]
            } else if i < file.len() {
                file[i]
            } else {
                0u8
            },
    )
}

/// What an exact read of `len` bytes at offset `start` returns: the
/// window's bytes, or nothing when the file is too short.
pub open spec fn spec_read_window(file: Seq<u8>, start: int, len: int) -> Option<Seq<u8>> {
    if 0 <= start && 0 <= len && start + len <= file.len() {
        Some(file.subrange(start, start + len))
    } else {
        None
    }
}

/// Writes `data` at offset `start` of the in-memory file, growing it
/// (zero-filling any gap) as needed.
pub fn write_window(file: &mut Vec<u8>, start: usize, data: &Vec<u8>)
    requires
        start + data@.len() <= usize::MAX,
    ensures
        final(file)@ == spec_write_window(old(file)@, start as int, data@),
{
    let ghost orig = file@;
    while file.len() < start
        invariant
            orig.len() >= start ==> file@ == orig,
            orig.len() < start ==> file@.len() <= start && file@ == orig + Seq::new(
                (file@.len() - orig.len()) as nat,
                |i: int| 0u8,
            ),
        decreases start - file.len(),
    {
        file.push(0);
    }
    let ghost padded = file@;
    let n = data.len();
    let mut i: usize = 0;
    while i < n
        invariant
            i <= n,
            n == data@.len(),
            start + n <= usize::MAX,
            padded.len() >= start,
            file@.len() == if padded.len() > start + i {
                padded.len() as int
            } else {
                start + i
            },
            forall|j: int| start <= j < start + i ==> file@[j] == data@[j - start],
            forall|j: int| 0 <= j < start ==> file@[j] == padded[j],
            forall|j: int| start + i <= j < padded.len() ==> file@[j] == padded[j],
        decreases n - i,
    {
        if start + i < file.len() {
            file[start + i] = data[i];
        } else {
            file.push(data[i]);
        }
        i = i + 1;
    }
    proof {
        let w = spec_write_window(orig, start as int, data@);
        assert(file@.len() == w.len());
        assert forall|j: int| 0 <= j < w.len() implies file@[j] == w[j] by {
            if start <= j < start + n {
            } else if j < padded.len() {
                assert(file@[j] == padded[j]);
                if orig.len() < start {
                    assert(padded[j] == (orig + Seq::new((padded.len() - orig.len()) as nat, |k: int| 0u8))[j]);
                }
            }
        }
        assert(file@ =~= w);
    }
}

/// Reads exactly `len` bytes at offset `start` of the in-memory file;
/// `None` when the file is too short, as a failed exact read.
pub fn read_window(file: &Vec<u8>, start: usize, len: usize) -> (r: Option<Vec<u8>>)
    ensures
        match r {
            Some(out) => spec_read_window(file@, start as int, len as int) == Some(out@),
            None => spec_read_window(file@, start as int, len as int) is None,
        },
{
    if start > file.len() || len > file.len() - start {
        return None;
    }
    let mut out: Vec<u8> = Vec::new();
    let mut i: usize = 0;
    while i < len
        invariant
            i <= len,
            start + len <= file@.len(),
            start + len <= usize::MAX,
            out@ == file@.subrange(start as int, start + i),
        decreases len - i,
    {
        out.push(file[start + i]);
        proof {
            assert(out@ =~= file@.subrange(start as int, start + i + 1));
        }
        i = i + 1;
    }
    proof {
        assert(out@ =~= file@.subrange(start as int, start + len));
    }
    Some(out)
}

/// Reading a window back right after writing it returns exactly the
/// bytes written, whatever the file held before.
pub proof fn lemma_write_then_read(file: Seq<u8>, start: int, data: Seq<u8>)
    requires
        0 <= start,
    ensures
        spec_read_window(spec_write_window(file, start, data), start, data.len() as int) == Some(
            data,
        ),
{
    let w = spec_write_window(file, start, data);
    assert(w.subrange(start, start + data.len()) =~= data);
}


/// Writing chunk `k`'s bytes to a sink and then reading chunk `k`
/// through a source of the same total size returns exactly the bytes
/// written: the two partitions agree on the window, and the read sees
/// what the write put there.
pub proof fn lemma_chunk_round_trip(
    file: Seq<u8>,
    sink: Seq<Chunk>,
    source: Seq<Chunk>,
    total_size: u64,
    k: int,
    data: Seq<u8>,
)
    requires
        is_partition(sink, total_size),
        is_partition(source, total_size),
        0 <= k < sink.len(),
        data.len() == sink[k].end - sink[k].start,
    ensures
        spec_read_window(
            spec_write_window(file, sink[k].start as int, data),
            source[k].start as int,
            source[k].end - source[k].start,
        ) == Some(data),
{
    lemma_matching_geometry(sink, source, total_size, k);
    lemma_write_then_read(file, sink[k].start as int, data);
}

/// Two transfers of the same total size agree on every chunk's window:
/// the partition is a function of the size alone.
pub proof fn lemma_matching_geometry(a: Seq<Chunk>, b: Seq<Chunk>, total_size: u64, i: int)
    requires
        is_partition(a, total_size),
        is_partition(b, total_size),
        0 <= i < a.len(),
    ensures
        a.len() == b.len(),
        a[i].start == b[i].start,
        a[i].end == b[i].end,
{
}

} // verus!
