//! The transfer store: for each storage key, the chunks of the upload in
//! progress and the file assembled last. Requests reach one key only.

use std::collections::HashMap;
use vstd::prelude::*;

use crate::naming::{sanitize_file_name, sanitized};
use crate::transfer::{
    all_present, assemble_chunks, chunk_view, concat_chunks, range_of, slice_range, upload_step,
    RangeRead, TransferError, UploadStatus,
};

verus! {

/// What the store holds under one key.
pub struct FileEntry {
    name: String,
    chunks: HashMap<u64, Vec<u8>>,
    stored: Option<Vec<u8>>,
}

/// Uploads in progress and assembled files, each under its storage key.
pub struct TransferStore {
    entries: Vec<FileEntry>,
}

/// The entry last in `s` whose key is `key`.
spec fn lookup(s: Seq<FileEntry>, key: Seq<char>) -> Option<FileEntry>
    decreases s.len(),
{
    if s.len() == 0 {
        None
    } else if s.last().name@ == key {
        Some(s.last())
    } else {
        lookup(s.drop_last(), key)
    }
}

spec fn keys_unique(s: Seq<FileEntry>) -> bool {
    forall|i: int, j: int| 0 <= i < j < s.len() ==> s[i].name@ != s[j].name@
}

proof fn lemma_lookup_push(s: Seq<FileEntry>, e: FileEntry, key: Seq<char>)
    ensures
        lookup(s.push(e), key) == if e.name@ == key { Some(e) } else { lookup(s, key) },
{
    assert(s.push(e).drop_last() =~= s);
}

proof fn lemma_lookup_absent(s: Seq<FileEntry>, key: Seq<char>)
    requires
        forall|i: int| 0 <= i < s.len() ==> s[i].name@ != key,
    ensures
        lookup(s, key) is None,
    decreases s.len(),
{
    if s.len() > 0 {
        lemma_lookup_absent(s.drop_last(), key);
    }
}

proof fn lemma_lookup_found(s: Seq<FileEntry>, i: int)
    requires
        keys_unique(s),
        0 <= i < s.len(),
    ensures
        lookup(s, s[i].name@) == Some(s[i]),
    decreases s.len(),
{
    if i < s.len() - 1 {
        lemma_lookup_found(s.drop_last(), i);
    }
}

proof fn lemma_lookup_update(s: Seq<FileEntry>, i: int, e: FileEntry, key: Seq<char>)
    requires
        0 <= i < s.len(),
        e.name@ == s[i].name@,
        key != e.name@,
    ensures
        lookup(s.update(i, e), key) == lookup(s, key),
    decreases s.len(),
{
    if i < s.len() - 1 {
        assert(s.update(i, e).drop_last() =~= s.drop_last().update(i, e));
        lemma_lookup_update(s.drop_last(), i, e, key);
    } else {
        assert(s.update(i, e).drop_last() =~= s.drop_last());
    }
}

/// A chunk request names a key that is neither empty nor `.` (which would name
/// the upload root itself), carries bytes, and gives an index below the
/// declared chunk count.
pub open spec fn chunk_request_valid(
    file_name: Seq<char>,
    chunk_number: u64,
    total_chunks: u64,
    chunk: Seq<u8>,
) -> bool {
    &&& sanitized(file_name).len() > 0
    &&& sanitized(file_name) != seq!['.']
    &&& chunk.len() > 0
    &&& chunk_number < total_chunks
}

impl TransferStore {
    pub closed spec fn wf(&self) -> bool {
        keys_unique(self.entries@)
    }

    /// The chunks received so far for the upload in progress under `key`.
    pub closed spec fn pending(&self, key: Seq<char>) -> Map<u64, Seq<u8>> {
        match lookup(self.entries@, key) {
            Some(e) => chunk_view(e.chunks@),
            None => Map::empty(),
        }
    }

    /// The file assembled last under `key`, if any.
    pub closed spec fn stored(&self, key: Seq<char>) -> Option<Seq<u8>> {
        match lookup(self.entries@, key) {
            Some(e) => match e.stored {
                Some(v) => Some(v@),
                None => None,
            },
            None => None,
        }
    }

    /// An empty store.
    pub fn new() -> (r: TransferStore)
        ensures
            r.wf(),
            forall|k: Seq<char>| #[trigger] r.pending(k) == Map::<u64, Seq<u8>>::empty(),
            forall|k: Seq<char>| #[trigger] r.stored(k) is None,
    {
        TransferStore { entries: Vec::new() }
    }

    /// Takes one chunk of an upload of `file_name` and holds it at index
    /// `chunk_number`, in place of any chunk held there before. When every index
    /// below `total_chunks` then holds a chunk, the file is assembled in index
    /// order, stored under the name's key, and the chunks are dropped.
    pub fn receive_chunk(
        &mut self,
        file_name: &str,
        chunk_number: u64,
        total_chunks: u64,
        chunk: Vec<u8>,
    ) -> (r: Result<UploadStatus, TransferError>)
        requires
            old(self).wf(),
        ensures
            final(self).wf(),
            r == Err::<UploadStatus, TransferError>(TransferError::Validation) <==> !chunk_request_valid(
                file_name@,
                chunk_number,
                total_chunks,
                chunk@,
            ),
            r is Err ==> *final(self) == *old(self),
            chunk_request_valid(file_name@, chunk_number, total_chunks, chunk@) ==> ({
                let key = sanitized(file_name@);
                let m = old(self).pending(key).insert(chunk_number, chunk@);
                if all_present(m, total_chunks as nat) {
                    &&& r == Ok::<UploadStatus, TransferError>(UploadStatus::Assembled)
                    &&& final(self).pending(key) == Map::<u64, Seq<u8>>::empty()
                    &&& final(self).stored(key) == Some(concat_chunks(m, total_chunks as nat))
                } else {
                    &&& r == Ok::<UploadStatus, TransferError>(UploadStatus::Pending)
                    &&& final(self).pending(key) == m
                    &&& final(self).stored(key) == old(self).stored(key)
                }
            }),
            chunk_request_valid(file_name@, chunk_number, total_chunks, chunk@) ==> (
            final(self).pending(sanitized(file_name@)),
            final(self).stored(sanitized(file_name@)),
            ) == upload_step(
                (old(self).pending(sanitized(file_name@)), old(self).stored(sanitized(file_name@))),
                chunk_number,
                chunk@,
                total_chunks as nat,
            ),
            forall|k: Seq<char>|
                k != sanitized(file_name@) ==> #[trigger] final(self).pending(k) == old(self).pending(k)
                    && final(self).stored(k) == old(self).stored(k),
    {
        let key = sanitize_file_name(file_name);
        let key_len = key.as_str().unicode_len();
        if key_len == 0 || (key_len == 1 && key.as_str().get_char(0) == '.') || chunk.len() == 0
            || chunk_number >= total_chunks {
            proof {
                if key_len == 1 && key@[0] == '.' {
                    assert(key@ =~= seq!['.']);
                }
            }
            return Err(TransferError::Validation);
        }
        let ghost old_entries = self.entries@;
        let idx = match self.find(&key) {
            Some(i) => i,
            None => {
                let fresh = FileEntry { name: key, chunks: HashMap::new(), stored: None };
                proof {
                    lemma_lookup_absent(old_entries, key@);
                    assert forall|k: Seq<char>| #[trigger] lookup(old_entries.push(fresh), k) == if k == key@ { Some(fresh) } else { lookup(old_entries, k) } by {
                        lemma_lookup_push(old_entries, fresh, k);
                    }
                    assert(chunk_view(fresh.chunks@) =~= Map::<u64, Seq<u8>>::empty());
                }
                self.entries.push(fresh);
                self.entries.len() - 1
            },
        };
        let ghost mid = self.entries@;
        assert(keys_unique(mid));
        assert(forall|k: Seq<char>| #[trigger] self.pending(k) == old(self).pending(k));
        assert(forall|k: Seq<char>| #[trigger] self.stored(k) == old(self).stored(k));
        let mut e = self.entries.remove(idx);
        let ghost m0 = chunk_view(e.chunks@);
        proof {
            lemma_lookup_found(mid, idx as int);
        }
        e.chunks.insert(chunk_number, chunk);
        assert(chunk_view(e.chunks@) =~= m0.insert(chunk_number, chunk@));
        let status = match assemble_chunks(&e.chunks, total_chunks) {
            Ok(out) => {
                e.stored = Some(out);
                e.chunks = HashMap::new();
                assert(chunk_view(e.chunks@) =~= Map::<u64, Seq<u8>>::empty());
                UploadStatus::Assembled
            },
            Err(_) => UploadStatus::Pending,
        };
        self.entries.insert(idx, e);
        proof {
            assert(self.entries@ =~= mid.update(idx as int, e));
            assert(keys_unique(self.entries@));
            lemma_lookup_found(self.entries@, idx as int);
            assert forall|k: Seq<char>| k != key@ implies #[trigger] lookup(self.entries@, k) == lookup(mid, k) by {
                lemma_lookup_update(mid, idx as int, e, k);
            }
        }
        Ok(status)
    }

    /// Up to `chunk_size` bytes of the file stored under `file_name`'s key,
    /// from `offset`; `NoContent` where the range holds no byte.
    pub fn read_range(&self, file_name: &str, offset: u64, chunk_size: u64) -> (r: Result<
        RangeRead,
        TransferError,
    >)
        requires
            self.wf(),
        ensures
            self.stored(sanitized(file_name@)) is None <==> r == Err::<RangeRead, TransferError>(
                TransferError::NotFound,
            ),
            self.stored(sanitized(file_name@)) matches Some(d) ==> r matches Ok(rr) && (rr is NoContent
                <==> range_of(d, offset as nat, chunk_size as nat).len() == 0) && (rr matches RangeRead::Bytes(
                b,
            ) ==> b@ == range_of(d, offset as nat, chunk_size as nat)),
    {
        match self.stored_file(file_name) {
            Some(data) => Ok(slice_range(data, offset, chunk_size)),
            None => Err(TransferError::NotFound),
        }
    }

    /// The file stored under `file_name`'s key, if any.
    pub fn stored_file(&self, file_name: &str) -> (r: Option<&Vec<u8>>)
        requires
            self.wf(),
        ensures
            match r {
                Some(v) => self.stored(sanitized(file_name@)) == Some(v@),
                None => self.stored(sanitized(file_name@)) is None,
            },
    {
        let key = sanitize_file_name(file_name);
        match self.find(&key) {
            Some(i) => {
                proof {
                    lemma_lookup_found(self.entries@, i as int);
                }
                match &self.entries[i].stored {
                    Some(v) => Some(v),
                    None => None,
                }
            },
            None => {
                proof {
                    lemma_lookup_absent(self.entries@, key@);
                }
                None
            },
        }
    }

    fn find(&self, key: &String) -> (r: Option<usize>)
        ensures
            r matches Some(i) ==> i < self.entries@.len() && self.entries@[i as int].name@ == key@,
            r is None ==> forall|i: int| 0 <= i < self.entries@.len() ==> #[trigger] self.entries@[i].name@ != key@,
    {
        let mut i: usize = 0;
        while i < self.entries.len()
            invariant
                i <= self.entries@.len(),
                forall|j: int| 0 <= j < i ==> #[trigger] self.entries@[j].name@ != key@,
            decreases self.entries@.len() - i,
        {
            if self.entries[i].name == *key {
                return Some(i);
            }
            i += 1;
        }
        None
    }
}

} // verus!
