//! Laying out what a scan of a tree found as the segments of an archive.

use vstd::prelude::*;
use crate::archive::{total_len, Index};
use crate::laws::lemma_blocks_aligned;
use crate::segment::{pieces_of, Piece, Segment, TAR_BLOCK_SIZE};

verus! {

/// The modification time that every header carries: the epoch.
pub const FIXED_MTIME: u64 = 0;

/// The bits of a mode that a header keeps: read, write and execute for
/// owner, group and others.
pub const PERMISSION_BITS: u32 = 0o777;

/// The ustar type flag of a regular file, `'0'`.
pub const REGULAR_TYPE: u8 = 48;

/// The ustar type flag of a directory, `'5'`.
pub const DIRECTORY_TYPE: u8 = 53;

/// The length of the end-of-archive marker: two zero blocks.
pub const TERMINATOR_SIZE: u64 = 1024;

/// One thing a scan of the tree found: a regular file or a directory.
#[derive(Debug, Clone)]
pub struct Entry {
    /// The path in the archive, relative to the scan's root.
    pub path: String,
    /// The file's length in bytes when it was scanned.
    pub size: u64,
    /// The mode bits that the file system reports.
    pub mode: u32,
    pub is_dir: bool,
    /// The number under which the opened file is read later; `None` where
    /// it could not be opened, and for a directory.
    pub file: Option<usize>,
}

/// The fields of one ustar header.
pub struct HeaderFields {
    pub path: String,
    pub size: u64,
    pub mode: u32,
    pub mtime: u64,
    pub uid: u64,
    pub gid: u64,
    pub type_flag: u8,
}

/// The ustar header block that tar encodes for these fields.
pub uninterp spec fn ustar_header(
    path: Seq<char>,
    size: u64,
    mode: u32,
    mtime: u64,
    uid: u64,
    gid: u64,
    type_flag: u8,
) -> Seq<u8>;

/// Whether tar's `set_path` takes `path` for a ustar header (it refuses,
/// for instance, one too long for the name and prefix fields, or an
/// absolute one); it depends on the path alone.
pub uninterp spec fn ustar_path_ok(path: Seq<char>) -> bool;

/// Relies on tar's `Header::new_ustar`, its field setters and `set_cksum`:
/// the 512-byte header block for `f`, or `None` exactly where `set_path`
/// refuses the path; the other setters always succeed.
#[verifier::external_body]
fn encode_header(f: &HeaderFields) -> (r: Option<Vec<u8>>)
    ensures
        r matches Some(b) ==> b@ == ustar_header(
            f.path@,
            f.size,
            f.mode,
            f.mtime,
            f.uid,
            f.gid,
            f.type_flag,
        ) && b@.len() == 512,
        r is Some <==> ustar_path_ok(f.path@),
{
    let mut h = tar::Header::new_ustar();
    h.set_path(&f.path).ok()?;
    h.set_size(f.size);
    h.set_mode(f.mode);
    h.set_mtime(f.mtime);
    h.set_uid(f.uid);
    h.set_gid(f.gid);
    h.set_entry_type(tar::EntryType::new(f.type_flag));
    h.set_cksum();
    Some(h.as_bytes().to_vec())
}

/// The entry takes a place in the archive: a directory, or a file that
/// could be opened.
pub open spec fn included(e: Entry) -> bool {
    e.is_dir || e.file is Some
}

/// The header block of `e` under the deterministic policy: owner and group
/// 0, a fixed time, the permission bits of the mode alone, and no content
/// for a directory.
pub open spec fn header_of(e: Entry) -> Seq<u8> {
    ustar_header(
        e.path@,
        if e.is_dir { 0 } else { e.size },
        e.mode & PERMISSION_BITS,
        FIXED_MTIME,
        0,
        0,
        if e.is_dir { DIRECTORY_TYPE } else { REGULAR_TYPE },
    )
}

/// The zero bytes that round `size` up to a whole number of blocks.
pub open spec fn padding(size: u64) -> Seq<Piece> {
    if size % TAR_BLOCK_SIZE == 0 {
        Seq::empty()
    } else {
        seq![Piece::Zeroes((TAR_BLOCK_SIZE - size % TAR_BLOCK_SIZE) as u64)]
    }
}

/// The pieces of one entry with header block `header`: nothing for a file
/// that could not be opened, the header alone for a directory, and for a
/// file its header, its content and the padding after it.
pub open spec fn entry_pieces(e: Entry, header: Seq<u8>) -> Seq<Piece> {
    if e.is_dir {
        seq![Piece::Bytes(header)]
    } else {
        match e.file {
            Some(f) => seq![Piece::Bytes(header), Piece::File { file: f, size: e.size }] + padding(
                e.size,
            ),
            None => Seq::empty(),
        }
    }
}

/// The pieces of all entries, entry `i` with header block `headers[i]`.
pub open spec fn entries_pieces(entries: Seq<Entry>, headers: Seq<Seq<u8>>) -> Seq<Piece>
    decreases entries.len(),
{
    if entries.len() == 0 {
        Seq::empty()
    } else {
        entries_pieces(entries.drop_last(), headers) + entry_pieces(
            entries.last(),
            headers[entries.len() - 1],
        )
    }
}

/// The whole archive: the entries, then the end-of-archive marker.
pub open spec fn layout(entries: Seq<Entry>, headers: Seq<Seq<u8>>) -> Seq<Piece> {
    entries_pieces(entries, headers) + seq![Piece::Zeroes(TERMINATOR_SIZE)]
}

/// The zero bytes after a content of `size` bytes.
pub open spec fn pad_len(size: u64) -> nat {
    if size % TAR_BLOCK_SIZE == 0 {
        0
    } else {
        (TAR_BLOCK_SIZE - size % TAR_BLOCK_SIZE) as nat
    }
}

/// The bytes one entry takes in the archive: none where it takes no place,
/// a header block for a directory, and for a file a header block and its
/// content rounded up to whole blocks.
pub open spec fn entry_len(e: Entry) -> nat {
    if !included(e) {
        0
    } else if e.is_dir {
        TAR_BLOCK_SIZE as nat
    } else {
        (TAR_BLOCK_SIZE + e.size + pad_len(e.size)) as nat
    }
}

/// The bytes all entries take, end to end.
pub open spec fn entries_len(entries: Seq<Entry>) -> nat
    decreases entries.len(),
{
    if entries.len() == 0 {
        0
    } else {
        entries_len(entries.drop_last()) + entry_len(entries.last())
    }
}

/// The archive's length: the entries, then the end-of-archive marker.
pub open spec fn archive_len(entries: Seq<Entry>) -> nat {
    (entries_len(entries) + TERMINATOR_SIZE) as nat
}

/// Every entry that takes a place has a path that a ustar header takes.
pub open spec fn paths_encodable(entries: Seq<Entry>) -> bool {
    forall|i: int| 0 <= i < entries.len() && included(entries[i]) ==> ustar_path_ok(#[trigger] entries[i].path@)
}

/// The header block of each entry that takes a place; nothing for the others.
pub open spec fn headers_of(entries: Seq<Entry>) -> Seq<Seq<u8>> {
    Seq::new(
        entries.len(),
        |i: int| if included(entries[i]) { header_of(entries[i]) } else { Seq::empty() },
    )
}

/// Why an index could not be built.
#[derive(Debug, PartialEq, Eq)]
pub enum ScanError {
    /// An entry's header could not be encoded.
    HeaderEncoding,
    /// The archive would be longer than a `u64` counts.
    TooLarge,
}

/// The header fields of `entry` under the deterministic policy.
pub fn header_fields(entry: &Entry) -> (r: HeaderFields)
    ensures
        r.path@ == entry.path@,
        r.size == if entry.is_dir { 0 } else { entry.size },
        r.mode == entry.mode & PERMISSION_BITS,
        r.mtime == FIXED_MTIME,
        r.uid == 0,
        r.gid == 0,
        r.type_flag == if entry.is_dir { DIRECTORY_TYPE } else { REGULAR_TYPE },
{
    HeaderFields {
        path: entry.path.clone(),
        size: if entry.is_dir { 0 } else { entry.size },
        mode: entry.mode & PERMISSION_BITS,
        mtime: FIXED_MTIME,
        uid: 0,
        gid: 0,
        type_flag: if entry.is_dir { DIRECTORY_TYPE } else { REGULAR_TYPE },
    }
}


/// The byte sequences that `hs` hold.
pub open spec fn header_views(hs: Seq<Vec<u8>>) -> Seq<Seq<u8>> {
    hs.map_values(|h: Vec<u8>| h@)
}

/// What a scan found under `root`, in the order it found it.
#[derive(Debug)]
pub struct WriteIndex {
    root: String,
    entries: Vec<Entry>,
}

impl WriteIndex {
    pub closed spec fn root_spec(&self) -> Seq<char> {
        self.root@
    }

    pub closed spec fn entries_spec(&self) -> Seq<Entry> {
        self.entries@
    }

    pub fn new(root: String) -> (r: WriteIndex)
        ensures
            r.root_spec() == root@,
            r.entries_spec() == Seq::<Entry>::empty(),
    {
        WriteIndex { root, entries: Vec::new() }
    }

    pub fn root(&self) -> (r: &str)
        ensures
            r@ == self.root_spec(),
    {
        self.root.as_str()
    }

    pub fn add(&mut self, entry: Entry)
        ensures
            final(self).root_spec() == old(self).root_spec(),
            final(self).entries_spec() == old(self).entries_spec().push(entry),
    {
        self.entries.push(entry);
    }

    pub fn entries(&self) -> (r: &[Entry])
        ensures
            r@ == self.entries_spec(),
    {
        self.entries.as_slice()
    }
}

impl Index {
    /// The archive of `entries` under `root`, entry `i` with header block
    /// `headers[i]`: for each entry its pieces, then the end-of-archive
    /// marker; an error where its length does not fit in a `u64`.
    pub fn assemble(root: String, entries: &[Entry], headers: &[Vec<u8>]) -> (r: Result<
        Index,
        ScanError,
    >)
        requires
            headers@.len() == entries@.len(),
        ensures
            r matches Ok(index) ==> index.root_spec() == root@,
            r is Ok <==> total_len(layout(entries@, header_views(headers@))) <= u64::MAX,
            r matches Ok(index) ==> index.wf() && index.segs() == layout(
                entries@,
                header_views(headers@),
            ),
            r matches Err(e) ==> e == ScanError::TooLarge,
    {
        let ghost hv = header_views(headers@);
        let mut segments: Vec<Segment> = Vec::new();
        let mut i: usize = 0;
        while i < entries.len()
            invariant
                i <= entries@.len(),
                headers@.len() == entries@.len(),
                hv == header_views(headers@),
                pieces_of(segments@) == entries_pieces(entries@.take(i as int), hv),
            decreases entries@.len() - i,
        {
            let e = &entries[i];
            proof {
                assert(entries@.take(i + 1).drop_last() =~= entries@.take(i as int));
            }
            if e.is_dir {
                let h = headers[i].clone();
                proof {
                    assert(h@ =~= hv[i as int]);
                }
                segments.push(Segment::Static(h));
            } else if let Some(f) = e.file {
                let h = headers[i].clone();
                proof {
                    assert(h@ =~= hv[i as int]);
                }
                segments.push(Segment::Static(h));
                segments.push(Segment::File { file: f, size: e.size });
                let rem = e.size % TAR_BLOCK_SIZE;
                if rem > 0 {
                    segments.push(Segment::Zeroes(TAR_BLOCK_SIZE - rem));
                }
            }
            proof {
                assert(pieces_of(segments@) =~= entries_pieces(entries@.take(i + 1), hv));
            }
            i = i + 1;
        }
        segments.push(Segment::Zeroes(TERMINATOR_SIZE));
        proof {
            assert(entries@.take(entries@.len() as int) =~= entries@);
            assert(pieces_of(segments@) =~= layout(entries@, hv));
        }
        match Index::from_segments(root, segments) {
            Some(index) => Ok(index),
            None => Err(ScanError::TooLarge),
        }
    }

    /// The archive of what `write` holds, each entry that takes a place with
    /// the header block that tar encodes for it. Fails, with
    /// `HeaderEncoding`, exactly where the path of such an entry cannot be
    /// encoded, and otherwise, with `TooLarge`, exactly where the archive
    /// would be longer than a `u64` counts.
    pub fn build(write: &WriteIndex) -> (r: Result<Index, ScanError>)
        ensures
            r is Ok <==> paths_encodable(write.entries_spec()) && archive_len(write.entries_spec())
                <= u64::MAX,
            r matches Err(e) ==> (e == ScanError::HeaderEncoding <==> !paths_encodable(
                write.entries_spec(),
            )),
            r matches Ok(index) ==> {
                &&& index.wf()
                &&& index.root_spec() == write.root_spec()
                &&& index.segs() == layout(write.entries_spec(), headers_of(write.entries_spec()))
                &&& total_len(index.segs()) == archive_len(write.entries_spec())
                &&& total_len(index.segs()) % (TAR_BLOCK_SIZE as nat) == 0
                &&& forall|i: int|
                    0 <= i < write.entries_spec().len() && included(write.entries_spec()[i])
                        ==> (#[trigger] header_of(write.entries_spec()[i])).len() == TAR_BLOCK_SIZE
            },
    {
        let entries = write.entries();
        let ghost all = headers_of(entries@);
        let mut headers: Vec<Vec<u8>> = Vec::new();
        let mut i: usize = 0;
        while i < entries.len()
            invariant
                i <= entries@.len(),
                entries@ == write.entries_spec(),
                all == headers_of(entries@),
                headers@.len() == i,
                header_views(headers@) == all.take(i as int),
                forall|j: int|
                    0 <= j < i && included(entries@[j]) ==> #[trigger] headers@[j]@.len()
                        == TAR_BLOCK_SIZE,
                forall|j: int|
                    0 <= j < i && included(entries@[j]) ==> ustar_path_ok(
                        #[trigger] entries@[j].path@,
                    ),
            decreases entries@.len() - i,
        {
            let e = &entries[i];
            if e.is_dir || e.file.is_some() {
                let fields = header_fields(e);
                match encode_header(&fields) {
                    Some(h) => headers.push(h),
                    None => {
                        proof {
                            assert(included(entries@[i as int]));
                            assert(!ustar_path_ok(entries@[i as int].path@));
                        }
                        return Err(ScanError::HeaderEncoding);
                    },
                }
            } else {
                headers.push(Vec::new());
            }
            proof {
                assert(included(entries@[i as int]) == (e.is_dir || e.file is Some));
                assert(headers@[i as int]@ == all[i as int]);
                assert(header_views(headers@) =~= all.take(i + 1));
            }
            i = i + 1;
        }
        proof {
            assert(all.take(entries@.len() as int) =~= all);
            assert forall|j: int|
                0 <= j < header_views(headers@).len() && included(entries@[j]) implies #[trigger] header_views(
                    headers@,
                )[j].len() == TAR_BLOCK_SIZE by {
                assert(header_views(headers@)[j] == headers@[j]@);
            }
            lemma_blocks_aligned(entries@, header_views(headers@));
            assert(paths_encodable(entries@));
            assert forall|j: int|
                0 <= j < entries@.len() && included(entries@[j]) implies (#[trigger] header_of(
                    entries@[j],
                )).len() == TAR_BLOCK_SIZE by {
                assert(header_views(headers@)[j] == headers@[j]@);
                assert(all[j] == header_of(entries@[j]));
            }
        }
        let root = write.root.clone();
        Index::assemble(root, entries, headers.as_slice())
    }
}

} // verus!
