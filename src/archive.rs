//! The segment index of an archive, and cursors that read it from any offset.

use vstd::prelude::*;
use crate::segment::{delivered, file_data, framed, pieces_of, Piece, Segment};

verus! {

/// The number of bytes that `segs` stand for, end to end.
pub open spec fn total_len(segs: Seq<Piece>) -> nat
    decreases segs.len(),
{
    if segs.len() == 0 {
        0
    } else {
        total_len(segs.drop_last()) + segs.last().len_spec()
    }
}

/// Where segment `k` of `segs` begins in the archive.
pub open spec fn start_of(segs: Seq<Piece>, k: int) -> nat {
    total_len(segs.take(k))
}

/// The archive's bytes, when file number `i` holds `files[i]`.
pub open spec fn archive(segs: Seq<Piece>, files: Seq<Seq<u8>>) -> Seq<u8>
    decreases segs.len(),
{
    if segs.len() == 0 {
        Seq::empty()
    } else {
        archive(segs.drop_last(), files) + segs.last().content(files)
    }
}

pub proof fn lemma_archive_len(segs: Seq<Piece>, files: Seq<Seq<u8>>)
    ensures
        archive(segs, files).len() == total_len(segs),
    decreases segs.len(),
{
    if segs.len() > 0 {
        lemma_archive_len(segs.drop_last(), files);
        segs.last().lemma_content_len(files);
    }
}

pub proof fn lemma_start_step(segs: Seq<Piece>, k: int)
    requires
        0 <= k < segs.len(),
    ensures
        start_of(segs, k + 1) == start_of(segs, k) + segs[k].len_spec(),
{
    assert(segs.take(k + 1).drop_last() =~= segs.take(k));
}

/// The archive of the first `k` segments is the start of the whole archive.
pub proof fn lemma_archive_take(segs: Seq<Piece>, files: Seq<Seq<u8>>, k: int)
    requires
        0 <= k <= segs.len(),
    ensures
        start_of(segs, k) <= total_len(segs),
        archive(segs, files).subrange(0, start_of(segs, k) as int) == archive(segs.take(k), files),
    decreases segs.len(),
{
    lemma_archive_len(segs, files);
    lemma_archive_len(segs.take(k), files);
    if k == segs.len() {
        assert(segs.take(k) =~= segs);
        assert(archive(segs, files).subrange(0, start_of(segs, k) as int) =~= archive(segs, files));
    } else {
        let rest = segs.drop_last();
        assert(segs.take(k) =~= rest.take(k));
        lemma_archive_take(rest, files, k);
        lemma_archive_len(rest, files);
        assert(archive(segs, files).subrange(0, start_of(segs, k) as int) =~= archive(
            rest,
            files,
        ).subrange(0, start_of(rest, k) as int));
    }
}

/// Segment `k`'s bytes stand in the archive from where it begins.
pub proof fn lemma_segment_bytes(segs: Seq<Piece>, files: Seq<Seq<u8>>, k: int, a: int, b: int)
    requires
        0 <= k < segs.len(),
        0 <= a <= b <= segs[k].len_spec(),
    ensures
        start_of(segs, k + 1) <= total_len(segs),
        archive(segs, files).subrange(start_of(segs, k) + a, start_of(segs, k) + b)
            == segs[k].content(files).subrange(a, b),
{
    lemma_start_step(segs, k);
    lemma_archive_take(segs, files, k + 1);
    assert(segs.take(k + 1).drop_last() =~= segs.take(k));
    lemma_archive_len(segs.take(k), files);
    segs[k].lemma_content_len(files);
    lemma_archive_len(segs, files);
    let whole = archive(segs, files);
    let head = whole.subrange(0, start_of(segs, k + 1) as int);
    assert(whole.subrange(start_of(segs, k) + a, start_of(segs, k) + b) =~= head.subrange(
        start_of(segs, k) + a,
        start_of(segs, k) + b,
    ));
    assert(head.subrange(start_of(segs, k) + a, start_of(segs, k) + b) =~= segs[k].content(
        files,
    ).subrange(a, b));
}


/// An archive laid out as an ordered list of segments, with its length
/// computed once, when it was built.
#[derive(Debug)]
pub struct Index {
    root: String,
    segments: Vec<Segment>,
    total: u64,
}

impl Index {
    /// The segments, in archive order.
    pub closed spec fn segs(&self) -> Seq<Piece> {
        pieces_of(self.segments@)
    }

    /// The root of the tree that the archive holds.
    pub closed spec fn root_spec(&self) -> Seq<char> {
        self.root@
    }

    /// The stored length is the sum of the segments' sizes.
    pub closed spec fn wf(&self) -> bool {
        self.total == total_len(self.segs())
    }

    /// An index over `segments`, or `None` where their sizes add up to more
    /// than a `u64` holds.
    pub fn from_segments(root: String, segments: Vec<Segment>) -> (r: Option<Index>)
        ensures
            r is Some <==> total_len(pieces_of(segments@)) <= u64::MAX,
            r matches Some(index) ==> index.wf() && index.segs() == pieces_of(segments@)
                && index.root_spec() == root@,
    {
        let mut total: u64 = 0;
        let mut k: usize = 0;
        while k < segments.len()
            invariant
                k <= pieces_of(segments@).len(),
                total == start_of(pieces_of(segments@), k as int),
            decreases pieces_of(segments@).len() - k,
        {
            proof {
                lemma_start_step(pieces_of(segments@), k as int);
            }
            let size = segments[k].byte_size();
            if size > u64::MAX - total {
                proof {
                    lemma_start_mono(pieces_of(segments@), k as int + 1);
                }
                return None;
            }
            total = total + size;
            k = k + 1;
        }
        assert(pieces_of(segments@).take(k as int) =~= pieces_of(segments@));
        Some(Index { root, segments, total })
    }

    /// The root of the tree that the archive holds.
    pub fn root(&self) -> (r: &str)
        ensures
            r@ == self.root_spec(),
    {
        self.root.as_str()
    }

    /// The archive's length in bytes.
    pub fn total_length(&self) -> (r: u64)
        requires
            self.wf(),
        ensures
            r == total_len(self.segs()),
    {
        self.total
    }

    /// The segments, in archive order.
    pub fn segments(&self) -> (r: &[Segment])
        ensures
            pieces_of(r@) == self.segs(),
    {
        self.segments.as_slice()
    }

    /// A cursor at byte `offset` of the archive: at the segment that holds
    /// that byte, or past the last segment where `offset` is the length of
    /// the archive or more.
    pub fn seek(&self, offset: u64) -> (r: SeekReader)
        requires
            self.wf(),
        ensures
            r.wf(self),
            r.pos(self) == offset,
            r.seg_spec() < self.segs().len() ==> r.offset_spec() < self.segs()[r.seg_spec()].len_spec(),
            r.seg_spec() == self.segs().len() <==> offset >= total_len(self.segs()),
    {
        let mut skipped: u64 = 0;
        let mut k: usize = 0;
        while k < self.segments.len()
            invariant
                self.wf(),
                k <= self.segs().len(),
                skipped == start_of(self.segs(), k as int),
                skipped <= offset,
            ensures
                k <= self.segs().len(),
                skipped == start_of(self.segs(), k as int),
                skipped <= offset,
                k < self.segs().len() ==> offset < skipped + self.segs()[k as int].len_spec(),
            decreases self.segs().len() - k,
        {
            proof {
                lemma_start_step(self.segs(), k as int);
                lemma_start_mono(self.segs(), k as int + 1);
            }
            let end = skipped + self.segments[k].byte_size();
            if end <= offset {
                skipped = end;
                k = k + 1;
            } else {
                break;
            }
        }
        proof {
            assert(self.segs().take(self.segs().len() as int) =~= self.segs());
            if k < self.segs().len() {
                lemma_start_step(self.segs(), k as int);
                lemma_start_mono(self.segs(), k as int + 1);
            }
        }
        SeekReader { segment: k, offset: offset - skipped }
    }
}

/// Where a segment begins is never past the end of the archive, nor before
/// where an earlier one begins.
pub proof fn lemma_start_mono(segs: Seq<Piece>, k: int)
    requires
        0 <= k <= segs.len(),
    ensures
        start_of(segs, k) <= total_len(segs),
        forall|j: int| 0 <= j <= k ==> #[trigger] start_of(segs, j) <= start_of(segs, k),
    decreases k,
{
    lemma_archive_take(segs, Seq::empty(), k);
    if k > 0 {
        lemma_start_mono(segs, k - 1);
        lemma_start_step(segs, k - 1);
    }
}


/// The byte sequences that `files` hold.
pub open spec fn file_views(files: Seq<Vec<u8>>) -> Seq<Seq<u8>> {
    files.map_values(|f: Vec<u8>| f@)
}

/// Copies what file number `file` of `files` holds from byte `offset` on
/// into `buf` from index `start` on, as much as fits, and returns the count:
/// fewer than fit only where the file ends.
fn serve_file(files: &[Vec<u8>], file: usize, offset: u64, buf: &mut [u8], start: usize) -> (r: usize)
    requires
        start <= old(buf)@.len(),
    ensures
        final(buf)@.len() == old(buf)@.len(),
        r <= old(buf)@.len() - start,
        forall|j: int| 0 <= j < final(buf)@.len() && !(start <= j < start + r) ==> final(buf)@[j] == old(buf)@[j],
        delivered(
            file_data(file_views(files@), file),
            offset as int,
            final(buf)@.subrange(start as int, start + r),
            old(buf)@.len() - start,
        ),
{
    let ghost data = file_data(file_views(files@), file);
    if file >= files.len() {
        proof {
            assert(data == Seq::<u8>::empty());
        }
        return 0;
    }
    let src = &files[file];
    proof {
        assert(data == src@);
    }
    let from = if (src.len() as u64) < offset { src.len() } else { offset as usize };
    let avail = src.len() - from;
    let room = buf.len() - start;
    let n = if avail < room { avail } else { room };
    let buf_len = buf.len();
    let src_len = src.len();
    let mut i: usize = 0;
    while i < n
        invariant
            i <= n,
            src@.len() == src_len,
            n <= buf_len - start,
            from + n <= src@.len(),
            buf@.len() == buf_len,
            buf_len == old(buf)@.len(),
            forall|j: int| start <= j < start + i ==> #[trigger] buf@[j] == src@[from + j - start],
            forall|j: int| 0 <= j < buf@.len() && !(start <= j < start + i) ==> buf@[j] == old(buf)@[j],
        decreases n - i,
    {
        buf[start + i] = src[from + i];
        i = i + 1;
    }
    proof {
        if n > 0 {
            assert(buf@.subrange(start as int, start + n) =~= data.subrange(offset as int, offset + n));
        }
    }
    n
}

/// A forward-only read position in an archive: a segment, and how far into
/// it. It holds no resource; any number of them can read one index.
#[derive(Debug)]
pub struct SeekReader {
    segment: usize,
    offset: u64,
}

/// What a cursor's read asks of its caller next.
#[derive(Debug, PartialEq, Eq)]
pub enum ReadStep {
    /// The read is over, with `n` bytes of the buffer filled: fewer than the
    /// buffer holds only at the end of the archive.
    Done(usize),
    /// File number `file` is to be read from byte `offset` into the buffer
    /// from index `start` on, until the buffer is full or the file ends, and
    /// the count of bytes handed to `SeekReader::file_read_done`.
    ReadFile { file: usize, offset: u64, start: usize },
}

impl ReadStep {
    /// How far the buffer is filled when the step is taken.
    pub open spec fn filled_to(&self) -> int {
        match self {
            ReadStep::Done(n) => *n as int,
            ReadStep::ReadFile { start, .. } => *start as int,
        }
    }
}

impl SeekReader {
    pub closed spec fn seg_spec(&self) -> int {
        self.segment as int
    }

    pub closed spec fn offset_spec(&self) -> int {
        self.offset as int
    }

    /// The cursor's absolute position in the archive of `index`.
    pub open spec fn pos(&self, index: &Index) -> int {
        start_of(index.segs(), self.seg_spec()) + self.offset_spec()
    }

    /// The cursor stands in a segment of `index`, or past the last one.
    pub open spec fn wf(&self, index: &Index) -> bool {
        &&& 0 <= self.seg_spec() <= index.segs().len()
        &&& 0 <= self.offset_spec()
        &&& self.seg_spec() < index.segs().len() ==> self.offset_spec() <= index.segs()[self.seg_spec()].len_spec()
    }

    /// Fills `buf` from index `nread` on with the archive's bytes from the
    /// cursor on, moving the cursor past them, until the buffer is full, the
    /// archive ends, or a file is to be read, which the result then names.
    pub fn read(&mut self, index: &Index, buf: &mut [u8], nread: usize) -> (r: ReadStep)
        requires
            index.wf(),
            old(self).wf(index),
            nread <= old(buf)@.len(),
        ensures
            final(self).wf(index),
            final(buf)@.len() == old(buf)@.len(),
            nread <= r.filled_to() <= old(buf)@.len(),
            final(self).pos(index) == old(self).pos(index) + (r.filled_to() - nread),
            final(buf)@.subrange(0, nread as int) == old(buf)@.subrange(0, nread as int),
            final(buf)@.subrange(r.filled_to(), final(buf)@.len() as int) == old(buf)@.subrange(
                r.filled_to(),
                old(buf)@.len() as int,
            ),
            r.filled_to() > nread ==> final(self).pos(index) <= total_len(index.segs()),
            r.filled_to() > nread ==> forall|files: Seq<Seq<u8>>|
                #[trigger] archive(index.segs(), files).subrange(
                    old(self).pos(index),
                    final(self).pos(index),
                ) == final(buf)@.subrange(nread as int, r.filled_to()),
            r matches ReadStep::Done(n) ==> n == old(buf)@.len() || final(self).pos(index) >= total_len(index.segs()),
            r matches ReadStep::ReadFile { file, offset, start } ==> {
                &&& start < old(buf)@.len()
                &&& final(self).seg_spec() < index.segs().len()
                &&& index.segs()[final(self).seg_spec()] matches Piece::File { file: f, size }
                &&& f == file
                &&& offset == final(self).offset_spec()
                &&& offset < size
            },
    {
        let ghost segs = index.segs();
        let ghost pos0 = self.pos(index);
        let ghost buf0 = buf@;
        let ghost nread0 = nread;
        let mut filled = nread;
        let n_segs = index.segments.len();
        let buf_len = buf.len();
        while self.segment < n_segs && filled < buf_len
            invariant
                index.wf(),
                segs == index.segs(),
                n_segs == segs.len(),
                self.wf(index),
                buf@.len() == buf_len,
                buf0.len() == buf_len,
                buf0 == old(buf)@,
                pos0 == old(self).pos(index),
                nread0 == nread,
                nread0 <= filled <= buf_len,
                self.pos(index) == pos0 + (filled - nread0),
                forall|j: int| 0 <= j < nread0 ==> buf@[j] == buf0[j],
                forall|j: int| filled <= j < buf_len ==> buf@[j] == buf0[j],
                filled > nread0 ==> self.pos(index) <= total_len(segs),
                filled > nread0 ==> forall|files: Seq<Seq<u8>>| #[trigger] archive(segs, files).subrange(
                    pos0,
                    self.pos(index),
                ) == buf@.subrange(nread0 as int, filled as int),
            decreases n_segs - self.segment, buf_len - filled,
        {
            let seg = &index.segments[self.segment];
            let size = seg.byte_size();
            if self.offset >= size {
                proof {
                    lemma_start_step(segs, self.segment as int);
                }
                self.offset = 0;
                self.segment = self.segment + 1;
            } else {
                if let Segment::File { file, .. } = seg {
                        proof {
                        assert(buf@.subrange(0, nread0 as int) =~= buf0.subrange(0, nread0 as int));
                        assert(buf@.subrange(filled as int, buf_len as int) =~= buf0.subrange(filled as int, buf_len as int));
                    }
                    return ReadStep::ReadFile { file: *file, offset: self.offset, start: filled };
                }
                let ghost before = buf@;
                let ghost k = self.segment as int;
                let ghost o = self.offset as int;
                let ghost p = self.pos(index);
                let got = seg.read_into(self.offset, buf, filled);
                let n = match got {
                    Some(n) => n,
                    None => 0,
                };
                proof {
                    lemma_start_step(segs, k);
                    lemma_start_mono(segs, k + 1);
                    let newpos = p + n;
                    assert forall|files: Seq<Seq<u8>>| #[trigger] archive(segs, files).subrange(
                        pos0,
                        newpos,
                    ) == buf@.subrange(nread0 as int, filled + n) by {
                        lemma_segment_bytes(segs, files, k, o, o + n);
                        lemma_archive_len(segs, files);
                        assert(segs[k].content(files) == segs[k].content(Seq::empty()));
                        let whole = archive(segs, files);
                        if filled > nread0 {
                            assert(whole.subrange(pos0, newpos) =~= whole.subrange(pos0, p) + whole.subrange(p, newpos));
                            assert(buf@.subrange(nread0 as int, filled as int) =~= before.subrange(nread0 as int, filled as int));
                            assert(buf@.subrange(nread0 as int, filled + n) =~= buf@.subrange(nread0 as int, filled as int) + buf@.subrange(filled as int, filled + n));
                        } else {
                            assert(p == pos0);
                        }
                    }
                    lemma_start_step(segs, k);
                    lemma_start_mono(segs, k + 1);
                }
                self.offset = self.offset + n as u64;
                filled = filled + n;
            }
        }
        proof {
            assert(segs.take(segs.len() as int) =~= segs);
            assert(buf@.subrange(0, nread0 as int) =~= buf0.subrange(0, nread0 as int));
            assert(buf@.subrange(filled as int, buf_len as int) =~= buf0.subrange(filled as int, buf_len as int));
        }
        ReadStep::Done(filled)
    }

    /// Reads the archive from the cursor on into `buf`, the file of each
    /// file segment holding `files[i]` (or nothing, past the end of
    /// `files`), and moves the cursor past the bytes read. The result is
    /// the count: all of `buf`, or what is left of the archive where that is
    /// less.
    pub fn read_from(&mut self, index: &Index, files: &[Vec<u8>], buf: &mut [u8]) -> (r: usize)
        requires
            index.wf(),
            old(self).wf(index),
        ensures
            final(self).wf(index),
            final(buf)@.len() == old(buf)@.len(),
            r == vstd::math::min(
                old(buf)@.len() as int,
                vstd::math::max(0, total_len(index.segs()) - old(self).pos(index)),
            ),
            final(self).pos(index) == old(self).pos(index) + r,
            r > 0 ==> final(buf)@.subrange(0, r as int) == archive(
                index.segs(),
                file_views(files@),
            ).subrange(old(self).pos(index), old(self).pos(index) + r),
    {
        let ghost fv = file_views(files@);
        let ghost pos0 = self.pos(index);
        let buf_len = buf.len();
        let mut filled: usize = 0;
        loop
            invariant
                index.wf(),
                self.wf(index),
                fv == file_views(files@),
                pos0 == old(self).pos(index),
                buf@.len() == buf_len,
                buf_len == old(buf)@.len(),
                filled <= buf_len,
                self.pos(index) == pos0 + filled,
                filled > 0 ==> self.pos(index) <= total_len(index.segs()),
                filled > 0 ==> buf@.subrange(0, filled as int) == archive(index.segs(), fv).subrange(
                    pos0,
                    self.pos(index),
                ),
            decreases buf_len - filled,
        {
            let ghost before = buf@;
            let ghost p = self.pos(index);
            match self.read(index, buf, filled) {
                ReadStep::Done(n) => {
                    proof {
                        lemma_archive_len(index.segs(), fv);
                        if n > filled {
                            let whole = archive(index.segs(), fv);
                            if filled > 0 {
                                assert(buf@.subrange(0, filled as int) =~= before.subrange(0, filled as int));
                                assert(whole.subrange(pos0, self.pos(index)) =~= whole.subrange(pos0, p)
                                    + whole.subrange(p, self.pos(index)));
                            }
                            assert(buf@.subrange(0, n as int) =~= buf@.subrange(0, filled as int)
                                + buf@.subrange(filled as int, n as int));
                        } else if filled > 0 {
                            assert(buf@.subrange(0, filled as int) =~= before.subrange(0, filled as int));
                        }
                    }
                    return n;
                },
                ReadStep::ReadFile { file, offset, start } => {
                    let ghost mid = buf@;
                    let ghost q = self.pos(index);
                    let got = serve_file(files, file, offset, buf, start);
                    let ghost served = buf@;
                    let next = self.file_read_done(index, buf, start, got);
                    proof {
                        lemma_archive_len(index.segs(), fv);
                        let whole = archive(index.segs(), fv);
                        if start > filled {
                            assert(whole.subrange(p, q) == mid.subrange(filled as int, start as int));
                        }
                        assert(buf@.subrange(start as int, next as int) == whole.subrange(q, self.pos(index)));
                        assert(buf@.subrange(0, start as int) =~= mid.subrange(0, start as int));
                        if filled > 0 {
                            assert(mid.subrange(0, filled as int) =~= before.subrange(0, filled as int));
                        }
                        assert(whole.subrange(pos0, self.pos(index)) =~= whole.subrange(pos0, p)
                            + whole.subrange(p, q) + whole.subrange(q, self.pos(index)));
                        assert(buf@.subrange(0, next as int) =~= buf@.subrange(0, filled as int)
                            + buf@.subrange(filled as int, start as int) + buf@.subrange(start as int, next as int));
                    }
                    filled = next;
                },
            }
        }
    }

    /// Takes the outcome of the file read that `read` asked for: `got` bytes
    /// were read into `buf` from index `start` on. The segment's recorded
    /// size frames them (see `Segment::finish_file_read`); the cursor moves
    /// past the bytes the segment yields, and the result is how far `buf` is
    /// filled, from where `read` goes on.
    pub fn file_read_done(&mut self, index: &Index, buf: &mut [u8], start: usize, got: usize) -> (r:
        usize)
        requires
            index.wf(),
            old(self).wf(index),
            old(self).seg_spec() < index.segs().len(),
            index.segs()[old(self).seg_spec()] is File,
            start <= old(buf)@.len(),
            got <= old(buf)@.len() - start,
        ensures
            final(self).wf(index),
            final(buf)@.len() == old(buf)@.len(),
            r == start + vstd::math::min(
                index.segs()[old(self).seg_spec()].len_spec() - old(self).offset_spec(),
                old(buf)@.len() - start,
            ),
            final(self).pos(index) == old(self).pos(index) + (r - start),
            final(self).pos(index) <= total_len(index.segs()),
            forall|j: int|
                0 <= j < final(buf)@.len() && !(start + got <= j < r) ==> final(buf)@[j] == old(
                    buf,
                )@[j],
            forall|j: int| start + got <= j < r ==> final(buf)@[j] == 0,
            index.segs()[old(self).seg_spec()] matches Piece::File { file, .. } ==> forall|
                files: Seq<Seq<u8>>,
            |
                delivered(
                    file_data(files, file),
                    old(self).offset_spec(),
                    old(buf)@.subrange(start as int, start + got),
                    old(buf)@.len() - start,
                ) ==> #[trigger] archive(index.segs(), files).subrange(
                    old(self).pos(index),
                    final(self).pos(index),
                ) == final(buf)@.subrange(start as int, r as int),
    {
        let ghost segs = index.segs();
        let ghost k = self.segment as int;
        let ghost o = self.offset as int;
        let ghost before = buf@;
        let seg = &index.segments[self.segment];
        let buf_len = buf.len();
        let n = seg.finish_file_read(self.offset, buf, start, got);
        proof {
            lemma_start_step(segs, k);
            lemma_start_mono(segs, k + 1);
            if let Piece::File { file, size } = segs[k] {
                assert forall|files: Seq<Seq<u8>>|
                    delivered(
                        file_data(files, file),
                        o,
                        before.subrange(start as int, start + got),
                        before.len() - start,
                    ) implies #[trigger] archive(segs, files).subrange(
                    start_of(segs, k) + o,
                    start_of(segs, k) + o + n,
                ) == buf@.subrange(start as int, start + n) by {
                    lemma_segment_bytes(segs, files, k, o, o + n);
                    assert(segs[k].content(files) == framed(file_data(files, file), size as nat));
                }
            }
        }
        self.offset = self.offset + n as u64;
        start + n
    }
}

} // verus!
