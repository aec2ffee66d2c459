//! The three kinds of segment that an archive is made of, and how each one
//! fills a buffer.

use vstd::prelude::*;
use crate::ints::{converting_min, usize_to_u64};

verus! {

/// The size of one tar block: headers take one, contents are padded to a
/// whole number of them.
pub const TAR_BLOCK_SIZE: u64 = 512;

/// One contiguous run of the archive's bytes.
#[derive(Debug, Clone, PartialEq, Eq)]
pub enum Segment {
    /// Literal bytes held in memory: a header block.
    Static(Vec<u8>),
    /// The content of the open file numbered `file`, framed as `size` bytes,
    /// its length when the index was built, whatever it holds when read.
    File { file: usize, size: u64 },
    /// A run of zero bytes, produced only when read.
    Zeroes(u64),
}

/// `data` framed to exactly `size` bytes: cut where it is longer, filled with
/// zeroes where it is shorter.
pub open spec fn framed(data: Seq<u8>, size: nat) -> Seq<u8> {
    Seq::new(size, |i: int| if i < data.len() { data[i] } else { 0u8 })
}

/// `n` zero bytes.
pub open spec fn zeroes(n: nat) -> Seq<u8> {
    Seq::new(n, |i: int| 0u8)
}

/// What a file, read from `at` into `room` bytes of buffer, handed over as
/// `got` when its whole content is `data`: the bytes that are there, and
/// fewer than `room` only when the file ended.
pub open spec fn delivered(data: Seq<u8>, at: int, got: Seq<u8>, room: int) -> bool {
    &&& got.len() > 0 ==> at + got.len() <= data.len() && data.subrange(at, at + got.len()) == got
    &&& got.len() < room ==> data.len() <= at + got.len()
}

/// What file number `file` holds when file number `i` holds `files[i]`: a
/// file with no entry there holds nothing.
pub open spec fn file_data(files: Seq<Seq<u8>>, file: usize) -> Seq<u8> {
    if (file as int) < files.len() {
        files[file as int]
    } else {
        Seq::empty()
    }
}

/// What a segment stands for, as a value.
pub enum Piece {
    Bytes(Seq<u8>),
    File { file: usize, size: u64 },
    Zeroes(u64),
}

impl Piece {
    /// The number of bytes the piece stands for.
    pub open spec fn len_spec(&self) -> nat {
        match self {
            Piece::Bytes(bytes) => bytes.len(),
            Piece::File { size, .. } => *size as nat,
            Piece::Zeroes(n) => *n as nat,
        }
    }

    /// The piece's bytes when file number `i` holds `files[i]` (a file with
    /// no entry there holds nothing).
    pub open spec fn content(&self, files: Seq<Seq<u8>>) -> Seq<u8> {
        match self {
            Piece::Bytes(bytes) => *bytes,
            Piece::File { file, size } => framed(file_data(files, *file), *size as nat),
            Piece::Zeroes(n) => zeroes(*n as nat),
        }
    }

    pub proof fn lemma_content_len(&self, files: Seq<Seq<u8>>)
        ensures
            self.content(files).len() == self.len_spec(),
    {
    }
}

/// The pieces that `segs` stand for.
pub open spec fn pieces_of(segs: Seq<Segment>) -> Seq<Piece> {
    segs.map_values(|s: Segment| s@)
}

impl View for Segment {
    type V = Piece;

    open spec fn view(&self) -> Piece {
        match self {
            Segment::Static(bytes) => Piece::Bytes(bytes@),
            Segment::File { file, size } => Piece::File { file: *file, size: *size },
            Segment::Zeroes(n) => Piece::Zeroes(*n),
        }
    }
}

impl Segment {
    /// The number of bytes the segment stands for.
    pub open spec fn len_spec(&self) -> nat {
        self@.len_spec()
    }

    /// The segment's bytes when file number `i` holds `files[i]`.
    pub open spec fn content(&self, files: Seq<Seq<u8>>) -> Seq<u8> {
        self@.content(files)
    }

    pub fn byte_size(&self) -> (r: u64)
        ensures
            r == self.len_spec(),
    {
        match self {
            Segment::Static(bytes) => usize_to_u64(bytes.len()),
            Segment::File { size, .. } => *size,
            Segment::Zeroes(n) => *n,
        }
    }

    /// Reads the segment from `offset` into `buf`. A file segment cannot be
    /// read here: its file is read by the caller, who then hands the result
    /// to `finish_file_read`, and `None` says so.
    pub fn read(&self, offset: u64, buf: &mut [u8]) -> (r: Option<usize>)
        requires
            offset <= self.len_spec(),
        ensures
            r is None <==> self is File,
            final(buf)@.len() == old(buf)@.len(),
            r is None ==> final(buf)@ == old(buf)@,
            r matches Some(n) ==> {
                &&& n == vstd::math::min(self.len_spec() - offset, old(buf)@.len() as int)
                &&& final(buf)@.subrange(0, n as int) == self.content(Seq::empty()).subrange(
                    offset as int,
                    offset + n,
                )
                &&& final(buf)@.subrange(n as int, final(buf)@.len() as int)
                    == old(buf)@.subrange(n as int, old(buf)@.len() as int)
            },
    {
        self.read_into(offset, buf, 0)
    }

    /// Reads the segment from `offset` into `buf` from index `start` on,
    /// leaving the rest of `buf` as it was; `None` for a file segment.
    pub fn read_into(&self, offset: u64, buf: &mut [u8], start: usize) -> (r: Option<usize>)
        requires
            offset <= self.len_spec(),
            start <= old(buf)@.len(),
        ensures
            r is None <==> self is File,
            final(buf)@.len() == old(buf)@.len(),
            r is None ==> final(buf)@ == old(buf)@,
            r matches Some(n) ==> {
                &&& n == vstd::math::min(self.len_spec() - offset, old(buf)@.len() - start)
                &&& final(buf)@.subrange(start as int, start + n) == self.content(
                    Seq::empty(),
                ).subrange(offset as int, offset + n)
                &&& forall|j: int|
                    0 <= j < final(buf)@.len() && !(start <= j < start + n) ==> final(buf)@[j]
                        == old(buf)@[j]
                &&& final(buf)@.subrange(0, start as int) == old(buf)@.subrange(0, start as int)
                &&& final(buf)@.subrange(start + n, final(buf)@.len() as int) == old(
                    buf,
                )@.subrange(start + n, old(buf)@.len() as int)
            },
    {
        match self {
            Segment::Static(bytes) => {
                let n = converting_min(usize_to_u64(bytes.len()) - offset, buf.len() - start);
                let off = offset as usize;
                let buf_len = buf.len();
                let bytes_len = bytes.len();
                let mut i: usize = 0;
                while i < n
                    invariant
                        i <= n,
                        n <= buf@.len() - start,
                        off + n <= bytes@.len(),
                        off == offset,
                        buf@.len() == old(buf)@.len(),
                        buf@.len() == buf_len,
                        bytes@.len() == bytes_len,
                        forall|j: int| start <= j < start + i ==> #[trigger] buf@[j] == bytes@[off + j - start],
                        forall|j: int|
                            0 <= j < buf@.len() && !(start <= j < start + i) ==> buf@[j] == old(
                                buf,
                            )@[j],
                    decreases n - i,
                {
                    buf[start + i] = bytes[off + i];
                    i = i + 1;
                }
                assert(buf@.subrange(start as int, start + n) =~= bytes@.subrange(
                    offset as int,
                    offset + n,
                ));
                assert(buf@.subrange(0, start as int) =~= old(buf)@.subrange(0, start as int));
                assert(buf@.subrange(start + n, buf@.len() as int) =~= old(buf)@.subrange(
                    start + n,
                    old(buf)@.len() as int,
                ));
                Some(n)
            },
            Segment::File { .. } => None,
            Segment::Zeroes(size) => {
                let n = converting_min(*size - offset, buf.len() - start);
                fill_between(buf, start, start + n, 0);
                assert(buf@.subrange(start as int, start + n) =~= zeroes(*size as nat).subrange(
                    offset as int,
                    offset + n,
                ));
                Some(n)
            },
        }
    }

    /// Settles a read of this file segment at `offset`, once the caller has
    /// read the file from `offset` into `buf` from index `start` on, until the
    /// buffer was full or the file ended, and got `got` bytes. The recorded
    /// size alone decides how many bytes the segment yields: what the file
    /// holds past it is dropped, and where the file ended early the rest is
    /// zero.
    pub fn finish_file_read(&self, offset: u64, buf: &mut [u8], start: usize, got: usize) -> (r:
        usize)
        requires
            self is File,
            offset <= self.len_spec(),
            start <= old(buf)@.len(),
            got <= old(buf)@.len() - start,
        ensures
            final(buf)@.len() == old(buf)@.len(),
            r == vstd::math::min(self.len_spec() - offset, old(buf)@.len() - start),
            forall|j: int|
                0 <= j < final(buf)@.len() && !(start + got <= j < start + r) ==> final(buf)@[j]
                    == old(buf)@[j],
            forall|j: int| start + got <= j < start + r ==> final(buf)@[j] == 0,
            forall|data: Seq<u8>|
                #[trigger] delivered(
                    data,
                    offset as int,
                    old(buf)@.subrange(start as int, start + got),
                    old(buf)@.len() - start,
                ) ==> final(buf)@.subrange(start as int, start + r) == framed(
                    data,
                    self.len_spec(),
                ).subrange(offset as int, offset + r),
    {
        let size = match self {
            Segment::File { size, .. } => *size,
            _ => 0,
        };
        let r = converting_min(size - offset, buf.len() - start);
        if got < r {
            fill_between(buf, start + got, start + r, 0);
        }
        assert forall|data: Seq<u8>|
            #[trigger] delivered(
                data,
                offset as int,
                old(buf)@.subrange(start as int, start + got),
                old(buf)@.len() - start,
            ) implies buf@.subrange(start as int, start + r) == framed(data, size as nat).subrange(
            offset as int,
            offset + r,
        ) by {
            assert forall|i: int| 0 <= i < r implies #[trigger] buf@.subrange(
                start as int,
                start + r,
            )[i] == framed(data, size as nat).subrange(offset as int, offset + r)[i] by {
                if i < got {
                    assert(old(buf)@.subrange(start as int, start + got)[i] == data[offset + i]);
                }
            }
            assert(buf@.subrange(start as int, start + r) =~= framed(data, size as nat).subrange(
                offset as int,
                offset + r,
            ));
        }
        r
    }
}

/// Sets every byte of `slice` to `value`.
pub fn fill_slice(slice: &mut [u8], value: u8)
    ensures
        final(slice)@ == Seq::new(old(slice)@.len(), |i: int| value),
{
    let len = slice.len();
    fill_between(slice, 0, len, value);
    assert(slice@ =~= Seq::new(old(slice)@.len(), |i: int| value));
}

/// Sets the bytes of `buf` from index `from` up to `to` to `value`, and
/// leaves the others as they were.
pub fn fill_between(buf: &mut [u8], from: usize, to: usize, value: u8)
    requires
        from <= to <= old(buf)@.len(),
    ensures
        final(buf)@.len() == old(buf)@.len(),
        forall|j: int| from <= j < to ==> final(buf)@[j] == value,
        forall|j: int| 0 <= j < final(buf)@.len() && !(from <= j < to) ==> final(buf)@[j] == old(buf)@[j],
        final(buf)@.subrange(from as int, to as int) == Seq::new((to - from) as nat, |i: int| value),
        final(buf)@.subrange(0, from as int) == old(buf)@.subrange(0, from as int),
        final(buf)@.subrange(to as int, final(buf)@.len() as int) == old(buf)@.subrange(
            to as int,
            old(buf)@.len() as int,
        ),
{
    let buf_len = buf.len();
    let mut i: usize = from;
    while i < to
        invariant
            buf@.len() == buf_len,
            from <= i <= to,
            to <= buf@.len(),
            buf@.len() == old(buf)@.len(),
            forall|j: int| from <= j < i ==> buf@[j] == value,
            forall|j: int| 0 <= j < buf@.len() && !(from <= j < i) ==> buf@[j] == old(buf)@[j],
        decreases to - i,
    {
        buf[i] = value;
        i = i + 1;
    }
    assert(buf@.subrange(from as int, to as int) =~= Seq::new((to - from) as nat, |i: int| value));
    assert(buf@.subrange(0, from as int) =~= old(buf)@.subrange(0, from as int));
    assert(buf@.subrange(to as int, buf@.len() as int) =~= old(buf)@.subrange(
        to as int,
        old(buf)@.len() as int,
    ));
}

} // verus!
