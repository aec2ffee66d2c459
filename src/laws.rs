//! What holds of every archive that the index lays out and the cursors read.

use vstd::prelude::*;
use crate::archive::{archive, lemma_archive_len, lemma_segment_bytes, start_of, total_len};
use crate::layout::{
    archive_len, entries_len, entries_pieces, entry_len, entry_pieces, included, layout, padding, Entry,
    TERMINATOR_SIZE,
};
use crate::segment::{file_data, zeroes, Piece, TAR_BLOCK_SIZE};
use vstd::arithmetic::div_mod::{lemma_add_mod_noop, lemma_fundamental_div_mod, lemma_mod_multiples_basic};

verus! {

/// The archive is as long as its segments' sizes add up to, whatever its
/// files hold when they are read: their contents never move its framing.
pub proof fn lemma_length_is_fixed(segs: Seq<Piece>, files1: Seq<Seq<u8>>, files2: Seq<Seq<u8>>)
    ensures
        archive(segs, files1).len() == total_len(segs),
        archive(segs, files1).len() == archive(segs, files2).len(),
{
    lemma_archive_len(segs, files1);
    lemma_archive_len(segs, files2);
}

/// Reading a range of the archive at once gives the bytes that reading it in
/// two pieces, split anywhere, gives end to end; so any chunking of a range
/// into reads gives the same bytes.
pub proof fn lemma_chunked_reads_agree(
    segs: Seq<Piece>,
    files: Seq<Seq<u8>>,
    o1: int,
    mid: int,
    o2: int,
)
    requires
        0 <= o1 <= mid <= o2 <= total_len(segs),
    ensures
        archive(segs, files).subrange(o1, o2) == archive(segs, files).subrange(o1, mid)
            + archive(segs, files).subrange(mid, o2),
{
    lemma_archive_len(segs, files);
    assert(archive(segs, files).subrange(o1, o2) =~= archive(segs, files).subrange(o1, mid)
        + archive(segs, files).subrange(mid, o2));
}

/// A file segment's place in the archive holds exactly its recorded size
/// of bytes, whatever its file holds when read: what the file holds up to
/// that size, zeroes past the end of a file that shrank, and nothing of
/// what a file that grew holds past it.
pub proof fn lemma_file_segment_framed(segs: Seq<Piece>, files: Seq<Seq<u8>>, k: int)
    requires
        0 <= k < segs.len(),
        segs[k] is File,
    ensures
        ({
            let (file, size) = (segs[k]->File_file, segs[k]->File_size);
            let at = start_of(segs, k) as int;
            let bytes = archive(segs, files).subrange(at, at + size);
            &&& bytes.len() == size
            &&& forall|i: int|
                0 <= i < size ==> #[trigger] bytes[i] == if i < file_data(files, file).len() {
                    file_data(files, file)[i]
                } else {
                    0u8
                }
        }),
{
    let size = segs[k]->File_size;
    lemma_segment_bytes(segs, files, k, 0, size as int);
    segs[k].lemma_content_len(files);
    assert(segs[k].content(files).subrange(0, size as int) =~= segs[k].content(files));
}

/// The length of two runs of segments end to end.
pub proof fn lemma_total_len_concat(a: Seq<Piece>, b: Seq<Piece>)
    ensures
        total_len(a + b) == total_len(a) + total_len(b),
    decreases b.len(),
{
    if b.len() == 0 {
        assert(a + b =~= a);
    } else {
        assert((a + b).drop_last() =~= a + b.drop_last());
        lemma_total_len_concat(a, b.drop_last());
    }
}

/// Where the header of every entry that takes a place is one block, the
/// archive is as long as its entries take, each a whole number of blocks,
/// plus the marker; so every header starts on a block boundary and the
/// archive is whole blocks long.
pub proof fn lemma_blocks_aligned(entries: Seq<Entry>, headers: Seq<Seq<u8>>)
    requires
        headers.len() == entries.len(),
        forall|i: int|
            0 <= i < headers.len() && included(entries[i]) ==> #[trigger] headers[i].len()
                == TAR_BLOCK_SIZE,
    ensures
        total_len(entries_pieces(entries, headers)) == entries_len(entries),
        total_len(layout(entries, headers)) == archive_len(entries),
        entries_len(entries) % (TAR_BLOCK_SIZE as nat) == 0,
        archive_len(entries) % (TAR_BLOCK_SIZE as nat) == 0,
{
    lemma_entries_len(entries, headers);
    let marker = seq![Piece::Zeroes(TERMINATOR_SIZE)];
    lemma_total_len_concat(entries_pieces(entries, headers), marker);
    assert(marker.drop_last() =~= Seq::<Piece>::empty());
    assert(marker.last() == Piece::Zeroes(TERMINATOR_SIZE));
    assert(total_len(Seq::<Piece>::empty()) == 0);
    assert(total_len(marker) == 1024);
    lemma_sum_aligned(entries_len(entries), total_len(marker));
}

proof fn lemma_entries_len(rest: Seq<Entry>, headers: Seq<Seq<u8>>)
    requires
        rest.len() <= headers.len(),
        forall|i: int|
            0 <= i < rest.len() && included(rest[i]) ==> #[trigger] headers[i].len()
                == TAR_BLOCK_SIZE,
    ensures
        total_len(entries_pieces(rest, headers)) == entries_len(rest),
        entries_len(rest) % (TAR_BLOCK_SIZE as nat) == 0,
    decreases rest.len(),
{
    if rest.len() > 0 {
        let e = rest.last();
        let h = headers[rest.len() - 1];
        assert forall|i: int|
            0 <= i < rest.drop_last().len() && included(rest.drop_last()[i]) implies #[trigger] headers[i].len()
                == TAR_BLOCK_SIZE by {
            assert(rest.drop_last()[i] == rest[i]);
        }
        lemma_entries_len(rest.drop_last(), headers);
        lemma_total_len_concat(entries_pieces(rest.drop_last(), headers), entry_pieces(e, h));
        lemma_entry_len(e, h);
        lemma_sum_aligned(entries_len(rest.drop_last()), entry_len(e));
    } else {
        assert(total_len(Seq::<Piece>::empty()) == 0);
    }
}

/// One entry with a one-block header takes `entry_len` bytes, whole blocks.
proof fn lemma_entry_len(e: Entry, h: Seq<u8>)
    requires
        included(e) ==> h.len() == TAR_BLOCK_SIZE,
    ensures
        total_len(entry_pieces(e, h)) == entry_len(e),
        entry_len(e) % (TAR_BLOCK_SIZE as nat) == 0,
{
    let one = seq![Piece::Bytes(h)];
    assert(one.drop_last() =~= Seq::<Piece>::empty());
    assert(one.last() == Piece::Bytes(h));
    assert(total_len(Seq::<Piece>::empty()) == 0);
    if included(e) {
        assert(total_len(one) == 512);
    }
    if !e.is_dir && e.file is Some {
        let f = e.file->Some_0;
        let two = seq![Piece::Bytes(h), Piece::File { file: f, size: e.size }];
        assert(two.drop_last() =~= one);
        assert(total_len(two) == 512 + e.size);
        let pad = padding(e.size);
        lemma_total_len_concat(two, pad);
        assert(entry_pieces(e, h) == two + pad);
        let q = e.size as int / 512;
        lemma_fundamental_div_mod(e.size as int, 512);
        if e.size % TAR_BLOCK_SIZE != 0 {
            assert(pad.drop_last() =~= Seq::<Piece>::empty());
            assert(total_len(pad) == 512 - e.size % 512);
            lemma_mod_multiples_basic(q + 2, 512);
            assert(512 + e.size + total_len(pad) == (q + 2) * 512);
        } else {
            assert(total_len(pad) == 0);
            lemma_mod_multiples_basic(q + 1, 512);
            assert(512 + e.size == (q + 1) * 512);
        }
    } else if e.is_dir {
        assert(entry_pieces(e, h) == one);
        lemma_mod_multiples_basic(1, 512);
    } else {
        assert(entry_pieces(e, h) == Seq::<Piece>::empty());
    }
}

/// Two runs of whole blocks end to end are whole blocks.
proof fn lemma_sum_aligned(a: nat, b: nat)
    requires
        a % 512 == 0,
        b % 512 == 0,
    ensures
        (a + b) % 512 == 0,
{
    lemma_add_mod_noop(a as int, b as int, 512);
}

/// The archive ends with the marker: its last two blocks are zero.
pub proof fn lemma_ends_with_marker(entries: Seq<Entry>, headers: Seq<Seq<u8>>, files: Seq<Seq<u8>>)
    ensures
        total_len(layout(entries, headers)) >= TERMINATOR_SIZE,
        archive(layout(entries, headers), files).subrange(
            total_len(layout(entries, headers)) - TERMINATOR_SIZE,
            total_len(layout(entries, headers)) as int,
        ) == zeroes(TERMINATOR_SIZE as nat),
{
    let body = entries_pieces(entries, headers);
    let segs = layout(entries, headers);
    assert(segs.drop_last() =~= body);
    lemma_archive_len(segs, files);
    lemma_archive_len(body, files);
    assert(archive(segs, files).subrange(
        total_len(segs) - TERMINATOR_SIZE,
        total_len(segs) as int,
    ) =~= zeroes(TERMINATOR_SIZE as nat));
}

/// A tree with nothing in it gives an archive of the marker alone: two
/// blocks of zeroes.
pub proof fn lemma_empty_tree(headers: Seq<Seq<u8>>, files: Seq<Seq<u8>>)
    ensures
        total_len(layout(Seq::empty(), headers)) == TERMINATOR_SIZE,
        archive(layout(Seq::empty(), headers), files) == zeroes(TERMINATOR_SIZE as nat),
{
    let segs = layout(Seq::empty(), headers);
    assert(entries_pieces(Seq::empty(), headers) == Seq::<Piece>::empty());
    assert(segs =~= seq![Piece::Zeroes(TERMINATOR_SIZE)]);
    assert(segs.drop_last() =~= Seq::<Piece>::empty());
    assert(total_len(Seq::<Piece>::empty()) == 0);
    assert(archive(Seq::<Piece>::empty(), files) == Seq::<u8>::empty());
    assert(archive(segs, files) =~= zeroes(TERMINATOR_SIZE as nat));
}

} // verus!
