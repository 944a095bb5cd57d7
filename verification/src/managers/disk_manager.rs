//! Where the bytes of a piece live on disk: the torrent is one stream of
//! bytes cut into files, and a byte range of the stream maps onto a run of
//! segments of consecutive files.
use crate::models::torrent_meta::FileInfo;
use vstd::prelude::*;

verus! {

/// A part of a byte range that lies in one file.
#[derive(Clone, Copy, Debug, PartialEq, Eq)]
pub struct FileSegment {
    /// Which file (position in the torrent's file list).
    pub file_index: usize,
    /// Where in that file the part starts.
    pub file_offset: u64,
    /// How many bytes.
    pub length: u64,
    /// Where in the byte range the part starts.
    pub span_offset: u64,
}

/// The sum of `sizes[0 .. i]`.
pub open spec fn prefix_sum(sizes: Seq<u64>, i: int) -> int
    decreases i,
{
    if i <= 0 {
        0
    } else {
        prefix_sum(sizes, i - 1) + sizes[i - 1]
    }
}

/// The segments, from file `i` on, of the byte range `[start, end)` of
/// which `pending` bytes are not placed yet: files that end before the
/// range are skipped; the walk stops at the first file that starts at or
/// after the end of the range, or when nothing is pending; each file in
/// between holds the bytes from the later of its start and `start`, as many
/// as it has left or as are pending.
pub open spec fn plan(starts: Seq<u64>, sizes: Seq<u64>, start: int, end: int, i: int, pending: int) -> Seq<FileSegment>
    decreases starts.len() - i,
{
    if i < 0 || i >= starts.len() || pending <= 0 {
        Seq::empty()
    } else {
        let fs = starts[i] as int;
        let fe = fs + sizes[i];
        if start >= fe {
            plan(starts, sizes, start, end, i + 1, pending)
        } else if end <= fs {
            Seq::empty()
        } else {
            let off = if start < fs { 0 } else { start - fs };
            let take = if pending > fe - (fs + off) { fe - (fs + off) } else { pending };
            seq![FileSegment {
                file_index: i as usize,
                file_offset: off as u64,
                length: take as u64,
                span_offset: ((end - start) - pending) as u64,
            }] + plan(starts, sizes, start, end, i + 1, pending - take)
        }
    }
}

/// The layout of a torrent's files in its byte stream.
pub struct DiskLayout {
    std_piece_len: u64,
    /// Where each file starts in the stream.
    file_starts: Vec<u64>,
    /// The size of each file.
    file_sizes: Vec<u64>,
}

impl DiskLayout {
    pub closed spec fn starts(&self) -> Seq<u64> {
        self.file_starts@
    }

    pub closed spec fn sizes(&self) -> Seq<u64> {
        self.file_sizes@
    }

    pub closed spec fn piece_len(&self) -> u64 {
        self.std_piece_len
    }

    /// Each file starts where the previous one ends, the first at 0, and the
    /// whole stream fits in 64 bits.
    pub open spec fn wf(&self) -> bool {
        &&& self.starts().len() == self.sizes().len()
        &&& forall|i: int| 0 <= i < self.starts().len() ==> #[trigger] self.starts()[i] == prefix_sum(self.sizes(), i)
        &&& prefix_sum(self.sizes(), self.sizes().len() as int) <= u64::MAX
    }

    /// The layout of `files`, one after the other in their order, each
    /// taking its length in bytes, with pieces of `std_piece_len` bytes.
    pub fn new(files: &Vec<FileInfo>, std_piece_len: u64) -> (r: Self)
        requires
            prefix_sum(files@.map_values(|f: FileInfo| f.length), files@.len() as int) <= u64::MAX,
        ensures
            r.wf(),
            r.sizes() == files@.map_values(|f: FileInfo| f.length),
            r.piece_len() == std_piece_len,
    {
        let ghost sizes = files@.map_values(|f: FileInfo| f.length);
        let mut byte_offset: u64 = 0;
        let mut file_starts: Vec<u64> = Vec::new();
        let mut file_sizes: Vec<u64> = Vec::new();
        let mut i: usize = 0;
        while i < files.len()
            invariant
                i <= files@.len(),
                sizes == files@.map_values(|f: FileInfo| f.length),
                prefix_sum(sizes, sizes.len() as int) <= u64::MAX,
                file_sizes@ == sizes.subrange(0, i as int),
                file_starts@.len() == i,
                forall|k: int| 0 <= k < i ==> #[trigger] file_starts@[k] == prefix_sum(sizes, k),
                byte_offset == prefix_sum(sizes, i as int),
            decreases files@.len() - i,
        {
            proof {
                lemma_prefix_sum_monotone(sizes, i + 1, sizes.len() as int);
            }
            file_starts.push(byte_offset);
            file_sizes.push(files[i].length);
            byte_offset = byte_offset + files[i].length;
            i = i + 1;
            proof {
                assert(file_sizes@ =~= sizes.subrange(0, i as int));
            }
        }
        let r = DiskLayout { std_piece_len, file_starts, file_sizes };
        proof {
            assert(sizes.subrange(0, i as int) =~= sizes);
            assert forall|k: int| 0 <= k < r.starts().len() implies #[trigger] r.starts()[k] == prefix_sum(r.sizes(), k) by {
            }
        }
        r
    }

    /// The segments that hold the bytes `[start, end)` of the stream.
    pub fn segments(&self, start: u64, end: u64) -> (r: Vec<FileSegment>)
        requires
            self.wf(),
            start <= end,
        ensures
            r@ == plan(self.starts(), self.sizes(), start as int, end as int, 0, end - start),
    {
        let ghost total = plan(self.starts(), self.sizes(), start as int, end as int, 0, end - start);
        let mut bytes_pending: u64 = end - start;
        let mut r: Vec<FileSegment> = Vec::new();
        let mut idx: usize = 0;
        while idx < self.file_starts.len()
            invariant_except_break
                idx <= self.starts().len(),
                self.wf(),
                bytes_pending <= end - start,
                r@ + plan(self.starts(), self.sizes(), start as int, end as int, idx as int, bytes_pending as int) == total,
            ensures
                r@ == total,
            decreases self.starts().len() - idx,
        {
            let file_start_offset = self.file_starts[idx];
            proof {
                lemma_prefix_sum_monotone(self.sizes(), idx + 1, self.sizes().len() as int);
            }
            let file_end_offset = file_start_offset + self.file_sizes[idx];
            if bytes_pending == 0 {
                proof {
                    assert(r@ + Seq::<FileSegment>::empty() =~= r@);
                }
                break;
            }
            if start >= file_end_offset {
                idx = idx + 1;
                continue;
            }
            if end <= file_start_offset {
                proof {
                    assert(r@ + Seq::<FileSegment>::empty() =~= r@);
                }
                break;
            }
            let write_offset = if start < file_start_offset {
                0
            } else {
                start - file_start_offset
            };
            let bytes_remaining_in_file = file_end_offset - (file_start_offset + write_offset);
            let max_bytes_in_this_file = if bytes_pending > bytes_remaining_in_file {
                bytes_remaining_in_file
            } else {
                bytes_pending
            };
            let seg = FileSegment {
                file_index: idx,
                file_offset: write_offset,
                length: max_bytes_in_this_file,
                span_offset: (end - start) - bytes_pending,
            };
            let ghost rest = plan(
                self.starts(),
                self.sizes(),
                start as int,
                end as int,
                idx + 1,
                bytes_pending - max_bytes_in_this_file,
            );
            proof {
                assert(plan(self.starts(), self.sizes(), start as int, end as int, idx as int, bytes_pending as int)
                    == seq![seg] + rest);
                assert(r@.push(seg) + rest =~= r@ + (seq![seg] + rest));
            }
            r.push(seg);
            bytes_pending = bytes_pending - max_bytes_in_this_file;
            idx = idx + 1;
        }
        proof {
            if idx >= self.starts().len() {
                assert(r@ + Seq::<FileSegment>::empty() =~= r@);
            }
        }
        r
    }

    /// The bytes of piece `index` (of `piece_length` bytes) in the stream.
    pub fn piece_span(&self, index: u64, piece_length: u64) -> (r: (u64, u64))
        requires
            index * self.piece_len() + piece_length <= u64::MAX,
        ensures
            r == ((index * self.piece_len()) as u64, (index * self.piece_len() + piece_length) as u64),
    {
        assert(index * self.std_piece_len <= u64::MAX) by (nonlinear_arith)
            requires
                index * self.std_piece_len + piece_length <= u64::MAX,
                piece_length >= 0,
        ;
        let start = index * self.std_piece_len;
        (start, start + piece_length)
    }

    /// The bytes of the block at `offset` (of `length` bytes) of piece
    /// `piece_index` in the stream.
    pub fn block_span(&self, piece_index: u32, offset: u32, length: u32) -> (r: (u64, u64))
        requires
            piece_index * self.piece_len() + offset + length <= u64::MAX,
        ensures
            r == ((piece_index * self.piece_len() + offset) as u64, (piece_index * self.piece_len() + offset
                + length) as u64),
    {
        assert(piece_index * self.std_piece_len <= u64::MAX) by (nonlinear_arith)
            requires
                piece_index * self.std_piece_len + offset + length <= u64::MAX,
                offset >= 0,
                length >= 0,
        ;
        let start = piece_index as u64 * self.std_piece_len + offset as u64;
        (start, start + length as u64)
    }
}

/// Prefix sums grow with the prefix.
pub proof fn lemma_prefix_sum_monotone(sizes: Seq<u64>, i: int, j: int)
    requires
        0 <= i <= j <= sizes.len(),
    ensures
        prefix_sum(sizes, i) <= prefix_sum(sizes, j),
    decreases j - i,
{
    if i < j {
        lemma_prefix_sum_monotone(sizes, i, j - 1);
    }
}

/// The total length of `segs`.
pub open spec fn sum_lengths(segs: Seq<FileSegment>) -> int
    decreases segs.len(),
{
    if segs.len() == 0 {
        0
    } else {
        segs[0].length + sum_lengths(segs.drop_first())
    }
}

/// Whether each segment of `segs` lies inside its file, at the place of
/// the stream that its offset in the range `[start, ..)` names.
pub open spec fn segments_in_place(segs: Seq<FileSegment>, starts: Seq<u64>, sizes: Seq<u64>, start: int) -> bool {
    forall|k: int|
        0 <= k < segs.len() ==> {
            let s = #[trigger] segs[k];
            &&& s.file_index < sizes.len()
            &&& s.file_offset + s.length <= sizes[s.file_index as int]
            &&& starts[s.file_index as int] + s.file_offset == start + s.span_offset
        }
}

/// Whether each segment of `segs` starts in the range where the previous one ends.
pub open spec fn segments_contiguous(segs: Seq<FileSegment>) -> bool {
    forall|k: int| 0 <= k < segs.len() - 1 ==> segs[k + 1].span_offset == (#[trigger] segs[k]).span_offset + segs[k].length
}

proof fn lemma_plan_tiles(starts: Seq<u64>, sizes: Seq<u64>, start: int, end: int, i: int, pending: int)
    requires
        starts.len() == sizes.len() <= usize::MAX,
        forall|k: int| 0 <= k < starts.len() ==> #[trigger] starts[k] == prefix_sum(sizes, k),
        prefix_sum(sizes, sizes.len() as int) <= u64::MAX,
        0 <= i <= sizes.len(),
        0 <= start <= end <= u64::MAX,
        0 <= pending <= end - start,
        pending > 0 ==> prefix_sum(sizes, i) <= end - pending,
        pending > 0 && end - pending > start ==> prefix_sum(sizes, i) == end - pending,
    ensures
        segments_in_place(plan(starts, sizes, start, end, i, pending), starts, sizes, start),
        segments_contiguous(plan(starts, sizes, start, end, i, pending)),
        plan(starts, sizes, start, end, i, pending).len() > 0 ==> plan(starts, sizes, start, end, i, pending)[0].span_offset
            == (end - start) - pending,
        sum_lengths(plan(starts, sizes, start, end, i, pending)) <= pending,
        end <= prefix_sum(sizes, sizes.len() as int) ==> sum_lengths(plan(starts, sizes, start, end, i, pending))
            == pending,
    decreases sizes.len() - i,
{
    let segs = plan(starts, sizes, start, end, i, pending);
    if i >= starts.len() || pending <= 0 {
        if i >= starts.len() && pending > 0 && end <= prefix_sum(sizes, sizes.len() as int) {
            assert(i == sizes.len());
            assert(false);
        }
    } else {
        let fs = starts[i] as int;
        let fe = fs + sizes[i];
        assert(prefix_sum(sizes, i + 1) == fe);
        lemma_prefix_sum_monotone(sizes, i + 1, sizes.len() as int);
        if start >= fe {
            lemma_plan_tiles(starts, sizes, start, end, i + 1, pending);
        } else if end <= fs {
            assert(false);
        } else {
            let c = end - pending;
            let off = if start < fs { 0 } else { start - fs };
            assert(fs + off == c);
            let take = if pending > fe - (fs + off) { fe - (fs + off) } else { pending };
            let seg = FileSegment {
                file_index: i as usize,
                file_offset: off as u64,
                length: take as u64,
                span_offset: ((end - start) - pending) as u64,
            };
            let rest = plan(starts, sizes, start, end, i + 1, pending - take);
            assert(segs == seq![seg] + rest);
            lemma_plan_tiles(starts, sizes, start, end, i + 1, pending - take);
            assert(segs.drop_first() =~= rest);
            assert(segs[0] == seg);
            assert forall|k: int| 0 <= k < segs.len() implies {
                let s = #[trigger] segs[k];
                &&& s.file_index < sizes.len()
                &&& s.file_offset + s.length <= sizes[s.file_index as int]
                &&& starts[s.file_index as int] + s.file_offset == start + s.span_offset
            } by {
                if k > 0 {
                    assert(segs[k] == rest[k - 1]);
                }
            }
            assert forall|k: int| 0 <= k < segs.len() - 1 implies #[trigger] segs[k + 1].span_offset
                == segs[k].span_offset + segs[k].length by {
                if k > 0 {
                    assert(segs[k] == rest[k - 1]);
                    assert(segs[k + 1] == rest[k]);
                } else {
                    assert(segs[1] == rest[0]);
                }
            }
        }
    }
}

/// The segments of a byte range inside the stream tile it: each lies
/// inside its file at the stream position its range offset names, the
/// first starts the range, each starts where the previous ends, and
/// together they hold every byte of the range.
pub proof fn lemma_segments_tile(layout: DiskLayout, start: u64, end: u64)
    requires
        layout.wf(),
        start <= end <= prefix_sum(layout.sizes(), layout.sizes().len() as int),
        layout.sizes().len() <= usize::MAX,
    ensures
        segments_in_place(
            plan(layout.starts(), layout.sizes(), start as int, end as int, 0, end - start),
            layout.starts(),
            layout.sizes(),
            start as int,
        ),
        segments_contiguous(plan(layout.starts(), layout.sizes(), start as int, end as int, 0, end - start)),
        plan(layout.starts(), layout.sizes(), start as int, end as int, 0, end - start).len() > 0 ==> plan(
            layout.starts(),
            layout.sizes(),
            start as int,
            end as int,
            0,
            end - start,
        )[0].span_offset == 0,
        sum_lengths(plan(layout.starts(), layout.sizes(), start as int, end as int, 0, end - start)) == end - start,
{
    lemma_plan_tiles(layout.starts(), layout.sizes(), start as int, end as int, 0, end - start);
}

/// Whether some segment of `segs` stores byte `pos` of its range at place
/// `q` of file `f`.
pub open spec fn stores(segs: Seq<FileSegment>, pos: int, f: int, q: int) -> bool {
    exists|k: int|
        0 <= k < segs.len() && #[trigger] segs[k].file_index == f && segs[k].span_offset <= pos
            < segs[k].span_offset + segs[k].length && q == segs[k].file_offset + (pos - segs[k].span_offset)
}

/// Whether byte `j` of segment `k` of the read `r` is at the place where
/// the write `w` stores byte `shift + r[k].span_offset + j` of its range.
pub open spec fn read_where_written(w: Seq<FileSegment>, r: Seq<FileSegment>, shift: int, k: int, j: int) -> bool {
    stores(w, shift + r[k].span_offset + j, r[k].file_index as int, r[k].file_offset + j)
}

/// Whether position `pos` of a range falls in one of `segs`.
pub open spec fn covers(segs: Seq<FileSegment>, pos: int) -> bool {
    exists|k: int| 0 <= k < segs.len() && (#[trigger] segs[k]).span_offset <= pos < segs[k].span_offset + segs[k].length
}

/// Segments that follow one another from `base` lie between `base` and
/// `base` plus their total length, and every position in between falls in
/// one of them.
proof fn lemma_contiguous_cover(segs: Seq<FileSegment>, base: int)
    requires
        segments_contiguous(segs),
        segs.len() > 0 ==> segs[0].span_offset == base,
    ensures
        forall|k: int|
            0 <= k < segs.len() ==> base <= (#[trigger] segs[k]).span_offset && segs[k].span_offset
                + segs[k].length <= base + sum_lengths(segs),
        forall|pos: int| base <= pos < base + sum_lengths(segs) ==> #[trigger] covers(segs, pos),
    decreases segs.len(),
{
    if segs.len() > 0 {
        let tail = segs.drop_first();
        let next = base + segs[0].length;
        assert forall|k: int| 0 <= k < tail.len() - 1 implies #[trigger] tail[k + 1].span_offset
            == tail[k].span_offset + tail[k].length by {
            assert(segs[k + 2].span_offset == segs[k + 1].span_offset + segs[k + 1].length);
        }
        if tail.len() > 0 {
            assert(segs[1].span_offset == segs[0].span_offset + segs[0].length);
        }
        lemma_contiguous_cover(tail, next);
        assert forall|k: int|
            0 <= k < segs.len() implies base <= (#[trigger] segs[k]).span_offset && segs[k].span_offset
            + segs[k].length <= base + sum_lengths(segs) by {
            assert(sum_lengths(segs) == segs[0].length + sum_lengths(tail));
            if k > 0 {
                assert(segs[k] == tail[k - 1]);
            } else if tail.len() > 0 {
                assert(tail[0].span_offset + tail[0].length <= next + sum_lengths(tail));
            }
        }
        assert forall|pos: int| base <= pos < base + sum_lengths(segs) implies #[trigger] covers(segs, pos) by {
            if pos >= next {
                assert(covers(tail, pos));
                let k = choose|k: int|
                    0 <= k < tail.len() && (#[trigger] tail[k]).span_offset <= pos < tail[k].span_offset
                        + tail[k].length;
                assert(segs[k + 1] == tail[k]);
            } else {
                assert(segs[0].span_offset <= pos < segs[0].span_offset + segs[0].length);
            }
        }
    }
}

/// A position of the stream lies in one file only.
proof fn lemma_one_file(sizes: Seq<u64>, f: int, g: int, p: int)
    requires
        0 <= f < sizes.len(),
        0 <= g < sizes.len(),
        prefix_sum(sizes, f) <= p < prefix_sum(sizes, f) + sizes[f],
        prefix_sum(sizes, g) <= p < prefix_sum(sizes, g) + sizes[g],
    ensures
        f == g,
{
    if f < g {
        lemma_prefix_sum_monotone(sizes, f + 1, g);
    } else if g < f {
        lemma_prefix_sum_monotone(sizes, g + 1, f);
    }
}

/// Read after write: with `w` the segments that a write of the stream's
/// bytes `[start, end)` goes through, and `r` those that a read of a
/// sub-range `[a, b)` goes through, each byte that the read fetches is at
/// the very place of its file where the write stored the same byte of the
/// written range; and the write stores no two of its bytes at one place.
pub proof fn lemma_read_after_write(layout: DiskLayout, start: u64, end: u64, a: u64, b: u64)
    requires
        layout.wf(),
        start <= a <= b <= end <= prefix_sum(layout.sizes(), layout.sizes().len() as int),
        layout.sizes().len() <= usize::MAX,
    ensures
        ({
            let w = plan(layout.starts(), layout.sizes(), start as int, end as int, 0, end - start);
            let r = plan(layout.starts(), layout.sizes(), a as int, b as int, 0, b - a);
            &&& forall|k: int, j: int|
                0 <= k < r.len() && 0 <= j < r[k].length ==> #[trigger] read_where_written(w, r, a - start, k, j)
            &&& forall|pos: int, f: int, q: int|
                0 <= f < layout.sizes().len() && #[trigger] stores(w, pos, f, q) ==> pos == layout.starts()[f]
                    + q - start
        }),
{
    let starts = layout.starts();
    let sizes = layout.sizes();
    let w = plan(starts, sizes, start as int, end as int, 0, end - start);
    let r = plan(starts, sizes, a as int, b as int, 0, b - a);
    lemma_segments_tile(layout, start, end);
    lemma_segments_tile(layout, a, b);
    lemma_contiguous_cover(w, 0);
    lemma_contiguous_cover(r, 0);
    assert forall|k: int, j: int| 0 <= k < r.len() && 0 <= j < r[k].length implies #[trigger] read_where_written(
        w,
        r,
        a - start,
        k,
        j,
    ) by {
        let f = r[k].file_index as int;
        let q = r[k].file_offset + j;
        let p = a + r[k].span_offset + j;
        let pos = p - start;
        assert(starts[f] == prefix_sum(sizes, f));
        assert(0 <= pos < sum_lengths(w));
        assert(covers(w, pos));
        let kw = choose|kw: int| 0 <= kw < w.len() && (#[trigger] w[kw]).span_offset <= pos < w[kw].span_offset
            + w[kw].length;
        let g = w[kw].file_index as int;
        assert(starts[g] == prefix_sum(sizes, g));
        lemma_one_file(sizes, f, g, p);
        assert(w[kw].file_index == f);
    }
    assert forall|pos: int, f: int, q: int|
        0 <= f < sizes.len() && #[trigger] stores(w, pos, f, q) implies pos == starts[f] + q - start by {
        let k = choose|k: int|
            0 <= k < w.len() && #[trigger] w[k].file_index == f && w[k].span_offset <= pos < w[k].span_offset
                + w[k].length && q == w[k].file_offset + (pos - w[k].span_offset);
        assert(starts[w[k].file_index as int] + w[k].file_offset == start + w[k].span_offset);
    }
}

} // verus!
