//! The contents of a `.torrent` file (BEP 3 metainfo) and the piece geometry
//! derived from it.
use vstd::prelude::*;

verus! {

/// One file of a multi-file torrent.
#[derive(Debug)]
pub struct FileInfo {
    /// Size of the file in bytes.
    pub length: u64,
    /// Path components of the file, relative to the torrent's directory.
    pub path: Vec<String>,
}

/// The abstract value of a [`FileInfo`].
pub struct FileInfoView {
    pub length: u64,
    pub path: Seq<Seq<char>>,
}

impl View for FileInfo {
    type V = FileInfoView;

    open spec fn view(&self) -> FileInfoView {
        FileInfoView { length: self.length, path: self.path@.map_values(|c: String| c@) }
    }
}

impl Clone for FileInfo {
    fn clone(&self) -> (r: Self)
        ensures
            r@ == self@,
    {
        let path = self.path.clone();
        proof {
            assert(path@.map_values(|c: String| c@) =~= self.path@.map_values(|c: String| c@));
        }
        FileInfo { length: self.length, path }
    }
}

/// The `info` dictionary of a torrent.
#[derive(Debug)]
pub struct Info {
    /// File name (single-file torrents) or directory name (multi-file torrents).
    pub name: String,
    /// Size of every piece but possibly the last, in bytes.
    pub piece_length: u64,
    /// The SHA-1 digests of all pieces, 20 bytes each, concatenated.
    pub pieces_hash: Vec<u8>,
    /// Length of the file, present only for single-file torrents.
    pub length: Option<u64>,
    /// The files, present only for multi-file torrents, in stream order.
    pub files: Option<Vec<FileInfo>>,
}

/// A decoded `.torrent` file.
#[derive(Debug)]
pub struct MetaInfo {
    /// The tracker URL.
    pub announce: String,
    /// Tiers of tracker URLs (BEP 12); takes priority over `announce`.
    pub announce_list: Option<Vec<Vec<String>>>,
    pub info: Info,
}

/// The sum of the lengths of `files`.
pub open spec fn total_length(files: Seq<FileInfoView>) -> nat
    decreases files.len(),
{
    if files.len() == 0 {
        0
    } else {
        total_length(files.drop_last()) + files.last().length as nat
    }
}

/// Ceiling of `a / b` for `b > 0`.
pub open spec fn ceil_div(a: int, b: int) -> int {
    (a + b - 1) / b
}

impl MetaInfo {
    /// The torrent names its files, either by a single `length` or by a `files` list.
    pub open spec fn has_file_list(&self) -> bool {
        self.info.length is Some || self.info.files is Some
    }

    /// The files of the torrent in stream order: the one file named after the
    /// torrent when `length` is given, else the `files` list.
    pub open spec fn spec_files(&self) -> Seq<FileInfoView> {
        match self.info.length {
            Some(l) => seq![FileInfoView { length: l, path: seq![self.info.name@] }],
            None => self.info.files.unwrap()@.map_values(|f: FileInfo| f@),
        }
    }

    /// The size of the whole download, in bytes.
    pub open spec fn spec_download_size(&self) -> nat {
        total_length(self.spec_files())
    }

    /// The number of pieces: the download size divided by the piece length, rounded up.
    pub open spec fn spec_number_of_pieces(&self) -> int {
        ceil_div(self.spec_download_size() as int, self.info.piece_length as int)
    }

    /// The size of piece `index`: the standard piece length, except for the
    /// last piece, which holds what remains; 0 past the last piece.
    pub open spec fn spec_piece_length(&self, index: int) -> int {
        let total = self.spec_download_size() as int;
        let plen = self.info.piece_length as int;
        let n = self.spec_number_of_pieces();
        if index >= n {
            0
        } else if index == n - 1 {
            if total % plen == 0 {
                plen
            } else {
                total % plen
            }
        } else {
            plen
        }
    }

    /// The files of the torrent, in stream order.
    pub fn files(&self) -> (r: Vec<FileInfo>)
        requires
            self.has_file_list(),
        ensures
            r@.map_values(|f: FileInfo| f@) == self.spec_files(),
    {
        match self.info.length {
            Some(l) => {
                let mut path: Vec<String> = Vec::new();
                path.push(self.info.name.clone());
                let mut r: Vec<FileInfo> = Vec::new();
                r.push(FileInfo { length: l, path });
                proof {
                    assert(r@[0].path@.map_values(|c: String| c@) =~= seq![self.info.name@]);
                    assert(r@.map_values(|f: FileInfo| f@) =~= self.spec_files());
                }
                r
            },
            None => {
                let files = self.info.files.as_ref().unwrap();
                let mut r: Vec<FileInfo> = Vec::new();
                let mut i: usize = 0;
                while i < files.len()
                    invariant
                        i <= files@.len(),
                        r@.len() == i,
                        forall|k: int| 0 <= k < i ==> #[trigger] r@[k]@ == files@[k]@,
                    decreases files@.len() - i,
                {
                    r.push(files[i].clone());
                    i = i + 1;
                }
                proof {
                    assert(r@.map_values(|f: FileInfo| f@) =~= files@.map_values(|f: FileInfo| f@));
                }
                r
            },
        }
    }

    /// The size of the whole download in bytes: the sum of the file sizes.
    pub fn download_size(&self) -> (r: u64)
        requires
            self.has_file_list(),
            self.spec_download_size() <= u64::MAX,
        ensures
            r == self.spec_download_size(),
    {
        let files = self.files();
        let ghost fs = files@.map_values(|f: FileInfo| f@);
        let mut tot_size: u64 = 0;
        let mut i: usize = 0;
        while i < files.len()
            invariant
                i <= files@.len(),
                fs == files@.map_values(|f: FileInfo| f@),
                fs == self.spec_files(),
                total_length(fs) <= u64::MAX,
                tot_size == total_length(fs.subrange(0, i as int)),
            decreases files@.len() - i,
        {
            proof {
                assert(fs.subrange(0, i + 1).drop_last() =~= fs.subrange(0, i as int));
                lemma_total_length_prefix(fs, i + 1);
                lemma_total_length_monotone(fs, i + 1);
                assert(fs[i as int] == files@[i as int]@);
            }
            tot_size = tot_size + files[i].length;
            i = i + 1;
        }
        proof {
            assert(fs.subrange(0, i as int) =~= fs);
        }
        tot_size
    }

    /// The 20-byte SHA-1 digest that the torrent records for piece `index`.
    pub fn get_piece_hash(&self, index: usize) -> (r: &[u8])
        requires
            index * 20 + 20 <= self.info.pieces_hash@.len(),
        ensures
            r@ == self.info.pieces_hash@.subrange(index * 20, index * 20 + 20),
    {
        let n = self.info.pieces_hash.len();
        assert(index * 20 <= n) by (nonlinear_arith)
            requires index * 20 + 20 <= n;
        let start_index = index * 20;
        let end_index = start_index + 20;
        &self.info.pieces_hash.as_slice()[start_index..end_index]
    }

    /// The number of pieces the download is split into.
    pub fn get_number_of_pieces(&self) -> (r: usize)
        requires
            self.has_file_list(),
            self.info.piece_length > 0,
            self.spec_download_size() + self.info.piece_length - 1 <= u64::MAX,
            self.spec_number_of_pieces() <= usize::MAX,
        ensures
            r == self.spec_number_of_pieces(),
    {
        let total_size = self.download_size();
        let piece_len = self.info.piece_length;
        ((total_size + (piece_len - 1)) / piece_len) as usize
    }

    /// The size of piece `index` in bytes (0 for an index past the last piece).
    pub fn get_piece_length(&self, index: usize) -> (r: u64)
        requires
            self.has_file_list(),
            self.info.piece_length > 0,
            self.spec_download_size() + self.info.piece_length - 1 <= u64::MAX,
            self.spec_number_of_pieces() <= usize::MAX,
        ensures
            r == self.spec_piece_length(index as int),
    {
        let total_size = self.download_size();
        let piece_len = self.info.piece_length;
        let num_pieces = self.get_number_of_pieces();
        if index >= num_pieces {
            return 0;
        }
        if index == num_pieces - 1 {
            let remainder = total_size % piece_len;
            if remainder == 0 {
                piece_len
            } else {
                remainder
            }
        } else {
            piece_len
        }
    }

    /// The size of every piece but the last.
    pub fn get_standard_piece_len(&self) -> (r: u64)
        ensures
            r == self.info.piece_length,
    {
        self.info.piece_length
    }
}

/// Extending a prefix of `files` by one file adds that file's length.
proof fn lemma_total_length_prefix(files: Seq<FileInfoView>, i: int)
    requires
        0 < i <= files.len(),
    ensures
        total_length(files.subrange(0, i)) == total_length(files.subrange(0, i - 1))
            + files[i - 1].length,
{
    assert(files.subrange(0, i).drop_last() =~= files.subrange(0, i - 1));
}

/// The total length of a prefix of `files` is at most the total length of `files`.
pub proof fn lemma_total_length_monotone(files: Seq<FileInfoView>, i: int)
    requires
        0 <= i <= files.len(),
    ensures
        total_length(files.subrange(0, i)) <= total_length(files),
    decreases files.len() - i,
{
    if i < files.len() {
        lemma_total_length_monotone(files, i + 1);
        lemma_total_length_prefix(files, i + 1);
    } else {
        assert(files.subrange(0, i) =~= files);
    }
}

/// The pieces tile the download: every piece but the last has the standard
/// length, and the last ends exactly at the end of the download.
pub proof fn lemma_pieces_tile_download(m: MetaInfo)
    requires
        m.info.piece_length > 0,
        m.spec_download_size() > 0,
    ensures
        m.spec_number_of_pieces() >= 1,
        forall|i: int| 0 <= i < m.spec_number_of_pieces() - 1 ==> m.spec_piece_length(i) == m.info.piece_length,
        (m.spec_number_of_pieces() - 1) * m.info.piece_length + m.spec_piece_length(m.spec_number_of_pieces() - 1)
            == m.spec_download_size(),
        0 < m.spec_piece_length(m.spec_number_of_pieces() - 1) <= m.info.piece_length,
{
    let total = m.spec_download_size() as int;
    let plen = m.info.piece_length as int;
    let n = m.spec_number_of_pieces();
    let q = total / plen;
    let r = total % plen;
    assert(total == q * plen + r && 0 <= r < plen) by (nonlinear_arith)
        requires plen > 0, q == total / plen, r == total % plen;
    assert(n == ceil_div(total, plen));
    if r == 0 {
        assert(n == q) by (nonlinear_arith)
            requires n == (total + plen - 1) / plen, total == q * plen, plen > 0;
        assert(q >= 1) by (nonlinear_arith)
            requires total == q * plen, total > 0, plen > 0;
        assert((n - 1) * plen + plen == total) by (nonlinear_arith)
            requires n == q, total == q * plen;
    } else {
        assert(n == q + 1) by (nonlinear_arith)
            requires n == (total + plen - 1) / plen, total == q * plen + r, 0 < r < plen, plen > 0;
        assert((n - 1) * plen + r == total) by (nonlinear_arith)
            requires n == q + 1, total == q * plen + r;
    }
}

/// The sum of the lengths of the first `k` pieces.
pub open spec fn piece_lengths_sum(m: MetaInfo, k: int) -> int
    decreases k,
{
    if k <= 0 {
        0
    } else {
        piece_lengths_sum(m, k - 1) + m.spec_piece_length(k - 1)
    }
}

/// Before the last piece, the first `k` pieces take `k` standard lengths.
proof fn lemma_full_pieces_sum(m: MetaInfo, k: int)
    requires
        0 <= k < m.spec_number_of_pieces(),
    ensures
        piece_lengths_sum(m, k) == k * m.info.piece_length,
    decreases k,
{
    if k > 0 {
        lemma_full_pieces_sum(m, k - 1);
        assert(m.spec_piece_length(k - 1) == m.info.piece_length);
        assert(piece_lengths_sum(m, k) == piece_lengths_sum(m, k - 1) + m.spec_piece_length(k - 1));
        assert((k - 1) * m.info.piece_length + m.info.piece_length == k * m.info.piece_length) by (nonlinear_arith);
    } else {
        assert(0 * m.info.piece_length == 0);
    }
}

/// The lengths of all pieces add up to the size of the download.
pub proof fn lemma_piece_lengths_sum(m: MetaInfo)
    requires
        m.info.piece_length > 0,
    ensures
        piece_lengths_sum(m, m.spec_number_of_pieces()) == m.spec_download_size(),
{
    let n = m.spec_number_of_pieces();
    let plen = m.info.piece_length as int;
    if m.spec_download_size() == 0 {
        assert(n == 0) by (nonlinear_arith)
            requires n == (0 + plen - 1) / plen, plen > 0;
    } else {
        lemma_pieces_tile_download(m);
        lemma_full_pieces_sum(m, n - 1);
    }
}

} // verus!
