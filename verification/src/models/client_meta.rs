//! The client's view of one torrent with its transfer counters and the
//! peers that the last tracker reply named.
pub use crate::managers::client_manager::{FissureClientOptions, LocalFile};
use crate::hashing::sha1_of;
use crate::managers::client_manager::{local_file_of, ClientTorrentMetaInfo as TorrentFiles};
use crate::models::torrent_meta::{FileInfoView, MetaInfo};
use crate::protocols::tracker::{Peer, TrackerResponse};
use crate::text::{decimal, u64_to_decimal};
use vstd::prelude::*;

verus! {

/// A torrent as the client presents it: its files, its info hash, and how
/// much has been downloaded, uploaded and is left (decimal text).
#[derive(Debug)]
pub struct ClientTorrentMetaInfo {
    pub raw_torrent: MetaInfo,
    /// The files, in stream order; sizes in megabytes.
    pub files: Vec<LocalFile>,
    pub downloaded: String,
    pub uploaded: String,
    pub info_hash: [u8; 20],
    pub left: String,
    pub peers: Option<Vec<Peer>>,
    pub tracker_response: Option<TrackerResponse>,
}

impl ClientTorrentMetaInfo {
    /// Keeps the peers of `tracker_response` as the torrent's peer list.
    pub fn add_peer_list_from_tracker_response(&mut self, tracker_response: TrackerResponse)
        ensures
            final(self).peers == tracker_response.peers,
            final(self).raw_torrent == old(self).raw_torrent,
            final(self).files == old(self).files,
            final(self).downloaded == old(self).downloaded,
            final(self).uploaded == old(self).uploaded,
            final(self).info_hash == old(self).info_hash,
            final(self).left == old(self).left,
            final(self).tracker_response == old(self).tracker_response,
    {
        self.peers = tracker_response.peers;
    }

    /// The name of the torrent.
    pub fn get_torrent_name(&self) -> (r: String)
        ensures
            r@ == self.raw_torrent.info.name@,
    {
        self.raw_torrent.info.name.clone()
    }

    /// The client's record of a new torrent: its files (sizes in
    /// megabytes), the SHA-1 digest of `info_bencoded` (the bencoded `info`
    /// dictionary) as info hash, nothing downloaded or uploaded yet, the
    /// whole download size left, and no peers.
    pub fn from_torrent_file_meta(torrent_file_meta: MetaInfo, info_bencoded: &[u8]) -> (r: ClientTorrentMetaInfo)
        requires
            torrent_file_meta.has_file_list(),
            torrent_file_meta.spec_download_size() <= u64::MAX,
        ensures
            r.raw_torrent == torrent_file_meta,
            r.info_hash@ == sha1_of(info_bencoded@),
            r.files@.map_values(|f: LocalFile| (f.path@.map_values(|c: String| c@), f.size))
                == torrent_file_meta.spec_files().map_values(|f: FileInfoView| local_file_of(f)),
            r.downloaded@ == decimal(0),
            r.uploaded@ == decimal(0),
            r.left@ == decimal(torrent_file_meta.spec_download_size()),
            r.peers is None,
            r.tracker_response is None,
    {
        let left = u64_to_decimal(torrent_file_meta.download_size());
        let t = TorrentFiles::from_torrent_file_meta(torrent_file_meta, info_bencoded);
        ClientTorrentMetaInfo {
            raw_torrent: t.raw_torrent,
            files: t.files,
            downloaded: u64_to_decimal(0),
            uploaded: u64_to_decimal(0),
            info_hash: t.info_hash,
            left,
            peers: None,
            tracker_response: None,
        }
    }
}

} // verus!
