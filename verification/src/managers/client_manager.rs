//! The client's settings and the per-torrent information it derives from a
//! decoded `.torrent` file.
use crate::hashing::{sha1_digest, sha1_of};
use crate::models::peer_settings::PeerOptions;
use crate::models::torrent_meta::{FileInfo, FileInfoView, MetaInfo};
use vstd::prelude::*;

verus! {

/// The client's settings (the `client` section of the settings file).
#[derive(Debug)]
pub struct FissureClientOptions {
    pub port: String,
    pub ip: String,
    pub version: String,
}

impl Default for FissureClientOptions {
    /// The values used when the settings file gives none.
    fn default() -> (r: Self)
        ensures
            r.port@ == "6001"@,
            r.ip@ == "0.0.0.0"@,
            r.version@ == "0001"@,
    {
        FissureClientOptions {
            port: String::from_str("6001"),
            ip: String::from_str("0.0.0.0"),
            version: String::from_str("0001"),
        }
    }
}

/// A request to the client.
#[derive(Debug)]
pub enum ClientActorMessage {
    AddTorret { torrent_file_path: String, peer_settings: PeerOptions, download_path: String },
}

/// One file of a torrent as the client stores it.
#[derive(Debug)]
pub struct LocalFile {
    /// The path components of the file, relative to the download directory.
    pub path: Vec<String>,
    /// The size of the file in megabytes (bytes divided by 1000000, rounded down).
    pub size: u64,
}

/// Everything the client needs to download a torrent.
#[derive(Debug)]
pub struct ClientTorrentMetaInfo {
    pub raw_torrent: MetaInfo,
    /// The files, in stream order.
    pub files: Vec<LocalFile>,
    /// The SHA-1 digest of the bencoded `info` dictionary.
    pub info_hash: [u8; 20],
}

/// The client's record of a torrent file: its path and its size in megabytes.
pub open spec fn local_file_of(f: FileInfoView) -> (Seq<Seq<char>>, u64) {
    (f.path, f.length / 1000000)
}

impl ClientTorrentMetaInfo {
    /// The client's information on a torrent: its files (sizes in
    /// megabytes) and its info hash, the SHA-1 digest of `info_bencoded`,
    /// the bencoded form of the torrent's `info` dictionary.
    pub fn from_torrent_file_meta(torrent_file_meta: MetaInfo, info_bencoded: &[u8]) -> (r: ClientTorrentMetaInfo)
        requires
            torrent_file_meta.has_file_list(),
        ensures
            r.raw_torrent == torrent_file_meta,
            r.info_hash@ == sha1_of(info_bencoded@),
            r.files@.map_values(|f: LocalFile| (f.path@.map_values(|c: String| c@), f.size))
                == torrent_file_meta.spec_files().map_values(|f: FileInfoView| local_file_of(f)),
    {
        let mut client_files: Vec<LocalFile> = Vec::new();
        let files = torrent_file_meta.files();
        let ghost fs = files@.map_values(|f: FileInfo| f@);
        let mut i: usize = 0;
        while i < files.len()
            invariant
                i <= files@.len(),
                fs == files@.map_values(|f: FileInfo| f@),
                client_files@.len() == i,
                forall|k: int|
                    0 <= k < i ==> (#[trigger] client_files@[k]).path@.map_values(|c: String| c@) == fs[k].path
                        && client_files@[k].size == fs[k].length / 1000000,
            decreases files@.len() - i,
        {
            let content = &files[i];
            let path = content.path.clone();
            proof {
                assert(path@.map_values(|c: String| c@) =~= fs[i as int].path);
            }
            client_files.push(LocalFile { path, size: content.length / 1000000 });
            i = i + 1;
        }
        proof {
            assert(client_files@.map_values(|f: LocalFile| (f.path@.map_values(|c: String| c@), f.size))
                =~= fs.map_values(|f: FileInfoView| local_file_of(f)));
        }
        let info_hash = sha1_digest(info_bencoded);
        ClientTorrentMetaInfo { files: client_files, info_hash, raw_torrent: torrent_file_meta }
    }
}

} // verus!
