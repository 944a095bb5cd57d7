pub mod job_orchestrator;
pub mod torrent_refresh;
