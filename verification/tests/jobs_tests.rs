use fissure_client::models::torrent_jobs::Job;
use fissure_client::models::torrent_meta::{Info, MetaInfo};
use fissure_client::orchestration::job_orchestrator::{
    draw_next_piece, file_piece_memory_representation, schedule_piece, ScheduleOutcome, jobs_for_piece, next_piece_to_schedule, Chunk,
    MemoryPiece,
};

fn meta(n_hashes: u8) -> MetaInfo {
    let mut pieces_hash = Vec::new();
    for i in 0..n_hashes {
        pieces_hash.extend_from_slice(&[i + 1; 20]);
    }
    MetaInfo {
        announce: String::new(),
        announce_list: None,
        info: Info { name: "f".to_string(), piece_length: 32768, pieces_hash, length: Some(100000), files: None },
    }
}

fn shape(c: &Chunk) -> (bool, u32, u32, usize) {
    match c {
        Chunk::StandardChunk(i, d) => (true, *i, 16384, d.len()),
        Chunk::PartialChunk(i, s, d) => (false, *i, *s, d.len()),
    }
}

#[test]
fn full_piece_has_standard_chunks_numbered_from_one() {
    let p = MemoryPiece::new(3, 2, vec![9u8; 20]);
    assert_eq!(p.index, 3);
    assert_eq!(p.integrity_hash, vec![9u8; 20]);
    let shapes: Vec<_> = p.chunks.iter().map(shape).collect();
    assert_eq!(shapes, vec![(true, 1, 16384, 0), (true, 2, 16384, 0)]);
}

#[test]
fn partial_piece_ends_with_the_next_chunk_number() {
    let p = MemoryPiece::new_non_full_pieces(4, 2, 100, vec![1u8; 20]);
    let shapes: Vec<_> = p.chunks.iter().map(shape).collect();
    assert_eq!(shapes, vec![(true, 1, 16384, 0), (true, 2, 16384, 0), (false, 3, 100, 0)]);
}

#[test]
fn job_has_a_zeroed_buffer() {
    let j = Job::new(1, 5, 10);
    assert_eq!((j.index, j.length, j.begin), (1, 5, 10));
    assert_eq!(j.chunk_data, vec![0u8; 5]);
}

#[test]
fn job_offsets_follow_chunk_numbers() {
    let j = Job::new_job_from_piece_process(7, Chunk::StandardChunk(3, Vec::new()));
    assert_eq!((j.index, j.begin, j.length), (7, 32768, 16384));
    let j = Job::new_job_from_piece_process(7, Chunk::PartialChunk(3, 100, Vec::new()));
    assert_eq!((j.index, j.begin, j.length), (7, 32768, 100));
    assert_eq!(j.chunk_data.len(), 100);
}

#[test]
fn piece_state_of_a_download() {
    let m = meta(4);
    let pieces = MemoryPiece::torrent_piece_state(100000, 32768, &m);
    assert_eq!(pieces.len(), 4);
    for i in 0..3usize {
        assert_eq!(pieces[i].index, i);
        assert_eq!(pieces[i].integrity_hash, vec![i as u8 + 1; 20]);
        let shapes: Vec<_> = pieces[i].chunks.iter().map(shape).collect();
        assert_eq!(shapes, vec![(true, 1, 16384, 0), (true, 2, 16384, 0)]);
    }
    let last = &pieces[3];
    assert_eq!(last.index, 3);
    assert_eq!(last.integrity_hash, vec![4u8; 20]);
    let shapes: Vec<_> = last.chunks.iter().map(shape).collect();
    assert_eq!(shapes, vec![(false, 1, 100000 - 3 * 32768, 0)]);
}

#[test]
fn trailing_partial_piece_is_a_piece_of_its_own() {
    let m = meta(2);
    let pieces = MemoryPiece::torrent_piece_state(40000, 32768, &m);
    assert_eq!(pieces.len(), 2);
    let first: Vec<_> = pieces[0].chunks.iter().map(shape).collect();
    assert_eq!(first, vec![(true, 1, 16384, 0), (true, 2, 16384, 0)]);
    assert_eq!(pieces[0].integrity_hash, vec![1u8; 20]);
    let last: Vec<_> = pieces[1].chunks.iter().map(shape).collect();
    assert_eq!(last, vec![(false, 1, 7232, 0)]);
    assert_eq!(pieces[1].integrity_hash, vec![2u8; 20]);
}

#[test]
fn exact_multiple_ends_with_a_whole_piece() {
    let m = meta(2);
    let pieces = MemoryPiece::torrent_piece_state(65536, 32768, &m);
    assert_eq!(pieces.len(), 2);
    let last: Vec<_> = pieces[1].chunks.iter().map(shape).collect();
    assert_eq!(last, vec![(true, 1, 16384, 0), (true, 2, 16384, 0)]);
}

#[test]
fn download_smaller_than_a_piece_is_one_short_piece() {
    let m = meta(1);
    let pieces = MemoryPiece::torrent_piece_state(20000, 32768, &m);
    assert_eq!(pieces.len(), 1);
    let shapes: Vec<_> = pieces[0].chunks.iter().map(shape).collect();
    assert_eq!(shapes, vec![(true, 1, 16384, 0), (false, 2, 20000 - 16384, 0)]);
    assert!(MemoryPiece::torrent_piece_state(0, 32768, &m).is_empty());
}

#[test]
fn jobs_of_a_piece_lie_end_to_end() {
    let p = MemoryPiece::new_non_full_pieces(2, 2, 1696, vec![0u8; 20]);
    let jobs = jobs_for_piece(2, &p.chunks);
    let spans: Vec<(u64, u64)> = jobs.iter().map(|j| (j.begin, j.length)).collect();
    assert_eq!(spans, vec![(0, 16384), (16384, 16384), (32768, 1696)]);
    for w in jobs.windows(2) {
        assert_eq!(w[0].begin + w[0].length, w[1].begin);
    }
    assert!(jobs.iter().all(|j| j.index == 2 && j.chunk_data.len() as u64 == j.length));
}

#[test]
fn memory_plan_holds_every_piece_by_index() {
    let m = meta(4);
    let map = file_piece_memory_representation(&m);
    assert_eq!(map.len(), 4);
    for i in 0..4usize {
        let p = map.get_piece(i).unwrap();
        assert_eq!(p.index, i);
        assert_eq!(p.integrity_hash, vec![i as u8 + 1; 20]);
    }
    let last = map.get_piece(3).unwrap();
    let shapes: Vec<_> = last.chunks.iter().map(shape).collect();
    assert_eq!(shapes, vec![(false, 1, 1696, 0)]);
    assert!(map.get_piece(4).is_none());
}

#[test]
fn copied_piece_keeps_its_chunks() {
    let p = MemoryPiece::new_non_full_pieces(1, 1, 5, vec![7u8; 20]);
    let c = p.clone();
    assert_eq!(c.index, 1);
    assert_eq!(c.integrity_hash, p.integrity_hash);
    assert_eq!(c.chunks.iter().map(shape).collect::<Vec<_>>(), p.chunks.iter().map(shape).collect::<Vec<_>>());
}

#[test]
fn drawn_piece_is_scheduled_only_once() {
    let scheduled: Vec<u32> = vec![1, 3];
    assert_eq!(next_piece_to_schedule(&scheduled, 3), None);
    assert_eq!(next_piece_to_schedule(&scheduled, 1), None);
    assert_eq!(next_piece_to_schedule(&scheduled, 2), Some(2));
    assert_eq!(next_piece_to_schedule(&Vec::new(), 0), Some(0));
}

#[test]
fn drawing_picks_an_unscheduled_piece_in_range() {
    let scheduled: Vec<u32> = vec![0, 2, 3];
    let mut seen_one = false;
    for _ in 0..200 {
        match draw_next_piece(&scheduled, 5) {
            Some(x) => {
                assert!(x == 1 || x == 4);
                seen_one = true;
            }
            None => {}
        }
    }
    assert!(seen_one);
    let all: Vec<u32> = vec![0, 1];
    for _ in 0..20 {
        assert_eq!(draw_next_piece(&all, 2), None);
    }
}

#[test]
fn first_draw_always_finds_a_piece() {
    for _ in 0..50 {
        let x = draw_next_piece(&Vec::new(), 7).unwrap();
        assert!(x < 7);
    }
}

#[test]
fn scheduling_a_piece_gives_its_jobs_once() {
    let m = meta(4);
    let map = file_piece_memory_representation(&m);
    let mut scheduled: Vec<u32> = Vec::new();
    match schedule_piece(&map, &mut scheduled, 3) {
        ScheduleOutcome::Scheduled(jobs) => {
            let spans: Vec<(u64, u64, u64)> = jobs.iter().map(|j| (j.index, j.begin, j.length)).collect();
            assert_eq!(spans, vec![(3, 0, 1696)]);
        }
        _ => panic!("piece 3 should be scheduled"),
    }
    assert_eq!(scheduled, vec![3]);
    assert!(matches!(schedule_piece(&map, &mut scheduled, 9), ScheduleOutcome::Missing));
    assert_eq!(scheduled, vec![3]);
    assert_eq!(next_piece_to_schedule(&scheduled, 3), None);
}
