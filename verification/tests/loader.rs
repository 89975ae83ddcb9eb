use cubeland::chunk::Chunk;
use cubeland::coord::ChunkCoord;
use cubeland::loader::{ChunkLoader, LoaderConfig, RequestPolicy, worker_index};

fn config(max_chunks: usize, max_inflight: usize, policy: RequestPolicy) -> LoaderConfig {
    LoaderConfig { worker_count: 2, max_chunks, max_inflight, policy, report_interval: 1000 }
}

fn c(x: i64, y: i64, z: i64) -> ChunkCoord {
    ChunkCoord::new(x, y, z)
}

#[test]
fn end_to_end_two_chunks_then_a_third() {
    let mut loader: ChunkLoader<u32> =
        ChunkLoader::with_config(config(2, 8, RequestPolicy::FrameRefresh), 0);
    loader.request_at(&[c(0, 0, 0), c(1, 0, 0)], 10);
    let out = loader.work_at(vec![], 11);
    let coords: Vec<ChunkCoord> = out.dispatches.iter().map(|d| d.coord).collect();
    assert_eq!(coords, vec![c(0, 0, 0), c(1, 0, 0)]);
    for d in &out.dispatches {
        assert_eq!(d.worker, worker_index(d.coord, 2));
        assert!(d.worker < 2);
    }
    let done: Vec<Chunk<u32>> =
        out.dispatches.iter().map(|d| Chunk::new(d.coord, 7, 12)).collect();
    let out = loader.work_at(done, 20);
    assert!(out.dispatches.is_empty());
    assert_eq!(loader.resident_count(), 2);
    assert!(loader.get(c(0, 0, 0)).is_some());
    assert!(loader.get(c(1, 0, 0)).is_some());

    // the second request touches (1,0,0) and asks for (2,0,0)
    loader.request_at(&[c(1, 0, 0), c(2, 0, 0)], 30);
    let out = loader.work_at(vec![], 31);
    assert_eq!(out.dispatches.len(), 1);
    assert_eq!(out.dispatches[0].coord, c(2, 0, 0));
    let out = loader.work_at(vec![Chunk::new(c(2, 0, 0), 9, 32)], 40);
    assert!(out.dispatches.is_empty());
    assert_eq!(loader.resident_count(), 2);
    assert!(loader.get(c(0, 0, 0)).is_none());
    assert_eq!(loader.get(c(1, 0, 0)).map(|ch| ch.used_time), Some(30));
    assert_eq!(loader.get(c(2, 0, 0)).map(|ch| (ch.payload, ch.used_time)), Some((9, 40)));
}

#[test]
fn default_limits() {
    let loader: ChunkLoader<u32> = ChunkLoader::new(3);
    let config = loader.config();
    assert_eq!(config.worker_count, 3);
    assert_eq!(config.max_chunks, 8192);
    assert_eq!(config.max_chunks, cubeland::loader::MAX_CHUNKS);
    assert_eq!(config.max_inflight, 8);
    assert_eq!(config.policy, RequestPolicy::FrameRefresh);
    assert_eq!(config.report_interval, 1_000_000_000);
    assert_eq!(loader.resident_count(), 0);
}

#[test]
fn no_duplicate_dispatch_while_in_flight() {
    for policy in [RequestPolicy::FrameRefresh, RequestPolicy::Accumulate] {
        let mut loader: ChunkLoader<u32> = ChunkLoader::with_config(config(8, 4, policy), 0);
        loader.request_at(&[c(5, 5, 5), c(6, 6, 6)], 1);
        let out = loader.work_at(vec![], 2);
        assert_eq!(out.dispatches.len(), 2);
        // (5,5,5) and (6,6,6) are in flight now; asking again dispatches nothing
        for tick in 0..5u64 {
            loader.request_at(&[c(5, 5, 5), c(6, 6, 6), c(5, 5, 5)], 10 + tick);
            let out = loader.work_at(vec![], 20 + tick);
            assert!(out.dispatches.is_empty());
        }
        // the result of (6,6,6) arrives; (5,5,5) is still not dispatched again
        loader.request_at(&[c(5, 5, 5), c(6, 6, 6)], 30);
        let out = loader.work_at(vec![Chunk::new(c(6, 6, 6), 1, 0)], 31);
        assert!(out.dispatches.is_empty());
        loader.request_at(&[c(5, 5, 5), c(6, 6, 6), c(7, 7, 7)], 40);
        let out = loader.work_at(vec![], 41);
        let coords: Vec<ChunkCoord> = out.dispatches.iter().map(|d| d.coord).collect();
        assert_eq!(coords, vec![c(7, 7, 7)]);
    }
}

#[test]
fn request_is_idempotent() {
    for policy in [RequestPolicy::FrameRefresh, RequestPolicy::Accumulate] {
        // nothing may leave the queue, so that it can be read off the dispatches later
        let mut once: ChunkLoader<u32> = ChunkLoader::with_config(config(8, 100, policy), 0);
        let mut twice: ChunkLoader<u32> = ChunkLoader::with_config(config(8, 100, policy), 0);
        let coords = [c(1, 0, 0), c(2, 0, 0), c(1, 0, 0), c(3, 0, 0)];
        once.request_at(&coords, 5);
        twice.request_at(&coords, 5);
        twice.request_at(&coords, 6);
        let a: Vec<ChunkCoord> = once.work_at(vec![], 7).dispatches.iter().map(|d| d.coord).collect();
        let b: Vec<ChunkCoord> = twice.work_at(vec![], 7).dispatches.iter().map(|d| d.coord).collect();
        assert_eq!(a, vec![c(1, 0, 0), c(2, 0, 0), c(3, 0, 0)]);
        assert_eq!(a, b);
    }
}

#[test]
fn frame_refresh_drops_what_is_no_longer_asked_for() {
    let mut loader: ChunkLoader<u32> =
        ChunkLoader::with_config(config(8, 1, RequestPolicy::FrameRefresh), 0);
    loader.request_at(&[c(1, 0, 0), c(2, 0, 0), c(3, 0, 0)], 1);
    let out = loader.work_at(vec![], 2);
    assert_eq!(out.dispatches.iter().map(|d| d.coord).collect::<Vec<_>>(), vec![c(1, 0, 0)]);
    // (2,0,0) and (3,0,0) wait; the next request names (3,0,0) only
    loader.request_at(&[c(3, 0, 0)], 3);
    let out = loader.work_at(vec![Chunk::new(c(1, 0, 0), 0, 0)], 4);
    assert_eq!(out.dispatches.iter().map(|d| d.coord).collect::<Vec<_>>(), vec![c(3, 0, 0)]);
    loader.request_at(&[], 5);
    let out = loader.work_at(vec![Chunk::new(c(3, 0, 0), 0, 0)], 6);
    assert!(out.dispatches.is_empty());
}

#[test]
fn accumulate_keeps_the_queue() {
    let mut loader: ChunkLoader<u32> =
        ChunkLoader::with_config(config(8, 1, RequestPolicy::Accumulate), 0);
    loader.request_at(&[c(1, 0, 0), c(2, 0, 0), c(3, 0, 0)], 1);
    let out = loader.work_at(vec![], 2);
    assert_eq!(out.dispatches.iter().map(|d| d.coord).collect::<Vec<_>>(), vec![c(1, 0, 0)]);
    loader.request_at(&[c(4, 0, 0), c(3, 0, 0)], 3);
    let out = loader.work_at(vec![Chunk::new(c(1, 0, 0), 0, 0)], 4);
    assert_eq!(out.dispatches.iter().map(|d| d.coord).collect::<Vec<_>>(), vec![c(2, 0, 0)]);
    let out = loader.work_at(vec![Chunk::new(c(2, 0, 0), 0, 0)], 5);
    assert_eq!(out.dispatches.iter().map(|d| d.coord).collect::<Vec<_>>(), vec![c(3, 0, 0)]);
    let out = loader.work_at(vec![Chunk::new(c(3, 0, 0), 0, 0)], 6);
    assert_eq!(out.dispatches.iter().map(|d| d.coord).collect::<Vec<_>>(), vec![c(4, 0, 0)]);
}

#[test]
fn dispatch_stops_at_the_in_flight_limit() {
    let mut loader: ChunkLoader<u32> =
        ChunkLoader::with_config(config(100, 3, RequestPolicy::Accumulate), 0);
    let coords: Vec<ChunkCoord> = (0..10).map(|i| c(i, 0, 0)).collect();
    loader.request_at(&coords, 1);
    let out = loader.work_at(vec![], 2);
    assert_eq!(out.dispatches.iter().map(|d| d.coord).collect::<Vec<_>>(), coords[0..3].to_vec());
    let out = loader.work_at(vec![], 3);
    assert!(out.dispatches.is_empty());
    // two results come back, two more jobs go out
    let out = loader.work_at(vec![Chunk::new(c(0, 0, 0), 0, 0), Chunk::new(c(2, 0, 0), 0, 0)], 4);
    assert_eq!(out.dispatches.iter().map(|d| d.coord).collect::<Vec<_>>(), coords[3..5].to_vec());
    assert_eq!(loader.resident_count(), 2);
}

#[test]
fn no_dispatch_without_room() {
    let mut loader: ChunkLoader<u32> =
        ChunkLoader::with_config(config(100, 0, RequestPolicy::FrameRefresh), 0);
    loader.request_at(&[c(1, 0, 0)], 1);
    assert!(loader.work_at(vec![], 2).dispatches.is_empty());
}

#[test]
fn harvest_touches_and_the_later_chunk_wins() {
    let mut loader: ChunkLoader<u32> =
        ChunkLoader::with_config(config(4, 4, RequestPolicy::FrameRefresh), 0);
    let out = loader.work_at(vec![Chunk::new(c(1, 1, 1), 1, 3), Chunk::new(c(1, 1, 1), 2, 4)], 50);
    assert!(out.dispatches.is_empty());
    assert_eq!(loader.resident_count(), 1);
    let ch = loader.get(c(1, 1, 1)).unwrap();
    assert_eq!((ch.coord, ch.payload, ch.used_time), (c(1, 1, 1), 2, 50));
}

#[test]
fn work_restores_the_bound_on_resident_chunks() {
    let mut loader: ChunkLoader<u32> =
        ChunkLoader::with_config(config(3, 4, RequestPolicy::FrameRefresh), 0);
    let done: Vec<Chunk<u32>> = (0..10).map(|i| Chunk::new(c(i, 0, 0), 0, 0)).collect();
    loader.work_at(done, 5);
    // all ten were touched at 5: the lowest coordinates go first
    assert_eq!(loader.resident_count(), 3);
    assert!(loader.get(c(7, 0, 0)).is_some());
    assert!(loader.get(c(8, 0, 0)).is_some());
    assert!(loader.get(c(9, 0, 0)).is_some());
}

#[test]
fn request_touches_resident_chunks_only() {
    let mut loader: ChunkLoader<u32> =
        ChunkLoader::with_config(config(4, 4, RequestPolicy::FrameRefresh), 0);
    loader.work_at(vec![Chunk::new(c(0, 0, 0), 1, 0), Chunk::new(c(1, 0, 0), 2, 0)], 10);
    loader.request_at(&[c(1, 0, 0), c(2, 0, 0)], 20);
    assert_eq!(loader.get(c(0, 0, 0)).map(|ch| ch.used_time), Some(10));
    assert_eq!(loader.get(c(1, 0, 0)).map(|ch| ch.used_time), Some(20));
    assert!(loader.get(c(2, 0, 0)).is_none());
    assert_eq!(loader.resident_count(), 2);
}

#[test]
fn load_rate_is_reported_once_per_interval() {
    // the report interval is 1000 and the limiter is armed at 0
    let mut loader: ChunkLoader<u32> =
        ChunkLoader::with_config(config(100, 4, RequestPolicy::FrameRefresh), 0);
    let out = loader.work_at(vec![Chunk::new(c(0, 0, 0), 0, 0)], 10);
    assert_eq!(out.loaded_report, None);
    let out = loader.work_at(vec![Chunk::new(c(1, 0, 0), 0, 0), Chunk::new(c(2, 0, 0), 0, 0)], 999);
    assert_eq!(out.loaded_report, None);
    let out = loader.work_at(vec![], 1000);
    assert_eq!(out.loaded_report, Some(3));
    // nothing loaded: no report, and the limiter is not asked
    let out = loader.work_at(vec![], 5000);
    assert_eq!(out.loaded_report, None);
    let out = loader.work_at(vec![Chunk::new(c(3, 0, 0), 0, 0)], 5001);
    assert_eq!(out.loaded_report, Some(1));
    let out = loader.work_at(vec![Chunk::new(c(4, 0, 0), 0, 0)], 6000);
    assert_eq!(out.loaded_report, None);
    let out = loader.work_at(vec![], 6001);
    assert_eq!(out.loaded_report, Some(1));
}

#[test]
fn routing_is_a_function_of_the_coordinate() {
    let mut used = [false; 4];
    for x in -5..5 {
        for y in -5..5 {
            let w = worker_index(c(x, y, 3), 4);
            assert!(w < 4);
            assert_eq!(w, worker_index(c(x, y, 3), 4));
            used[w] = true;
        }
    }
    assert_eq!(used, [true; 4]);
    assert_eq!(worker_index(c(1, 2, 3), 1), 0);
}

#[test]
fn resident_chunks_in_the_order_asked() {
    let mut loader: ChunkLoader<u32> =
        ChunkLoader::with_config(config(100, 4, RequestPolicy::FrameRefresh), 0);
    loader.work_at(vec![Chunk::new(c(0, 0, 0), 10, 0), Chunk::new(c(1, 0, 0), 11, 0)], 1);
    let found = loader.resident_chunks(&[c(1, 0, 0), c(5, 5, 5), c(0, 0, 0), c(1, 0, 0)]);
    let payloads: Vec<u32> = found.iter().map(|ch| ch.payload).collect();
    assert_eq!(payloads, vec![11, 10, 11]);
}

#[test]
fn the_real_clock_variants() {
    let mut loader: ChunkLoader<u32> = ChunkLoader::new(2);
    loader.request(&[c(0, 0, 0), c(1, 0, 0)]);
    let out = loader.work(vec![]);
    assert_eq!(out.dispatches.len(), 2);
    let out = loader.work(vec![Chunk::new(c(0, 0, 0), 1, 0)]);
    assert!(out.dispatches.is_empty());
    assert_eq!(out.loaded_report, None);
    assert_eq!(loader.resident_count(), 1);
    loader.request(&[c(0, 0, 0), c(1, 0, 0)]);
    assert!(loader.work(vec![]).dispatches.is_empty());
}

#[test]
fn a_failed_job_can_be_asked_for_again() {
    let mut loader: ChunkLoader<u32> =
        ChunkLoader::with_config(config(8, 4, RequestPolicy::FrameRefresh), 0);
    loader.request_at(&[c(1, 0, 0), c(2, 0, 0)], 1);
    assert_eq!(loader.work_at(vec![], 2).dispatches.len(), 2);
    assert!(loader.job_failed(c(1, 0, 0)));
    assert!(!loader.job_failed(c(1, 0, 0)));
    assert!(!loader.job_failed(c(9, 9, 9)));
    // nothing is queued by the failure itself
    assert!(loader.work_at(vec![], 3).dispatches.is_empty());
    loader.request_at(&[c(1, 0, 0), c(2, 0, 0)], 4);
    let out = loader.work_at(vec![], 5);
    assert_eq!(out.dispatches.iter().map(|d| d.coord).collect::<Vec<_>>(), vec![c(1, 0, 0)]);
}

#[test]
fn the_jobs_of_a_lost_worker_go_back_to_the_queue() {
    let mut loader: ChunkLoader<u32> =
        ChunkLoader::with_config(config(8, 4, RequestPolicy::Accumulate), 0);
    loader.request_at(&[c(1, 0, 0), c(2, 0, 0), c(3, 0, 0)], 1);
    assert_eq!(loader.work_at(vec![], 2).dispatches.len(), 3);
    // (4,0,0) was never dispatched, and (3,0,0) comes back before the loss is noticed
    loader.work_at(vec![Chunk::new(c(3, 0, 0), 0, 0)], 3);
    loader.worker_lost(&[c(2, 0, 0), c(4, 0, 0), c(3, 0, 0), c(2, 0, 0)], 1);
    assert_eq!(loader.config().worker_count, 1);
    let out = loader.work_at(vec![], 4);
    assert_eq!(out.dispatches.iter().map(|d| (d.worker, d.coord)).collect::<Vec<_>>(), vec![(0, c(2, 0, 0))]);
    // (1,0,0) is still in flight with the worker that is left
    loader.request_at(&[c(1, 0, 0)], 5);
    assert!(loader.work_at(vec![], 6).dispatches.is_empty());
}

#[test]
fn one_job_at_a_time_for_a_single_threaded_owner() {
    // with room for one job in flight, each tick hands out at most one job,
    // which the owner generates itself and hands in at the next tick
    let mut loader: ChunkLoader<u32> =
        ChunkLoader::with_config(config(2, 1, RequestPolicy::FrameRefresh), 0);
    let wanted = [c(0, 0, 0), c(1, 0, 0)];
    let mut generated: Vec<Chunk<u32>> = Vec::new();
    let mut order = Vec::new();
    for tick in 0..3u64 {
        loader.request_at(&wanted, 10 * tick);
        let out = loader.work_at(std::mem::take(&mut generated), 10 * tick + 1);
        assert!(out.dispatches.len() <= 1);
        for d in out.dispatches {
            order.push(d.coord);
            generated.push(Chunk::new(d.coord, 0, 0));
        }
    }
    assert_eq!(order, vec![c(0, 0, 0), c(1, 0, 0)]);
    assert_eq!(loader.resident_count(), 2);
    assert!(loader.get(c(0, 0, 0)).is_some() && loader.get(c(1, 0, 0)).is_some());
}
