//! Planning an encode on several threads.

use opus_pure::config::Application;
use opus_pure::parallel::ParallelConfig;

#[test]
fn the_warm_up_covers_two_seconds() {
    let c = ParallelConfig::new(48_000, 2, Application::Audio);
    assert_eq!(c.warmup_frames(960), 100);
    assert_eq!(c.warmup_frames(2880), 34);
    assert_eq!(c.warmup_frames(0), 0);
}

#[test]
fn ranges_cover_every_frame_in_order() {
    let c = ParallelConfig::new(48_000, 2, Application::Audio);
    let plan = c.plan(3, 10_000, 960);
    assert_eq!(plan.workers, 3);
    assert_eq!(plan.ranges, vec![(0, 3334), (3334, 6667), (6667, 10_000)]);
    assert_eq!(plan.redundant_frames, 200);
    assert_eq!(plan.first_encoded(0), 0);
    assert_eq!(plan.first_encoded(1), 3234);
}

#[test]
fn a_short_clip_is_encoded_serially() {
    let mut c = ParallelConfig::new(48_000, 2, Application::Audio);
    assert_eq!(c.plan(8, 100, 960).workers, 1);
    assert_eq!(c.plan(8, 0, 960).ranges, vec![]);
    c.threads = 2;
    assert_eq!(c.plan(8, 10_000, 960).workers, 2);
    c.warmup_ms = 0;
    assert_eq!(c.plan(1, 10, 960).redundant_frames, 0);
}
