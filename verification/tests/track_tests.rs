use vo_track::feature::{MatchedFeature, VpPosition, MATCH_DEGREE_FULL, NO_MATCH};
use vo_track::track::Tracker;

fn pos(x: f64, y: f64) -> VpPosition {
    VpPosition { x_bits: x.to_bits(), y_bits: y.to_bits() }
}

fn feat(prev_index: u32, x: f64, y: f64, degree: f64) -> MatchedFeature {
    MatchedFeature {
        prev_index,
        position: pos(x, y),
        match_degree: (degree * MATCH_DEGREE_FULL as f64) as u32,
    }
}

#[test]
fn mod_test() {}

#[test]
fn scenario_full_chain() {
    let mut tracker = Tracker::new(3);
    tracker.update_matched(0, &[feat(NO_MATCH, 1.0, 1.0, 1.0)]);
    tracker.update_matched(1, &[feat(0, 2.0, 2.0, 1.0)]);
    tracker.update_matched(2, &[feat(0, 3.0, 3.0, 1.0)]);
    let snapshot = tracker.get_tracked();
    assert_eq!(snapshot.frames_count(), 3);
    assert_eq!(snapshot.points_count(), 1);
    assert_eq!(snapshot.get_point(0, 0).unwrap().vp_position, pos(3.0, 3.0));
    assert_eq!(snapshot.get_point(1, 0).unwrap().vp_position, pos(2.0, 2.0));
    assert_eq!(snapshot.get_point(2, 0).unwrap().vp_position, pos(1.0, 1.0));
}

#[test]
fn scenario_broken_chain() {
    let mut tracker = Tracker::new(3);
    tracker.update_matched(0, &[feat(NO_MATCH, 1.0, 1.0, 1.0)]);
    tracker.update_matched(1, &[feat(0, 2.0, 2.0, 1.0)]);
    tracker.update_matched(2, &[feat(NO_MATCH, 3.0, 3.0, 1.0)]);
    let snapshot = tracker.get_tracked();
    assert_eq!(snapshot.frames_count(), 1);
    assert!(snapshot.get_point(1, 0).is_none());
    assert_eq!(snapshot.get_point(0, 0).unwrap().vp_position, pos(3.0, 3.0));
}

#[test]
fn scenario_eviction() {
    let mut tracker = Tracker::new(2);
    tracker.update_matched(0, &[feat(NO_MATCH, 1.0, 1.0, 1.0)]);
    tracker.update_matched(1, &[feat(0, 2.0, 2.0, 1.0)]);
    tracker.update_matched(2, &[feat(0, 3.0, 3.0, 1.0)]);
    let snapshot = tracker.get_tracked();
    assert!(snapshot.frames_count() <= 2);
    for i in 0..snapshot.points_count() {
        assert!(snapshot.get_point(2, i).is_none());
    }
    assert!(snapshot.get_point(2, 0).is_none());
}

#[test]
fn capacity_retention() {
    // Only the most recent `max_frames_buffered` frames stay, newest first.
    let mut tracker = Tracker::new(3);
    for ts in 0..10u64 {
        tracker.update_matched(ts, &[feat(0, ts as f64, 0.0, 1.0)]);
    }
    let snapshot = tracker.get_tracked();
    assert_eq!(snapshot.get_timestamp(0), Some(9));
    assert_eq!(snapshot.get_timestamp(1), Some(8));
    assert_eq!(snapshot.get_timestamp(2), Some(7));
    assert_eq!(snapshot.get_timestamp(3), None);
}

#[test]
fn anchor_completeness() {
    // Offset 0 always answers, with the newest frame's own positions.
    let mut tracker = Tracker::new(4);
    tracker.update_matched(
        7,
        &[
            feat(NO_MATCH, 1.5, -2.5, 0.0),
            feat(3, 0.25, 4.0, 0.5),
            feat(NO_MATCH, -8.0, 0.0, 1.0),
        ],
    );
    let snapshot = tracker.get_tracked();
    assert_eq!(snapshot.points_count(), 3);
    assert_eq!(snapshot.get_point(0, 0).unwrap().vp_position, pos(1.5, -2.5));
    assert_eq!(snapshot.get_point(0, 1).unwrap().vp_position, pos(0.25, 4.0));
    assert_eq!(snapshot.get_point(0, 2).unwrap().vp_position, pos(-8.0, 0.0));
}

#[test]
fn monotonic_death() {
    // Slot 1 dies after one frame; it must stay dead at all older offsets.
    let mut tracker = Tracker::new(4);
    tracker.update_matched(0, &[feat(NO_MATCH, 1.0, 0.0, 1.0), feat(NO_MATCH, 2.0, 0.0, 1.0)]);
    tracker.update_matched(1, &[feat(0, 1.1, 0.0, 1.0), feat(1, 2.1, 0.0, 1.0)]);
    tracker.update_matched(2, &[feat(0, 1.2, 0.0, 1.0), feat(NO_MATCH, 2.2, 0.0, 1.0)]);
    let snapshot = tracker.get_tracked();
    assert_eq!(snapshot.frames_count(), 3);
    assert!(snapshot.get_point(0, 1).is_some());
    assert!(snapshot.get_point(1, 1).is_none());
    assert!(snapshot.get_point(2, 1).is_none());
    assert!(snapshot.get_point(3, 1).is_none());
    // the surviving slot walks the whole buffer
    assert_eq!(snapshot.get_point(2, 0).unwrap().vp_position, pos(1.0, 0.0));
}

#[test]
fn confidence_gating() {
    // A zero match degree ends the chain even with a valid prev_index.
    let mut tracker = Tracker::new(3);
    tracker.update_matched(0, &[feat(NO_MATCH, 1.0, 1.0, 1.0)]);
    tracker.update_matched(1, &[feat(0, 2.0, 2.0, 1.0)]);
    tracker.update_matched(2, &[feat(0, 3.0, 3.0, 0.0)]);
    let snapshot = tracker.get_tracked();
    assert_eq!(snapshot.frames_count(), 1);
    assert_eq!(snapshot.get_point(0, 0).unwrap().vp_position, pos(3.0, 3.0));
    assert!(snapshot.get_point(1, 0).is_none());
}

#[test]
fn early_termination() {
    // Trailing frames past the death of every chain change nothing.
    let mut shallow = Tracker::new(8);
    shallow.update_matched(0, &[feat(NO_MATCH, 0.5, 0.5, 1.0)]);
    shallow.update_matched(1, &[feat(NO_MATCH, 1.5, 1.5, 1.0)]);
    let counted = shallow.get_tracked().frames_count();

    let mut deep = Tracker::new(8);
    deep.update_matched(10, &[feat(NO_MATCH, 9.0, 9.0, 1.0)]);
    deep.update_matched(11, &[feat(NO_MATCH, 8.0, 8.0, 1.0)]);
    deep.update_matched(0, &[feat(NO_MATCH, 0.5, 0.5, 1.0)]);
    deep.update_matched(1, &[feat(NO_MATCH, 1.5, 1.5, 1.0)]);
    let snapshot = deep.get_tracked();
    assert_eq!(snapshot.frames_count(), counted);
    assert_eq!(snapshot.frames_count(), 1);
}

#[test]
fn dangling_back_link() {
    // A prev_index past the previous frame's point list ends the chain.
    let mut tracker = Tracker::new(3);
    tracker.update_matched(0, &[feat(NO_MATCH, 1.0, 1.0, 1.0)]);
    tracker.update_matched(1, &[feat(5, 2.0, 2.0, 1.0)]);
    let snapshot = tracker.get_tracked();
    assert_eq!(snapshot.points_count(), 1);
    assert_eq!(snapshot.get_point(0, 0).unwrap().vp_position, pos(2.0, 2.0));
    assert!(snapshot.get_point(1, 0).is_none());
    assert_eq!(snapshot.frames_count(), 2);
}

#[test]
fn zero_capacity() {
    let mut tracker = Tracker::new(0);
    tracker.update_matched(0, &[feat(NO_MATCH, 1.0, 1.0, 1.0)]);
    let snapshot = tracker.get_tracked();
    assert_eq!(snapshot.frames_count(), 0);
    assert_eq!(snapshot.points_count(), 0);
    assert!(snapshot.get_point(0, 0).is_none());
    assert_eq!(snapshot.get_timestamp(0), None);
}

#[test]
fn empty_tracker() {
    let tracker = Tracker::new(4);
    let snapshot = tracker.get_tracked();
    assert_eq!(snapshot.frames_count(), 0);
    assert_eq!(snapshot.points_count(), 0);
}

#[test]
fn empty_frame() {
    // A newest frame with no points yields one emitted frame and no slots.
    let mut tracker = Tracker::new(4);
    tracker.update_matched(0, &[feat(NO_MATCH, 1.0, 1.0, 1.0)]);
    tracker.update_matched(1, &[]);
    let snapshot = tracker.get_tracked();
    assert_eq!(snapshot.frames_count(), 1);
    assert_eq!(snapshot.points_count(), 0);
    assert!(snapshot.get_point(0, 0).is_none());
}

#[test]
fn snapshot_is_independent() {
    let mut tracker = Tracker::new(3);
    tracker.update_matched(0, &[feat(NO_MATCH, 1.0, 1.0, 1.0)]);
    let snapshot = tracker.get_tracked();
    tracker.update_matched(1, &[feat(0, 2.0, 2.0, 1.0)]);
    assert_eq!(snapshot.frames_count(), 1);
    assert_eq!(snapshot.get_point(0, 0).unwrap().vp_position, pos(1.0, 1.0));
}

#[test]
fn trajectory_stops_at_first_gap() {
    let mut tracker = Tracker::new(4);
    tracker.update_matched(0, &[feat(NO_MATCH, 1.0, 1.0, 1.0), feat(NO_MATCH, 5.0, 5.0, 1.0)]);
    tracker.update_matched(1, &[feat(0, 2.0, 2.0, 1.0), feat(NO_MATCH, 6.0, 6.0, 1.0)]);
    tracker.update_matched(2, &[feat(0, 3.0, 3.0, 1.0), feat(1, 7.0, 7.0, 1.0)]);
    let snapshot = tracker.get_tracked();
    let track_0 = snapshot.trajectory(0);
    assert_eq!(track_0, vec![pos(3.0, 3.0), pos(2.0, 2.0), pos(1.0, 1.0)]);
    let track_1 = snapshot.trajectory(1);
    assert_eq!(track_1, vec![pos(7.0, 7.0), pos(6.0, 6.0)]);
    let track_none = snapshot.trajectory(2);
    assert_eq!(track_none.len(), 0);
}

#[test]
fn paired_points_aligns_slots() {
    let mut tracker = Tracker::new(4);
    tracker.update_matched(0, &[feat(NO_MATCH, 1.0, 1.0, 1.0), feat(NO_MATCH, 5.0, 5.0, 1.0)]);
    tracker.update_matched(1, &[feat(0, 2.0, 2.0, 1.0), feat(NO_MATCH, 6.0, 6.0, 1.0)]);
    tracker.update_matched(2, &[feat(0, 3.0, 3.0, 1.0), feat(1, 7.0, 7.0, 1.0)]);
    let snapshot = tracker.get_tracked();
    // both slots reach offset 1; only slot 0 reaches offset 2
    let (newest, older) = snapshot.paired_points(1);
    assert_eq!(newest, vec![pos(3.0, 3.0), pos(7.0, 7.0)]);
    assert_eq!(older, vec![pos(2.0, 2.0), pos(6.0, 6.0)]);
    let (newest, older) = snapshot.paired_points(2);
    assert_eq!(newest, vec![pos(3.0, 3.0)]);
    assert_eq!(older, vec![pos(1.0, 1.0)]);
    let (newest, older) = snapshot.paired_points(9);
    assert!(newest.is_empty());
    assert!(older.is_empty());
}

#[test]
fn default_feature_is_unmatched() {
    let mf = MatchedFeature::default();
    assert_eq!(mf.prev_index, 0);
    assert_eq!(mf.position, pos(0.0, 0.0));
    assert_eq!(mf.match_degree, 0);
}
