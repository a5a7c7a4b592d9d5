use demy::InterpType;
use demy::Node;
use demy::Sample;
use demy::Timeline;
use demy::TimelineError;

fn sample_value(s: Sample) -> f64 {
    match s {
        Sample::Constant { value } => f64::from_bits(value),
        Sample::Blend { from, to, num, den } => {
            let t = num as f64 / den as f64;
            f64::from_bits(from) * (1.0 - t) + t * f64::from_bits(to)
        }
    }
}

#[test]
fn fresh_track_has_exactly_the_zero_node() {
    let mut tl = Timeline::new();
    let track = tl.get_track("camera");
    let nodes = track.nodes();
    assert_eq!(nodes.len(), 1);
    assert_eq!(nodes[0].get_time(), 0);
    assert_eq!(nodes[0].get_value(), 0);
    assert_eq!(nodes[0].get_value(), 0_f64.to_bits());
    assert_eq!(nodes[0].get_interpolator(), InterpType::Hold);
}

#[test]
fn add_at_time_zero_is_refused() {
    let mut tl = Timeline::new();
    let track = tl.get_track_mut("camera");
    let r = track.add_node(&Node::new(0, 5_f64.to_bits(), InterpType::Linear));
    assert_eq!(r, Some(TimelineError::ZeroTimeForbidden));
    assert_eq!(track.nodes().len(), 1);
}

#[test]
fn add_at_occupied_time_is_refused_and_count_kept() {
    let mut tl = Timeline::new();
    let track = tl.get_track_mut("camera");
    assert!(track.add_node(&Node::new(7, 1_f64.to_bits(), InterpType::Hold)).is_none());
    let before = track.nodes().len();
    let r = track.add_node(&Node::new(7, 9_f64.to_bits(), InterpType::Linear));
    assert_eq!(r, Some(TimelineError::DuplicateTime));
    assert_eq!(track.nodes().len(), before);
    // the stored node is untouched by the refused insertion
    assert_eq!(track.get_node_at(7).unwrap().get_value(), 1_f64.to_bits());
}

#[test]
fn insertion_keeps_times_strictly_increasing() {
    let mut tl = Timeline::new();
    let track = tl.get_track_mut("camera");
    for time in [40u32, 10, 30, 20, 50, 25] {
        assert!(track.add_node(&Node::new(time, 1.5_f64.to_bits(), InterpType::Linear)).is_none());
        let nodes = track.nodes();
        for pair in nodes.windows(2) {
            assert!(pair[0].get_time() < pair[1].get_time());
        }
    }
    assert_eq!(track.nodes().len(), 7);
}

#[test]
fn delete_missing_and_zero_times() {
    let mut tl = Timeline::new();
    let track = tl.get_track_mut("camera");
    assert!(track.add_node(&Node::new(4, 1_f64.to_bits(), InterpType::Hold)).is_none());
    assert_eq!(track.del_node_at(5), Some(TimelineError::NotFound));
    assert_eq!(track.del_node_at(0), Some(TimelineError::ZeroTimeForbidden));
    assert_eq!(track.nodes().len(), 2);
    assert_eq!(track.del_node_at(4), None);
    assert_eq!(track.nodes().len(), 1);
}

#[test]
fn update_value_only_keeps_count_and_order() {
    let mut tl = Timeline::new();
    let track = tl.get_track_mut("camera");
    assert!(track.add_node(&Node::new(10, 1_f64.to_bits(), InterpType::Hold)).is_none());
    assert!(track.add_node(&Node::new(20, 2_f64.to_bits(), InterpType::Hold)).is_none());

    let r = track.update_node_at(10, &Node::new(10, 7_f64.to_bits(), InterpType::Linear));
    assert!(r.is_none());
    let nodes = track.nodes();
    assert_eq!(nodes.len(), 3);
    assert_eq!(nodes[0].get_time(), 0);
    assert_eq!(nodes[1].get_time(), 10);
    assert_eq!(nodes[2].get_time(), 20);
    assert_eq!(nodes[1].get_value(), 7_f64.to_bits());
    assert_eq!(nodes[1].get_interpolator(), InterpType::Linear);
}

#[test]
fn update_move_resorts_and_failures_leave_track_clean() {
    let mut tl = Timeline::new();
    let track = tl.get_track_mut("camera");
    assert!(track.add_node(&Node::new(10, 1_f64.to_bits(), InterpType::Hold)).is_none());
    assert!(track.add_node(&Node::new(20, 2_f64.to_bits(), InterpType::Hold)).is_none());
    assert!(track.add_node(&Node::new(30, 3_f64.to_bits(), InterpType::Hold)).is_none());

    // a move to an unoccupied slot keeps the count and re-sorts
    assert!(track.update_node_at(30, &Node::new(15, 3_f64.to_bits(), InterpType::Hold)).is_none());
    let times: Vec<u32> = track.nodes().iter().map(|n| n.get_time()).collect();
    assert_eq!(times, vec![0, 10, 15, 20]);

    // a move onto an occupied slot fails without corrupting the track
    let r = track.update_node_at(15, &Node::new(20, 9_f64.to_bits(), InterpType::Hold));
    assert_eq!(r, Some(TimelineError::DuplicateTime));
    let times: Vec<u32> = track.nodes().iter().map(|n| n.get_time()).collect();
    assert_eq!(times, vec![0, 10, 15, 20]);
    assert_eq!(track.get_node_at(15).unwrap().get_value(), 3_f64.to_bits());

    // a move onto the reserved slot fails, as does moving the zero node
    let r = track.update_node_at(15, &Node::new(0, 9_f64.to_bits(), InterpType::Hold));
    assert_eq!(r, Some(TimelineError::ZeroTimeForbidden));
    let r = track.update_node_at(0, &Node::new(5, 9_f64.to_bits(), InterpType::Hold));
    assert_eq!(r, Some(TimelineError::ZeroTimeForbidden));
    let r = track.update_node_at(99, &Node::new(99, 9_f64.to_bits(), InterpType::Hold));
    assert_eq!(r, Some(TimelineError::NotFound));
    let times: Vec<u32> = track.nodes().iter().map(|n| n.get_time()).collect();
    assert_eq!(times, vec![0, 10, 15, 20]);
}

#[test]
fn value_at_interpolates_and_clamps() {
    let mut tl = Timeline::new();
    let track = tl.get_track_mut("camera");
    assert!(track.add_node(&Node::new(10, 1_f64.to_bits(), InterpType::Linear)).is_none());
    assert!(track.add_node(&Node::new(20, 2_f64.to_bits(), InterpType::Linear)).is_none());

    let v5 = sample_value(track.get_value_at(5));
    assert!((v5 - 0.5).abs() < 1e-9, "v5: {}", v5);
    let v15 = sample_value(track.get_value_at(15));
    assert!((v15 - 1.5).abs() < 1e-9, "v15: {}", v15);
    // past the last node the last value holds exactly, with no blend
    assert_eq!(track.get_value_at(25), Sample::Constant { value: 2_f64.to_bits() });
}

#[test]
fn value_at_hold_keeps_left_value() {
    let mut tl = Timeline::new();
    let track = tl.get_track_mut("camera");
    assert!(track.add_node(&Node::new(10, 1_f64.to_bits(), InterpType::Hold)).is_none());
    // the span's right endpoint holds, so the left value carries across
    assert_eq!(track.get_value_at(3), Sample::Constant { value: 0_f64.to_bits() });
    assert_eq!(track.get_value_at(10), Sample::Constant { value: 0_f64.to_bits() });
    assert_eq!(track.get_value_at(11), Sample::Constant { value: 1_f64.to_bits() });
}

#[test]
fn value_at_reports_exact_blend_fractions() {
    let mut tl = Timeline::new();
    let track = tl.get_track_mut("camera");
    assert!(track.add_node(&Node::new(8, 3_f64.to_bits(), InterpType::Linear)).is_none());
    let s = track.get_value_at(6);
    assert_eq!(
        s,
        Sample::Blend { from: 0_f64.to_bits(), to: 3_f64.to_bits(), num: 6, den: 8 }
    );
}

#[test]
fn repeated_access_returns_same_logical_track() {
    let mut tl = Timeline::new();
    tl.get_track_mut("camera")
        .add_node(&Node::new(10, 1_f64.to_bits(), InterpType::Hold));
    // a second access by the same name finds the same track, not a new one
    let track = tl.get_track("camera");
    assert_eq!(track.nodes().len(), 2);
    assert_eq!(tl.tracks().len(), 1);
}

#[test]
fn delete_track_by_name() {
    let mut tl = Timeline::new();
    tl.get_track("camera");
    tl.get_track("light");
    assert_eq!(tl.tracks().len(), 2);

    assert!(!tl.del_track("unused"));
    assert_eq!(tl.tracks().len(), 2);

    assert!(tl.del_track("camera"));
    assert_eq!(tl.tracks().len(), 1);
    assert!(!tl.has_track("camera"));
    assert!(tl.has_track("light"));
}

#[test]
fn neighbour_views() {
    let mut tl = Timeline::new();
    let track = tl.get_track_mut("camera");
    assert!(track.add_node(&Node::new(10, 1_f64.to_bits(), InterpType::Hold)).is_none());
    assert!(track.add_node(&Node::new(20, 2_f64.to_bits(), InterpType::Hold)).is_none());

    let at10 = track.view_node_at(10).unwrap();
    assert_eq!(track.view_next_node(&at10).unwrap().unwrap().get_time(), 20);
    assert_eq!(track.view_previous_node(&at10).unwrap().unwrap().get_time(), 0);

    let at0 = track.view_node_at(0).unwrap();
    assert!(track.view_previous_node(&at0).unwrap().is_none());
    let at20 = track.view_node_at(20).unwrap();
    assert!(track.view_next_node(&at20).unwrap().is_none());

    let stranger = Node::new(99, 0, InterpType::Hold);
    assert_eq!(track.view_next_node(&stranger), Err(TimelineError::NotFound));
    assert_eq!(track.view_previous_node(&stranger), Err(TimelineError::NotFound));

    let (left, right) = track.view_nodes_between(15);
    assert_eq!(left.get_time(), 10);
    assert_eq!(right.unwrap().get_time(), 20);
    let (left, right) = track.view_nodes_between(50);
    assert_eq!(left.get_time(), 20);
    assert!(right.is_none());
}

#[test]
fn node_accessors() {
    let mut n = Node::new(3, 1.25_f64.to_bits(), InterpType::Hold);
    assert_eq!(n.get_time(), 3);
    assert_eq!(n.get_value(), 1.25_f64.to_bits());
    assert_eq!(n.get_interpolator(), InterpType::Hold);
    n.set_time(9);
    n.set_value(2.5_f64.to_bits());
    n.set_interpolator(InterpType::Linear);
    assert_eq!(n.get_time(), 9);
    assert_eq!(n.get_value(), 2.5_f64.to_bits());
    assert_eq!(n.get_interpolator(), InterpType::Linear);
}

#[test]
fn interp_tags_round_trip() {
    assert_eq!(InterpType::Hold.tag(), 0);
    assert_eq!(InterpType::Linear.tag(), 1);
    assert_eq!(InterpType::from_tag(0), Some(InterpType::Hold));
    assert_eq!(InterpType::from_tag(1), Some(InterpType::Linear));
    assert_eq!(InterpType::from_tag(2), None);
}
