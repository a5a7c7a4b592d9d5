use demy::InterpType;
use demy::Node;
use demy::Sample;
use demy::Timeline;

fn sample_to_f64(s: Sample) -> f64 {
    match s {
        Sample::Constant { value } => f64::from_bits(value),
        Sample::Blend { from, to, num, den } => {
            let t = num as f64 / den as f64;
            f64::from_bits(from) * (1.0 - t) + t * f64::from_bits(to)
        }
    }
}

#[test]
fn update_node() {
    let mut tl = Timeline::new();
    let track = tl.get_track_mut("camera");

    track.add_node(&Node::new(10, 1_f64.to_bits(), InterpType::Hold));

    track.update_node_at(10, &Node::new(20, 2_f64.to_bits(), InterpType::Hold));
    assert!(track.nodes().len() == 2);

    assert!(track.get_node_at(20).unwrap().get_time() == 20);
    assert!(track.get_node_at(20).unwrap().get_value() == 2_f64.to_bits());

    assert!(track.get_node_at(10).is_none());

    track.add_node(&Node::new(10, 1_f64.to_bits(), InterpType::Hold));
    assert!(track.nodes().len() == 3);

    assert!(track.get_node_at(20).unwrap().get_time() == 20);
    assert!(track.get_node_at(20).unwrap().get_value() == 2_f64.to_bits());

    assert!(track.get_node_at(10).unwrap().get_time() == 10);
    assert!(track.get_node_at(10).unwrap().get_value() == 1_f64.to_bits());

    track.update_node_at(10, &Node::new(30, 3_f64.to_bits(), InterpType::Hold));

    assert!(track.get_node_at(10).is_none());

    assert!(track.get_node_at(20).unwrap().get_time() == 20);
    assert!(track.get_node_at(20).unwrap().get_value() == 2_f64.to_bits());

    assert!(track.get_node_at(30).unwrap().get_time() == 30);
    assert!(track.get_node_at(30).unwrap().get_value() == 3_f64.to_bits());
}

#[test]
fn track_deletion() {
    let mut tl = Timeline::new();
    assert!(tl.tracks().len() == 0);

    tl.get_track("camera");
    assert!(tl.tracks().len() == 1);

    tl.del_track("not_the_camera");
    assert!(tl.tracks().len() == 1);

    tl.del_track("camera");
    assert!(tl.tracks().len() == 0);
}

#[test]
fn interpolation() {
    let mut tl = Timeline::new();
    {
        let track = tl.get_track_mut("camera");
        assert!(track.add_node(&Node::new(10, 1_f64.to_bits(), InterpType::Linear)).is_none());
        assert!(track.add_node(&Node::new(20, 2_f64.to_bits(), InterpType::Linear)).is_none());

        assert!(track.nodes().len() == 3);
    }

    let track = tl.get_track("camera");

    let val = sample_to_f64(track.get_value_at(5));
    assert!(0.001 > (0.5_f64 - val).abs(), "val: {}", val);

    let val = sample_to_f64(track.get_value_at(15));
    assert!(0.001 > (1.5_f64 - val).abs(), "val: {}", val);
}

#[test]
fn lib_no_duplicate_tracks() {
    let name = "camera";
    let mut tl = Timeline::new();

    tl.get_track(name);
    tl.get_track(name);

    assert_eq!(tl.tracks().len(), 1);
}

#[test]
fn lib_default_zero_node() {
    let mut tl = Timeline::new();
    let track = tl.get_track_mut("camera");

    assert_eq!(track.nodes()[0].get_time(), 0);
}

#[test]
fn lib_no_duplicate_nodes() {
    let mut tl = Timeline::new();
    let track = tl.get_track_mut("camera");

    assert!(track.add_node(&Node::new(1, 0_f64.to_bits(), InterpType::Hold)).is_none());
    assert!(track.add_node(&Node::new(1, 0_f64.to_bits(), InterpType::Hold)).is_some());

    assert_eq!(track.nodes().len(), 2); // implicit 0
}

#[test]
fn lib_timeline_mutation() {
    let mut tl = Timeline::new();

    {
        let track = tl.get_track_mut("camera.x");
        track.add_node(&Node::new(10, 1_f64.to_bits(), InterpType::Linear));
    }

    for i in 0..50 {
        tl.get_track(&i.to_string());
    }

    let track = tl.get_track("camera.x");
    let node = track.get_node_at(10).unwrap();
    assert_eq!(node.get_time(), 10);
    assert_eq!(node.get_value(), 1_f64.to_bits());
}

#[test]
fn node_vec_is_ordered() {
    let mut tl = Timeline::new();
    let track = tl.get_track_mut("camera.x");

    track.add_node(&Node::new(5, 5_f64.to_bits(), InterpType::Linear));
    track.add_node(&Node::new(2, 2_f64.to_bits(), InterpType::Linear));

    let nodes = track.nodes();
    let mut prev_node = &nodes[0];
    for node in nodes.iter().skip(1) {
        assert!(prev_node.get_time() < node.get_time());
        prev_node = node;
    }
}

#[test]
fn serialize_deserialize() {
    let serialized: String;
    let track1 = "camera.x";
    let track2 = "camera.y";

    {
        let mut tl = Timeline::new();
        let t1_node1 = Node::new(10, 1_f64.to_bits(), InterpType::Linear);
        let t1_node2 = Node::new(20, 2_f64.to_bits(), InterpType::Linear);

        let t2_node1 = Node::new(10, 4_f64.to_bits(), InterpType::Linear);
        let t2_node2 = Node::new(20, 8_f64.to_bits(), InterpType::Linear);

        {
            let track = tl.get_track_mut(track1);
            track.add_node(&t1_node1);
            track.add_node(&t1_node2);
        }

        {
            let track = tl.get_track_mut(track2);
            track.add_node(&t2_node1);
            track.add_node(&t2_node2);
        }

        serialized = tl.save().unwrap();
    }

    {
        let mut tl = Timeline::load(&serialized).unwrap();

        assert_eq!(tl.tracks().len(), 2);

        {
            let track = tl.get_track(track1);
            assert_eq!(track.nodes().len(), 3);
            let val = sample_to_f64(track.get_value_at(5));
            assert!(0.001 > (0.5_f64 - val).abs(), "val: {}", val);
            let val = sample_to_f64(track.get_value_at(15));
            assert!(0.001 > (1.5_f64 - val).abs(), "val: {}", val);
        }

        {
            let track = tl.get_track(track2);
            assert_eq!(track.nodes().len(), 3);
            let val = sample_to_f64(track.get_value_at(5));
            assert!(0.001 > (2_f64 - val).abs(), "val: {}", val);
            let val = sample_to_f64(track.get_value_at(15));
            assert!(0.001 > (6_f64 - val).abs(), "val: {}", val);
        }
    }
}

#[test]
fn timeline_no_duplicate_tracks() {
    let name = "camera";
    let mut tl = Timeline::new();

    assert!(tl.new_track(name));
    assert!(!tl.new_track(name));

    assert_eq!(tl.tracks().len(), 1);
}

#[test]
fn timeline_default_zero_node() {
    let mut tl = Timeline::new();
    assert!(tl.new_track("camera"));
    let track = tl.get_track("camera");

    assert_eq!(track.nodes()[0].get_time(), 0);
}

#[test]
fn timeline_no_duplicate_nodes() {
    let mut tl = Timeline::new();
    assert!(tl.new_track("camera"));
    let track = tl.get_track_mut("camera");

    assert!(track.add_node(&Node::new(1, 0_f64.to_bits(), InterpType::Hold)).is_none());
    assert!(track.add_node(&Node::new(1, 0_f64.to_bits(), InterpType::Hold)).is_some());

    assert_eq!(track.nodes().len(), 2); // implicit 0
}

#[test]
fn timeline_timeline_mutation() {
    let mut tl = Timeline::new();

    {
        assert!(tl.new_track("camera.x"));
        let track = tl.get_track_mut("camera.x");
        track.add_node(&Node::new(10, 1_f64.to_bits(), InterpType::Linear));
    }

    for i in 0..50 {
        tl.new_track(&i.to_string());
    }

    let track = tl.get_track("camera.x");
    let node = track.view_node_at(10).unwrap();
    assert_eq!(node.get_time(), 10);
    assert_eq!(node.get_value(), 1_f64.to_bits());
}
