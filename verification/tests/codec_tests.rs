use demy::InterpType;
use demy::Node;
use demy::Timeline;
use demy::TimelineError;

#[test]
fn save_renders_the_documented_format() {
    let tl = Timeline::new();
    assert_eq!(tl.save().unwrap(), "demy 0\n");

    let mut tl = Timeline::new();
    tl.get_track("camera");
    assert_eq!(tl.save().unwrap(), "demy 1\ntrack 6 camera 1\nnode 0 0 0\n");

    let mut tl = Timeline::new();
    tl.get_track_mut("a")
        .add_node(&Node::new(10, 2_f64.to_bits(), InterpType::Linear));
    let expected = format!(
        "demy 1\ntrack 1 a 2\nnode 0 0 0\nnode 10 {} 1\n",
        2_f64.to_bits()
    );
    assert_eq!(tl.save().unwrap(), expected);
}

#[test]
fn load_reproduces_saved_content() {
    let mut tl = Timeline::new();
    {
        let track = tl.get_track_mut("camera.x");
        track.add_node(&Node::new(10, 1.5_f64.to_bits(), InterpType::Linear));
        track.add_node(&Node::new(20, (-2.5_f64).to_bits(), InterpType::Hold));
    }
    tl.get_track("empty");

    let text = tl.save().unwrap();
    let mut back = Timeline::load(&text).unwrap();

    assert_eq!(back.tracks().len(), 2);
    let track = back.get_track("camera.x");
    let nodes = track.nodes();
    assert_eq!(nodes.len(), 3);
    assert_eq!(nodes[0].get_time(), 0);
    assert_eq!(nodes[1].get_time(), 10);
    assert_eq!(nodes[1].get_value(), 1.5_f64.to_bits());
    assert_eq!(nodes[1].get_interpolator(), InterpType::Linear);
    assert_eq!(nodes[2].get_time(), 20);
    assert_eq!(nodes[2].get_value(), (-2.5_f64).to_bits());
    assert_eq!(nodes[2].get_interpolator(), InterpType::Hold);
    assert_eq!(back.get_track("empty").nodes().len(), 1);

    // the round trip is exact, so re-saving renders the same text
    assert_eq!(back.save().unwrap(), text);
}

#[test]
fn load_accepts_unusual_track_names() {
    let mut tl = Timeline::new();
    tl.get_track("with space");
    tl.get_track("tab\tand\nnewline");
    tl.get_track("émoji λ名");
    let text = tl.save().unwrap();
    let back = Timeline::load(&text).unwrap();
    assert_eq!(back.tracks().len(), 3);
    assert!(back.has_track("with space"));
    assert!(back.has_track("tab\tand\nnewline"));
    assert!(back.has_track("émoji λ名"));
}

#[test]
fn load_rejects_malformed_documents() {
    let bad = [
        "",
        "demy",
        "demy \n",
        "demy 1\n",
        "demy 2\ntrack 1 a 1\nnode 0 0 0\n",
        "demy 1\ntrack 1 a 1\nnode 0 0 0\nextra",
        "demy 1\ntrack 1 a 0\n",
        "demy 1\ntrack 1 a 1\nnode 5 0 0\n",
        "demy 1\ntrack 1 a 2\nnode 0 0 0\nnode 0 0 0\n",
        "demy 1\ntrack 1 a 3\nnode 0 0 0\nnode 9 0 0\nnode 4 0 0\n",
        "demy 1\ntrack 1 a 1\nnode 0 0 2\n",
        "demy 1\ntrack 1 a 1\nnode 00 0 0\n",
        "demy 1\ntrack 1 a 1\nnode 0 01 0\n",
        "demy 1\ntrack 9 a 1\nnode 0 0 0\n",
        "demy 1\ntrack 1 a 1\nnode 4294967296 0 0\n",
        "demy 2\ntrack 1 a 1\nnode 0 0 0\ntrack 1 a 1\nnode 0 0 0\n",
        "demy 1\ntrack 1 a 1\nnode 0 0 0",
        "demy 1\ntrack 1 a 1\nnode 0 0 0\n ",
    ];
    for text in bad {
        let err = match Timeline::load(text) {
            Ok(_) => panic!("accepted: {:?}", text),
            Err(err) => err,
        };
        assert_eq!(err, TimelineError::DeserializationFailed, "on: {:?}", text);
    }
}

#[test]
fn load_accepts_the_largest_values() {
    let text = format!(
        "demy 1\ntrack 1 a 2\nnode 0 0 0\nnode {} {} 1\n",
        u32::MAX,
        u64::MAX
    );
    let mut tl = Timeline::load(&text).unwrap();
    let track = tl.get_track("a");
    let node = track.get_node_at(u32::MAX).unwrap();
    assert_eq!(node.get_value(), u64::MAX);
    assert_eq!(tl.save().unwrap(), text);
}
