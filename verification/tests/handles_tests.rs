use demy::handles::demy_node_clone;
use demy::handles::demy_node_free;
use demy::handles::demy_node_get_interp;
use demy::handles::demy_node_get_time;
use demy::handles::demy_node_get_value;
use demy::handles::demy_node_new;
use demy::handles::demy_node_set_interp;
use demy::handles::demy_node_set_time;
use demy::handles::demy_node_set_value;
use demy::handles::demy_node_update_at;
use demy::handles::demy_tl_free;
use demy::handles::demy_tl_new;
use demy::handles::demy_tl_track_del;
use demy::handles::demy_tl_track_get;
use demy::handles::demy_tr_add_node;
use demy::handles::demy_tr_del_node;
use demy::handles::demy_tr_get_node;
use demy::handles::demy_tr_iter_are_eq;
use demy::handles::demy_tr_iter_begin;
use demy::handles::demy_tr_iter_end;
use demy::handles::demy_tr_iter_free;
use demy::handles::demy_tr_iter_get;
use demy::handles::demy_tr_iter_next;
use demy::InterpType;
use demy::Registry;

#[test]
fn registry_track_lifecycle() {
    let mut reg = Registry::new();
    let tl = demy_tl_new(&mut reg);
    let tr = demy_tl_track_get(&mut reg, tl, "camera").unwrap();

    assert!(demy_tr_add_node(&mut reg, &tr, 10, 1_f64.to_bits(), InterpType::Linear));
    assert!(demy_tr_add_node(&mut reg, &tr, 5, 2_f64.to_bits(), InterpType::Hold));
    // the reserved slot and an occupied slot are both refused
    assert!(!demy_tr_add_node(&mut reg, &tr, 0, 3_f64.to_bits(), InterpType::Hold));
    assert!(!demy_tr_add_node(&mut reg, &tr, 10, 3_f64.to_bits(), InterpType::Hold));

    let node = demy_tr_get_node(&reg, &tr, 10).unwrap();
    assert_eq!(node.get_value(), 1_f64.to_bits());
    assert!(demy_tr_get_node(&reg, &tr, 99).is_none());

    assert!(demy_tr_del_node(&mut reg, &tr, 5));
    assert!(!demy_tr_del_node(&mut reg, &tr, 5));
    assert!(!demy_tr_del_node(&mut reg, &tr, 0));

    assert!(demy_tl_track_del(&mut reg, tl, "camera"));
    assert!(!demy_tl_track_del(&mut reg, tl, "camera"));
    assert!(demy_tr_get_node(&reg, &tr, 10).is_none());
}

#[test]
fn registry_rejects_dead_handles() {
    let mut reg = Registry::new();
    assert!(demy_tl_track_get(&mut reg, 7, "camera").is_none());
    assert!(!demy_tl_track_del(&mut reg, 7, "camera"));
    demy_tl_free(&mut reg, 7);

    let tl = demy_tl_new(&mut reg);
    let tr = demy_tl_track_get(&mut reg, tl, "camera").unwrap();
    demy_tl_free(&mut reg, tl);
    // the reference now points at a freed timeline
    assert!(!demy_tr_add_node(&mut reg, &tr, 10, 0, InterpType::Hold));
    assert!(demy_tr_get_node(&reg, &tr, 0).is_none());
    assert!(demy_tr_iter_begin(&mut reg, &tr).is_none());
    assert!(demy_tr_iter_end(&mut reg, &tr).is_none());
}

#[test]
fn registry_cursor_walks_the_track() {
    let mut reg = Registry::new();
    let tl = demy_tl_new(&mut reg);
    let tr = demy_tl_track_get(&mut reg, tl, "camera").unwrap();
    assert!(demy_tr_add_node(&mut reg, &tr, 10, 1_f64.to_bits(), InterpType::Hold));
    assert!(demy_tr_add_node(&mut reg, &tr, 20, 2_f64.to_bits(), InterpType::Hold));

    let cur = demy_tr_iter_begin(&mut reg, &tr).unwrap();
    let end = demy_tr_iter_end(&mut reg, &tr).unwrap();

    let mut times = Vec::new();
    while !demy_tr_iter_are_eq(&reg, cur, end) {
        times.push(demy_tr_iter_get(&reg, cur).unwrap().get_time());
        assert!(demy_tr_iter_next(&mut reg, cur));
    }
    assert_eq!(times, vec![0, 10, 20]);

    // the cursor never advances past the end position
    assert!(demy_tr_iter_get(&reg, cur).is_none());
    assert!(!demy_tr_iter_next(&mut reg, cur));
    assert!(demy_tr_iter_are_eq(&reg, cur, end));

    demy_tr_iter_free(&mut reg, cur);
    assert!(!demy_tr_iter_are_eq(&reg, cur, end));
    assert!(demy_tr_iter_get(&reg, cur).is_none());
    demy_tr_iter_free(&mut reg, end);
}

#[test]
fn registry_node_arena() {
    let mut reg = Registry::new();
    let n = demy_node_new(&mut reg, 10, 1_f64.to_bits(), InterpType::Hold);
    assert_eq!(demy_node_get_time(&reg, n), 10);
    assert_eq!(demy_node_get_value(&reg, n), 1_f64.to_bits());
    assert_eq!(demy_node_get_interp(&reg, n), InterpType::Hold);

    demy_node_set_time(&mut reg, n, 15);
    demy_node_set_value(&mut reg, n, 2_f64.to_bits());
    demy_node_set_interp(&mut reg, n, InterpType::Linear);
    assert_eq!(demy_node_get_time(&reg, n), 15);
    assert_eq!(demy_node_get_value(&reg, n), 2_f64.to_bits());
    assert_eq!(demy_node_get_interp(&reg, n), InterpType::Linear);

    let copy = demy_node_clone(&mut reg, n).unwrap();
    assert_eq!(demy_node_get_time(&reg, copy), 15);

    demy_node_free(&mut reg, n);
    // a dead node handle reads as the neutral defaults
    assert_eq!(demy_node_get_time(&reg, n), 0);
    assert_eq!(demy_node_get_value(&reg, n), 0);
    assert_eq!(demy_node_get_interp(&reg, n), InterpType::Hold);
    assert!(demy_node_clone(&mut reg, n).is_none());
    assert_eq!(demy_node_get_time(&reg, copy), 15);
}

#[test]
fn registry_update_through_node_handle() {
    let mut reg = Registry::new();
    let tl = demy_tl_new(&mut reg);
    let tr = demy_tl_track_get(&mut reg, tl, "camera").unwrap();
    assert!(demy_tr_add_node(&mut reg, &tr, 10, 1_f64.to_bits(), InterpType::Hold));

    let n = demy_node_new(&mut reg, 25, 9_f64.to_bits(), InterpType::Linear);
    assert!(demy_node_update_at(&mut reg, &tr, 10, n));
    assert!(demy_tr_get_node(&reg, &tr, 10).is_none());
    let moved = demy_tr_get_node(&reg, &tr, 25).unwrap();
    assert_eq!(moved.get_value(), 9_f64.to_bits());
    assert_eq!(moved.get_interpolator(), InterpType::Linear);

    // a dead node handle changes nothing
    demy_node_free(&mut reg, n);
    assert!(!demy_node_update_at(&mut reg, &tr, 25, n));
    assert!(demy_tr_get_node(&reg, &tr, 25).is_some());
}
