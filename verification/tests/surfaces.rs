use vitals_rain::surfaces::{ConfigureAction, SurfaceTable};

fn table() -> SurfaceTable<&'static str, u32> {
    let mut t = SurfaceTable::new();
    t.add(1, 10, "a");
    t.add(2, 20, "b");
    t.add(1, 11, "c");
    t
}

fn handles(t: &SurfaceTable<&'static str, u32>) -> Vec<&'static str> {
    t.slots.iter().map(|s| s.handles).collect()
}

#[test]
fn new_table_runs_without_surfaces() {
    let t: SurfaceTable<(), ()> = SurfaceTable::new();
    assert!(t.running);
    assert!(t.slots.is_empty());
}

#[test]
fn added_surfaces_start_unconfigured() {
    let t = table();
    assert_eq!(handles(&t), vec!["a", "b", "c"]);
    assert!(t.slots.iter().all(|s| !s.configured && s.renderer.is_none()));
    assert!(t.frame_targets().is_empty());
}

#[test]
fn removing_an_output_removes_its_surfaces() {
    let mut t = table();
    t.remove_output(1);
    assert_eq!(handles(&t), vec!["b"]);
    assert!(t.running);
    t.remove_output(7);
    assert_eq!(handles(&t), vec!["b"]);
    t.remove_output(2);
    assert!(t.slots.is_empty());
    assert!(!t.running);
}

#[test]
fn closing_a_surface_removes_it() {
    let mut t = table();
    t.remove_surface(20);
    assert_eq!(handles(&t), vec!["a", "c"]);
    assert!(t.running);
    t.remove_surface(10);
    t.remove_surface(11);
    assert!(!t.running);
}

#[test]
fn stopped_stays_stopped() {
    let mut t = table();
    t.remove_output(1);
    t.remove_output(2);
    assert!(!t.running);
    t.add(3, 30, "d");
    assert!(!t.running);
    t.configure(30, 5, 5);
    assert!(!t.running);
}

#[test]
fn empty_sizes_and_unknown_surfaces_are_ignored() {
    let mut t = table();
    assert_eq!(t.configure(10, 0, 100), ConfigureAction::Ignore);
    assert_eq!(t.configure(10, 100, 0), ConfigureAction::Ignore);
    assert_eq!(t.configure(99, 100, 100), ConfigureAction::Ignore);
    assert!(t.slots.iter().all(|s| !s.configured));
}

#[test]
fn first_size_asks_for_a_renderer_then_resizes_it() {
    let mut t = table();
    assert_eq!(t.configure(20, 1920, 1080), ConfigureAction::Create(1));
    assert!(t.slots[1].configured);
    assert!(t.frame_targets().is_empty());
    t.set_renderer(1, 7);
    assert_eq!(t.slots[1].renderer, Some(7));
    assert_eq!(t.frame_targets(), vec![1]);
    assert_eq!(t.configure(20, 800, 600), ConfigureAction::Resize(1));
    assert_eq!(t.frame_targets(), vec![1]);
}

#[test]
fn frame_targets_are_in_order() {
    let mut t = table();
    for (s, i) in [(11u32, 2usize), (10, 0)] {
        assert_eq!(t.configure(s, 10, 10), ConfigureAction::Create(i));
        t.set_renderer(i, i as u32);
    }
    assert_eq!(t.frame_targets(), vec![0, 2]);
}
