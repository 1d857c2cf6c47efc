use skin_builder::priority::classify;
use skin_builder::{ResourceInfo, ResourcePriority, ResourcePriorityTracker};

fn info(source: &str, flat: &str, dir: &str, priority: ResourcePriority, normalized: &str) -> ResourceInfo {
    ResourceInfo {
        source_path: source.to_string(),
        flat_file: flat.to_string(),
        resource_dir: dir.to_string(),
        priority,
        normalized_path: normalized.to_string(),
    }
}

fn files(names: &[&str]) -> Vec<String> {
    names.iter().map(|s| s.to_string()).collect()
}

#[test]
fn test_priority_ordering() {
    assert!(ResourcePriority::Library(0).value() < ResourcePriority::Main.value());
    assert!(ResourcePriority::Main.value() < ResourcePriority::Additional(0).value());
    assert!(ResourcePriority::Library(0).value() < ResourcePriority::Library(1).value());
    assert!(ResourcePriority::Additional(0).value() < ResourcePriority::Additional(1).value());
}

#[test]
fn test_resource_override() {
    let mut tracker = ResourcePriorityTracker::new();

    let library = info(
        "/library/res/drawable/icon.png",
        "/build/lib_drawable_icon.png.flat",
        "/library/res",
        ResourcePriority::Library(0),
        "res/drawable/icon.png",
    );
    assert!(!tracker.add_resource(library));
    assert_eq!(tracker.stats(), (1, 0));

    let main = info(
        "/main/res/drawable/icon.png",
        "/build/main_drawable_icon.png.flat",
        "/main/res",
        ResourcePriority::Main,
        "res/drawable/icon.png",
    );
    assert!(tracker.add_resource(main));
    assert_eq!(tracker.stats(), (1, 1));

    let additional = info(
        "/additional/res/drawable/icon.png",
        "/build/additional_drawable_icon.png.flat",
        "/additional/res",
        ResourcePriority::Additional(0),
        "res/drawable/icon.png",
    );
    assert!(tracker.add_resource(additional));
    assert_eq!(tracker.stats(), (1, 2));
}

#[test]
fn conflicts_name_loser_and_winner() {
    let mut tracker = ResourcePriorityTracker::new();
    tracker.add_resource(info("/l/a", "lib.flat", "/l", ResourcePriority::Library(0), "res/a"));
    tracker.add_resource(info("/m/a", "main.flat", "/m", ResourcePriority::Main, "res/a"));
    let conflicts = tracker.conflict_list();
    assert_eq!(conflicts.len(), 1);
    assert_eq!(conflicts[0].0, "res/a");
    assert_eq!(conflicts[0].1.flat_file, "lib.flat");
    assert_eq!(conflicts[0].2.flat_file, "main.flat");
}

#[test]
fn priority_values_are_exact() {
    assert_eq!(ResourcePriority::Library(5).value(), 5);
    assert_eq!(ResourcePriority::Main.value(), 1000);
    assert_eq!(ResourcePriority::Additional(3).value(), 2003);
    assert!(ResourcePriority::Library(999).value() < ResourcePriority::Main.value());
    assert!(ResourcePriority::Main.outranks(&ResourcePriority::Library(999)));
    assert!(!ResourcePriority::Main.outranks(&ResourcePriority::Additional(0)));
}

#[test]
fn lower_priority_resource_is_dropped() {
    let mut tracker = ResourcePriorityTracker::new();
    assert!(!tracker.add_resource(info("/m/a", "/b/main.flat", "/m", ResourcePriority::Main, "res/values/a.xml")));
    assert!(!tracker.add_resource(info("/l/a", "/b/lib.flat", "/l", ResourcePriority::Library(0), "res/values/a.xml")));
    assert_eq!(tracker.stats(), (1, 1));
    assert_eq!(tracker.get_final_flat_files(), vec!["/b/main.flat".to_string()]);
    // Equal priorities keep the first one and record nothing.
    assert!(!tracker.add_resource(info("/m2/a", "/b/main2.flat", "/m2", ResourcePriority::Main, "res/values/a.xml")));
    assert_eq!(tracker.stats(), (1, 1));
}

#[test]
fn final_flat_files_follow_priority() {
    let mut tracker = ResourcePriorityTracker::new();
    tracker.add_resource(info("/x/1", "add1.flat", "/x", ResourcePriority::Additional(1), "res/a/1"));
    tracker.add_resource(info("/x/2", "main.flat", "/x", ResourcePriority::Main, "res/a/2"));
    tracker.add_resource(info("/x/3", "add0.flat", "/x", ResourcePriority::Additional(0), "res/a/3"));
    tracker.add_resource(info("/x/4", "lib.flat", "/x", ResourcePriority::Library(2), "res/a/4"));
    assert_eq!(tracker.get_final_flat_files(), files(&["lib.flat", "main.flat", "add0.flat", "add1.flat"]));
}

#[test]
fn classify_with_library_makes_main_an_overlay() {
    let groups = vec![
        (ResourcePriority::Additional(0), files(&["flavor.flat"])),
        (ResourcePriority::Main, files(&["main.flat"])),
        (ResourcePriority::Library(1), files(&["lib1.flat"])),
        (ResourcePriority::Library(0), files(&["lib0a.flat", "lib0b.flat"])),
    ];
    let (base, overlays) = classify(groups);
    assert_eq!(base, files(&["lib0a.flat", "lib0b.flat", "lib1.flat"]));
    assert_eq!(overlays, vec![files(&["main.flat"]), files(&["flavor.flat"])]);
}

#[test]
fn classify_without_library_makes_main_the_base() {
    let groups = vec![
        (ResourcePriority::Additional(1), files(&["buildtype.flat"])),
        (ResourcePriority::Main, files(&["main.flat"])),
        (ResourcePriority::Additional(0), files(&["flavor.flat"])),
    ];
    let (base, overlays) = classify(groups);
    assert_eq!(base, files(&["main.flat"]));
    assert_eq!(overlays, vec![files(&["flavor.flat"]), files(&["buildtype.flat"])]);
}

#[test]
fn classify_sorted_input_is_stable() {
    let sorted = vec![
        (ResourcePriority::Main, files(&["m.flat"])),
        (ResourcePriority::Additional(0), files(&["a0.flat"])),
        (ResourcePriority::Additional(1), files(&["a1.flat"])),
    ];
    let again = sorted.clone();
    assert_eq!(classify(sorted), classify(again));
    assert_eq!(classify(vec![]), (vec![], vec![]));
}
