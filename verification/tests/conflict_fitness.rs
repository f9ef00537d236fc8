use class_scheduler::conflict::{calculate_conflicts, detect, ConflictKind};
use class_scheduler::fitness::{fitness, Fitness};
use class_scheduler::schedule::{classes_overlap, ClassSchedule};

fn class(course: &str, instructor: &str, room: &str, start: u32, duration: u32) -> ClassSchedule {
    ClassSchedule::new(course, instructor, room, start, duration)
}

#[test]
fn overlap_is_half_open() {
    let a = class("Math", "Alice", "Room 101", 480, 60);
    let b = class("Science", "Bob", "Room 102", 540, 60);
    // a ends exactly when b starts: touching endpoints do not overlap.
    assert!(!classes_overlap(&a, &b));
    assert!(!classes_overlap(&b, &a));

    let c = class("History", "Charlie", "Room 103", 530, 60);
    assert!(classes_overlap(&a, &c));
    assert!(classes_overlap(&c, &a));

    let d = class("English", "Dana", "Room 104", 480, 60);
    assert!(classes_overlap(&a, &d));
}

#[test]
fn detect_empty_candidate() {
    let schedule: Vec<ClassSchedule> = Vec::new();
    let (count, conflicts) = detect(&schedule);
    assert_eq!(count, 0);
    assert!(conflicts.is_empty());
}

#[test]
fn detect_reports_instructor_and_room_clash() {
    let schedule = vec![
        class("Math", "Alice", "Room 101", 480, 60),
        class("Science", "Alice", "Room 101", 510, 90),
    ];
    let (count, conflicts) = detect(&schedule);
    assert_eq!(count, 2);
    assert_eq!(conflicts.len(), 2);

    assert_eq!(conflicts[0].kind, ConflictKind::Instructor);
    assert_eq!(conflicts[0].resource, "Alice");
    assert_eq!(conflicts[0].first_course, "Math");
    assert_eq!(conflicts[0].second_course, "Science");
    // The clash window is the intersection of [480, 540) and [510, 600).
    assert_eq!(conflicts[0].clash_start, 510);
    assert_eq!(conflicts[0].clash_end, 540);

    assert_eq!(conflicts[1].kind, ConflictKind::Room);
    assert_eq!(conflicts[1].resource, "Room 101");
}

#[test]
fn detect_ignores_disjoint_times() {
    let schedule = vec![
        class("Math", "Alice", "Room 101", 480, 60),
        class("Science", "Alice", "Room 101", 540, 60),
    ];
    let (count, conflicts) = detect(&schedule);
    assert_eq!(count, 0);
    assert!(conflicts.is_empty());
}

#[test]
fn conflict_count_is_order_independent() {
    let a = class("Math", "Alice", "Room 101", 480, 60);
    let b = class("Science", "Bob", "Room 101", 500, 90);
    let c = class("History", "Alice", "Room 102", 480, 90);
    let d = class("English", "Bob", "Room 103", 660, 60);

    let forward = vec![a.duplicate(), b.duplicate(), c.duplicate(), d.duplicate()];
    let backward = vec![d.duplicate(), c.duplicate(), b.duplicate(), a.duplicate()];
    let shuffled = vec![b.duplicate(), d.duplicate(), a.duplicate(), c.duplicate()];

    let n = calculate_conflicts(&forward);
    assert_eq!(calculate_conflicts(&backward), n);
    assert_eq!(calculate_conflicts(&shuffled), n);
}

#[test]
fn detector_is_idempotent() {
    let schedule = vec![
        class("Math", "Alice", "Room 101", 480, 90),
        class("Science", "Alice", "Room 102", 480, 60),
        class("History", "Bob", "Room 101", 530, 60),
    ];
    let (count1, conflicts1) = detect(&schedule);
    let (count2, conflicts2) = detect(&schedule);
    assert_eq!(count1, count2);
    assert_eq!(conflicts1, conflicts2);
}

#[test]
fn report_list_length_matches_count() {
    let schedule = vec![
        class("Math", "Alice", "Room 101", 480, 90),
        class("Science", "Alice", "Room 101", 480, 90),
        class("History", "Alice", "Room 101", 480, 90),
    ];
    let (count, conflicts) = detect(&schedule);
    // Three mutually clashing classes: 3 pairs, 2 conflicts each.
    assert_eq!(count, 6);
    assert_eq!(conflicts.len(), 6);
}

#[test]
fn fitness_is_one_exactly_without_conflicts() {
    let clean = vec![
        class("Math", "Alice", "Room 101", 480, 60),
        class("Science", "Bob", "Room 102", 480, 60),
    ];
    let f = fitness(&clean);
    assert_eq!(f.numerator, 1);
    assert_eq!(f.denominator, 1);
    assert!(f.is_perfect());
    assert_eq!(f.numerator as f64 / f.denominator as f64, 1.0);

    let clashing = vec![
        class("Math", "Alice", "Room 101", 480, 60),
        class("Science", "Alice", "Room 102", 480, 60),
    ];
    let g = fitness(&clashing);
    assert!(!g.is_perfect());
}

#[test]
fn fitness_follows_the_formula() {
    // Two classes clashing on instructor and room, plus a third disjoint in
    // time: 1 + 2 conflicts gives a denominator of 3.
    let schedule = vec![
        class("Math", "Alice", "Room 101", 480, 60),
        class("Science", "Alice", "Room 101", 500, 60),
        class("History", "Bob", "Room 102", 660, 60),
    ];
    assert_eq!(calculate_conflicts(&schedule), 2);
    let f = fitness(&schedule);
    assert_eq!(f.numerator, 1);
    assert_eq!(f.denominator, 3);
    let value = f.numerator as f64 / f.denominator as f64;
    assert!(value > 0.0 && value <= 1.0);
    assert_eq!(value, 1.0 / 3.0);
}

#[test]
fn fitness_stays_in_unit_interval() {
    let mut schedule = Vec::new();
    for k in 0usize..4 {
        // Every class in the same room at the same time: conflicts pile up.
        schedule.push(class(&format!("Course{}", k), "Alice", "Room 101", 480, 60));
        let f = fitness(&schedule);
        let value = f.numerator as f64 / f.denominator as f64;
        assert!(value > 0.0);
        assert!(value <= 1.0);
    }
}

#[test]
fn fitness_ranks_fewer_conflicts_higher() {
    let better = Fitness { numerator: 1, denominator: 1 };
    let worse = Fitness { numerator: 1, denominator: 4 };
    assert!(better.at_least(&worse));
    assert!(!worse.at_least(&better));
    assert!(better.at_least(&better));
}
