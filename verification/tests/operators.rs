use class_scheduler::evolve::{crossover, generate_random_schedule, mutate};
use class_scheduler::schedule::{duplicate_candidate, ClassSchedule};

fn strings(names: &[&str]) -> Vec<String> {
    names.iter().map(|n| n.to_string()).collect()
}

fn class(course: &str, instructor: &str, room: &str, start: u32, duration: u32) -> ClassSchedule {
    ClassSchedule::new(course, instructor, room, start, duration)
}

#[test]
fn crossover_child_matches_a_parent_at_every_position() {
    let parent1 = vec![
        class("Math", "Alice", "Room 101", 480, 60),
        class("Science", "Bob", "Room 102", 570, 90),
        class("History", "Charlie", "Room 103", 660, 60),
        class("English", "Alice", "Room 102", 480, 90),
    ];
    let parent2 = vec![
        class("Math", "Bob", "Room 103", 660, 90),
        class("Science", "Charlie", "Room 101", 480, 60),
        class("History", "Alice", "Room 102", 570, 60),
        class("English", "Charlie", "Room 101", 570, 90),
    ];
    for _ in 0..20 {
        let child = crossover(&parent1, &parent2);
        assert_eq!(child.len(), parent1.len());
        let mut seen_second = false;
        for i in 0..child.len() {
            assert!(child[i] == parent1[i] || child[i] == parent2[i]);
            // Single-point: once the child follows the second parent it
            // never switches back (positions where both parents agree on
            // course only are distinct here in every other field).
            if child[i] == parent2[i] {
                seen_second = true;
            } else {
                assert!(!seen_second);
            }
        }
        // The cut lies strictly below the length, so the suffix from the
        // second parent is never empty.
        assert!(child[child.len() - 1] == parent2[parent2.len() - 1]);
    }
}

#[test]
fn mutate_changes_at_most_one_position() {
    let rooms = strings(&["Room 101", "Room 102", "Room 103"]);
    let times: Vec<u32> = vec![480, 570, 660];
    for _ in 0..20 {
        let original = vec![
            class("Math", "Alice", "Room 101", 480, 60),
            class("Science", "Bob", "Room 102", 570, 90),
            class("History", "Charlie", "Room 103", 660, 60),
            class("English", "Alice", "Room 102", 480, 90),
            class("Art", "Bob", "Room 101", 570, 60),
        ];
        let mut mutated = duplicate_candidate(&original);
        mutate(&mut mutated, &rooms, &times);
        assert_eq!(mutated.len(), original.len());

        let mut changed: usize = 0;
        for i in 0..original.len() {
            // Course and instructor are never touched by mutation.
            assert_eq!(mutated[i].course, original[i].course);
            assert_eq!(mutated[i].instructor, original[i].instructor);
            if mutated[i] != original[i] {
                changed += 1;
                assert!(rooms.contains(&mutated[i].room));
                assert!(times.contains(&mutated[i].start_minute));
                assert_eq!(mutated[i].end_minute, mutated[i].start_minute + 60);
            }
        }
        assert!(changed <= 1);
    }
}

#[test]
fn generated_candidate_draws_from_the_pools() {
    let courses = strings(&["Math", "Science", "History", "English"]);
    let instructors = strings(&["Alice", "Bob", "Charlie"]);
    let rooms = strings(&["Room 101", "Room 102", "Room 103"]);
    let times: Vec<u32> = vec![480, 570, 660];
    for _ in 0..10 {
        let candidate = generate_random_schedule(&courses, &instructors, &rooms, &times);
        assert_eq!(candidate.len(), courses.len());
        for (i, assignment) in candidate.iter().enumerate() {
            assert_eq!(assignment.course, courses[i]);
            assert!(instructors.contains(&assignment.instructor));
            assert!(rooms.contains(&assignment.room));
            assert!(times.contains(&assignment.start_minute));
            let duration = assignment.end_minute - assignment.start_minute;
            assert!(duration == 60 || duration == 90);
        }
    }
}
