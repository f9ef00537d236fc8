use class_scheduler::conflict::{calculate_conflicts, detect, ConflictKind};
use class_scheduler::evolve::{
    best_index, genetic_algorithm, init_population, next_generation, rank_population, run,
    slot_start_times, ConfigError, EvolutionConfig,
};
use class_scheduler::fitness::fitness;
use class_scheduler::schedule::ClassSchedule;

fn strings(names: &[&str]) -> Vec<String> {
    names.iter().map(|n| n.to_string()).collect()
}

fn class(course: &str, instructor: &str, room: &str, start: u32, duration: u32) -> ClassSchedule {
    ClassSchedule::new(course, instructor, room, start, duration)
}

fn default_config() -> EvolutionConfig {
    EvolutionConfig {
        population_size: 10,
        generations: 5,
        parent_count: 2,
        elitism: true,
        mutation_percent: 100,
    }
}

#[test]
fn best_index_finds_the_minimum() {
    let perfect = vec![
        class("Math", "Alice", "Room 101", 480, 60),
        class("Science", "Bob", "Room 102", 480, 60),
    ];
    let clashing = vec![
        class("Math", "Alice", "Room 101", 480, 60),
        class("Science", "Alice", "Room 101", 480, 60),
    ];
    let pop = vec![
        clashing.clone(),
        perfect.clone(),
        clashing.clone(),
    ];
    let b = best_index(&pop);
    assert_eq!(b, 1);
    assert_eq!(calculate_conflicts(&pop[b]), 0);
}

#[test]
fn rank_population_sorts_by_conflicts() {
    let perfect = vec![
        class("Math", "Alice", "Room 101", 480, 60),
        class("Science", "Bob", "Room 102", 480, 60),
    ];
    let clashing = vec![
        class("Math", "Alice", "Room 101", 480, 60),
        class("Science", "Alice", "Room 101", 480, 60),
    ];
    let pop = vec![clashing.clone(), perfect.clone(), clashing.clone()];
    let ranked = rank_population(pop);
    assert_eq!(ranked.len(), 3);
    let mut previous: u64 = 0;
    for member in &ranked {
        let count = calculate_conflicts(member);
        assert!(count >= previous);
        previous = count;
    }
    assert_eq!(calculate_conflicts(&ranked[0]), 0);
}

#[test]
fn elitist_generation_never_loses_the_best() {
    let courses = strings(&["Math", "Science", "History", "English"]);
    let instructors = strings(&["Alice", "Bob", "Charlie"]);
    let rooms = strings(&["Room 101", "Room 102", "Room 103"]);
    let times: Vec<u32> = vec![480, 570, 660];
    let config = default_config();

    let pop = init_population(&courses, &instructors, &rooms, &times, config.population_size);
    let best_before = calculate_conflicts(&pop[best_index(&pop)]);
    let next = next_generation(pop, &courses, &instructors, &rooms, &times, config);
    assert_eq!(next.len(), config.population_size);
    let best_after = calculate_conflicts(&next[best_index(&next)]);
    assert!(best_after <= best_before);
}

#[test]
fn single_slot_single_resource_is_always_perfect() {
    // One course, one instructor, one room, one time slot: nothing can
    // clash, so every candidate scores a fitness of exactly 1.
    let courses = strings(&["Math"]);
    let instructors = strings(&["Alice"]);
    let rooms = strings(&["Room 101"]);
    let times: Vec<u32> = vec![480];

    let pop = init_population(&courses, &instructors, &rooms, &times, 10);
    for member in &pop {
        assert_eq!(calculate_conflicts(member), 0);
        let f = fitness(member);
        assert_eq!(f.numerator as f64 / f.denominator as f64, 1.0);
    }

    let best = genetic_algorithm(&courses, &instructors, &rooms, &times, 10);
    assert_eq!(calculate_conflicts(&best), 0);
    assert!(fitness(&best).is_perfect());
}

#[test]
fn two_courses_on_one_resource_always_clash() {
    // Two courses forced onto the same instructor, room and slot: every
    // candidate carries at least one room and one instructor conflict.
    let courses = strings(&["Math", "Science"]);
    let instructors = strings(&["Alice"]);
    let rooms = strings(&["Room 101"]);
    let times: Vec<u32> = vec![480];

    let mut pop = init_population(&courses, &instructors, &rooms, &times, 10);
    let config = default_config();
    for _ in 0..3 {
        pop = next_generation(pop, &courses, &instructors, &rooms, &times, config);
    }
    for member in &pop {
        let (count, conflicts) = detect(member);
        assert!(count >= 2);
        assert!(conflicts.iter().any(|c| c.kind == ConflictKind::Instructor));
        assert!(conflicts.iter().any(|c| c.kind == ConflictKind::Room));
    }
}

#[test]
fn evolution_never_regresses_under_elitism() {
    let courses = strings(&["Math", "Science", "History", "English"]);
    let instructors = strings(&["Alice", "Bob", "Charlie"]);
    let rooms = strings(&["Room 101", "Room 102", "Room 103"]);
    let times: Vec<u32> = vec![480, 570, 660];
    let config = EvolutionConfig {
        population_size: 10,
        generations: 50,
        parent_count: 2,
        elitism: true,
        mutation_percent: 100,
    };

    let mut pop = init_population(&courses, &instructors, &rooms, &times, config.population_size);
    let initial_best = calculate_conflicts(&pop[best_index(&pop)]);
    let mut previous_best = initial_best;
    for _ in 0..config.generations {
        pop = next_generation(pop, &courses, &instructors, &rooms, &times, config);
        let current_best = calculate_conflicts(&pop[best_index(&pop)]);
        assert!(current_best <= previous_best);
        previous_best = current_best;
    }
    assert!(previous_best <= initial_best);
}

#[test]
fn run_reports_each_invalid_configuration() {
    let courses = strings(&["Math", "Science"]);
    let instructors = strings(&["Alice"]);
    let rooms = strings(&["Room 101"]);
    let times: Vec<u32> = vec![480];
    let empty: Vec<String> = Vec::new();
    let no_times: Vec<u32> = Vec::new();
    let ok = default_config();

    assert_eq!(
        run(&empty, &instructors, &rooms, &times, ok),
        Err(ConfigError::EmptyCourses)
    );
    assert_eq!(
        run(&courses, &empty, &rooms, &times, ok),
        Err(ConfigError::EmptyInstructors)
    );
    assert_eq!(
        run(&courses, &instructors, &empty, &times, ok),
        Err(ConfigError::EmptyRooms)
    );
    assert_eq!(
        run(&courses, &instructors, &rooms, &no_times, ok),
        Err(ConfigError::EmptyTimeDomain)
    );

    let mut too_small = ok;
    too_small.population_size = 1;
    assert_eq!(
        run(&courses, &instructors, &rooms, &times, too_small),
        Err(ConfigError::PopulationTooSmall)
    );

    let mut bad_parents = ok;
    bad_parents.parent_count = 11;
    assert_eq!(
        run(&courses, &instructors, &rooms, &times, bad_parents),
        Err(ConfigError::InvalidParentPool)
    );

    let mut bad_rate = ok;
    bad_rate.mutation_percent = 101;
    assert_eq!(
        run(&courses, &instructors, &rooms, &times, bad_rate),
        Err(ConfigError::InvalidMutationRate)
    );
}

#[test]
fn run_returns_a_well_formed_best_candidate() {
    let courses = strings(&["Math", "Science", "History", "English"]);
    let instructors = strings(&["Alice", "Bob", "Charlie"]);
    let rooms = strings(&["Room 101", "Room 102", "Room 103"]);
    let times: Vec<u32> = vec![480, 570, 660];

    let best = run(&courses, &instructors, &rooms, &times, default_config()).unwrap();
    assert_eq!(best.len(), courses.len());
    for (i, assignment) in best.iter().enumerate() {
        assert_eq!(assignment.course, courses[i]);
        assert!(instructors.contains(&assignment.instructor));
        assert!(rooms.contains(&assignment.room));
        assert!(times.contains(&assignment.start_minute));
    }
}

#[test]
fn slot_count_domain_expands_to_start_times() {
    let times = slot_start_times(3, 480, 90);
    assert_eq!(times, vec![480, 570, 660]);

    let none = slot_start_times(0, 480, 90);
    assert!(none.is_empty());

    // The slot-count form feeds straight into the evolution loop.
    let courses = strings(&["Math", "Science"]);
    let instructors = strings(&["Alice", "Bob"]);
    let rooms = strings(&["Room 101", "Room 102"]);
    let best = genetic_algorithm(&courses, &instructors, &rooms, &times, 5);
    assert_eq!(best.len(), 2);
}

#[test]
fn genetic_algorithm_keeps_course_order() {
    let courses = strings(&["Math", "Science", "History", "English"]);
    let instructors = strings(&["Alice", "Bob", "Charlie"]);
    let rooms = strings(&["Room 101", "Room 102", "Room 103"]);
    let times: Vec<u32> = vec![480, 570, 660];

    let best = genetic_algorithm(&courses, &instructors, &rooms, &times, 50);
    assert_eq!(best.len(), 4);
    for (i, assignment) in best.iter().enumerate() {
        assert_eq!(assignment.course, courses[i]);
    }
}
