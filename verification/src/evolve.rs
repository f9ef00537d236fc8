//! The evolution engine: candidate factory, genetic operators, ranking and
//! the generational loop.

use crate::conflict::{
    calculate_conflicts, conflict_count, conflicts_with, instructor_clash, pair_conflict_count,
    room_clash,
};
use crate::sampling::random_below;
use crate::schedule::{duplicate_candidate, ClassSchedule};
use vstd::prelude::*;

verus! {

broadcast use vstd::seq_lib::group_to_multiset_ensures, vstd::multiset::group_multiset_axioms;

/// Every start time in the domain leaves room for the longest class without
/// overflowing the minute arithmetic.
pub open spec fn times_ok(times: Seq<u32>) -> bool {
    forall|j: int| 0 <= j < times.len() ==> #[trigger] times[j] + 90 <= u32::MAX
}

/// Builds a start-time domain from a slot count: `slot_count` evenly spaced
/// start times beginning at `first_minute`, one every `slot_minutes`. This
/// turns the slot-count form of a time domain into the start-time form that
/// the evolution functions take.
pub fn slot_start_times(slot_count: u32, first_minute: u32, slot_minutes: u32) -> (times: Vec<
    u32,
>)
    requires
        first_minute + slot_count * slot_minutes + 90 <= u32::MAX,
    ensures
        times@.len() == slot_count,
        forall|k: int|
            0 <= k < times@.len() ==> #[trigger] times@[k] == first_minute + k * slot_minutes,
        times_ok(times@),
{
    let mut times: Vec<u32> = Vec::new();
    let mut i: u32 = 0;
    let mut value: u32 = first_minute;
    while i < slot_count
        invariant
            0 <= i <= slot_count,
            first_minute + slot_count * slot_minutes + 90 <= u32::MAX,
            value == first_minute + i * slot_minutes,
            i * slot_minutes <= slot_count * slot_minutes,
            times@.len() == i,
            forall|k: int|
                0 <= k < times@.len() ==> #[trigger] times@[k] == first_minute + k * slot_minutes,
        decreases slot_count - i,
    {
        proof {
            assert((i + 1) * slot_minutes == i * slot_minutes + slot_minutes) by (nonlinear_arith);
            assert((i + 1) * slot_minutes <= slot_count * slot_minutes) by (nonlinear_arith)
                requires
                    i + 1 <= slot_count,
                    slot_minutes >= 0,
            ;
        }
        times.push(value);
        value = value + slot_minutes;
        i = i + 1;
    }
    proof {
        assert forall|k: int| 0 <= k < times@.len() implies #[trigger] times@[k] + 90
            <= u32::MAX by {
            assert(k * slot_minutes <= slot_count * slot_minutes) by (nonlinear_arith)
                requires
                    0 <= k <= slot_count,
                    slot_minutes >= 0,
            ;
        };
    }
    times
}

/// Whether some identifier in the pool has the view `v`.
pub open spec fn view_in_pool(v: Seq<char>, pool: Seq<String>) -> bool {
    exists|j: int| 0 <= j < pool.len() && v == #[trigger] pool[j]@
}

/// Whether the minute `t` is one of the domain's start times.
pub open spec fn time_in_pool(t: u32, times: Seq<u32>) -> bool {
    exists|j: int| 0 <= j < times.len() && t == #[trigger] times[j]
}

/// A candidate is well formed for the given problem inputs: one class per
/// course with the course identity fixed by position, the instructor, room
/// and start time drawn from their pools, and a duration of 60 or 90 minutes.
pub open spec fn wf_candidate(
    c: Seq<ClassSchedule>,
    courses: Seq<String>,
    instructors: Seq<String>,
    rooms: Seq<String>,
    times: Seq<u32>,
) -> bool {
    &&& c.len() == courses.len()
    &&& forall|i: int| 0 <= i < c.len() ==> (#[trigger] c[i].course@) == courses[i]@
    &&& forall|i: int| 0 <= i < c.len() ==> #[trigger] view_in_pool(c[i].instructor@, instructors)
    &&& forall|i: int| 0 <= i < c.len() ==> #[trigger] view_in_pool(c[i].room@, rooms)
    &&& forall|i: int| 0 <= i < c.len() ==> #[trigger] time_in_pool(c[i].start_minute, times)
    &&& forall|i: int|
        0 <= i < c.len() ==> (#[trigger] c[i].end_minute) == c[i].start_minute + 60
            || c[i].end_minute == c[i].start_minute + 90
}

/// Appending one class that satisfies every per-position requirement for
/// course position `i` extends a well-formed prefix by one course.
proof fn lemma_wf_push(
    c: Seq<ClassSchedule>,
    class: ClassSchedule,
    courses: Seq<String>,
    instructors: Seq<String>,
    rooms: Seq<String>,
    times: Seq<u32>,
    i: int,
)
    requires
        0 <= i < courses.len(),
        c.len() == i,
        wf_candidate(c, courses.take(i), instructors, rooms, times),
        class.course@ == courses[i]@,
        view_in_pool(class.instructor@, instructors),
        view_in_pool(class.room@, rooms),
        time_in_pool(class.start_minute, times),
        class.end_minute == class.start_minute + 60 || class.end_minute == class.start_minute
            + 90,
    ensures
        wf_candidate(c.push(class), courses.take(i + 1), instructors, rooms, times),
{
    let c2 = c.push(class);
    assert forall|k: int| 0 <= k < c2.len() implies (#[trigger] c2[k].course@) == courses.take(
        i + 1,
    )[k]@ by {
        if k < i {
            assert(c2[k] == c[k]);
            assert(courses.take(i + 1)[k] == courses.take(i)[k]);
        } else {
            assert(c2[k] == class);
            assert(courses.take(i + 1)[k] == courses[i]);
        }
    };
    assert forall|k: int| 0 <= k < c2.len() implies #[trigger] view_in_pool(
        c2[k].instructor@,
        instructors,
    ) by {
        if k < i {
            assert(c2[k] == c[k]);
            assert(view_in_pool(c[k].instructor@, instructors));
        } else {
            assert(c2[k] == class);
        }
    };
    assert forall|k: int| 0 <= k < c2.len() implies #[trigger] view_in_pool(
        c2[k].room@,
        rooms,
    ) by {
        if k < i {
            assert(c2[k] == c[k]);
            assert(view_in_pool(c[k].room@, rooms));
        } else {
            assert(c2[k] == class);
        }
    };
    assert forall|k: int| 0 <= k < c2.len() implies #[trigger] time_in_pool(
        c2[k].start_minute,
        times,
    ) by {
        if k < i {
            assert(c2[k] == c[k]);
            assert(time_in_pool(c[k].start_minute, times));
        } else {
            assert(c2[k] == class);
        }
    };
    assert forall|k: int| 0 <= k < c2.len() implies (#[trigger] c2[k].end_minute)
        == c2[k].start_minute + 60 || c2[k].end_minute == c2[k].start_minute + 90 by {
        if k < i {
            assert(c2[k] == c[k]);
        } else {
            assert(c2[k] == class);
        }
    };
}

/// The candidate factory: for each course, independently samples an
/// instructor, a room, a start time and a duration from {60, 90} minutes.
/// Clashes are not avoided here; selection pressure resolves them.
pub fn generate_random_schedule(
    courses: &Vec<String>,
    instructors: &Vec<String>,
    rooms: &Vec<String>,
    times: &Vec<u32>,
) -> (s: Vec<ClassSchedule>)
    requires
        instructors@.len() > 0,
        rooms@.len() > 0,
        times@.len() > 0,
        times_ok(times@),
    ensures
        wf_candidate(s@, courses@, instructors@, rooms@, times@),
{
    let mut schedule: Vec<ClassSchedule> = Vec::new();
    let mut i: usize = 0;
    while i < courses.len()
        invariant
            0 <= i <= courses@.len(),
            instructors@.len() > 0,
            rooms@.len() > 0,
            times@.len() > 0,
            times_ok(times@),
            wf_candidate(schedule@, courses@.take(i as int), instructors@, rooms@, times@),
        decreases courses@.len() - i,
    {
        let instructor_choice = random_below(instructors.len());
        let instructor = &instructors[instructor_choice];
        let room_choice = random_below(rooms.len());
        let room = &rooms[room_choice];
        let time_choice = random_below(times.len());
        let start_minute = times[time_choice];
        let duration: u32 = if random_below(2) == 0 {
            60
        } else {
            90
        };
        let class = ClassSchedule::new(
            courses[i].as_str(),
            instructor.as_str(),
            room.as_str(),
            start_minute,
            duration,
        );
        let ghost prefix = schedule@;
        schedule.push(class);
        proof {
            assert(class.instructor@ == instructors@[instructor_choice as int]@);
            assert(view_in_pool(class.instructor@, instructors@));
            assert(class.room@ == rooms@[room_choice as int]@);
            assert(view_in_pool(class.room@, rooms@));
            assert(class.start_minute == times@[time_choice as int]);
            assert(time_in_pool(class.start_minute, times@));
            lemma_wf_push(prefix, class, courses@, instructors@, rooms@, times@, i as int);
        }
        i = i + 1;
    }
    proof {
        assert(courses@.take(courses@.len() as int) =~= courses@);
    }
    schedule
}

/// What a single-point cut at `cut` means: the child agrees with the first
/// parent before the cut and with the second parent from the cut on.
pub open spec fn single_point_child(
    cut: int,
    parent1: Seq<ClassSchedule>,
    parent2: Seq<ClassSchedule>,
    child: Seq<ClassSchedule>,
) -> bool {
    &&& forall|i: int| 0 <= i < cut ==> #[trigger] child[i] == parent1[i]
    &&& forall|i: int| cut <= i < child.len() ==> #[trigger] child[i] == parent2[i]
}

/// Single-point crossover: the child takes a prefix from the first parent
/// and the suffix from the second, cut at a uniformly random index. The
/// child has the parents' length and every position comes from the matching
/// position of one of the two parents — never an invented assignment.
pub fn crossover(parent1: &Vec<ClassSchedule>, parent2: &Vec<ClassSchedule>) -> (child: Vec<
    ClassSchedule,
>)
    requires
        parent1@.len() == parent2@.len(),
        parent1@.len() > 0,
    ensures
        child@.len() == parent1@.len(),
        forall|i: int|
            0 <= i < child@.len() ==> #[trigger] child@[i] == parent1@[i] || child@[i]
                == parent2@[i],
        exists|cut: int|
            0 <= cut < parent1@.len() && #[trigger] single_point_child(
                cut,
                parent1@,
                parent2@,
                child@,
            ),
{
    let cut = random_below(parent1.len());
    let mut child: Vec<ClassSchedule> = Vec::new();
    let mut i: usize = 0;
    while i < cut
        invariant
            0 <= i <= cut,
            cut < parent1@.len(),
            child@.len() == i,
            forall|k: int| 0 <= k < i ==> #[trigger] child@[k] == parent1@[k],
        decreases cut - i,
    {
        child.push(parent1[i].duplicate());
        i = i + 1;
    }
    while i < parent2.len()
        invariant
            cut <= i <= parent2@.len(),
            parent1@.len() == parent2@.len(),
            cut < parent1@.len(),
            child@.len() == i,
            forall|k: int| 0 <= k < cut ==> #[trigger] child@[k] == parent1@[k],
            forall|k: int| cut <= k < i ==> #[trigger] child@[k] == parent2@[k],
        decreases parent2@.len() - i,
    {
        child.push(parent2[i].duplicate());
        i = i + 1;
    }
    proof {
        assert(single_point_child(cut as int, parent1@, parent2@, child@));
    }
    child
}

/// What one mutation event does at position `idx`: every other position is
/// unchanged, the course and instructor there are kept, the room and start
/// time are drawn from their pools, and the class lasts 60 minutes.
pub open spec fn mutated_at(
    idx: int,
    before: Seq<ClassSchedule>,
    after: Seq<ClassSchedule>,
    rooms: Seq<String>,
    times: Seq<u32>,
) -> bool {
    &&& forall|j: int| 0 <= j < before.len() && j != idx ==> #[trigger] after[j] == before[j]
    &&& after[idx].course == before[idx].course
    &&& after[idx].instructor == before[idx].instructor
    &&& view_in_pool(after[idx].room@, rooms)
    &&& time_in_pool(after[idx].start_minute, times)
    &&& after[idx].end_minute == after[idx].start_minute + 60
}

/// Mutation: picks one position uniformly at random and resamples its room
/// and start time from the pools, giving it a 60-minute duration. Every
/// other position, and the chosen position's course and instructor, are
/// unchanged; the candidate's length is unchanged.
pub fn mutate(schedule: &mut Vec<ClassSchedule>, rooms: &Vec<String>, times: &Vec<u32>)
    requires
        old(schedule)@.len() > 0,
        rooms@.len() > 0,
        times@.len() > 0,
        times_ok(times@),
    ensures
        final(schedule)@.len() == old(schedule)@.len(),
        exists|idx: int|
            0 <= idx < old(schedule)@.len() && mutated_at(
                idx,
                old(schedule)@,
                final(schedule)@,
                rooms@,
                times@,
            ),
{
    let idx = random_below(schedule.len());
    let current = schedule.remove(idx);
    let room_choice = random_below(rooms.len());
    let new_room = rooms[room_choice].clone();
    let time_choice = random_below(times.len());
    let new_start = times[time_choice];
    let updated = ClassSchedule {
        course: current.course,
        instructor: current.instructor,
        room: new_room,
        start_minute: new_start,
        end_minute: new_start + 60,
    };
    schedule.insert(idx, updated);
    proof {
        assert(schedule@ =~= old(schedule)@.update(idx as int, updated));
        assert(updated.room@ == rooms@[room_choice as int]@);
        assert(view_in_pool(updated.room@, rooms@));
        assert(updated.start_minute == times@[time_choice as int]);
        assert(time_in_pool(updated.start_minute, times@));
        assert(mutated_at(idx as int, old(schedule)@, schedule@, rooms@, times@));
    }
}

/// The mathematical view of a population: the sequence of its members'
/// assignment sequences.
pub open spec fn views(pop: Seq<Vec<ClassSchedule>>) -> Seq<Seq<ClassSchedule>> {
    pop.map_values(|c: Vec<ClassSchedule>| c@)
}

/// Ranked descending by fitness, that is ascending by conflict count.
pub open spec fn ranked_by_conflicts(pop: Seq<Vec<ClassSchedule>>) -> bool {
    forall|i: int, j: int|
        0 <= i <= j < pop.len() ==> conflict_count(#[trigger] pop[i]@) <= conflict_count(
            #[trigger] pop[j]@,
        )
}

/// The index of a best member of a population: no member has fewer conflicts.
pub fn best_index(pop: &Vec<Vec<ClassSchedule>>) -> (b: usize)
    requires
        pop@.len() > 0,
        forall|k: int| 0 <= k < pop@.len() ==> (#[trigger] pop@[k]@).len() <= u32::MAX as int,
    ensures
        b < pop@.len(),
        forall|k: int|
            0 <= k < pop@.len() ==> conflict_count(pop@[b as int]@) <= conflict_count(
                #[trigger] pop@[k]@,
            ),
{
    let mut b: usize = 0;
    let mut best_count = calculate_conflicts(&pop[0]);
    let mut k: usize = 1;
    while k < pop.len()
        invariant
            pop@.len() > 0,
            forall|m: int| 0 <= m < pop@.len() ==> (#[trigger] pop@[m]@).len() <= u32::MAX as int,
            1 <= k <= pop@.len(),
            b < k,
            best_count == conflict_count(pop@[b as int]@),
            forall|m: int| 0 <= m < k ==> best_count <= conflict_count(#[trigger] pop@[m]@),
        decreases pop@.len() - k,
    {
        let c = calculate_conflicts(&pop[k]);
        if c < best_count {
            best_count = c;
            b = k;
        }
        k = k + 1;
    }
    b
}

/// Ranks a population descending by fitness (ascending by conflict count).
/// The result holds exactly the original members, as a multiset of views, in
/// sorted order; ties keep no particular order, which is acceptable because
/// ties are not semantically meaningful.
pub fn rank_population(pop: Vec<Vec<ClassSchedule>>) -> (ranked: Vec<Vec<ClassSchedule>>)
    requires
        forall|k: int| 0 <= k < pop@.len() ==> (#[trigger] pop@[k]@).len() <= u32::MAX as int,
    ensures
        ranked@.len() == pop@.len(),
        views(ranked@).to_multiset() == views(pop@).to_multiset(),
        ranked_by_conflicts(ranked@),
{
    let ghost pop0 = pop@;
    let mut work = pop;
    let mut ranked: Vec<Vec<ClassSchedule>> = Vec::new();
    proof {
        assert(views(ranked@).to_multiset().add(views(work@).to_multiset()) =~= views(
            pop0,
        ).to_multiset());
    }
    while work.len() > 0
        invariant
            ranked@.len() + work@.len() == pop0.len(),
            views(ranked@).to_multiset().add(views(work@).to_multiset()) == views(
                pop0,
            ).to_multiset(),
            ranked_by_conflicts(ranked@),
            forall|r: int, w: int|
                0 <= r < ranked@.len() && 0 <= w < work@.len() ==> conflict_count(
                    #[trigger] ranked@[r]@,
                ) <= conflict_count(#[trigger] work@[w]@),
            forall|k: int| 0 <= k < work@.len() ==> (#[trigger] work@[k]@).len() <= u32::MAX as int,
        decreases work@.len(),
    {
        let ghost work_before = work@;
        let ghost ranked_before = ranked@;
        let b = best_index(&work);
        let chosen = work.remove(b);
        ranked.push(chosen);
        proof {
            assert(views(work_before)[b as int] == chosen@);
            assert(views(work_before).remove(b as int) =~= views(work@));
            assert(views(ranked@) =~= views(ranked_before).push(chosen@));
            assert(views(work@).to_multiset() == views(work_before).to_multiset().remove(chosen@));
            assert(views(ranked@).to_multiset() == views(ranked_before).to_multiset().insert(
                chosen@,
            ));
            assert(views(work_before).to_multiset().count(chosen@) > 0);
            assert(views(ranked@).to_multiset().add(views(work@).to_multiset()) =~= views(
                ranked_before,
            ).to_multiset().add(views(work_before).to_multiset()));
        }
    }
    proof {
        let m = views(work@).to_multiset();
        assert(views(work@).len() == 0);
        assert forall|x: Seq<ClassSchedule>| m.count(x) == 0 by {
            if m.count(x) > 0 {
                assert(views(work@).contains(x));
            }
        };
        assert(views(ranked@).to_multiset() =~= views(ranked@).to_multiset().add(m));
    }
    ranked
}

/// The first member of a ranking has the fewest conflicts of the whole
/// original population.
pub proof fn lemma_ranked_first_is_min(
    pop: Seq<Vec<ClassSchedule>>,
    ranked: Seq<Vec<ClassSchedule>>,
)
    requires
        ranked.len() == pop.len(),
        pop.len() > 0,
        views(ranked).to_multiset() == views(pop).to_multiset(),
        ranked_by_conflicts(ranked),
    ensures
        forall|k: int|
            0 <= k < pop.len() ==> conflict_count(ranked[0]@) <= conflict_count(
                #[trigger] pop[k]@,
            ),
{
    assert forall|k: int|
        0 <= k < pop.len() implies conflict_count(ranked[0]@) <= conflict_count(pop[k]@) by {
        assert(views(pop)[k] == pop[k]@);
        assert(views(pop).contains(pop[k]@));
        assert(views(pop).to_multiset().count(pop[k]@) > 0);
        assert(views(ranked).to_multiset().count(pop[k]@) > 0);
        assert(views(ranked).contains(pop[k]@));
        let i = choose|i: int| 0 <= i < views(ranked).len() && views(ranked)[i] == pop[k]@;
        assert(ranked[i]@ == pop[k]@);
        assert(conflict_count(ranked[0]@) <= conflict_count(ranked[i]@));
    };
}

/// Whether some member of the population has the view `x`.
pub open spec fn is_member(x: Seq<ClassSchedule>, pop: Seq<Vec<ClassSchedule>>) -> bool {
    exists|j: int| 0 <= j < pop.len() && x == #[trigger] pop[j]@
}

/// Every member of a ranking is a member of the original population, so any
/// property of the members' views carries over to the ranking.
pub proof fn lemma_ranked_members_of(
    pop: Seq<Vec<ClassSchedule>>,
    ranked: Seq<Vec<ClassSchedule>>,
)
    requires
        views(ranked).to_multiset() == views(pop).to_multiset(),
    ensures
        forall|i: int| 0 <= i < ranked.len() ==> is_member(#[trigger] ranked[i]@, pop),
{
    assert forall|i: int| 0 <= i < ranked.len() implies is_member(ranked[i]@, pop) by {
        assert(views(ranked)[i] == ranked[i]@);
        assert(views(ranked).contains(ranked[i]@));
        assert(views(ranked).to_multiset().count(ranked[i]@) > 0);
        assert(views(pop).to_multiset().count(ranked[i]@) > 0);
        assert(views(pop).contains(ranked[i]@));
        let j = choose|j: int| 0 <= j < views(pop).len() && views(pop)[j] == ranked[i]@;
        assert(views(pop)[j] == pop[j]@);
        assert(ranked[i]@ == pop[j]@);
    };
}

/// Whether `child` is a single-point crossover of the two parents.
pub open spec fn crossover_of(
    child: Seq<ClassSchedule>,
    p1: Seq<ClassSchedule>,
    p2: Seq<ClassSchedule>,
) -> bool {
    &&& child.len() == p1.len()
    &&& p1.len() == p2.len()
    &&& exists|cut: int| 0 <= cut < p1.len() && #[trigger] single_point_child(cut, p1, p2, child)
}

/// Whether `after` is `before` with exactly one mutation event applied.
pub open spec fn mutation_of(
    after: Seq<ClassSchedule>,
    before: Seq<ClassSchedule>,
    rooms: Seq<String>,
    times: Seq<u32>,
) -> bool {
    &&& after.len() == before.len()
    &&& exists|idx: int|
        0 <= idx < before.len() && #[trigger] mutated_at(idx, before, after, rooms, times)
}

/// Whether `c` was bred from the population: a crossover of two of its
/// members, possibly followed by one mutation event.
pub open spec fn offspring_of_members(
    c: Seq<ClassSchedule>,
    pop: Seq<Vec<ClassSchedule>>,
    rooms: Seq<String>,
    times: Seq<u32>,
) -> bool {
    exists|ja: int, jb: int|
        #![trigger pop[ja]@, pop[jb]@]
        0 <= ja < pop.len() && 0 <= jb < pop.len() && (crossover_of(c, pop[ja]@, pop[jb]@)
            || exists|mid: Seq<ClassSchedule>|
            #[trigger] crossover_of(mid, pop[ja]@, pop[jb]@) && mutation_of(
                c,
                mid,
                rooms,
                times,
            ))
}

/// The tunable policy of one evolution run.
#[derive(Clone, Copy, Debug, PartialEq, Eq, Structural)]
pub struct EvolutionConfig {
    /// How many candidates each generation holds; at least 2.
    pub population_size: usize,
    /// How many generations to run; 0 ranks the initial population only.
    pub generations: usize,
    /// How many of the best candidates form the parent pool: 2 for narrow
    /// elitism, half the population for broader elitism.
    pub parent_count: usize,
    /// Whether the parent pool survives unchanged into the next generation.
    pub elitism: bool,
    /// The per-child probability of one mutation event, in percent (0..=100).
    pub mutation_percent: u32,
}

/// Why a configuration was rejected before any evolution began.
#[derive(Clone, Copy, Debug, PartialEq, Eq, Structural)]
pub enum ConfigError {
    EmptyCourses,
    EmptyInstructors,
    EmptyRooms,
    EmptyTimeDomain,
    PopulationTooSmall,
    InvalidParentPool,
    InvalidMutationRate,
}

/// The validation order of the problem inputs and the policy: the first
/// failing check decides the error; `None` means the run may start.
pub open spec fn spec_validate(
    courses: Seq<String>,
    instructors: Seq<String>,
    rooms: Seq<String>,
    times: Seq<u32>,
    config: EvolutionConfig,
) -> Option<ConfigError> {
    if courses.len() == 0 {
        Some(ConfigError::EmptyCourses)
    } else if instructors.len() == 0 {
        Some(ConfigError::EmptyInstructors)
    } else if rooms.len() == 0 {
        Some(ConfigError::EmptyRooms)
    } else if times.len() == 0 {
        Some(ConfigError::EmptyTimeDomain)
    } else if config.population_size < 2 {
        Some(ConfigError::PopulationTooSmall)
    } else if config.parent_count < 2 || config.parent_count > config.population_size {
        Some(ConfigError::InvalidParentPool)
    } else if config.mutation_percent > 100 {
        Some(ConfigError::InvalidMutationRate)
    } else {
        None
    }
}

/// A candidate whose every position comes from the matching position of one
/// of two well-formed parents is itself well formed.
proof fn lemma_child_wf(
    child: Seq<ClassSchedule>,
    p1: Seq<ClassSchedule>,
    p2: Seq<ClassSchedule>,
    courses: Seq<String>,
    instructors: Seq<String>,
    rooms: Seq<String>,
    times: Seq<u32>,
)
    requires
        wf_candidate(p1, courses, instructors, rooms, times),
        wf_candidate(p2, courses, instructors, rooms, times),
        child.len() == p1.len(),
        p1.len() == p2.len(),
        forall|i: int| 0 <= i < child.len() ==> #[trigger] child[i] == p1[i] || child[i] == p2[i],
    ensures
        wf_candidate(child, courses, instructors, rooms, times),
{
    assert forall|i: int| 0 <= i < child.len() implies (#[trigger] child[i].course@)
        == courses[i]@ by {
        assert(child[i] == p1[i] || child[i] == p2[i]);
    };
    assert forall|i: int| 0 <= i < child.len() implies #[trigger] view_in_pool(
        child[i].instructor@,
        instructors,
    ) by {
        if child[i] == p1[i] {
            assert(view_in_pool(p1[i].instructor@, instructors));
        } else {
            assert(view_in_pool(p2[i].instructor@, instructors));
        }
    };
    assert forall|i: int| 0 <= i < child.len() implies #[trigger] view_in_pool(
        child[i].room@,
        rooms,
    ) by {
        if child[i] == p1[i] {
            assert(view_in_pool(p1[i].room@, rooms));
        } else {
            assert(view_in_pool(p2[i].room@, rooms));
        }
    };
    assert forall|i: int| 0 <= i < child.len() implies #[trigger] time_in_pool(
        child[i].start_minute,
        times,
    ) by {
        if child[i] == p1[i] {
            assert(time_in_pool(p1[i].start_minute, times));
        } else {
            assert(time_in_pool(p2[i].start_minute, times));
        }
    };
    assert forall|i: int| 0 <= i < child.len() implies (#[trigger] child[i].end_minute)
        == child[i].start_minute + 60 || child[i].end_minute == child[i].start_minute + 90 by {
        assert(child[i] == p1[i] || child[i] == p2[i]);
    };
}

/// One mutation event keeps a well-formed candidate well formed.
proof fn lemma_mutate_wf(
    before: Seq<ClassSchedule>,
    after: Seq<ClassSchedule>,
    idx: int,
    courses: Seq<String>,
    instructors: Seq<String>,
    rooms: Seq<String>,
    times: Seq<u32>,
)
    requires
        wf_candidate(before, courses, instructors, rooms, times),
        after.len() == before.len(),
        0 <= idx < before.len(),
        mutated_at(idx, before, after, rooms, times),
    ensures
        wf_candidate(after, courses, instructors, rooms, times),
{
    assert forall|i: int| 0 <= i < after.len() implies (#[trigger] after[i].course@)
        == courses[i]@ by {
        if i != idx {
            assert(after[i] == before[i]);
        } else {
            assert(after[idx].course == before[idx].course);
        }
    };
    assert forall|i: int| 0 <= i < after.len() implies #[trigger] view_in_pool(
        after[i].instructor@,
        instructors,
    ) by {
        if i != idx {
            assert(after[i] == before[i]);
        } else {
            assert(after[idx].instructor == before[idx].instructor);
        }
        assert(view_in_pool(before[i].instructor@, instructors));
    };
    assert forall|i: int| 0 <= i < after.len() implies #[trigger] view_in_pool(
        after[i].room@,
        rooms,
    ) by {
        if i != idx {
            assert(after[i] == before[i]);
            assert(view_in_pool(before[i].room@, rooms));
        }
    };
    assert forall|i: int| 0 <= i < after.len() implies #[trigger] time_in_pool(
        after[i].start_minute,
        times,
    ) by {
        if i != idx {
            assert(after[i] == before[i]);
            assert(time_in_pool(before[i].start_minute, times));
        }
    };
    assert forall|i: int| 0 <= i < after.len() implies (#[trigger] after[i].end_minute)
        == after[i].start_minute + 60 || after[i].end_minute == after[i].start_minute + 90 by {
        if i != idx {
            assert(after[i] == before[i]);
        }
    };
}

/// Whether `c` has no more conflicts than any member of `pop`.
pub open spec fn no_worse_than_all(c: Seq<ClassSchedule>, pop: Seq<Vec<ClassSchedule>>) -> bool {
    forall|k: int|
        0 <= k < pop.len() ==> conflict_count(c) <= conflict_count(#[trigger] pop[k]@)
}

/// A candidate with a single course can hold no clash at all: its conflict
/// count is zero, whatever was drawn for it.
pub proof fn lemma_single_course_no_conflicts(c: Seq<ClassSchedule>)
    requires
        c.len() == 1,
    ensures
        conflict_count(c) == 0,
{
    assert(c.drop_first().len() == 0);
    assert(conflicts_with(c[0], c.drop_first()) == 0);
    assert(conflict_count(c.drop_first()) == 0);
}

/// With two courses and one instructor, one room and one start time in the
/// pools, every well-formed candidate forces both classes onto the same
/// resources at overlapping times: exactly one instructor clash and one room
/// clash, whatever the durations drawn.
pub proof fn lemma_two_courses_one_resource_always_clash(
    c: Seq<ClassSchedule>,
    courses: Seq<String>,
    instructors: Seq<String>,
    rooms: Seq<String>,
    times: Seq<u32>,
)
    requires
        wf_candidate(c, courses, instructors, rooms, times),
        courses.len() == 2,
        instructors.len() == 1,
        rooms.len() == 1,
        times.len() == 1,
    ensures
        conflict_count(c) == 2,
{
    let a = c[0];
    let b = c[1];
    assert(view_in_pool(a.instructor@, instructors));
    assert(view_in_pool(b.instructor@, instructors));
    let ja = choose|j: int| 0 <= j < instructors.len() && a.instructor@ == instructors[j]@;
    let jb = choose|j: int| 0 <= j < instructors.len() && b.instructor@ == instructors[j]@;
    assert(ja == 0 && jb == 0);
    assert(a.instructor@ == b.instructor@);
    assert(view_in_pool(a.room@, rooms));
    assert(view_in_pool(b.room@, rooms));
    let ra = choose|j: int| 0 <= j < rooms.len() && a.room@ == rooms[j]@;
    let rb = choose|j: int| 0 <= j < rooms.len() && b.room@ == rooms[j]@;
    assert(ra == 0 && rb == 0);
    assert(a.room@ == b.room@);
    assert(time_in_pool(a.start_minute, times));
    assert(time_in_pool(b.start_minute, times));
    let ta = choose|j: int| 0 <= j < times.len() && a.start_minute == times[j];
    let tb = choose|j: int| 0 <= j < times.len() && b.start_minute == times[j];
    assert(ta == 0 && tb == 0);
    assert(a.start_minute == b.start_minute);
    assert(a.end_minute > a.start_minute);
    assert(b.end_minute > b.start_minute);
    assert(crate::schedule::spec_overlaps(a, b));
    assert(instructor_clash(a, b));
    assert(room_clash(a, b));
    assert(pair_conflict_count(a, b) == 2);
    let rest = c.drop_first();
    assert(rest.len() == 1 && rest[0] == b);
    assert(conflicts_with(a, rest) == pair_conflict_count(a, b) + conflicts_with(
        a,
        rest.drop_first(),
    ));
    assert(rest.drop_first().len() == 0);
    lemma_single_course_no_conflicts(rest);
}

/// Seeds a population with independently randomized candidates.
pub fn init_population(
    courses: &Vec<String>,
    instructors: &Vec<String>,
    rooms: &Vec<String>,
    times: &Vec<u32>,
    population_size: usize,
) -> (pop: Vec<Vec<ClassSchedule>>)
    requires
        instructors@.len() > 0,
        rooms@.len() > 0,
        times@.len() > 0,
        times_ok(times@),
    ensures
        pop@.len() == population_size,
        forall|k: int|
            0 <= k < pop@.len() ==> wf_candidate(
                (#[trigger] pop@[k]@),
                courses@,
                instructors@,
                rooms@,
                times@,
            ),
{
    let mut pop: Vec<Vec<ClassSchedule>> = Vec::new();
    let mut k: usize = 0;
    while k < population_size
        invariant
            instructors@.len() > 0,
            rooms@.len() > 0,
            times@.len() > 0,
            times_ok(times@),
            k <= population_size,
            pop@.len() == k,
            forall|m: int|
                0 <= m < pop@.len() ==> wf_candidate(
                    (#[trigger] pop@[m]@),
                    courses@,
                    instructors@,
                    rooms@,
                    times@,
                ),
        decreases population_size - k,
    {
        pop.push(generate_random_schedule(courses, instructors, rooms, times));
        k = k + 1;
    }
    pop
}

/// One generation: rank the population, take the best `parent_count` as the
/// parent pool, optionally carry the pool forward unchanged (elitist
/// survival), and fill the rest with crossover children, each mutated with
/// probability `mutation_percent` percent. With elitist survival the new
/// population keeps a member at least as fit as every member of the old one,
/// so the best fitness never decreases across generations.
pub fn next_generation(
    pop: Vec<Vec<ClassSchedule>>,
    courses: &Vec<String>,
    instructors: &Vec<String>,
    rooms: &Vec<String>,
    times: &Vec<u32>,
    config: EvolutionConfig,
) -> (next: Vec<Vec<ClassSchedule>>)
    requires
        forall|k: int|
            0 <= k < pop@.len() ==> wf_candidate(
                (#[trigger] pop@[k]@),
                courses@,
                instructors@,
                rooms@,
                times@,
            ),
        courses@.len() > 0,
        courses@.len() <= u32::MAX as int,
        instructors@.len() > 0,
        rooms@.len() > 0,
        times@.len() > 0,
        times_ok(times@),
        2 <= config.parent_count,
        config.parent_count <= pop@.len(),
        config.parent_count <= config.population_size,
    ensures
        next@.len() == config.population_size,
        forall|k: int|
            0 <= k < next@.len() ==> wf_candidate(
                (#[trigger] next@[k]@),
                courses@,
                instructors@,
                rooms@,
                times@,
            ),
        forall|k: int|
            0 <= k < next@.len() ==> is_member(#[trigger] next@[k]@, pop@) || offspring_of_members(
                next@[k]@,
                pop@,
                rooms@,
                times@,
            ),
        config.elitism ==> exists|m: int|
            0 <= m < next@.len() && no_worse_than_all(#[trigger] next@[m]@, pop@),
{
    let ghost pop0 = pop@;
    proof {
        assert forall|k: int| 0 <= k < pop0.len() implies (#[trigger] pop0[k]@).len()
            <= u32::MAX as int by {
            assert(wf_candidate(pop0[k]@, courses@, instructors@, rooms@, times@));
        };
    }
    let ranked = rank_population(pop);
    proof {
        lemma_ranked_members_of(pop0, ranked@);
        lemma_ranked_first_is_min(pop0, ranked@);
        assert forall|k: int| 0 <= k < ranked@.len() implies wf_candidate(
            (#[trigger] ranked@[k]@),
            courses@,
            instructors@,
            rooms@,
            times@,
        ) by {
            assert(is_member(ranked@[k]@, pop0));
            let j = choose|j: int| 0 <= j < pop0.len() && ranked@[k]@ == pop0[j]@;
            assert(wf_candidate(pop0[j]@, courses@, instructors@, rooms@, times@));
        };
    }
    let mut next: Vec<Vec<ClassSchedule>> = Vec::new();
    if config.elitism {
        let mut e: usize = 0;
        while e < config.parent_count
            invariant
                e <= config.parent_count,
                config.parent_count <= ranked@.len(),
                next@.len() == e,
                forall|k: int| 0 <= k < e ==> (#[trigger] next@[k]@) == ranked@[k]@,
                forall|k: int|
                    0 <= k < ranked@.len() ==> wf_candidate(
                        (#[trigger] ranked@[k]@),
                        courses@,
                        instructors@,
                        rooms@,
                        times@,
                    ),
            decreases config.parent_count - e,
        {
            next.push(duplicate_candidate(&ranked[e]));
            e = e + 1;
        }
    }
    proof {
        assert forall|k: int| 0 <= k < next@.len() implies is_member(
            #[trigger] next@[k]@,
            pop0,
        ) by {
            assert(next@[k]@ == ranked@[k]@);
            assert(is_member(ranked@[k]@, pop0));
        };
    }
    while next.len() < config.population_size
        invariant
            ranked@.len() == pop0.len(),
            2 <= config.parent_count,
            config.parent_count <= ranked@.len(),
            config.parent_count <= config.population_size,
            courses@.len() > 0,
            courses@.len() <= u32::MAX as int,
            instructors@.len() > 0,
            rooms@.len() > 0,
            times@.len() > 0,
            times_ok(times@),
            next@.len() <= config.population_size,
            config.elitism ==> next@.len() >= 1 && next@[0]@ == ranked@[0]@,
            forall|k: int|
                0 <= k < ranked@.len() ==> wf_candidate(
                    (#[trigger] ranked@[k]@),
                    courses@,
                    instructors@,
                    rooms@,
                    times@,
                ),
            forall|k: int|
                0 <= k < next@.len() ==> wf_candidate(
                    (#[trigger] next@[k]@),
                    courses@,
                    instructors@,
                    rooms@,
                    times@,
                ),
            forall|k: int| 0 <= k < ranked@.len() ==> is_member(#[trigger] ranked@[k]@, pop0),
            forall|k: int|
                0 <= k < next@.len() ==> is_member(#[trigger] next@[k]@, pop0)
                    || offspring_of_members(next@[k]@, pop0, rooms@, times@),
        decreases config.population_size - next@.len(),
    {
        let pa = random_below(config.parent_count);
        let pb = random_below(config.parent_count);
        proof {
            assert(wf_candidate(ranked@[pa as int]@, courses@, instructors@, rooms@, times@));
            assert(wf_candidate(ranked@[pb as int]@, courses@, instructors@, rooms@, times@));
        }
        let mut child = crossover(&ranked[pa], &ranked[pb]);
        let ghost bred = child@;
        proof {
            lemma_child_wf(
                child@,
                ranked@[pa as int]@,
                ranked@[pb as int]@,
                courses@,
                instructors@,
                rooms@,
                times@,
            );
            assert(crossover_of(child@, ranked@[pa as int]@, ranked@[pb as int]@));
        }
        let draw = random_below(100);
        if draw < config.mutation_percent as usize {
            let ghost before = child@;
            mutate(&mut child, rooms, times);
            proof {
                let idx = choose|idx: int|
                    0 <= idx < before.len() && mutated_at(idx, before, child@, rooms@, times@);
                lemma_mutate_wf(
                    before,
                    child@,
                    idx,
                    courses@,
                    instructors@,
                    rooms@,
                    times@,
                );
                assert(mutation_of(child@, before, rooms@, times@));
            }
        }
        proof {
            assert(is_member(ranked@[pa as int]@, pop0));
            assert(is_member(ranked@[pb as int]@, pop0));
            let ja = choose|j: int| 0 <= j < pop0.len() && ranked@[pa as int]@ == pop0[j]@;
            let jb = choose|j: int| 0 <= j < pop0.len() && ranked@[pb as int]@ == pop0[j]@;
            assert(crossover_of(bred, pop0[ja]@, pop0[jb]@));
            if child@ != bred {
                assert(mutation_of(child@, bred, rooms@, times@));
            }
            assert(offspring_of_members(child@, pop0, rooms@, times@));
        }
        next.push(child);
    }
    proof {
        if config.elitism {
            assert(no_worse_than_all(next@[0]@, pop0));
        }
    }
    next
}

/// The whole optimization run on an already validated configuration: seed a
/// population, evolve it for the configured number of generations, rank one
/// last time and return the best candidate found.
pub fn evolve(
    courses: &Vec<String>,
    instructors: &Vec<String>,
    rooms: &Vec<String>,
    times: &Vec<u32>,
    config: EvolutionConfig,
) -> (best: Vec<ClassSchedule>)
    requires
        spec_validate(courses@, instructors@, rooms@, times@, config) is None,
        courses@.len() <= u32::MAX as int,
        times_ok(times@),
    ensures
        wf_candidate(best@, courses@, instructors@, rooms@, times@),
{
    let mut population = init_population(
        courses,
        instructors,
        rooms,
        times,
        config.population_size,
    );
    let mut g: usize = 0;
    while g < config.generations
        invariant
            spec_validate(courses@, instructors@, rooms@, times@, config) is None,
            courses@.len() <= u32::MAX as int,
            times_ok(times@),
            population@.len() == config.population_size,
            forall|k: int|
                0 <= k < population@.len() ==> wf_candidate(
                    (#[trigger] population@[k]@),
                    courses@,
                    instructors@,
                    rooms@,
                    times@,
                ),
        decreases config.generations - g,
    {
        population = next_generation(population, courses, instructors, rooms, times, config);
        g = g + 1;
    }
    let ghost fin = population@;
    proof {
        assert forall|k: int| 0 <= k < fin.len() implies (#[trigger] fin[k]@).len()
            <= u32::MAX as int by {
            assert(wf_candidate(fin[k]@, courses@, instructors@, rooms@, times@));
        };
    }
    let mut ranked = rank_population(population);
    proof {
        lemma_ranked_members_of(fin, ranked@);
        assert(is_member(ranked@[0]@, fin));
        let j = choose|j: int| 0 <= j < fin.len() && ranked@[0]@ == fin[j]@;
        assert(wf_candidate(fin[j]@, courses@, instructors@, rooms@, times@));
    }
    let best = ranked.remove(0);
    best
}

/// The caller-facing entry point: validates the problem inputs and the
/// policy, then runs the evolution. Each invalid configuration is reported
/// as its own error, in the order of `spec_validate`, before any evolution
/// begins; on a valid configuration the run always succeeds and returns a
/// well-formed best candidate.
pub fn run(
    courses: &Vec<String>,
    instructors: &Vec<String>,
    rooms: &Vec<String>,
    times: &Vec<u32>,
    config: EvolutionConfig,
) -> (r: Result<Vec<ClassSchedule>, ConfigError>)
    requires
        courses@.len() <= u32::MAX as int,
        times_ok(times@),
    ensures
        spec_validate(courses@, instructors@, rooms@, times@, config) matches Some(e) ==> r
            == Err::<Vec<ClassSchedule>, ConfigError>(e),
        spec_validate(courses@, instructors@, rooms@, times@, config) is None ==> (r matches Ok(
            best,
        ) && wf_candidate(best@, courses@, instructors@, rooms@, times@)),
{
    if courses.len() == 0 {
        return Err(ConfigError::EmptyCourses);
    }
    if instructors.len() == 0 {
        return Err(ConfigError::EmptyInstructors);
    }
    if rooms.len() == 0 {
        return Err(ConfigError::EmptyRooms);
    }
    if times.len() == 0 {
        return Err(ConfigError::EmptyTimeDomain);
    }
    if config.population_size < 2 {
        return Err(ConfigError::PopulationTooSmall);
    }
    if config.parent_count < 2 || config.parent_count > config.population_size {
        return Err(ConfigError::InvalidParentPool);
    }
    if config.mutation_percent > 100 {
        return Err(ConfigError::InvalidMutationRate);
    }
    Ok(evolve(courses, instructors, rooms, times, config))
}

/// The generational loop under the classic policy: a population of 10, the
/// best two candidates as parents, elitist survival, and every child
/// mutated.
pub fn genetic_algorithm(
    courses: &Vec<String>,
    instructors: &Vec<String>,
    rooms: &Vec<String>,
    times: &Vec<u32>,
    generations: usize,
) -> (best: Vec<ClassSchedule>)
    requires
        courses@.len() > 0,
        courses@.len() <= u32::MAX as int,
        instructors@.len() > 0,
        rooms@.len() > 0,
        times@.len() > 0,
        times_ok(times@),
    ensures
        wf_candidate(best@, courses@, instructors@, rooms@, times@),
{
    let config = EvolutionConfig {
        population_size: 10,
        generations,
        parent_count: 2,
        elitism: true,
        mutation_percent: 100,
    };
    evolve(courses, instructors, rooms, times, config)
}

} // verus!
