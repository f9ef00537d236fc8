//! The conflict detector: counts pairwise resource clashes in a candidate
//! and reports each one as data for an external reporter to format.

use crate::schedule::{classes_overlap, spec_overlaps, ClassSchedule};
use vstd::prelude::*;

verus! {

/// Which resource two classes compete for.
#[derive(Clone, Copy, Debug, PartialEq, Eq, Structural)]
pub enum ConflictKind {
    Instructor,
    Room,
}

/// One detected clash: two classes hold the same resource over overlapping
/// time intervals. `clash_start..clash_end` is the intersection of the two
/// intervals.
#[derive(Clone, Debug, PartialEq, Eq)]
pub struct Conflict {
    pub kind: ConflictKind,
    pub resource: String,
    pub first_course: String,
    pub second_course: String,
    pub clash_start: u32,
    pub clash_end: u32,
}

/// The later of two minutes.
pub open spec fn max_u32(x: u32, y: u32) -> u32 {
    if x >= y {
        x
    } else {
        y
    }
}

/// The earlier of two minutes.
pub open spec fn min_u32(x: u32, y: u32) -> u32 {
    if x <= y {
        x
    } else {
        y
    }
}

/// The two classes compete for one instructor at overlapping times.
pub open spec fn instructor_clash(a: ClassSchedule, b: ClassSchedule) -> bool {
    a.instructor@ == b.instructor@ && spec_overlaps(a, b)
}

/// The two classes compete for one room at overlapping times.
pub open spec fn room_clash(a: ClassSchedule, b: ClassSchedule) -> bool {
    a.room@ == b.room@ && spec_overlaps(a, b)
}

/// How many conflicts one unordered pair of classes contributes: one per
/// clashing dimension (instructor, room).
pub open spec fn pair_conflict_count(a: ClassSchedule, b: ClassSchedule) -> nat {
    (if instructor_clash(a, b) {
        1nat
    } else {
        0nat
    }) + (if room_clash(a, b) {
        1nat
    } else {
        0nat
    })
}

/// The report for an instructor clash between `a` and `b`, in that scan order.
pub open spec fn instructor_conflict(a: ClassSchedule, b: ClassSchedule) -> Conflict {
    Conflict {
        kind: ConflictKind::Instructor,
        resource: a.instructor,
        first_course: a.course,
        second_course: b.course,
        clash_start: max_u32(a.start_minute, b.start_minute),
        clash_end: min_u32(a.end_minute, b.end_minute),
    }
}

/// The report for a room clash between `a` and `b`, in that scan order.
pub open spec fn room_conflict(a: ClassSchedule, b: ClassSchedule) -> Conflict {
    Conflict {
        kind: ConflictKind::Room,
        resource: a.room,
        first_course: a.course,
        second_course: b.course,
        clash_start: max_u32(a.start_minute, b.start_minute),
        clash_end: min_u32(a.end_minute, b.end_minute),
    }
}

/// The reports one pair contributes: instructor clash first, then room clash.
pub open spec fn pair_conflict_list(a: ClassSchedule, b: ClassSchedule) -> Seq<Conflict> {
    (if instructor_clash(a, b) {
        seq![instructor_conflict(a, b)]
    } else {
        Seq::empty()
    }) + (if room_clash(a, b) {
        seq![room_conflict(a, b)]
    } else {
        Seq::empty()
    })
}

/// How many conflicts `x` has against every member of `s`.
pub open spec fn conflicts_with(x: ClassSchedule, s: Seq<ClassSchedule>) -> nat
    decreases s.len(),
{
    if s.len() == 0 {
        0nat
    } else {
        pair_conflict_count(x, s[0]) + conflicts_with(x, s.drop_first())
    }
}

/// The total conflict count of a candidate: the sum of `pair_conflict_count`
/// over every unordered pair of its classes.
pub open spec fn conflict_count(s: Seq<ClassSchedule>) -> nat
    decreases s.len(),
{
    if s.len() == 0 {
        0nat
    } else {
        conflicts_with(s[0], s.drop_first()) + conflict_count(s.drop_first())
    }
}

/// The reports of `x` against every member of `s`, in order of `s`.
pub open spec fn conflicts_with_list(x: ClassSchedule, s: Seq<ClassSchedule>) -> Seq<Conflict>
    decreases s.len(),
{
    if s.len() == 0 {
        Seq::empty()
    } else {
        pair_conflict_list(x, s[0]) + conflicts_with_list(x, s.drop_first())
    }
}

/// Every report of a candidate, in scan order: for each position, its clashes
/// against all later positions.
pub open spec fn conflict_list(s: Seq<ClassSchedule>) -> Seq<Conflict>
    decreases s.len(),
{
    if s.len() == 0 {
        Seq::empty()
    } else {
        conflicts_with_list(s[0], s.drop_first()) + conflict_list(s.drop_first())
    }
}

/// One class clashes with a set of others at most twice per member.
proof fn lemma_conflicts_with_bound(x: ClassSchedule, s: Seq<ClassSchedule>)
    ensures
        conflicts_with(x, s) <= 2 * s.len(),
    decreases s.len(),
{
    if s.len() > 0 {
        lemma_conflicts_with_bound(x, s.drop_first());
    }
}

/// The total conflict count never exceeds the squared candidate length.
pub proof fn lemma_conflict_count_bound(s: Seq<ClassSchedule>)
    ensures
        conflict_count(s) <= s.len() * s.len(),
    decreases s.len(),
{
    if s.len() > 0 {
        lemma_conflicts_with_bound(s[0], s.drop_first());
        lemma_conflict_count_bound(s.drop_first());
        assert(2 * (s.len() - 1) + (s.len() - 1) * (s.len() - 1) <= s.len() * s.len())
            by (nonlinear_arith);
    }
}

/// The report list of one class against a set has one entry per counted clash.
proof fn lemma_conflicts_with_list_len(x: ClassSchedule, s: Seq<ClassSchedule>)
    ensures
        conflicts_with_list(x, s).len() == conflicts_with(x, s),
    decreases s.len(),
{
    if s.len() > 0 {
        lemma_conflicts_with_list_len(x, s.drop_first());
    }
}

/// The full report list has exactly one entry per counted conflict.
pub proof fn lemma_conflict_list_len(s: Seq<ClassSchedule>)
    ensures
        conflict_list(s).len() == conflict_count(s),
    decreases s.len(),
{
    if s.len() > 0 {
        lemma_conflicts_with_list_len(s[0], s.drop_first());
        lemma_conflict_list_len(s.drop_first());
    }
}

/// A pair of classes contributes the same count in either order.
proof fn lemma_pair_conflict_count_symmetric(a: ClassSchedule, b: ClassSchedule)
    ensures
        pair_conflict_count(a, b) == pair_conflict_count(b, a),
{
}

/// Taking one class out of a set removes exactly that pair's contribution to
/// `conflicts_with`.
proof fn lemma_conflicts_with_remove(x: ClassSchedule, s: Seq<ClassSchedule>, i: int)
    requires
        0 <= i < s.len(),
    ensures
        conflicts_with(x, s.remove(i)) + pair_conflict_count(x, s[i]) == conflicts_with(x, s),
    decreases i,
{
    if i == 0 {
        assert(s.remove(0) =~= s.drop_first());
    } else {
        assert(s.remove(i).drop_first() =~= s.drop_first().remove(i - 1));
        assert(s.remove(i)[0] == s[0]);
        lemma_conflicts_with_remove(x, s.drop_first(), i - 1);
    }
}

/// `conflicts_with` sees only which classes are present, not their order.
proof fn lemma_conflicts_with_permutation(
    x: ClassSchedule,
    s: Seq<ClassSchedule>,
    t: Seq<ClassSchedule>,
)
    requires
        s.to_multiset() == t.to_multiset(),
    ensures
        conflicts_with(x, s) == conflicts_with(x, t),
    decreases s.len(),
{
    broadcast use vstd::seq_lib::group_to_multiset_ensures;

    if s.len() == 0 {
        assert(t.to_multiset().len() == 0);
        assert(t.len() == 0);
    } else {
        let a = s[0];
        assert(s.contains(a));
        assert(s.to_multiset().count(a) > 0);
        assert(t.to_multiset().count(a) > 0);
        assert(t.contains(a));
        let j = choose|j: int| 0 <= j < t.len() && t[j] == a;
        lemma_conflicts_with_remove(x, t, j);
        assert(s.drop_first() =~= s.remove(0));
        assert(s.remove(0).to_multiset() == s.to_multiset().remove(a));
        assert(t.remove(j).to_multiset() == t.to_multiset().remove(a));
        lemma_conflicts_with_permutation(x, s.drop_first(), t.remove(j));
    }
}

/// Taking one class out of a candidate removes exactly its clashes against
/// the rest.
proof fn lemma_conflict_count_remove(s: Seq<ClassSchedule>, i: int)
    requires
        0 <= i < s.len(),
    ensures
        conflict_count(s.remove(i)) + conflicts_with(s[i], s.remove(i)) == conflict_count(s),
    decreases i,
{
    if i == 0 {
        assert(s.remove(0) =~= s.drop_first());
    } else {
        let rest = s.drop_first();
        assert(s.remove(i).drop_first() =~= rest.remove(i - 1));
        assert(s.remove(i)[0] == s[0]);
        lemma_conflict_count_remove(rest, i - 1);
        lemma_conflicts_with_remove(s[0], rest, i - 1);
        lemma_pair_conflict_count_symmetric(s[i], s[0]);
        assert(conflicts_with(s[i], s.remove(i)) == pair_conflict_count(s[i], s[0])
            + conflicts_with(rest[i - 1], rest.remove(i - 1)));
    }
}

/// Permuting a candidate's assignment sequence does not change its total
/// conflict count: any two candidates holding the same classes in any order
/// (equal as multisets) have equal conflict counts.
pub proof fn lemma_conflict_count_permutation(s: Seq<ClassSchedule>, t: Seq<ClassSchedule>)
    requires
        s.to_multiset() == t.to_multiset(),
    ensures
        conflict_count(s) == conflict_count(t),
    decreases s.len(),
{
    broadcast use vstd::seq_lib::group_to_multiset_ensures;

    if s.len() == 0 {
        assert(t.to_multiset().len() == 0);
        assert(t.len() == 0);
    } else {
        let a = s[0];
        assert(s.contains(a));
        assert(s.to_multiset().count(a) > 0);
        assert(t.to_multiset().count(a) > 0);
        assert(t.contains(a));
        let j = choose|j: int| 0 <= j < t.len() && t[j] == a;
        lemma_conflict_count_remove(t, j);
        assert(s.drop_first() =~= s.remove(0));
        assert(s.remove(0).to_multiset() == s.to_multiset().remove(a));
        assert(t.remove(j).to_multiset() == t.to_multiset().remove(a));
        lemma_conflict_count_permutation(s.drop_first(), t.remove(j));
        lemma_conflicts_with_permutation(a, s.drop_first(), t.remove(j));
    }
}

/// Enumerates every pairwise clash of the candidate. The count and the report
/// list are functions of the candidate alone, so running the detector twice
/// on the same candidate yields identical results.
pub fn detect(schedule: &Vec<ClassSchedule>) -> (r: (u64, Vec<Conflict>))
    requires
        schedule@.len() <= u32::MAX as int,
    ensures
        r.0 == conflict_count(schedule@),
        r.1@ == conflict_list(schedule@),
        r.1@.len() == r.0,
{
    let ghost s = schedule@;
    let ghost total = conflict_count(s);
    proof {
        lemma_conflict_list_len(s);
        lemma_conflict_count_bound(s);
        assert(s.len() * s.len() <= (u32::MAX as int) * (u32::MAX as int)) by (nonlinear_arith)
            requires
                0 <= s.len() <= u32::MAX as int,
        ;
    }
    let n = schedule.len();
    let mut count: u64 = 0;
    let mut found: Vec<Conflict> = Vec::new();
    let mut i: usize = 0;
    proof {
        assert(s.skip(0) =~= s);
        assert(found@ + conflict_list(s) =~= conflict_list(s));
    }
    while i < n
        invariant
            n == s.len(),
            s == schedule@,
            s.len() <= u32::MAX as int,
            total == conflict_count(s),
            total <= (u32::MAX as int) * (u32::MAX as int),
            0 <= i <= n,
            count + conflict_count(s.skip(i as int)) == total,
            found@ + conflict_list(s.skip(i as int)) == conflict_list(s),
        decreases n - i,
    {
        proof {
            assert(s.skip(i as int).drop_first() =~= s.skip(i as int + 1));
            assert(s.skip(i as int)[0] == s[i as int]);
        }
        let mut j: usize = i + 1;
        while j < n
            invariant
                n == s.len(),
                s == schedule@,
                s.len() <= u32::MAX as int,
                total == conflict_count(s),
                total <= (u32::MAX as int) * (u32::MAX as int),
                0 <= i < n,
                i + 1 <= j <= n,
                count + conflicts_with(s[i as int], s.skip(j as int)) + conflict_count(
                    s.skip(i as int + 1),
                ) == total,
                found@ + conflicts_with_list(s[i as int], s.skip(j as int)) + conflict_list(
                    s.skip(i as int + 1),
                ) == conflict_list(s),
            decreases n - j,
        {
            proof {
                assert(s.skip(j as int).drop_first() =~= s.skip(j as int + 1));
                assert(s.skip(j as int)[0] == s[j as int]);
            }
            let class1 = &schedule[i];
            let class2 = &schedule[j];
            let overlapping = classes_overlap(class1, class2);
            let clash_start = if class1.start_minute >= class2.start_minute {
                class1.start_minute
            } else {
                class2.start_minute
            };
            let clash_end = if class1.end_minute <= class2.end_minute {
                class1.end_minute
            } else {
                class2.end_minute
            };
            let ghost found_before = found@;
            if class1.instructor == class2.instructor && overlapping {
                count = count + 1;
                found.push(
                    Conflict {
                        kind: ConflictKind::Instructor,
                        resource: class1.instructor.clone(),
                        first_course: class1.course.clone(),
                        second_course: class2.course.clone(),
                        clash_start,
                        clash_end,
                    },
                );
            }
            if class1.room == class2.room && overlapping {
                count = count + 1;
                found.push(
                    Conflict {
                        kind: ConflictKind::Room,
                        resource: class1.room.clone(),
                        first_course: class1.course.clone(),
                        second_course: class2.course.clone(),
                        clash_start,
                        clash_end,
                    },
                );
            }
            proof {
                assert(found@ =~= found_before + pair_conflict_list(s[i as int], s[j as int]));
                assert(found@ + conflicts_with_list(s[i as int], s.skip(j as int + 1))
                    + conflict_list(s.skip(i as int + 1)) =~= found_before + conflicts_with_list(
                    s[i as int],
                    s.skip(j as int),
                ) + conflict_list(s.skip(i as int + 1)));
            }
            j = j + 1;
        }
        proof {
            assert(s.skip(n as int) =~= Seq::<ClassSchedule>::empty());
        }
        i = i + 1;
    }
    proof {
        assert(s.skip(n as int) =~= Seq::<ClassSchedule>::empty());
        assert(found@ =~= found@ + conflict_list(s.skip(n as int)));
    }
    (count, found)
}

/// The total conflict count of a candidate, without the report list.
pub fn calculate_conflicts(schedule: &Vec<ClassSchedule>) -> (count: u64)
    requires
        schedule@.len() <= u32::MAX as int,
    ensures
        count == conflict_count(schedule@),
{
    let r = detect(schedule);
    r.0
}

} // verus!
