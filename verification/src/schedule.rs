//! The candidate representation: one scheduled class per course.

use vstd::prelude::*;

verus! {

broadcast use vstd::string::group_string_axioms;

/// One scheduled unit: a course taught by an instructor in a room over the
/// half-open interval `[start_minute, end_minute)`, measured in minutes.
#[derive(Clone, Debug, PartialEq, Eq)]
pub struct ClassSchedule {
    pub course: String,
    pub instructor: String,
    pub room: String,
    pub start_minute: u32,
    pub end_minute: u32,
}

/// Two classes overlap in time when each one starts before the other ends.
/// The intervals are half-open, so touching endpoints do not overlap.
pub open spec fn spec_overlaps(a: ClassSchedule, b: ClassSchedule) -> bool {
    a.start_minute < b.end_minute && b.start_minute < a.end_minute
}

/// Decides whether the two classes' time intervals overlap.
pub fn classes_overlap(class1: &ClassSchedule, class2: &ClassSchedule) -> (r: bool)
    ensures
        r == spec_overlaps(*class1, *class2),
{
    class1.start_minute < class2.end_minute && class2.start_minute < class1.end_minute
}

impl ClassSchedule {
    /// Builds one class from its identifiers, a start minute and a duration.
    pub fn new(
        course: &str,
        instructor: &str,
        room: &str,
        start_minute: u32,
        duration_minutes: u32,
    ) -> (s: Self)
        requires
            start_minute + duration_minutes <= u32::MAX,
        ensures
            s.course@ == course@,
            s.instructor@ == instructor@,
            s.room@ == room@,
            s.start_minute == start_minute,
            s.end_minute == start_minute + duration_minutes,
    {
        Self {
            course: course.to_string(),
            instructor: instructor.to_string(),
            room: room.to_string(),
            start_minute,
            end_minute: start_minute + duration_minutes,
        }
    }

    /// A copy that is equal to `self`, field for field.
    pub fn duplicate(&self) -> (r: Self)
        ensures
            r == *self,
    {
        Self {
            course: self.course.clone(),
            instructor: self.instructor.clone(),
            room: self.room.clone(),
            start_minute: self.start_minute,
            end_minute: self.end_minute,
        }
    }
}

/// A copy of a whole candidate, equal to the original position by position.
pub fn duplicate_candidate(c: &Vec<ClassSchedule>) -> (r: Vec<ClassSchedule>)
    ensures
        r@ == c@,
{
    let mut r: Vec<ClassSchedule> = Vec::new();
    let mut i: usize = 0;
    while i < c.len()
        invariant
            0 <= i <= c@.len(),
            r@ =~= c@.take(i as int),
        decreases c@.len() - i,
    {
        r.push(c[i].duplicate());
        i = i + 1;
    }
    proof {
        assert(r@ =~= c@);
    }
    r
}

} // verus!
