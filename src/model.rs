//! A report's shape: classes, each with the titles seen under it and their
//! durations; and a timeline as labelled segments.

use vstd::prelude::*;

verus! {

/// A drawn timeline: its segments and how many milliseconds one character spans.
pub struct Timeline {
    pub sections: Vec<Segment>,
    pub scale: u64,
}

/// A stretch `[start, end)` of a timeline under one title.
pub struct Segment {
    pub start: u64,
    pub end: u64,
    pub title: String,
}

/// A report: its classes.
pub struct Report {
    pub classes: Vec<Class>,
}

/// A class of a report: the titles seen under it.
pub struct Class {
    pub titles: Vec<Title>,
}

/// A title and the time it held focus, in milliseconds.
pub struct Title {
    pub title: String,
    pub duration: u64,
}

/// The summed duration of the first `n` titles.
pub open spec fn titles_total(titles: Seq<Title>, n: int) -> int
    decreases n,
{
    if n <= 0 {
        0
    } else {
        titles_total(titles, n - 1) + titles[n - 1].duration
    }
}

/// The summed duration of a class's titles.
pub open spec fn class_total(c: Class) -> int {
    titles_total(c.titles@, c.titles@.len() as int)
}

/// The summed duration of the first `n` classes.
pub open spec fn classes_total(classes: Seq<Class>, n: int) -> int
    decreases n,
{
    if n <= 0 {
        0
    } else {
        classes_total(classes, n - 1) + class_total(classes[n - 1])
    }
}

proof fn lemma_titles_total_grows(titles: Seq<Title>, a: int, b: int)
    requires
        0 <= a <= b <= titles.len(),
    ensures
        0 <= titles_total(titles, a) <= titles_total(titles, b),
    decreases b,
{
    if a < b {
        lemma_titles_total_grows(titles, a, b - 1);
    } else if a > 0 {
        lemma_titles_total_grows(titles, a - 1, a - 1);
    }
}

proof fn lemma_classes_total_grows(classes: Seq<Class>, a: int, b: int)
    requires
        0 <= a <= b <= classes.len(),
    ensures
        0 <= classes_total(classes, a) <= classes_total(classes, b),
    decreases b,
{
    if a < b {
        lemma_classes_total_grows(classes, a, b - 1);
        let c = classes[b - 1];
        lemma_titles_total_grows(c.titles@, 0, c.titles@.len() as int);
    } else if a > 0 {
        lemma_classes_total_grows(classes, a - 1, a - 1);
        let c = classes[a - 1];
        lemma_titles_total_grows(c.titles@, 0, c.titles@.len() as int);
    }
}

impl Report {
    /// A report without classes.
    pub fn new() -> (r: Report)
        ensures
            r.classes@.len() == 0,
    {
        Report { classes: Vec::new() }
    }

    /// The summed duration of all titles of all classes.
    pub fn total_duration(&self) -> (r: u64)
        requires
            classes_total(self.classes@, self.classes@.len() as int) <= u64::MAX,
        ensures
            r == classes_total(self.classes@, self.classes@.len() as int),
    {
        let mut sum: u64 = 0;
        let mut i: usize = 0;
        while i < self.classes.len()
            invariant
                i <= self.classes@.len(),
                sum == classes_total(self.classes@, i as int),
                classes_total(self.classes@, self.classes@.len() as int) <= u64::MAX,
            decreases self.classes.len() - i,
        {
            proof {
                lemma_classes_total_grows(self.classes@, i + 1, self.classes@.len() as int);
                let c = self.classes@[i as int];
                lemma_titles_total_grows(c.titles@, 0, c.titles@.len() as int);
            }
            sum = sum + self.classes[i].total();
            i = i + 1;
        }
        sum
    }
}

impl Class {
    /// A class without titles.
    pub fn new() -> (r: Class)
        ensures
            r.titles@.len() == 0,
    {
        Class { titles: Vec::new() }
    }

    /// The summed duration of the class's titles.
    pub fn total(&self) -> (r: u64)
        requires
            class_total(*self) <= u64::MAX,
        ensures
            r == class_total(*self),
    {
        let mut sum: u64 = 0;
        let mut i: usize = 0;
        while i < self.titles.len()
            invariant
                i <= self.titles@.len(),
                sum == titles_total(self.titles@, i as int),
                class_total(*self) <= u64::MAX,
            decreases self.titles.len() - i,
        {
            proof {
                lemma_titles_total_grows(self.titles@, i + 1, self.titles@.len() as int);
            }
            sum = sum + self.titles[i].duration;
            i = i + 1;
        }
        sum
    }
}

} // verus!
