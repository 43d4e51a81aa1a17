//! Choosing the file to resume: the first in path order, inside the scanned
//! directory, that was never started or is not yet watched to the end.

use vstd::prelude::*;
use crate::text::{
    lemma_path_lt_asymmetric, lemma_path_lt_irreflexive, lemma_path_lt_total, path_lt,
    starts_with,
};
use crate::time::{needs_watching, unfinished, Time};
use crate::video_times::{keyed_at, lemma_table_at, VideoTimes};

verus! {

/// Where a selection stands. The numbers are positions in path order.
#[derive(Clone, Copy, Debug, PartialEq, Eq, Structural)]
pub enum Selection {
    /// The file at this position has recorded progress: its running time is
    /// wanted before the selection can go on.
    Scanning(usize),
    /// The file at this position is the one to resume.
    Found(usize),
    /// No file is left to consider.
    Exhausted,
}

/// What a scan that starts at position `from` must come to: the first record
/// at or after `from` whose path lies under `scope` is found at once if its
/// time is unknown and is waiting for its running time otherwise; with no
/// such record the scan is exhausted.
pub open spec fn scan_outcome(
    s: Seq<(Seq<char>, Time)>,
    scope: Seq<char>,
    from: int,
    r: Selection,
) -> bool {
    match r {
        Selection::Exhausted => forall|k: int|
            from <= k < s.len() ==> !scope.is_prefix_of(#[trigger] s[k].0),
        Selection::Found(i) => {
            &&& from <= i < s.len()
            &&& scope.is_prefix_of(s[i as int].0)
            &&& s[i as int].1 == Time::Unknown
            &&& forall|k: int| from <= k < i ==> !scope.is_prefix_of(#[trigger] s[k].0)
        },
        Selection::Scanning(i) => {
            &&& from <= i < s.len()
            &&& scope.is_prefix_of(s[i as int].0)
            &&& s[i as int].1 != Time::Unknown
            &&& forall|k: int| from <= k < i ==> !scope.is_prefix_of(#[trigger] s[k].0)
        },
    }
}

/// Scans the records from position `from` on for the next file under
/// `dir_path`.
pub fn scan_from(video_times: &VideoTimes, dir_path: &str, from: usize) -> (r: Selection)
    ensures
        scan_outcome(video_times.pairs(), dir_path@, from as int, r),
{
    let n: usize = video_times.len();
    let mut i: usize = from;
    while i < n
        invariant
            from <= i,
            n == video_times.pairs().len(),
            forall|k: int|
                from <= k < i ==> !dir_path@.is_prefix_of(#[trigger] video_times.pairs()[k].0),
        decreases n - i,
    {
        if starts_with(video_times.path_at(i).as_str(), dir_path) {
            match video_times.time_at(i) {
                Time::Unknown => {
                    return Selection::Found(i);
                },
                Time::Seconds(_) => {
                    return Selection::Scanning(i);
                },
            }
        }
        i += 1;
    }
    Selection::Exhausted
}

/// Goes on with a selection that waited for the running time of the file at
/// position `at`: that file is found if it is unfinished at this running
/// time, otherwise the scan goes on behind it.
pub fn observe(video_times: &VideoTimes, dir_path: &str, at: usize, duration: Time) -> (r:
    Selection)
    ensures
        at >= video_times.pairs().len() ==> r == Selection::Exhausted,
        at < video_times.pairs().len() && unfinished(video_times.pairs()[at as int].1, duration)
            ==> r == Selection::Found(at),
        at < video_times.pairs().len() && !unfinished(video_times.pairs()[at as int].1, duration)
            ==> scan_outcome(video_times.pairs(), dir_path@, at + 1, r),
{
    if at >= video_times.len() {
        Selection::Exhausted
    } else if needs_watching(video_times.time_at(at), duration) {
        Selection::Found(at)
    } else {
        scan_from(video_times, dir_path, at + 1)
    }
}

/// The running time that a table of running times gives for a path.
pub open spec fn duration_in(durations: Map<Seq<char>, Time>, path: Seq<char>) -> Time {
    if durations.contains_key(path) {
        durations[path]
    } else {
        Time::Unknown
    }
}

/// A path that may be resumed: it has a record, lies under `scope`, and is
/// unfinished at its running time.
pub open spec fn is_candidate(
    times: Map<Seq<char>, Time>,
    scope: Seq<char>,
    durations: Map<Seq<char>, Time>,
    path: Seq<char>,
) -> bool {
    &&& times.contains_key(path)
    &&& scope.is_prefix_of(path)
    &&& unfinished(times[path], duration_in(durations, path))
}

/// `choice` is the selection's answer: the candidate that no other candidate
/// comes before, or nothing where there is no candidate.
pub open spec fn is_next(
    times: Map<Seq<char>, Time>,
    scope: Seq<char>,
    durations: Map<Seq<char>, Time>,
    choice: Option<Seq<char>>,
) -> bool {
    match choice {
        Some(p) => {
            &&& is_candidate(times, scope, durations, p)
            &&& forall|q: Seq<char>|
                #[trigger] is_candidate(times, scope, durations, q) ==> !path_lt(q, p)
        },
        None => forall|q: Seq<char>| !#[trigger] is_candidate(times, scope, durations, q),
    }
}

/// The selection has one answer only.
pub proof fn lemma_next_is_unique(
    times: Map<Seq<char>, Time>,
    scope: Seq<char>,
    durations: Map<Seq<char>, Time>,
    a: Option<Seq<char>>,
    b: Option<Seq<char>>,
)
    requires
        is_next(times, scope, durations, a),
        is_next(times, scope, durations, b),
    ensures
        a == b,
{
    match (a, b) {
        (Some(p), Some(q)) => {
            lemma_path_lt_total(p, q);
        },
        _ => {},
    }
}

/// Picks the file to resume, given the running times of the files. A path
/// that `durations` does not hold has an unknown running time.
pub fn determine_next_video_file(
    video_times: &VideoTimes,
    dir_path: &str,
    durations: &VideoTimes,
) -> (r: Option<String>)
    requires
        video_times.wf(),
        durations.wf(),
    ensures
        is_next(
            video_times@,
            dir_path@,
            durations@,
            match r {
                Some(p) => Some(p@),
                None => None,
            },
        ),
{
    let ghost s = video_times.pairs();
    let ghost times = video_times@;
    let ghost scope = dir_path@;
    let ghost table = durations@;
    let n: usize = video_times.len();
    let mut from: usize = 0;
    let mut state = scan_from(video_times, dir_path, 0);
    loop
        invariant
            s == video_times.pairs(),
            times == video_times@,
            scope == dir_path@,
            table == durations@,
            video_times.wf(),
            durations.wf(),
            n == s.len(),
            from <= n,
            forall|k: int| 0 <= k < from ==> !is_candidate(times, scope, table, #[trigger] s[k].0),
            scan_outcome(s, scope, from as int, state),
        decreases n - from,
    {
        match state {
            Selection::Exhausted => {
                proof {
                    assert forall|q: Seq<char>| !#[trigger] is_candidate(
                        times,
                        scope,
                        table,
                        q,
                    ) by {
                        if times.contains_key(q) {
                            let k = choose|k: int| keyed_at(s, q, k);
                            assert(s[k].0 == q);
                        }
                    }
                }
                return None;
            },
            Selection::Found(i) => {
                proof {
                    lemma_first_candidate(video_times, scope, table, from as int, i as int);
                }
                return Some(video_times.path_at(i).clone());
            },
            Selection::Scanning(i) => {
                let path = video_times.path_at(i);
                let duration = match durations.get(path.as_str()) {
                    Some(d) => d,
                    None => Time::Unknown,
                };
                proof {
                    lemma_table_at(s, i as int);
                }
                let next = observe(video_times, dir_path, i, duration);
                match next {
                    Selection::Found(j) => {
                        if j == i {
                            proof {
                                lemma_first_candidate(
                                    video_times,
                                    scope,
                                    table,
                                    from as int,
                                    i as int,
                                );
                            }
                            return Some(path.clone());
                        }
                    },
                    _ => {},
                }
                proof {
                    assert forall|k: int| 0 <= k < i + 1 implies !is_candidate(
                        times,
                        scope,
                        table,
                        #[trigger] s[k].0,
                    ) by {
                        if k >= from {
                            lemma_table_at(s, k);
                        }
                    }
                }
                from = i + 1;
                state = next;
            },
        }
    }
}

/// The record at position `i` is the answer when it is a candidate, none
/// before `from` is one, and none from `from` up to `i` lies under the scope.
proof fn lemma_first_candidate(
    video_times: &VideoTimes,
    scope: Seq<char>,
    table: Map<Seq<char>, Time>,
    from: int,
    i: int,
)
    requires
        video_times.wf(),
        0 <= from <= i < video_times.pairs().len(),
        scope.is_prefix_of(video_times.pairs()[i].0),
        unfinished(video_times.pairs()[i].1, duration_in(table, video_times.pairs()[i].0)),
        forall|k: int|
            0 <= k < from ==> !is_candidate(
                video_times@,
                scope,
                table,
                #[trigger] video_times.pairs()[k].0,
            ),
        forall|k: int| from <= k < i ==> !scope.is_prefix_of(#[trigger] video_times.pairs()[k].0),
    ensures
        is_next(video_times@, scope, table, Some(video_times.pairs()[i].0)),
{
    let s = video_times.pairs();
    let times = video_times@;
    let p = s[i].0;
    lemma_table_at(s, i);
    lemma_path_lt_irreflexive(p);
    assert forall|q: Seq<char>| #[trigger] is_candidate(times, scope, table, q) implies !path_lt(
        q,
        p,
    ) by {
        let k = choose|k: int| keyed_at(s, q, k);
        assert(s[k].0 == q);
        if k > i {
            assert(path_lt(s[i].0, s[k].0));
            lemma_path_lt_asymmetric(p, q);
        }
    }
}

} // verus!
