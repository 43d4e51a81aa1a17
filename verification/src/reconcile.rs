//! Bringing the recorded progress in step with the files of a directory and
//! with the positions that a player remembers.

use vstd::prelude::*;
use crate::text::{has_video_extension, is_video_path, path_lt};
use crate::time::Time;
use crate::video_times::{keyed_at, VideoTimes};

verus! {

/// A position that a player remembers for a file.
#[derive(Clone, Debug)]
pub struct HistoryEntry {
    pub path: String,
    pub position: Time,
}

/// The paths of a listing as character sequences.
pub open spec fn path_views(listing: Seq<String>) -> Seq<Seq<char>> {
    Seq::new(listing.len(), |i: int| listing[i]@)
}

/// The entries of a history as pairs of path and position.
pub open spec fn entry_views(history: Seq<HistoryEntry>) -> Seq<(Seq<char>, Time)> {
    Seq::new(history.len(), |i: int| (history[i].path@, history[i].position))
}

/// The mapping after the files of a listing were taken in: what was recorded
/// stays as it is, and each listed path without a record gets `Unknown`.
pub open spec fn with_discovered(
    times: Map<Seq<char>, Time>,
    listing: Seq<Seq<char>>,
) -> Map<Seq<char>, Time> {
    Map::new(
        |p: Seq<char>| times.contains_key(p) || listing.contains(p),
        |p: Seq<char>|
            if times.contains_key(p) {
                times[p]
            } else {
                Time::Unknown
            },
    )
}

/// The time for `path` after a history was merged into `current`: entry by
/// entry, a position for this path that lies above the time so far takes its
/// place. This is the greatest of `current` and the positions for `path`.
pub open spec fn lifted(current: Time, history: Seq<(Seq<char>, Time)>, path: Seq<char>) -> Time
    decreases history.len(),
{
    if history.len() == 0 {
        current
    } else {
        let before = lifted(current, history.drop_last(), path);
        let entry = history.last();
        if entry.0 == path && entry.1.rank() > before.rank() {
            entry.1
        } else {
            before
        }
    }
}

/// The mapping after a history was merged in: the same paths, each with its
/// time lifted by the history's positions for it.
pub open spec fn with_history(
    times: Map<Seq<char>, Time>,
    history: Seq<(Seq<char>, Time)>,
) -> Map<Seq<char>, Time> {
    Map::new(|p: Seq<char>| times.contains_key(p), |p: Seq<char>| lifted(times[p], history, p))
}

/// The mapping after one run: first the listing is taken in, then the
/// history is merged.
pub open spec fn reconciled(
    times: Map<Seq<char>, Time>,
    listing: Seq<Seq<char>>,
    history: Seq<(Seq<char>, Time)>,
) -> Map<Seq<char>, Time> {
    with_history(with_discovered(times, listing), history)
}

/// Paths grow strictly from each to the next.
pub open spec fn ascending_paths(s: Seq<Seq<char>>) -> bool {
    forall|i: int, j: int| 0 <= i < j < s.len() ==> path_lt(#[trigger] s[i], #[trigger] s[j])
}

/// The video files among the paths of a directory's entries.
pub open spec fn video_set(paths: Seq<Seq<char>>) -> Set<Seq<char>> {
    Set::new(|p: Seq<char>| paths.contains(p) && is_video_path(p))
}

/// Makes the listing of a directory out of the paths of its entries: the
/// video files among them, each once, in lexicographic order.
pub fn video_files(entries: &Vec<String>) -> (r: Vec<String>)
    ensures
        ascending_paths(path_views(r@)),
        path_views(r@).to_set() == video_set(path_views(entries@)),
{
    let ghost paths = path_views(entries@);
    let mut seen = VideoTimes::new();
    let mut i: usize = 0;
    assert(seen@.dom() =~= video_set(paths.take(0)));
    while i < entries.len()
        invariant
            i <= entries.len(),
            paths == path_views(entries@),
            seen.wf(),
            seen@.dom() == video_set(paths.take(i as int)),
        decreases entries.len() - i,
    {
        let ghost earlier = seen@;
        if has_video_extension(entries[i].as_str()) {
            seen.discover(entries[i].clone());
        }
        proof {
            let before = paths.take(i as int);
            let now = paths.take(i as int + 1);
            assert forall|p: Seq<char>| now.contains(p) <==> (before.contains(p) || p
                == paths[i as int]) by {
                if before.contains(p) {
                    let k = choose|k: int| 0 <= k < before.len() && before[k] == p;
                    assert(now[k] == p);
                }
                if p == paths[i as int] {
                    assert(now[i as int] == p);
                }
                if now.contains(p) {
                    let k = choose|k: int| 0 <= k < now.len() && now[k] == p;
                    if k < i {
                        assert(before[k] == p);
                    }
                }
            }
            if is_video_path(paths[i as int]) {
                assert(seen@.dom() =~= earlier.dom().insert(paths[i as int]));
            }
            assert(seen@.dom() =~= video_set(now));
        }
        i += 1;
    }
    assert(paths.take(i as int) =~= paths);
    let n: usize = seen.len();
    let mut out: Vec<String> = Vec::new();
    let mut k: usize = 0;
    while k < n
        invariant
            k <= n,
            n == seen.pairs().len(),
            out@.len() == k,
            forall|j: int| 0 <= j < k ==> (#[trigger] out@[j])@ == seen.pairs()[j].0,
        decreases n - k,
    {
        out.push(seen.path_at(k).clone());
        k += 1;
    }
    proof {
        let listed = path_views(out@);
        let pairs = seen.pairs();
        assert forall|a: int, b: int| 0 <= a < b < listed.len() implies path_lt(
            #[trigger] listed[a],
            #[trigger] listed[b],
        ) by {
            assert(path_lt(pairs[a].0, pairs[b].0));
        }
        assert forall|p: Seq<char>| listed.to_set().contains(p) <==> seen@.dom().contains(p) by {
            if listed.contains(p) {
                let j = choose|j: int| 0 <= j < listed.len() && listed[j] == p;
                assert(keyed_at(pairs, p, j));
            }
            if seen@.contains_key(p) {
                let j = choose|j: int| keyed_at(pairs, p, j);
                assert(listed[j] == p);
            }
        }
        assert(listed.to_set() =~= seen@.dom());
    }
    out
}

/// Takes the files of a directory listing into the mapping. The listing may
/// come in any order and may name a file twice.
pub fn fill_video_times_from_dir(video_times: &mut VideoTimes, listing: &Vec<String>)
    requires
        old(video_times).wf(),
    ensures
        final(video_times).wf(),
        final(video_times)@ == with_discovered(old(video_times)@, path_views(listing@)),
{
    let ghost start = video_times@;
    let ghost paths = path_views(listing@);
    let mut i: usize = 0;
    assert(video_times@ =~= with_discovered(start, paths.take(0)));
    while i < listing.len()
        invariant
            i <= listing.len(),
            paths == path_views(listing@),
            video_times.wf(),
            video_times@ == with_discovered(start, paths.take(i as int)),
        decreases listing.len() - i,
    {
        video_times.discover(listing[i].clone());
        proof {
            let seen = paths.take(i as int);
            let now = paths.take(i as int + 1);
            assert(now =~= seen.push(paths[i as int]));
            assert forall|p: Seq<char>| now.contains(p) <==> (seen.contains(p) || p
                == paths[i as int]) by {
                if seen.contains(p) {
                    let k = choose|k: int| 0 <= k < seen.len() && seen[k] == p;
                    assert(now[k] == p);
                }
                if p == paths[i as int] {
                    assert(now[i as int] == p);
                }
            }
            assert(video_times@ =~= with_discovered(start, now));
        }
        i += 1;
    }
    assert(paths.take(i as int) =~= paths);
}

/// Merges a player's history into the mapping. A position replaces the
/// recorded time only where it lies above it, so no time ever goes down;
/// entries for paths without a record are passed over.
pub fn merge_history(video_times: &mut VideoTimes, history: &Vec<HistoryEntry>)
    requires
        old(video_times).wf(),
    ensures
        final(video_times).wf(),
        final(video_times)@ == with_history(old(video_times)@, entry_views(history@)),
{
    let ghost start = video_times@;
    let ghost entries = entry_views(history@);
    let mut i: usize = 0;
    assert(video_times@ =~= with_history(start, entries.take(0)));
    while i < history.len()
        invariant
            i <= history.len(),
            entries == entry_views(history@),
            video_times.wf(),
            video_times@ == with_history(start, entries.take(i as int)),
        decreases history.len() - i,
    {
        video_times.raise(history[i].path.as_str(), history[i].position);
        proof {
            let now = entries.take(i as int + 1);
            assert(now.drop_last() =~= entries.take(i as int));
            assert(now.last() == entries[i as int]);
            assert(video_times@ =~= with_history(start, now));
        }
        i += 1;
    }
    assert(entries.take(i as int) =~= entries);
}

/// One run of reconciliation: the prior mapping, with the listed files
/// taken in and the history merged.
pub fn reconcile(prior: VideoTimes, dir_listing: &Vec<String>, history: &Vec<HistoryEntry>) -> (r:
    VideoTimes)
    requires
        prior.wf(),
    ensures
        r.wf(),
        r@ == reconciled(prior@, path_views(dir_listing@), entry_views(history@)),
{
    let mut video_times = prior;
    fill_video_times_from_dir(&mut video_times, dir_listing);
    merge_history(&mut video_times, history);
    video_times
}

/// Merging never lowers a time.
pub proof fn lemma_lifted_not_below(current: Time, history: Seq<(Seq<char>, Time)>, path: Seq<char>)
    ensures
        lifted(current, history, path).rank() >= current.rank(),
    decreases history.len(),
{
    if history.len() > 0 {
        lemma_lifted_not_below(current, history.drop_last(), path);
    }
}

/// The merged time lies at or above every position that the history holds
/// for the path.
pub proof fn lemma_lifted_covers(
    current: Time,
    history: Seq<(Seq<char>, Time)>,
    path: Seq<char>,
    i: int,
)
    requires
        0 <= i < history.len(),
        history[i].0 == path,
    ensures
        lifted(current, history, path).rank() >= history[i].1.rank(),
    decreases history.len(),
{
    if i < history.len() - 1 {
        lemma_lifted_covers(current, history.drop_last(), path, i);
    }
}

/// The merged time is the time before or one of the history's positions for
/// the path.
pub proof fn lemma_lifted_is_one_of(
    current: Time,
    history: Seq<(Seq<char>, Time)>,
    path: Seq<char>,
)
    ensures
        lifted(current, history, path) == current || exists|i: int|
            0 <= i < history.len() && history[i].0 == path && history[i].1 == lifted(
                current,
                history,
                path,
            ),
    decreases history.len(),
{
    if history.len() > 0 {
        let rest = history.drop_last();
        lemma_lifted_is_one_of(current, rest, path);
        let r = lifted(current, history, path);
        if r != current {
            if r == history.last().1 && history.last().0 == path {
                assert(history[history.len() - 1].1 == r);
            } else {
                let k = choose|k: int|
                    0 <= k < rest.len() && rest[k].0 == path && rest[k].1 == lifted(
                        current,
                        rest,
                        path,
                    );
                assert(history[k] == rest[k]);
            }
        }
    }
}

/// A time that already lies at or above every position for the path is left
/// as it is.
pub proof fn lemma_lifted_settled(current: Time, history: Seq<(Seq<char>, Time)>, path: Seq<char>)
    requires
        forall|i: int|
            0 <= i < history.len() && history[i].0 == path ==> current.rank()
                >= #[trigger] history[i].1.rank(),
    ensures
        lifted(current, history, path) == current,
    decreases history.len(),
{
    if history.len() > 0 {
        let rest = history.drop_last();
        assert forall|i: int| 0 <= i < rest.len() && rest[i].0 == path implies current.rank()
            >= #[trigger] rest[i].1.rank() by {
            assert(rest[i] == history[i]);
        }
        lemma_lifted_settled(current, rest, path);
        assert(history.last() == history[history.len() - 1]);
    }
}

/// Without a history, reconciliation removes no record and changes none, and
/// what it adds is exactly the listed paths that had no record, each at
/// `Unknown`.
pub proof fn lemma_reconciled_without_history(
    times: Map<Seq<char>, Time>,
    listing: Seq<Seq<char>>,
)
    ensures
        ({
            let r = reconciled(times, listing, Seq::<(Seq<char>, Time)>::empty());
            &&& forall|p: Seq<char>|
                times.contains_key(p) ==> r.contains_key(p) && r[p] == times[p]
            &&& forall|p: Seq<char>|
                r.contains_key(p) && !times.contains_key(p) <==> listing.contains(p)
                    && !times.contains_key(p)
            &&& forall|p: Seq<char>|
                r.contains_key(p) && !times.contains_key(p) ==> r[p] == Time::Unknown
        }),
{
}

/// Reconciliation never lowers a recorded time, and keeps every record.
pub proof fn lemma_reconciled_monotonic(
    times: Map<Seq<char>, Time>,
    listing: Seq<Seq<char>>,
    history: Seq<(Seq<char>, Time)>,
    path: Seq<char>,
)
    requires
        times.contains_key(path),
    ensures
        reconciled(times, listing, history).contains_key(path),
        reconciled(times, listing, history)[path].rank() >= times[path].rank(),
{
    lemma_lifted_not_below(times[path], history, path);
}

/// A second run on the same listing and the same history changes nothing.
pub proof fn lemma_reconciled_idempotent(
    times: Map<Seq<char>, Time>,
    listing: Seq<Seq<char>>,
    history: Seq<(Seq<char>, Time)>,
)
    ensures
        reconciled(reconciled(times, listing, history), listing, history) == reconciled(
            times,
            listing,
            history,
        ),
{
    let once = reconciled(times, listing, history);
    let twice = reconciled(once, listing, history);
    assert(with_discovered(once, listing) =~= once);
    assert forall|p: Seq<char>| once.contains_key(p) implies twice[p] == once[p] by {
        let base = with_discovered(times, listing)[p];
        assert forall|i: int| 0 <= i < history.len() && history[i].0 == p implies once[p].rank()
            >= #[trigger] history[i].1.rank() by {
            lemma_lifted_covers(base, history, p, i);
        }
        lemma_lifted_settled(once[p], history, p);
    }
    assert(twice =~= once);
}

} // verus!
