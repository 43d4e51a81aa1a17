//! The mapping from a file's path to a time, kept in path order.

use vstd::prelude::*;
use crate::text::{
    chars_of, lemma_path_lt_asymmetric, lemma_path_lt_irreflexive, lemma_path_lt_transitive,
    path_lt, place_of_chars, Place,
};
use crate::time::Time;

verus! {

/// One file and the time recorded for it.
#[derive(Clone, Debug)]
pub struct Record {
    pub path: String,
    pub time: Time,
}

/// Paths grow strictly from each record to the next, so none occurs twice.
pub open spec fn ascending(s: Seq<(Seq<char>, Time)>) -> bool {
    forall|i: int, j: int| 0 <= i < j < s.len() ==> path_lt(#[trigger] s[i].0, #[trigger] s[j].0)
}

/// The record at position `i` is the one for `path`.
pub open spec fn keyed_at(s: Seq<(Seq<char>, Time)>, path: Seq<char>, i: int) -> bool {
    0 <= i < s.len() && s[i].0 == path
}

/// The mapping that a sequence of records stands for.
pub open spec fn table_of(s: Seq<(Seq<char>, Time)>) -> Map<Seq<char>, Time> {
    Map::new(
        |p: Seq<char>| exists|i: int| keyed_at(s, p, i),
        |p: Seq<char>| s[choose|i: int| keyed_at(s, p, i)].1,
    )
}

/// In an ascending sequence each record's path maps to that record's time.
pub proof fn lemma_table_at(s: Seq<(Seq<char>, Time)>, i: int)
    requires
        ascending(s),
        0 <= i < s.len(),
    ensures
        table_of(s).contains_key(s[i].0),
        table_of(s)[s[i].0] == s[i].1,
{
    let p = s[i].0;
    assert(keyed_at(s, p, i));
    let j = choose|j: int| keyed_at(s, p, j);
    if j != i {
        lemma_path_lt_irreflexive(p);
        if i < j {
            assert(path_lt(s[i].0, s[j].0));
        } else {
            assert(path_lt(s[j].0, s[i].0));
        }
    }
}

/// A new record put where the order wants it adds one key to the mapping.
proof fn lemma_table_insert(s: Seq<(Seq<char>, Time)>, i: int, p: Seq<char>, t: Time)
    requires
        ascending(s),
        0 <= i <= s.len(),
        forall|j: int| 0 <= j < i ==> path_lt(#[trigger] s[j].0, p),
        i < s.len() ==> path_lt(p, s[i].0),
    ensures
        ascending(s.insert(i, (p, t))),
        table_of(s.insert(i, (p, t))) == table_of(s).insert(p, t),
{
    let s2 = s.insert(i, (p, t));
    assert forall|a: int, b: int| 0 <= a < b < s2.len() implies path_lt(
        #[trigger] s2[a].0,
        #[trigger] s2[b].0,
    ) by {
        if b < i {
            assert(path_lt(s[a].0, s[b].0));
        } else if b == i {
            assert(path_lt(s[a].0, p));
        } else if a < i {
            assert(path_lt(s[a].0, s[b - 1].0));
        } else if a == i {
            if b - 1 > i {
                assert(path_lt(s[i].0, s[b - 1].0));
                lemma_path_lt_transitive(p, s[i].0, s[b - 1].0);
            }
        } else {
            assert(path_lt(s[a - 1].0, s[b - 1].0));
        }
    }
    lemma_path_lt_irreflexive(p);
    let m2 = table_of(s2);
    let m = table_of(s).insert(p, t);
    assert forall|q: Seq<char>| m2.contains_key(q) <==> m.contains_key(q) by {
        if m2.contains_key(q) {
            let k = choose|k: int| keyed_at(s2, q, k);
            if k < i {
                assert(keyed_at(s, q, k));
            } else if k > i {
                assert(keyed_at(s, q, k - 1));
            }
        }
        if m.contains_key(q) && q != p {
            let k = choose|k: int| keyed_at(s, q, k);
            if k < i {
                assert(keyed_at(s2, q, k));
            } else {
                assert(keyed_at(s2, q, k + 1));
            }
        }
        if q == p {
            assert(keyed_at(s2, q, i));
        }
    }
    assert forall|q: Seq<char>| m2.contains_key(q) implies m2[q] == m[q] by {
        let k = choose|k: int| keyed_at(s2, q, k);
        lemma_table_at(s2, k);
        if k < i {
            assert(path_lt(s[k].0, p));
            lemma_table_at(s, k);
        } else if k > i {
            if k - 1 > i {
                assert(path_lt(s[i].0, s[k - 1].0));
                lemma_path_lt_transitive(p, s[i].0, s[k - 1].0);
            }
            lemma_table_at(s, k - 1);
        }
    }
    assert(m2 =~= m);
}

/// A record's time replaced in place changes that key's value and no other.
proof fn lemma_table_update(s: Seq<(Seq<char>, Time)>, i: int, t: Time)
    requires
        ascending(s),
        0 <= i < s.len(),
    ensures
        ascending(s.update(i, (s[i].0, t))),
        table_of(s.update(i, (s[i].0, t))) == table_of(s).insert(s[i].0, t),
{
    let p = s[i].0;
    let s2 = s.update(i, (p, t));
    assert forall|a: int, b: int| 0 <= a < b < s2.len() implies path_lt(
        #[trigger] s2[a].0,
        #[trigger] s2[b].0,
    ) by {
        assert(path_lt(s[a].0, s[b].0));
    }
    let m2 = table_of(s2);
    let m = table_of(s).insert(p, t);
    assert forall|q: Seq<char>| m2.contains_key(q) <==> m.contains_key(q) by {
        if m2.contains_key(q) {
            let k = choose|k: int| keyed_at(s2, q, k);
            assert(keyed_at(s, q, k));
        }
        if m.contains_key(q) && q != p {
            let k = choose|k: int| keyed_at(s, q, k);
            assert(keyed_at(s2, q, k));
        }
        if q == p {
            assert(keyed_at(s2, q, i));
        }
    }
    assert forall|q: Seq<char>| m2.contains_key(q) implies m2[q] == m[q] by {
        let k = choose|k: int| keyed_at(s2, q, k);
        lemma_table_at(s2, k);
        if k != i {
            lemma_table_at(s, k);
            lemma_table_at(s, i);
        }
    }
    assert(m2 =~= m);
}

/// Times by file path. Each path has at most one record, and the records
/// stand in lexicographic order of their paths.
#[derive(Clone, Debug)]
pub struct VideoTimes {
    entries: Vec<Record>,
}

impl View for VideoTimes {
    type V = Map<Seq<char>, Time>;

    open spec fn view(&self) -> Map<Seq<char>, Time> {
        table_of(self.pairs())
    }
}

impl VideoTimes {
    /// The records in the order in which they are kept.
    pub closed spec fn pairs(&self) -> Seq<(Seq<char>, Time)> {
        Seq::new(self.entries@.len(), |i: int| (self.entries@[i].path@, self.entries@[i].time))
    }

    /// The validity of the mapping: its records ascend by path.
    pub open spec fn wf(&self) -> bool {
        ascending(self.pairs())
    }

    /// A mapping without records.
    pub fn new() -> (r: VideoTimes)
        ensures
            r.wf(),
            r.pairs() == Seq::<(Seq<char>, Time)>::empty(),
            r@ == Map::<Seq<char>, Time>::empty(),
    {
        let r = VideoTimes { entries: Vec::new() };
        proof {
            assert(r.pairs() =~= Seq::<(Seq<char>, Time)>::empty());
            assert(r@ =~= Map::<Seq<char>, Time>::empty());
        }
        r
    }

    /// The number of records.
    pub fn len(&self) -> (n: usize)
        ensures
            n == self.pairs().len(),
    {
        self.entries.len()
    }

    /// The path of the record at position `i` in path order.
    pub fn path_at(&self, i: usize) -> (path: &String)
        requires
            i < self.pairs().len(),
        ensures
            path@ == self.pairs()[i as int].0,
    {
        &self.entries[i].path
    }

    /// The time of the record at position `i` in path order.
    pub fn time_at(&self, i: usize) -> (time: Time)
        requires
            i < self.pairs().len(),
        ensures
            time == self.pairs()[i as int].1,
    {
        self.entries[i].time
    }

    /// Finds where `path` stands, or would stand, among the records.
    fn locate(&self, path: &str) -> (r: (usize, bool))
        requires
            self.wf(),
        ensures
            r.0 <= self.pairs().len(),
            forall|j: int| 0 <= j < r.0 ==> path_lt(#[trigger] self.pairs()[j].0, path@),
            r.1 ==> keyed_at(self.pairs(), path@, r.0 as int),
            !r.1 && r.0 < self.pairs().len() ==> path_lt(path@, self.pairs()[r.0 as int].0),
            r.1 == self@.contains_key(path@),
    {
        let ghost s = self.pairs();
        let wanted = chars_of(path);
        let mut i: usize = 0;
        while i < self.entries.len()
            invariant
                s == self.pairs(),
                ascending(s),
                wanted@ == path@,
                i <= self.entries.len(),
                self.entries.len() == s.len(),
                forall|j: int| 0 <= j < i ==> path_lt(#[trigger] s[j].0, path@),
            decreases self.entries.len() - i,
        {
            let here = chars_of(self.entries[i].path.as_str());
            match place_of_chars(&here, &wanted) {
                Place::Before => {
                    i += 1;
                },
                Place::Same => {
                    assert(keyed_at(s, path@, i as int));
                    return (i, true);
                },
                Place::After => {
                    proof {
                        lemma_path_lt_irreflexive(path@);
                        if self@.contains_key(path@) {
                            let k = choose|k: int| keyed_at(s, path@, k);
                            if k < i {
                                assert(path_lt(s[k].0, path@));
                            } else if k > i {
                                assert(path_lt(s[i as int].0, s[k].0));
                                lemma_path_lt_asymmetric(path@, s[i as int].0);
                            }
                        }
                    }
                    return (i, false);
                },
            }
        }
        proof {
            lemma_path_lt_irreflexive(path@);
            if self@.contains_key(path@) {
                let k = choose|k: int| keyed_at(s, path@, k);
                assert(path_lt(s[k].0, path@));
            }
        }
        (i, false)
    }

    /// Whether a time is recorded for `path`.
    pub fn contains_key(&self, path: &str) -> (r: bool)
        requires
            self.wf(),
        ensures
            r == self@.contains_key(path@),
    {
        self.locate(path).1
    }

    /// The time recorded for `path`, if there is one.
    pub fn get(&self, path: &str) -> (r: Option<Time>)
        requires
            self.wf(),
        ensures
            r == (if self@.contains_key(path@) {
                Some(self@[path@])
            } else {
                None
            }),
    {
        let (i, found) = self.locate(path);
        if found {
            proof {
                lemma_table_at(self.pairs(), i as int);
            }
            Some(self.entries[i].time)
        } else {
            None
        }
    }

    /// Records `time` for `path`, in place of what was recorded before.
    pub fn insert(&mut self, path: String, time: Time)
        requires
            old(self).wf(),
        ensures
            final(self).wf(),
            final(self)@ == old(self)@.insert(path@, time),
    {
        let (i, found) = self.locate(path.as_str());
        let ghost s = self.pairs();
        if found {
            proof {
                lemma_table_update(s, i as int, time);
            }
            self.entries.set(i, Record { path, time });
            assert(self.pairs() =~= s.update(i as int, (s[i as int].0, time)));
        } else {
            proof {
                lemma_table_insert(s, i as int, path@, time);
            }
            self.entries.insert(i, Record { path, time });
            assert(self.pairs() =~= s.insert(i as int, (path@, time)));
        }
    }

    /// Takes a file into the mapping: a path without a record gets one at
    /// `Unknown`, a path that has one keeps it.
    pub fn discover(&mut self, path: String)
        requires
            old(self).wf(),
        ensures
            final(self).wf(),
            final(self)@ == (if old(self)@.contains_key(path@) {
                old(self)@
            } else {
                old(self)@.insert(path@, Time::Unknown)
            }),
    {
        let (i, found) = self.locate(path.as_str());
        let ghost s = self.pairs();
        if !found {
            proof {
                lemma_table_insert(s, i as int, path@, Time::Unknown);
            }
            self.entries.insert(i, Record { path, time: Time::Unknown });
            assert(self.pairs() =~= s.insert(i as int, (path@, Time::Unknown)));
        }
    }

    /// Lifts the time recorded for `path` to `candidate` where that is more;
    /// a path without a record gets none.
    pub fn raise(&mut self, path: &str, candidate: Time)
        requires
            old(self).wf(),
        ensures
            final(self).wf(),
            final(self)@ == (if old(self)@.contains_key(path@)
                && candidate.rank() > old(self)@[path@].rank() {
                old(self)@.insert(path@, candidate)
            } else {
                old(self)@
            }),
    {
        let (i, found) = self.locate(path);
        let ghost s = self.pairs();
        if found {
            proof {
                lemma_table_at(s, i as int);
            }
            if candidate.exceeds(self.entries[i].time) {
                proof {
                    lemma_table_update(s, i as int, candidate);
                }
                let kept = self.entries[i].path.clone();
                self.entries.set(i, Record { path: kept, time: candidate });
                assert(self.pairs() =~= s.update(i as int, (s[i as int].0, candidate)));
            }
        }
    }
}

} // verus!
