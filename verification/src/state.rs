//! The progress file: one flat JSON object from path to number.

use std::collections::BTreeMap;
use vstd::prelude::*;
use crate::time::{lemma_number_round_trip, Time};
use crate::video_times::{ascending, lemma_table_at, keyed_at, table_of, VideoTimes};

verus! {

/// What `serde_json::from_slice` makes of bytes read as an object from
/// string to integer: the members in key order, or nothing where the bytes
/// are no such object.
pub uninterp spec fn parsed_numbers(bytes: Seq<u8>) -> Option<Seq<(Seq<char>, i128)>>;

/// What `serde_json::to_vec_pretty` writes for an object with these members.
pub uninterp spec fn rendered_numbers(numbers: Seq<(Seq<char>, i128)>) -> Option<Seq<u8>>;

/// Paths and numbers as character sequences and numbers.
pub open spec fn number_views(numbers: Seq<(String, i128)>) -> Seq<(Seq<char>, i128)> {
    Seq::new(numbers.len(), |i: int| (numbers[i].0@, numbers[i].1))
}

/// Calls `serde_json::from_slice` for a `BTreeMap<String, i128>` and hands
/// out the map's members in its own order. The contract names that result;
/// an error of the parser becomes `None`.
#[verifier::external_body]
fn parse_numbers(bytes: &[u8]) -> (r: Option<Vec<(String, i128)>>)
    ensures
        match r {
            Some(numbers) => parsed_numbers(bytes@) == Some(number_views(numbers@)),
            None => parsed_numbers(bytes@).is_none(),
        },
{
    serde_json::from_slice::<BTreeMap<String, i128>>(bytes).ok().map(|m| m.into_iter().collect())
}

/// Calls `serde_json::to_vec_pretty` on the members collected into a
/// `BTreeMap<String, i128>`. The contract names that result; an error of the
/// serialiser becomes `None`.
#[verifier::external_body]
fn render_numbers(numbers: &Vec<(String, i128)>) -> (r: Option<Vec<u8>>)
    ensures
        match r {
            Some(bytes) => rendered_numbers(number_views(numbers@)) == Some(bytes@),
            None => rendered_numbers(number_views(numbers@)).is_none(),
        },
{
    let members: BTreeMap<String, i128> = numbers.iter().cloned().collect();
    serde_json::to_vec_pretty(&members).ok()
}

/// The mapping that a file's members stand for: each number read as a time,
/// a later member for the same path in place of an earlier one.
pub open spec fn table_from(numbers: Seq<(Seq<char>, i128)>) -> Map<Seq<char>, Time>
    decreases numbers.len(),
{
    if numbers.len() == 0 {
        Map::empty()
    } else {
        table_from(numbers.drop_last()).insert(
            numbers.last().0,
            Time::of_signed(numbers.last().1 as int),
        )
    }
}

/// The members that a sequence of records is written as.
pub open spec fn numbers_for(pairs: Seq<(Seq<char>, Time)>) -> Seq<(Seq<char>, i128)> {
    Seq::new(pairs.len(), |i: int| (pairs[i].0, pairs[i].1.rank() as i128))
}

/// Builds the mapping that a file's members stand for.
pub fn video_times_from_numbers(numbers: &Vec<(String, i128)>) -> (r: VideoTimes)
    ensures
        r.wf(),
        r@ == table_from(number_views(numbers@)),
{
    let ghost views = number_views(numbers@);
    let mut video_times = VideoTimes::new();
    let mut i: usize = 0;
    assert(views.take(0) =~= Seq::<(Seq<char>, i128)>::empty());
    while i < numbers.len()
        invariant
            i <= numbers.len(),
            views == number_views(numbers@),
            video_times.wf(),
            video_times@ == table_from(views.take(i as int)),
        decreases numbers.len() - i,
    {
        proof {
            let now = views.take(i as int + 1);
            assert(now.drop_last() =~= views.take(i as int));
            assert(now.last() == views[i as int]);
        }
        video_times.insert(numbers[i].0.clone(), Time::from_number(numbers[i].1));
        i += 1;
    }
    assert(views.take(i as int) =~= views);
    video_times
}

/// The members that the mapping is written as, in path order.
pub fn numbers_of(video_times: &VideoTimes) -> (r: Vec<(String, i128)>)
    ensures
        number_views(r@) == numbers_for(video_times.pairs()),
{
    let n: usize = video_times.len();
    let mut out: Vec<(String, i128)> = Vec::new();
    let mut i: usize = 0;
    while i < n
        invariant
            i <= n,
            n == video_times.pairs().len(),
            out@.len() == i,
            forall|k: int|
                0 <= k < i ==> (#[trigger] out@[k]).0@ == video_times.pairs()[k].0 && out@[k].1
                    == video_times.pairs()[k].1.rank(),
        decreases n - i,
    {
        out.push((video_times.path_at(i).clone(), video_times.time_at(i).to_number()));
        i += 1;
    }
    assert(number_views(out@) =~= numbers_for(video_times.pairs()));
    out
}

/// The mapping that the contents of a progress file stand for. A file that
/// is absent, or that is no object from path to integer, stands for the
/// empty mapping.
pub open spec fn decoded(contents: Option<Seq<u8>>) -> Map<Seq<char>, Time> {
    match contents {
        Some(bytes) => match parsed_numbers(bytes) {
            Some(numbers) => table_from(numbers),
            None => Map::empty(),
        },
        None => Map::empty(),
    }
}

/// Reads the mapping from the contents of the progress file, where there is
/// such a file. Whatever cannot be read gives the empty mapping.
pub fn decode_video_times(contents: Option<&[u8]>) -> (r: VideoTimes)
    ensures
        r.wf(),
        r@ == decoded(
            match contents {
                Some(bytes) => Some(bytes@),
                None => None,
            },
        ),
{
    match contents {
        Some(bytes) => match parse_numbers(bytes) {
            Some(numbers) => video_times_from_numbers(&numbers),
            None => VideoTimes::new(),
        },
        None => VideoTimes::new(),
    }
}

/// Writes the mapping as the contents of the progress file: `None` where the
/// serialiser refuses.
pub fn encode_video_times(video_times: &VideoTimes) -> (r: Option<Vec<u8>>)
    ensures
        match r {
            Some(bytes) => rendered_numbers(numbers_for(video_times.pairs())) == Some(bytes@),
            None => rendered_numbers(numbers_for(video_times.pairs())).is_none(),
        },
{
    let numbers = numbers_of(video_times);
    render_numbers(&numbers)
}

/// The members that an ascending sequence of records is written as stand for
/// the mapping of those records: no time is lost in the numbers.
pub proof fn lemma_numbers_keep_times(pairs: Seq<(Seq<char>, Time)>)
    requires
        ascending(pairs),
    ensures
        table_from(numbers_for(pairs)) == table_of(pairs),
    decreases pairs.len(),
{
    let numbers = numbers_for(pairs);
    if pairs.len() == 0 {
        assert(table_of(pairs) =~= Map::<Seq<char>, Time>::empty());
    } else {
        let rest = pairs.drop_last();
        let last = pairs.last();
        assert(numbers.drop_last() =~= numbers_for(rest));
        lemma_numbers_keep_times(rest);
        lemma_number_round_trip(last.1);
        let built = table_of(rest).insert(last.0, last.1);
        assert forall|q: Seq<char>| built.contains_key(q) <==> table_of(pairs).contains_key(q) by {
            if table_of(rest).contains_key(q) {
                let k = choose|k: int| keyed_at(rest, q, k);
                assert(keyed_at(pairs, q, k));
            }
            if q == last.0 {
                assert(keyed_at(pairs, q, pairs.len() - 1));
            }
            if table_of(pairs).contains_key(q) && q != last.0 {
                let k = choose|k: int| keyed_at(pairs, q, k);
                assert(keyed_at(rest, q, k));
            }
        }
        assert forall|q: Seq<char>| built.contains_key(q) implies built[q] == table_of(pairs)[q] by {
            let k = choose|k: int| keyed_at(pairs, q, k);
            lemma_table_at(pairs, k);
            if k < pairs.len() - 1 {
                assert(rest[k] == pairs[k]);
                lemma_table_at(rest, k);
                lemma_table_at(pairs, pairs.len() - 1);
            }
        }
        assert(built =~= table_of(pairs));
    }
}

} // verus!
