//! Reading a player's preference store: the positions it remembers for the
//! files under one directory.

use vstd::prelude::*;
use crate::reconcile::{entry_views, merge_history, with_history, HistoryEntry};
use crate::text::{starts_with, strip_scheme, without_scheme};
use crate::time::Time;
use crate::video_times::VideoTimes;

verus! {

/// A value of a property list, `plist::Value`, carried through as it is.
#[verifier::external_type_specification]
#[verifier::external_body]
pub struct ExValue(plist::Value);

/// A dictionary of a property list, `plist::Dictionary`, carried through as
/// it is.
#[verifier::external_type_specification]
#[verifier::external_body]
pub struct ExDictionary(plist::Dictionary);

/// The value that `plist::Value::from_reader` reads out of bytes, or nothing
/// where it refuses them.
pub uninterp spec fn parsed_plist(bytes: Seq<u8>) -> Option<plist::Value>;

/// The dictionary that a property-list value is, if it is one.
pub uninterp spec fn dictionary_of(value: plist::Value) -> Option<plist::Dictionary>;

/// The value that a dictionary holds under a key, if it holds one.
pub uninterp spec fn entry_of(dictionary: plist::Dictionary, key: Seq<char>) -> Option<
    plist::Value,
>;

/// The entries of a dictionary in the order in which it hands them out: each
/// key with its value as a signed integer, where the value is one.
pub uninterp spec fn positions_of(dictionary: plist::Dictionary) -> Seq<(Seq<char>, Option<i64>)>;

/// Why no history could be read.
#[derive(Clone, Copy, Debug, PartialEq, Eq, Structural)]
pub enum HistoryError {
    /// There is no preference store.
    Missing,
    /// The preference store is no property list.
    Malformed,
    /// The preference store has no section of recently played media.
    NoRecentMedia,
}

/// The key of the section of recently played media.
pub open spec fn recent_media_key() -> Seq<char> {
    "recentlyPlayedMedia"@
}

/// Keys and positions as character sequences and numbers.
pub open spec fn position_views(raw: Seq<(String, Option<i64>)>) -> Seq<(Seq<char>, Option<i64>)> {
    Seq::new(raw.len(), |i: int| (raw[i].0@, raw[i].1))
}

/// Calls `plist::Value::from_reader` on the bytes, which may hold a property
/// list in any of its encodings. The contract names that result; an error of
/// the reader becomes `None`.
#[verifier::external_body]
fn parse_plist(bytes: &[u8]) -> (r: Option<plist::Value>)
    ensures
        r == parsed_plist(bytes@),
{
    plist::Value::from_reader(std::io::Cursor::new(bytes)).ok()
}

/// Calls `plist::Value::as_dictionary`, which hands out the dictionary inside
/// a value of that variant and nothing for any other variant. The contract
/// names that result.
#[verifier::external_body]
fn as_dictionary(value: &plist::Value) -> (r: Option<&plist::Dictionary>)
    ensures
        match r {
            Some(d) => dictionary_of(*value) == Some(*d),
            None => dictionary_of(*value).is_none(),
        },
{
    value.as_dictionary()
}

/// Calls `plist::Dictionary::get`, a lookup by key. The contract names that
/// result.
#[verifier::external_body]
fn dictionary_get<'a>(dictionary: &'a plist::Dictionary, key: &str) -> (r: Option<
    &'a plist::Value,
>)
    ensures
        match r {
            Some(v) => entry_of(*dictionary, key@) == Some(*v),
            None => entry_of(*dictionary, key@).is_none(),
        },
{
    dictionary.get(key)
}

/// Walks a dictionary with `plist::Dictionary::iter` and reads each value
/// with `plist::Value::as_signed_integer`, which gives the number for an
/// integer that fits `i64` and nothing for any other value. The contract
/// names that sequence.
#[verifier::external_body]
fn dictionary_positions(dictionary: &plist::Dictionary) -> (r: Vec<(String, Option<i64>)>)
    ensures
        position_views(r@) == positions_of(*dictionary),
{
    dictionary.iter().map(|(key, value)| (key.clone(), value.as_signed_integer())).collect()
}

/// What opening a preference store comes to: without a file it is missing,
/// with bytes that are no property list it is malformed.
pub open spec fn opened(contents: Option<Seq<u8>>) -> Result<plist::Value, HistoryError> {
    match contents {
        None => Err(HistoryError::Missing),
        Some(bytes) => match parsed_plist(bytes) {
            Some(value) => Ok(value),
            None => Err(HistoryError::Malformed),
        },
    }
}

/// Opens a preference store from the bytes of its file, or from the fact
/// that there is no such file.
pub fn open_preferences(contents: Option<&[u8]>) -> (r: Result<plist::Value, HistoryError>)
    ensures
        r == opened(
            match contents {
                Some(bytes) => Some(bytes@),
                None => None,
            },
        ),
{
    match contents {
        None => Err(HistoryError::Missing),
        Some(bytes) => match parse_plist(bytes) {
            Some(value) => Ok(value),
            None => Err(HistoryError::Malformed),
        },
    }
}

/// The section of recently played media inside a preference store: the
/// store is a dictionary, holds a value under the section's key, and that
/// value is a dictionary too.
pub open spec fn recent_media_of(preferences: plist::Value) -> Option<plist::Dictionary> {
    match dictionary_of(preferences) {
        Some(top) => match entry_of(top, recent_media_key()) {
            Some(section) => dictionary_of(section),
            None => None,
        },
        None => None,
    }
}

/// Finds the section of recently played media in a preference store.
pub fn recent_media(preferences: &plist::Value) -> (r: Option<&plist::Dictionary>)
    ensures
        match r {
            Some(d) => recent_media_of(*preferences) == Some(*d),
            None => recent_media_of(*preferences).is_none(),
        },
{
    match as_dictionary(preferences) {
        Some(top) => match dictionary_get(top, "recentlyPlayedMedia") {
            Some(section) => as_dictionary(section),
            None => None,
        },
        None => None,
    }
}

/// The history that a section's entries give for one directory: each key
/// loses its `file://`, entries whose path does not lie under `scope` are
/// left out, and a position is a count of seconds where the player wrote a
/// number that is not negative, unknown otherwise. The order is kept.
pub open spec fn scoped(raw: Seq<(Seq<char>, Option<i64>)>, scope: Seq<char>) -> Seq<
    (Seq<char>, Time),
>
    decreases raw.len(),
{
    if raw.len() == 0 {
        Seq::empty()
    } else {
        let before = scoped(raw.drop_last(), scope);
        let path = without_scheme(raw.last().0);
        if scope.is_prefix_of(path) {
            before.push(
                (
                    path,
                    match raw.last().1 {
                        Some(n) => Time::of_signed(n as int),
                        None => Time::Unknown,
                    },
                ),
            )
        } else {
            before
        }
    }
}

/// Turns the entries of a section into the history for one directory.
pub fn history_in_scope(positions: &Vec<(String, Option<i64>)>, scope_prefix: &str) -> (r: Vec<
    HistoryEntry,
>)
    ensures
        entry_views(r@) == scoped(position_views(positions@), scope_prefix@),
{
    let ghost raw = position_views(positions@);
    let mut out: Vec<HistoryEntry> = Vec::new();
    let mut i: usize = 0;
    assert(entry_views(out@) =~= scoped(raw.take(0), scope_prefix@));
    while i < positions.len()
        invariant
            i <= positions.len(),
            raw == position_views(positions@),
            entry_views(out@) == scoped(raw.take(i as int), scope_prefix@),
        decreases positions.len() - i,
    {
        let ghost before = entry_views(out@);
        let path = strip_scheme(positions[i].0.as_str());
        proof {
            let now = raw.take(i as int + 1);
            assert(now.drop_last() =~= raw.take(i as int));
            assert(now.last() == raw[i as int]);
        }
        if starts_with(path.as_str(), scope_prefix) {
            let position = Time::from_position(positions[i].1);
            let ghost entry = (path@, position);
            out.push(HistoryEntry { path, position });
            assert(entry_views(out@) =~= before.push(entry));
        }
        i += 1;
    }
    assert(raw.take(i as int) =~= raw);
    out
}

/// Reads the history for one directory out of a preference store. A store
/// without a section of recently played media is an error, not an empty
/// history.
pub fn read_history(preferences: &plist::Value, scope_prefix: &str) -> (r: Result<
    Vec<HistoryEntry>,
    HistoryError,
>)
    ensures
        match recent_media_of(*preferences) {
            Some(section) => r is Ok && entry_views(r->Ok_0@) == scoped(
                positions_of(section),
                scope_prefix@,
            ),
            None => r == Err::<Vec<HistoryEntry>, HistoryError>(HistoryError::NoRecentMedia),
        },
{
    match recent_media(preferences) {
        Some(section) => {
            let positions = dictionary_positions(section);
            Ok(history_in_scope(&positions, scope_prefix))
        },
        None => Err(HistoryError::NoRecentMedia),
    }
}

/// Merges what a player remembers of the files under `dir_path` into the
/// mapping. Where the preference store has no section of recently played
/// media the mapping stays as it is and the error says so.
pub fn fill_video_times_from_vlc(
    video_times: &mut VideoTimes,
    preferences: &plist::Value,
    dir_path: &str,
) -> (r: Result<(), HistoryError>)
    requires
        old(video_times).wf(),
    ensures
        final(video_times).wf(),
        match recent_media_of(*preferences) {
            Some(section) => r is Ok && final(video_times)@ == with_history(
                old(video_times)@,
                scoped(positions_of(section), dir_path@),
            ),
            None => r == Err::<(), HistoryError>(HistoryError::NoRecentMedia)
                && final(video_times)@ == old(video_times)@,
        },
{
    match read_history(preferences, dir_path) {
        Ok(history) => {
            merge_history(video_times, &history);
            Ok(())
        },
        Err(e) => Err(e),
    }
}

} // verus!
