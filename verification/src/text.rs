//! Paths as character sequences: their order, prefixes and suffixes.

use vstd::prelude::*;
use vstd::std_specs::iter::IteratorSpec;

verus! {

/// Where one path stands relative to another in lexicographic order.
#[derive(Clone, Copy, Debug, PartialEq, Eq, Structural)]
pub enum Place {
    Before,
    Same,
    After,
}

/// `a` and `b` agree on their first `k` characters, and at position `k`
/// either `a` ends while `b` goes on, or `a` holds the smaller character.
pub open spec fn parts_at(a: Seq<char>, b: Seq<char>, k: int) -> bool {
    &&& 0 <= k <= a.len()
    &&& k < b.len()
    &&& forall|j: int| 0 <= j < k ==> a[j] == b[j]
    &&& (k < a.len() ==> (a[k] as int) < (b[k] as int))
}

/// Strict lexicographic order on paths, character by character.
pub open spec fn path_lt(a: Seq<char>, b: Seq<char>) -> bool {
    exists|k: int| parts_at(a, b, k)
}

/// No path comes before itself.
pub proof fn lemma_path_lt_irreflexive(a: Seq<char>)
    ensures
        !path_lt(a, a),
{
}

/// The order is transitive.
pub proof fn lemma_path_lt_transitive(a: Seq<char>, b: Seq<char>, c: Seq<char>)
    requires
        path_lt(a, b),
        path_lt(b, c),
    ensures
        path_lt(a, c),
{
    let k1 = choose|k: int| parts_at(a, b, k);
    let k2 = choose|k: int| parts_at(b, c, k);
    let k = if k1 <= k2 { k1 } else { k2 };
    assert(parts_at(a, c, k));
}

/// Of two paths at most one comes before the other.
pub proof fn lemma_path_lt_asymmetric(a: Seq<char>, b: Seq<char>)
    requires
        path_lt(a, b),
    ensures
        !path_lt(b, a),
{
    if path_lt(b, a) {
        lemma_path_lt_transitive(a, b, a);
        lemma_path_lt_irreflexive(a);
    }
}

/// Two paths that agree on their first `k` characters are equal or one
/// comes before the other.
proof fn lemma_path_lt_total_from(a: Seq<char>, b: Seq<char>, k: int)
    requires
        0 <= k <= a.len(),
        k <= b.len(),
        forall|j: int| 0 <= j < k ==> a[j] == b[j],
    ensures
        path_lt(a, b) || a == b || path_lt(b, a),
    decreases a.len() - k,
{
    if k == a.len() {
        if k == b.len() {
            assert(a =~= b);
        } else {
            assert(parts_at(a, b, k));
        }
    } else if k == b.len() {
        assert(parts_at(b, a, k));
    } else if a[k] == b[k] {
        lemma_path_lt_total_from(a, b, k + 1);
    } else if (a[k] as int) < (b[k] as int) {
        assert(parts_at(a, b, k));
    } else {
        assert(parts_at(b, a, k));
    }
}

/// Any two different paths are ordered.
pub proof fn lemma_path_lt_total(a: Seq<char>, b: Seq<char>)
    ensures
        path_lt(a, b) || a == b || path_lt(b, a),
{
    lemma_path_lt_total_from(a, b, 0);
}

/// The characters of a string, one by one.
pub fn chars_of(s: &str) -> (r: Vec<char>)
    ensures
        r@ == s@,
{
    broadcast use vstd::string::axiom_spec_iter;
    broadcast use vstd::string::next_postcondition;

    let mut out: Vec<char> = Vec::new();
    let mut rest = s.chars();
    loop
        invariant
            out@ + rest.remaining() == s@,
            rest.obeys_prophetic_iter_laws(),
            rest.decrease() is Some,
        decreases rest.decrease()->0,
    {
        let ghost before = rest;
        match rest.next() {
            Some(c) => {
                assert(out@.push(c) + rest.remaining() =~= out@ + before.remaining());
                out.push(c);
            },
            None => {
                assert(out@ + before.remaining() =~= out@);
                return out;
            },
        }
    }
}

/// The code point of a character.
fn code_of(c: char) -> (r: u32)
    ensures
        r as int == c as int,
{
    c as u32
}

/// Compares two paths, given by their characters, in lexicographic order.
pub fn place_of_chars(a: &Vec<char>, b: &Vec<char>) -> (r: Place)
    ensures
        match r {
            Place::Before => path_lt(a@, b@),
            Place::Same => a@ == b@,
            Place::After => path_lt(b@, a@),
        },
{
    let n: usize = a.len();
    let m: usize = b.len();
    let mut i: usize = 0;
    while i < n && i < m
        invariant
            i <= n,
            i <= m,
            n == a@.len(),
            m == b@.len(),
            forall|j: int| 0 <= j < i ==> a@[j] == b@[j],
        decreases n - i,
    {
        let x = a[i];
        let y = b[i];
        if x != y {
            if code_of(x) < code_of(y) {
                assert(parts_at(a@, b@, i as int));
                return Place::Before;
            } else {
                assert(parts_at(b@, a@, i as int));
                return Place::After;
            }
        }
        i += 1;
    }
    if n == m {
        assert(a@ =~= b@);
        Place::Same
    } else if n < m {
        assert(parts_at(a@, b@, i as int));
        Place::Before
    } else {
        assert(parts_at(b@, a@, i as int));
        Place::After
    }
}

/// Compares two paths in lexicographic order.
pub fn place_of(a: &str, b: &str) -> (r: Place)
    ensures
        match r {
            Place::Before => path_lt(a@, b@),
            Place::Same => a@ == b@,
            Place::After => path_lt(b@, a@),
        },
{
    let left = chars_of(a);
    let right = chars_of(b);
    place_of_chars(&left, &right)
}

/// Whether the characters of `s` from position `from` on begin with
/// `prefix`.
pub fn holds_at(s: &Vec<char>, from: usize, prefix: &Vec<char>) -> (r: bool)
    ensures
        r == (from <= s@.len() && prefix@.is_prefix_of(s@.subrange(from as int, s@.len() as int))),
{
    let n: usize = s.len();
    let m: usize = prefix.len();
    if from > n || m > n - from {
        return false;
    }
    let ghost tail = s@.subrange(from as int, n as int);
    let mut i: usize = 0;
    while i < m
        invariant
            i <= m,
            from + m <= n,
            n == s@.len(),
            m == prefix@.len(),
            tail == s@.subrange(from as int, n as int),
            forall|j: int| 0 <= j < i ==> tail[j] == prefix@[j],
        decreases m - i,
    {
        if s[from + i] != prefix[i] {
            assert(tail.subrange(0, m as int)[i as int] == tail[i as int]);
            return false;
        }
        i += 1;
    }
    assert(prefix@ =~= tail.subrange(0, m as int));
    true
}

/// Whether `s` begins with `prefix`.
pub fn starts_with(s: &str, prefix: &str) -> (r: bool)
    ensures
        r == prefix@.is_prefix_of(s@),
{
    let whole = chars_of(s);
    let head = chars_of(prefix);
    assert(whole@.subrange(0, whole@.len() as int) =~= whole@);
    holds_at(&whole, 0, &head)
}

/// The scheme that a player writes in front of a local file's path.
pub open spec fn file_scheme() -> Seq<char> {
    seq!['f', 'i', 'l', 'e', ':', '/', '/']
}

/// A history key without its leading `file://`, however often it is
/// repeated there.
pub open spec fn without_scheme(key: Seq<char>) -> Seq<char>
    decreases key.len(),
{
    if key.len() >= 7 && file_scheme().is_prefix_of(key) {
        without_scheme(key.subrange(7, key.len() as int))
    } else {
        key
    }
}

/// Turns a player's history key into a path: every leading `file://` is
/// removed, and a key without one is taken as it stands.
pub fn strip_scheme(key: &str) -> (r: String)
    ensures
        r@ == without_scheme(key@),
{
    proof {
        reveal_strlit("file://");
        assert("file://"@ =~= file_scheme());
    }
    let chars = chars_of(key);
    let scheme = chars_of("file://");
    let n: usize = chars.len();
    let mut start: usize = 0;
    assert(key@.subrange(0, n as int) =~= key@);
    while holds_at(&chars, start, &scheme)
        invariant
            chars@ == key@,
            scheme@ == file_scheme(),
            n == key@.len(),
            start <= n,
            without_scheme(key@.subrange(start as int, n as int)) == without_scheme(key@),
        decreases n - start,
    {
        assert(key@.subrange(start as int, n as int).subrange(7, n - start) =~= key@.subrange(
            start + 7,
            n as int,
        ));
        start = start + 7;
    }
    key.substring_char(start, n).to_owned()
}

/// The ending that marks a video file.
pub open spec fn video_suffix() -> Seq<char> {
    seq!['.', 'm', 'k', 'v']
}

/// A path names a video file when its last component is a non-empty stem
/// followed by `.mkv`.
pub open spec fn is_video_path(path: Seq<char>) -> bool {
    &&& path.len() > 4
    &&& path.subrange(path.len() - 4, path.len() as int) == video_suffix()
    &&& path[path.len() - 5] != '/'
}

/// Whether a directory entry's path names a video file.
pub fn has_video_extension(path: &str) -> (r: bool)
    ensures
        r == is_video_path(path@),
{
    let chars = chars_of(path);
    let n: usize = chars.len();
    if n <= 4 {
        return false;
    }
    let ends = chars[n - 4] == '.' && chars[n - 3] == 'm' && chars[n - 2] == 'k' && chars[n - 1]
        == 'v';
    proof {
        let tail = path@.subrange(n - 4, n as int);
        if ends {
            assert(tail =~= video_suffix());
        } else {
            assert(tail[0] == path@[n - 4] && tail[1] == path@[n - 3] && tail[2] == path@[n - 2]
                && tail[3] == path@[n - 1]);
        }
    }
    ends && chars[n - 5] != '/'
}

} // verus!
