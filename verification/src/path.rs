//! Path arithmetic on text: the frame that two roots share, the logical path
//! of a path inside that frame, and the joining of a root with a logical
//! path.
//!
//! Paths are sequences of characters, taken as they are written: two
//! spellings of one place are two paths. Names are separated by `/`.

use vstd::prelude::*;

verus! {

/// The character that separates the components of a path.
pub const SEPARATOR: char = '/';

/// The number of leading positions at which `a` and `b` hold the same
/// character.
pub open spec fn shared_prefix_len(a: Seq<char>, b: Seq<char>) -> nat
    decreases a.len(),
{
    if a.len() > 0 && b.len() > 0 && a[0] == b[0] {
        1 + shared_prefix_len(a.skip(1), b.skip(1))
    } else {
        0
    }
}

/// The position of the last separator among the first `within` characters
/// of `path`, and zero where there is none among them.
pub open spec fn last_separator(path: Seq<char>, within: nat) -> nat
    decreases within,
{
    if within == 0 {
        0
    } else if path[within - 1] == SEPARATOR {
        (within - 1) as nat
    } else {
        last_separator(path, (within - 1) as nat)
    }
}

/// The length of the frame of two roots: the position of the last separator
/// among the leading characters that they share, and zero where they share
/// no separator.
pub open spec fn common_len(source: Seq<char>, destination: Seq<char>) -> nat {
    last_separator(source, shared_prefix_len(source, destination))
}

/// The frame of two roots: what they share, cut back to the last separator
/// in it, so that it ends where a name ends. It is the first `common_len`
/// characters of either.
pub open spec fn common_path(source: Seq<char>, destination: Seq<char>) -> Seq<char> {
    source.take(common_len(source, destination) as int)
}

/// The logical path of `path` in a frame of `frame_len` characters: `path`
/// without the frame and without the one character that follows it.
pub open spec fn strip(path: Seq<char>, frame_len: nat) -> Seq<char>
    recommends
        path.len() > frame_len,
{
    path.skip(frame_len as int + 1)
}

/// `rest` placed under `base`: `base`, a separator, and `rest`. It gives
/// back what `strip` took away: the frame, and the separator behind it.
pub open spec fn join(base: Seq<char>, rest: Seq<char>) -> Seq<char> {
    base + seq![SEPARATOR] + rest
}

/// `shared_prefix_len` is the one length up to which two sequences agree
/// and at which they part or one of them ends.
pub proof fn lemma_shared_prefix_len_is(a: Seq<char>, b: Seq<char>, n: nat)
    requires
        n <= a.len(),
        n <= b.len(),
        forall|i: int| 0 <= i < n ==> a[i] == b[i],
        n == a.len() || n == b.len() || a[n as int] != b[n as int],
    ensures
        shared_prefix_len(a, b) == n,
    decreases n,
{
    if n > 0 {
        let a1 = a.skip(1);
        let b1 = b.skip(1);
        assert forall|i: int| 0 <= i < n - 1 implies a1[i] == b1[i] by {
            assert(a1[i] == a[i + 1]);
            assert(b1[i] == b[i + 1]);
        }
        lemma_shared_prefix_len_is(a1, b1, (n - 1) as nat);
    }
}

/// Two sequences agree on their first `shared_prefix_len` characters, and
/// on no longer prefix.
pub proof fn lemma_shared_prefix_len_bounds(a: Seq<char>, b: Seq<char>)
    ensures
        shared_prefix_len(a, b) <= a.len(),
        shared_prefix_len(a, b) <= b.len(),
        a.take(shared_prefix_len(a, b) as int) == b.take(shared_prefix_len(a, b) as int),
        shared_prefix_len(a, b) == a.len() || shared_prefix_len(a, b) == b.len()
            || a[shared_prefix_len(a, b) as int] != b[shared_prefix_len(a, b) as int],
    decreases a.len(),
{
    let n = shared_prefix_len(a, b);
    if a.len() > 0 && b.len() > 0 && a[0] == b[0] {
        let a1 = a.skip(1);
        let b1 = b.skip(1);
        lemma_shared_prefix_len_bounds(a1, b1);
        let m = shared_prefix_len(a1, b1);
        assert forall|i: int| 0 <= i < n implies a.take(n as int)[i] == b.take(n as int)[i] by {
            if i > 0 {
                assert(a1.take(m as int)[i - 1] == b1.take(m as int)[i - 1]);
            }
        }
        assert(a.take(n as int) =~= b.take(n as int));
        if m < a1.len() && m < b1.len() {
            assert(a1[m as int] == a[n as int]);
            assert(b1[m as int] == b[n as int]);
        }
    } else {
        assert(a.take(0) =~= b.take(0));
    }
}

/// `last_separator` is the position of a separator behind which no other
/// follows among the first `within` characters, or zero where none is among
/// them.
pub proof fn lemma_last_separator(path: Seq<char>, within: nat)
    requires
        within <= path.len(),
    ensures
        last_separator(path, within) <= within,
        forall|i: int| last_separator(path, within) < i < within ==> path[i] != SEPARATOR,
        last_separator(path, within) < within && path[last_separator(path, within) as int]
            == SEPARATOR || last_separator(path, within) == 0 && forall|i: int|
            0 <= i < within ==> path[i] != SEPARATOR,
    decreases within,
{
    if within > 0 && path[within - 1] != SEPARATOR {
        lemma_last_separator(path, (within - 1) as nat);
    }
}

/// Where the last character that two roots share is a separator, the frame
/// is what they share, one position backed off; and where they share
/// nothing, the frame is empty.
pub proof fn law_frame_backs_off_one(source: Seq<char>, destination: Seq<char>)
    ensures
        shared_prefix_len(source, destination) == 0 ==> common_len(source, destination) == 0,
        shared_prefix_len(source, destination) > 0 && source[shared_prefix_len(
            source,
            destination,
        ) - 1] == SEPARATOR ==> common_len(source, destination) == shared_prefix_len(
            source,
            destination,
        ) - 1,
{
}

/// The number of characters of a string.
pub fn char_len(text: &String) -> (len: usize)
    ensures
        len == text@.len(),
{
    text.as_str().unicode_len()
}

/// The characters of `text` from position `from` to its end.
pub fn tail_from(text: &String, from: usize) -> (tail: String)
    requires
        from <= text@.len(),
    ensures
        tail@ == text@.skip(from as int),
{
    let len: usize = text.as_str().unicode_len();
    let tail = text.as_str().substring_char(from, len).to_owned();
    assert(text@.subrange(from as int, len as int) =~= text@.skip(from as int));
    tail
}

/// The first `count` characters of `text`.
pub fn head_to(text: &String, count: usize) -> (head: String)
    requires
        count <= text@.len(),
    ensures
        head@ == text@.take(count as int),
{
    let head = text.as_str().substring_char(0, count).to_owned();
    assert(text@.subrange(0, count as int) =~= text@.take(count as int));
    head
}

/// Counts the leading characters that two strings share.
pub fn shared_prefix(a: &String, b: &String) -> (shared: usize)
    ensures
        shared == shared_prefix_len(a@, b@),
{
    let a_len: usize = char_len(a);
    let b_len: usize = char_len(b);
    let limit: usize = if b_len < a_len { b_len } else { a_len };
    let mut count: usize = 0;
    while count < limit && a.as_str().get_char(count) == b.as_str().get_char(count)
        invariant
            count <= limit,
            limit <= a@.len(),
            limit <= b@.len(),
            limit == a@.len() || limit == b@.len(),
            forall|i: int| 0 <= i < count ==> a@[i] == b@[i],
        decreases limit - count,
    {
        count = count + 1;
    }
    proof {
        lemma_shared_prefix_len_is(a@, b@, count as nat);
    }
    count
}

/// Computes the frame of two roots.
pub fn common_prefix(source: &String, destination: &String) -> (frame: String)
    ensures
        frame@ == common_path(source@, destination@),
{
    let shared: usize = shared_prefix(source, destination);
    proof {
        lemma_shared_prefix_len_bounds(source@, destination@);
    }
    let mut end: usize = shared;
    while end > 0 && source.as_str().get_char(end - 1) != SEPARATOR
        invariant
            end <= shared,
            shared <= source@.len(),
            last_separator(source@, shared as nat) == last_separator(source@, end as nat),
        decreases end,
    {
        end = end - 1;
    }
    let keep: usize = if end == 0 { 0 } else { end - 1 };
    head_to(source, keep)
}

/// Places `rest` under `base`.
pub fn join_paths(base: &String, rest: &String) -> (joined: String)
    ensures
        joined@ == join(base@, rest@),
{
    let mut joined = base.clone();
    proof {
        reveal_strlit("/");
    }
    joined.append("/");
    assert("/"@ =~= seq![SEPARATOR]);
    joined.append(rest.as_str());
    joined
}

} // verus!
