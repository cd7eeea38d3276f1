//! The name under which an archive is stored, and the name of the directory
//! that its files go to.

use vstd::prelude::*;
use vstd::string::{StrSliceExecFns, StringExecFns};

verus! {

/// The suffix of every archive's name.
pub open spec fn suffix() -> Seq<char> {
    seq!['.', 'w', 'h', 'a', 'r']
}

/// `text` ends with `tail`.
pub open spec fn ends_with(text: Seq<char>, tail: Seq<char>) -> bool {
    text.len() >= tail.len() && text.skip(text.len() - tail.len()) == tail
}

/// `name` with the suffix behind it, unless it ends with the suffix already.
pub open spec fn with_suffix(name: Seq<char>) -> Seq<char> {
    if ends_with(name, suffix()) {
        name
    } else {
        name + suffix()
    }
}

/// The name of the archive for a name that a user gave: the suffix is added
/// where the name does not end with it.
pub fn archive_path(name: &str) -> (path: String)
    ensures
        path@ == with_suffix(name@),
{
    let tail = ".whar";
    proof {
        reveal_strlit(".whar");
        assert(tail@ =~= suffix());
    }
    let n: usize = name.unicode_len();
    let m: usize = tail.unicode_len();
    let mut same = n >= m;
    let mut k: usize = 0;
    while same && k < m
        invariant
            n == name@.len(),
            m == tail@.len(),
            tail@ == suffix(),
            same ==> k <= m <= n,
            same ==> forall|i: int| 0 <= i < k ==> name@[n - m + i] == tail@[i],
            !same ==> !ends_with(name@, tail@),
        decreases m - k + if same { 1int } else { 0int },
    {
        if name.get_char(n - m + k) != tail.get_char(k) {
            same = false;
            proof {
                if n >= m {
                    assert(name@.skip(n - m)[k as int] == name@[n - m + k]);
                }
            }
        } else {
            k += 1;
        }
    }
    let mut path = String::from_str(name);
    if same {
        assert(name@.skip(n - m) =~= tail@);
    } else {
        path.append(tail);
    }
    path
}

/// `text` begins with `head`.
pub open spec fn starts_with(text: Seq<char>, head: Seq<char>) -> bool {
    text.len() >= head.len() && text.take(head.len() as int) == head
}

/// `text` without the suffix, wherever it stands in it: from the front on,
/// each stretch that spells the suffix is left out.
pub open spec fn without_suffix(text: Seq<char>) -> Seq<char>
    decreases text.len(),
{
    if text.len() == 0 {
        text
    } else if text.len() >= 5 && starts_with(text, suffix()) {
        without_suffix(text.skip(5))
    } else {
        seq![text[0]] + without_suffix(text.skip(1))
    }
}

/// Whether the characters of `text` from position `i` on begin with the
/// suffix.
fn suffix_at(text: &str, i: usize) -> (found: bool)
    requires
        i <= text@.len(),
    ensures
        found == starts_with(text@.skip(i as int), suffix()),
{
    let tail = ".whar";
    proof {
        reveal_strlit(".whar");
        assert(tail@ =~= suffix());
    }
    let n: usize = text.unicode_len();
    let m: usize = tail.unicode_len();
    let ghost rest = text@.skip(i as int);
    if n - i < m {
        return false;
    }
    let mut k: usize = 0;
    while k < m
        invariant
            k <= m,
            i + m <= n,
            n == text@.len(),
            m == tail@.len(),
            tail@ == suffix(),
            rest == text@.skip(i as int),
            forall|j: int| 0 <= j < k ==> rest[j] == tail@[j],
        decreases m - k,
    {
        if text.get_char(i + k) != tail.get_char(k) {
            assert(rest.take(m as int)[k as int] == rest[k as int]);
            return false;
        }
        k += 1;
    }
    assert(rest.take(m as int) =~= tail@);
    true
}

/// The name of the directory for the files of an archive: the archive's
/// name without the suffix, wherever it stands in the name.
pub fn extraction_dir(path: &str) -> (dir: String)
    ensures
        dir@ == without_suffix(path@),
{
    let tail = ".whar";
    proof {
        reveal_strlit(".whar");
        assert(tail@ =~= suffix());
    }
    let n: usize = path.unicode_len();
    let m: usize = tail.unicode_len();
    let mut dir = String::from_str("");
    proof {
        reveal_strlit("");
        assert(path@.skip(0) =~= path@);
        assert(path@.subrange(0, 0) =~= Seq::<char>::empty());
    }
    let mut start: usize = 0;
    let mut i: usize = 0;
    while i < n
        invariant
            start <= i <= n,
            n == path@.len(),
            m == 5,
            suffix().len() == 5,
            without_suffix(path@) == dir@ + path@.subrange(start as int, i as int)
                + without_suffix(path@.skip(i as int)),
        decreases n - i,
    {
        let ghost rest = path@.skip(i as int);
        if suffix_at(path, i) {
            dir.append(path.substring_char(start, i));
            proof {
                assert(rest.skip(5) =~= path@.skip(i + 5));
                assert(path@.subrange(i + 5, i + 5) =~= Seq::<char>::empty());
            }
            i += m;
            start = i;
        } else {
            proof {
                assert(rest.skip(1) =~= path@.skip(i + 1));
                assert(path@.subrange(start as int, i as int) + seq![rest[0]] =~= path@.subrange(
                    start as int,
                    i + 1,
                ));
            }
            i += 1;
        }
    }
    dir.append(path.substring_char(start, n));
    proof {
        assert(path@.skip(n as int) =~= Seq::<char>::empty());
    }
    dir
}

} // verus!
