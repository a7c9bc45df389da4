//! Strings as sequences of characters: reading them out and searching them.

use vstd::prelude::*;

verus! {

/// The characters of `text`, one by one.
pub fn chars_of(text: &str) -> (chars: Vec<char>)
    ensures
        chars@ == text@,
{
    let mut chars: Vec<char> = Vec::new();
    for c in it: text.chars()
        invariant
            chars@ == it.seq().take(it.index() as int),
            it.seq() == text@,
    {
        chars.push(c);
    }
    chars
}

/// `part` stands in `text` from position `at` on.
pub open spec fn occurs_at(text: Seq<char>, part: Seq<char>, at: int) -> bool {
    &&& 0 <= at
    &&& at + part.len() <= text.len()
    &&& text.subrange(at, at + part.len()) == part
}

/// `part` stands somewhere in `text`, character for character.
pub open spec fn occurs_in(text: Seq<char>, part: Seq<char>) -> bool {
    exists|at: int| occurs_at(text, part, at)
}

/// Whether `part` stands somewhere in `text`, character for character.
pub fn contains_text(text: &str, part: &str) -> (found: bool)
    ensures
        found == occurs_in(text@, part@),
{
    let hay = chars_of(text);
    let needle = chars_of(part);
    let n = hay.len();
    let m = needle.len();
    if m > n {
        return false;
    }
    let mut at: usize = 0;
    while at <= n - m
        invariant
            m <= n,
            n == hay.len(),
            m == needle.len(),
            hay@ == text@,
            needle@ == part@,
            at <= n - m + 1,
            forall|earlier: int| 0 <= earlier < at ==> !occurs_at(text@, part@, earlier),
        decreases n - m + 1 - at,
    {
        let mut j: usize = 0;
        while j < m && hay[at + j] == needle[j]
            invariant
                at + m <= n,
                n == hay.len(),
                m == needle.len(),
                j <= m,
                forall|k: int| 0 <= k < j ==> hay@[at + k] == needle@[k],
            decreases m - j,
        {
            j += 1;
        }
        if j == m {
            assert(hay@.subrange(at as int, at + m) =~= needle@);
            assert(occurs_at(text@, part@, at as int));
            return true;
        }
        proof {
            if occurs_at(text@, part@, at as int) {
                assert(hay@.subrange(at as int, at + m)[j as int] == needle@[j as int]);
            }
        }
        at += 1;
    }
    false
}

} // verus!
