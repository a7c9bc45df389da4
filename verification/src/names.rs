//! Names of cache entries and the keys derived from them.
//!
//! An archive is booked under its file name without the extension. A source
//! checked out of a repository is booked under the name of its folder, cut at
//! the last hyphen, with the revision or `HEAD` in place of what was cut. For
//! display a name is parted into the package's name and its version at the
//! first hyphen-separated token that is a semantic version.

use crate::order::key_views;
use crate::text::chars_of;
use vstd::prelude::*;

verus! {

/// The separator between the tokens of a name.
pub const HYPHEN: char = '-';

/// The separator before the extension of a file name.
pub const DOT: char = '.';

/// The position of the last `sep` in `text`, or -1 where it has none.
pub open spec fn last_index_of(text: Seq<char>, sep: char) -> int
    decreases text.len(),
{
    if text.len() == 0 {
        -1
    } else if text.last() == sep {
        text.len() - 1
    } else {
        last_index_of(text.drop_last(), sep)
    }
}

/// What stands before the last `sep` of `text`; nothing where it has no `sep`.
pub open spec fn stem(text: Seq<char>, sep: char) -> Option<Seq<char>> {
    let at = last_index_of(text, sep);
    if at < 0 {
        None
    } else {
        Some(text.take(at))
    }
}

/// The key of an archive: its file name up to the last dot.
pub open spec fn archive_key(file_name: Seq<char>) -> Option<Seq<char>> {
    stem(file_name, DOT)
}

/// The key of a checkout: the folder's name up to its last hyphen, a hyphen,
/// and the revision.
pub open spec fn checkout_key(folder: Seq<char>, revision: Seq<char>) -> Option<Seq<char>> {
    match stem(folder, HYPHEN) {
        Some(name) => Some(name + seq![HYPHEN] + revision),
        None => None,
    }
}

/// The key of a repository's database: the folder's name up to its last
/// hyphen, then `-HEAD`.
pub open spec fn database_key(folder: Seq<char>) -> Option<Seq<char>> {
    checkout_key(folder, seq!['H', 'E', 'A', 'D'])
}

/// The tokens of `text` between its separators `sep`: one more than it has
/// separators, empty ones included.
pub open spec fn split_on(text: Seq<char>, sep: char) -> Seq<Seq<char>>
    decreases text.len(),
{
    let at = last_index_of(text, sep);
    if 0 <= at < text.len() {
        split_on(text.take(at), sep).push(text.skip(at + 1))
    } else {
        seq![text]
    }
}

/// The tokens put together again, with `sep` between each two.
pub open spec fn join(tokens: Seq<Seq<char>>, sep: char) -> Seq<char>
    decreases tokens.len(),
{
    if tokens.len() == 0 {
        Seq::empty()
    } else if tokens.len() == 1 {
        tokens[0]
    } else {
        join(tokens.drop_last(), sep) + seq![sep] + tokens.last()
    }
}

/// What the last position of a separator is: -1 exactly where there is none,
/// else the place of a separator with none behind it.
pub proof fn lemma_last_index_of(text: Seq<char>, sep: char)
    ensures
        -1 <= last_index_of(text, sep) < text.len(),
        last_index_of(text, sep) == -1 <==> !text.contains(sep),
        last_index_of(text, sep) >= 0 ==> text[last_index_of(text, sep)] == sep,
        forall|j: int| last_index_of(text, sep) < j < text.len() ==> text[j] != sep,
    decreases text.len(),
{
    if text.len() == 0 {
    } else if text.last() == sep {
        assert(text[text.len() - 1] == sep);
    } else {
        let front = text.drop_last();
        lemma_last_index_of(front, sep);
        let at = last_index_of(front, sep);
        if at >= 0 {
            assert(text[at] == front[at]);
        } else {
            if text.contains(sep) {
                let j = choose|j: int| 0 <= j < text.len() && text[j] == sep;
                assert(front[j] == sep);
            }
        }
        assert forall|j: int| at < j < text.len() implies text[j] != sep by {
            if j < front.len() {
                assert(front[j] == text[j]);
            }
        }
    }
}

/// The stem is cut at the rightmost separator: the name is its stem, the
/// separator, and a rest that holds no separator; and a name has no stem
/// exactly where it holds no separator at all.
pub proof fn lemma_stem_is_rightmost(text: Seq<char>, sep: char)
    ensures
        match stem(text, sep) {
            Some(front) => {
                &&& front.len() < text.len()
                &&& text == front + seq![sep] + text.skip(front.len() as int + 1)
                &&& !text.skip(front.len() as int + 1).contains(sep)
            },
            None => !text.contains(sep),
        },
{
    lemma_last_index_of(text, sep);
    let at = last_index_of(text, sep);
    if at >= 0 {
        let front = text.take(at);
        let rest = text.skip(at + 1);
        assert(text =~= front + seq![sep] + rest);
        if rest.contains(sep) {
            let j = rest.index_of(sep);
            assert(text[at + 1 + j] == sep);
        }
    }
}

/// A character that is no separator lengthens the last token.
proof fn lemma_split_on_grows(text: Seq<char>, sep: char)
    requires
        text.len() > 0,
        text.last() != sep,
    ensures
        split_on(text, sep).len() > 0,
        split_on(text.drop_last(), sep).len() > 0,
        split_on(text, sep) == split_on(text.drop_last(), sep).drop_last().push(
            split_on(text.drop_last(), sep).last().push(text.last()),
        ),
{
    let front = text.drop_last();
    let at = last_index_of(front, sep);
    lemma_last_index_of(front, sep);
    if 0 <= at {
        assert(text.take(at) =~= front.take(at));
        assert(text.skip(at + 1) =~= front.skip(at + 1).push(text.last()));
    } else {
        assert(front.push(text.last()) =~= text);
    }
}

/// A separator at the end closes the last token and opens an empty one.
proof fn lemma_split_on_closes(text: Seq<char>, sep: char)
    requires
        text.len() > 0,
        text.last() == sep,
    ensures
        split_on(text, sep) == split_on(text.drop_last(), sep).push(Seq::empty()),
{
    let at = text.len() - 1;
    assert(text.skip(at + 1) =~= Seq::<char>::empty());
}

/// The keys of a vector with one more string are its keys and that string's.
proof fn lemma_key_views_push(keys: Seq<String>, key: String)
    ensures
        key_views(keys.push(key)) == key_views(keys).push(key@),
{
    assert(key_views(keys.push(key)) =~= key_views(keys).push(key@));
}

/// What stands before the last `sep` of `name`, where it has one.
pub fn stem_of(name: &str, sep: char) -> (front: Option<String>)
    ensures
        match front {
            Some(front) => stem(name@, sep) == Some(front@),
            None => stem(name@, sep) is None,
        },
{
    let chars = chars_of(name);
    let mut i: usize = chars.len();
    assert(name@.take(i as int) =~= name@);
    while i > 0
        invariant
            i <= chars.len(),
            chars@ == name@,
            last_index_of(name@, sep) == last_index_of(name@.take(i as int), sep),
        decreases i,
    {
        if chars[i - 1] == sep {
            let front = name.substring_char(0, i - 1).to_owned();
            return Some(front);
        }
        assert(name@.take(i as int).drop_last() =~= name@.take(i - 1));
        i -= 1;
    }
    None
}

/// The key under which the archive `file_name` is booked, where the name has
/// an extension to strip.
pub fn registry_archive_key(file_name: &str) -> (key: Option<String>)
    ensures
        match key {
            Some(key) => archive_key(file_name@) == Some(key@),
            None => archive_key(file_name@) is None,
        },
{
    stem_of(file_name, DOT)
}

/// The key under which revision `revision` in the checkout folder `folder` is
/// booked, where the folder's name has a hyphen to cut at.
pub fn git_checkout_key(folder: &str, revision: &str) -> (key: Option<String>)
    ensures
        match key {
            Some(key) => checkout_key(folder@, revision@) == Some(key@),
            None => checkout_key(folder@, revision@) is None,
        },
{
    match stem_of(folder, HYPHEN) {
        Some(name) => {
            let mut key = name;
            proof {
                reveal_strlit("-");
            }
            key.append("-");
            key.append(revision);
            Some(key)
        },
        None => None,
    }
}

/// The key under which the database folder `folder` is booked, where its name
/// has a hyphen to cut at.
pub fn git_database_key(folder: &str) -> (key: Option<String>)
    ensures
        match key {
            Some(key) => database_key(folder@) == Some(key@),
            None => database_key(folder@) is None,
        },
{
    proof {
        reveal_strlit("HEAD");
    }
    git_checkout_key(folder, "HEAD")
}

/// The tokens of `text` between its separators `sep`.
pub fn split_tokens(text: &str, sep: char) -> (tokens: Vec<String>)
    ensures
        key_views(tokens@) == split_on(text@, sep),
{
    let chars = chars_of(text);
    let n = chars.len();
    let mut tokens: Vec<String> = Vec::new();
    let mut start: usize = 0;
    let mut i: usize = 0;
    while i < n
        invariant
            n == chars.len(),
            chars@ == text@,
            start <= i <= n,
            split_on(text@.take(i as int), sep) == key_views(tokens@).push(
                text@.subrange(start as int, i as int),
            ),
        decreases n - i,
    {
        let ghost seen = text@.take(i + 1);
        let ghost open = text@.subrange(start as int, i as int);
        assert(seen.drop_last() =~= text@.take(i as int));
        if chars[i] == sep {
            let token = text.substring_char(start, i).to_owned();
            proof {
                lemma_split_on_closes(seen, sep);
                lemma_key_views_push(tokens@, token);
                assert(text@.subrange(i + 1, i + 1) =~= Seq::<char>::empty());
            }
            tokens.push(token);
            start = i + 1;
        } else {
            proof {
                lemma_split_on_grows(seen, sep);
                assert(open.push(seen.last()) =~= text@.subrange(start as int, i + 1));
            }
        }
        i += 1;
    }
    let token = text.substring_char(start, n).to_owned();
    proof {
        assert(text@.take(n as int) =~= text@);
        lemma_key_views_push(tokens@, token);
    }
    tokens.push(token);
    tokens
}

/// The tokens `tokens[from..to]` joined by hyphens.
pub(crate) fn join_hyphenated(tokens: &Vec<String>, from: usize, to: usize) -> (text: String)
    requires
        from <= to <= tokens.len(),
    ensures
        text@ == join(key_views(tokens@).subrange(from as int, to as int), HYPHEN),
{
    let mut text = String::new();
    let mut i: usize = from;
    let ghost views = key_views(tokens@);
    while i < to
        invariant
            from <= i <= to <= tokens.len(),
            views == key_views(tokens@),
            text@ == join(views.subrange(from as int, i as int), HYPHEN),
        decreases to - i,
    {
        proof {
            reveal_strlit("-");
            let part = views.subrange(from as int, i + 1);
            assert(part.drop_last() =~= views.subrange(from as int, i as int));
            if i > from {
                assert(part.len() > 1);
            } else {
                assert(part.len() == 1);
            }
        }
        if i > from {
            text.append("-");
        }
        text.append(tokens[i].as_str());
        i += 1;
    }
    text
}

/// Whether `semver::Version::parse` accepts `text` as a semantic version.
pub uninterp spec fn semver_parses(text: Seq<char>) -> bool;

/// Calls `semver::Version::parse` on `text` and says whether it returned a
/// version.
///
/// Not proved, but taken from the parser's source: it reads nothing but
/// `text` and returns for every text, so its answer is the same wherever the
/// same text is asked about. That is all the contract claims; which texts the
/// parser accepts is not restated.
#[verifier::external_body]
fn is_semver(text: &str) -> (accepted: bool)
    ensures
        accepted == semver_parses(text@),
{
    semver::Version::parse(text).is_ok()
}

/// The place of the first of `tokens` that is a semantic version; their
/// number where none is.
pub open spec fn version_position(tokens: Seq<Seq<char>>) -> int
    decreases tokens.len(),
{
    if tokens.len() == 0 {
        0
    } else if semver_parses(tokens[0]) {
        0
    } else {
        1 + version_position(tokens.drop_first())
    }
}

/// `text` parted at its token `position`: the tokens before it, joined by
/// hyphens, and the tokens from it on, joined by hyphens. A position behind
/// the last token leaves all to the first part.
pub open spec fn split_at(text: Seq<char>, position: int) -> (Seq<char>, Seq<char>) {
    let tokens = split_on(text, HYPHEN);
    let cut = if 0 <= position < tokens.len() {
        position
    } else {
        tokens.len() as int
    };
    (join(tokens.take(cut), HYPHEN), join(tokens.skip(cut), HYPHEN))
}

/// A name parted into the package's name and its version: at the first token
/// that is a semantic version.
pub open spec fn name_version(full_name: Seq<char>) -> (Seq<char>, Seq<char>) {
    split_at(full_name, version_position(split_on(full_name, HYPHEN)))
}

/// Tokens before `n` that are no versions put the first version at `n` or
/// behind it.
proof fn lemma_version_position_skips(tokens: Seq<Seq<char>>, n: int)
    requires
        0 <= n <= tokens.len(),
        forall|i: int| 0 <= i < n ==> !semver_parses(#[trigger] tokens[i]),
    ensures
        version_position(tokens) == n + version_position(tokens.skip(n)),
    decreases n,
{
    if n > 0 {
        lemma_version_position_skips(tokens, n - 1);
        let rest = tokens.skip(n - 1);
        assert(rest.drop_first() =~= tokens.skip(n));
    } else {
        assert(tokens.skip(0) =~= tokens);
    }
}

/// A text has at least one token.
pub proof fn lemma_split_on_some(text: Seq<char>, sep: char)
    ensures
        split_on(text, sep).len() >= 1,
    decreases text.len(),
{
    let at = last_index_of(text, sep);
    if 0 <= at < text.len() {
        lemma_split_on_some(text.take(at), sep);
    }
}

/// The tokens of a text, joined again, are the text.
pub proof fn lemma_join_split(text: Seq<char>, sep: char)
    ensures
        join(split_on(text, sep), sep) == text,
    decreases text.len(),
{
    let at = last_index_of(text, sep);
    lemma_last_index_of(text, sep);
    if 0 <= at < text.len() {
        let front = split_on(text.take(at), sep);
        lemma_split_on_some(text.take(at), sep);
        lemma_join_split(text.take(at), sep);
        assert(front.push(text.skip(at + 1)).drop_last() =~= front);
    }
}

/// Two lists of tokens, joined each and put together with a separator, are
/// the one list of both, joined.
pub proof fn lemma_join_parts(front: Seq<Seq<char>>, back: Seq<Seq<char>>, sep: char)
    requires
        front.len() > 0,
        back.len() > 0,
    ensures
        join(front + back, sep) == join(front, sep) + seq![sep] + join(back, sep),
    decreases back.len(),
{
    let all = front + back;
    assert(all.drop_last() =~= front + back.drop_last());
    if back.len() == 1 {
        assert(front + back.drop_last() =~= front);
    } else {
        lemma_join_parts(front, back.drop_last(), sep);
        assert(join(front, sep) + seq![sep] + join(back.drop_last(), sep) + seq![sep]
            + back.last() =~= join(front, sep) + seq![sep] + (join(back.drop_last(), sep)
            + seq![sep] + back.last()));
    }
}

/// The two parts of a name make up the name again: with a hyphen between them
/// where the cut is between two tokens, and else the one part that is not
/// empty is the whole name.
pub proof fn lemma_split_at_rejoins(text: Seq<char>, position: int)
    ensures
        0 < position < split_on(text, HYPHEN).len() ==> split_at(text, position).0 + seq![HYPHEN]
            + split_at(text, position).1 == text,
        position == 0 ==> split_at(text, position) == (Seq::<char>::empty(), text),
        position < 0 || position >= split_on(text, HYPHEN).len() ==> split_at(text, position) == (
            text,
            Seq::<char>::empty(),
        ),
{
    let tokens = split_on(text, HYPHEN);
    lemma_split_on_some(text, HYPHEN);
    lemma_join_split(text, HYPHEN);
    if 0 < position < tokens.len() {
        lemma_join_parts(tokens.take(position), tokens.skip(position), HYPHEN);
        assert(tokens.take(position) + tokens.skip(position) =~= tokens);
    } else if position == 0 {
        assert(tokens.skip(0) =~= tokens);
    } else {
        assert(tokens.take(tokens.len() as int) =~= tokens);
    }
}

/// Parts `full_name` at its hyphen-separated token `position`: what stands
/// before that token, and what stands from it on. A position behind the last
/// token leaves all to the first part.
pub fn split_name_at(full_name: &str, position: usize) -> (parts: (String, String))
    ensures
        (parts.0@, parts.1@) == split_at(full_name@, position as int),
{
    let tokens = split_tokens(full_name, HYPHEN);
    let cut = if position < tokens.len() {
        position
    } else {
        tokens.len()
    };
    let name = join_hyphenated(&tokens, 0, cut);
    let version = join_hyphenated(&tokens, cut, tokens.len());
    proof {
        let views = key_views(tokens@);
        assert(views.subrange(0, cut as int) =~= views.take(cut as int));
    }
    (name, version)
}

/// Parts `full_name` into the package's name and its version. The version
/// begins with the first hyphen-separated token that is a semantic version and
/// runs to the end; where no token is one, all is name.
pub fn split_name_version(full_name: &str) -> (parts: (String, String))
    ensures
        (parts.0@, parts.1@) == name_version(full_name@),
{
    let tokens = split_tokens(full_name, HYPHEN);
    let ghost views = key_views(tokens@);
    let mut position: usize = 0;
    while position < tokens.len() && !is_semver(tokens[position].as_str())
        invariant
            position <= tokens.len(),
            views == key_views(tokens@),
            forall|i: int| 0 <= i < position ==> !semver_parses(#[trigger] views[i]),
        decreases tokens.len() - position,
    {
        position += 1;
    }
    proof {
        lemma_version_position_skips(views, position as int);
        if position < tokens.len() {
            assert(views.skip(position as int)[0] == views[position as int]);
        }
    }
    split_name_at(full_name, position)
}

} // verus!
