//! Plain work on strings, character by character: joining and cutting,
//! shared prefixes and suffixes, file stems, replacing.

use vstd::prelude::*;
use vstd::string::*;
use std::borrow::Cow;

verus! {

/// The characters of `s`, one by one.
pub fn to_chars(s: &str) -> (chars: Vec<char>)
    ensures
        chars@ == s@,
{
    let mut chars: Vec<char> = Vec::new();
    for c in it: s.chars()
        invariant
            it.seq() == s@,
            chars@ == it.seq().take(it.index()),
    {
        chars.push(c);
    }
    assert(s@.take(s@.len() as int) == s@);
    chars
}

/// std's `String::push`: appends the one character `c` to the end of `s`.
#[verifier::external_body]
pub(crate) fn push_char(s: &mut String, c: char)
    ensures
        final(s)@ == old(s)@.push(c),
{
    s.push(c);
}

/// The character sequences of a list of strings, in order.
pub open spec fn texts(items: Seq<String>) -> Seq<Seq<char>> {
    Seq::new(items.len(), |i: int| items[i]@)
}

/// The items put end to end, with one `separator` between each two
/// neighbours and none before the first or after the last.
pub open spec fn join(items: Seq<Seq<char>>, separator: char) -> Seq<char>
    decreases items.len(),
{
    if items.len() == 0 {
        Seq::empty()
    } else if items.len() == 1 {
        items[0]
    } else {
        join(items.drop_last(), separator).push(separator) + items.last()
    }
}

/// The pieces that the separators cut `s` into: one more piece than there
/// are separators in `s`, some of them possibly empty.
pub open spec fn split(s: Seq<char>, separator: char) -> Seq<Seq<char>>
    decreases s.len(),
{
    if s.len() == 0 {
        seq![Seq::empty()]
    } else {
        let head = split(s.drop_last(), separator);
        if s.last() == separator {
            head.push(Seq::empty())
        } else {
            head.drop_last().push(head.last().push(s.last()))
        }
    }
}

/// Joins `items` with `separator` between neighbours.
pub fn join_separated(items: &[String], separator: char) -> (joined: String)
    ensures
        joined@ == join(texts(items@), separator),
{
    let mut joined = String::new();
    let mut i: usize = 0;
    while i < items.len()
        invariant
            i <= items@.len(),
            joined@ == join(texts(items@).take(i as int), separator),
        decreases items@.len() - i,
    {
        if i > 0 {
            push_char(&mut joined, separator);
        }
        joined.append(items[i].as_str());
        proof {
            let next = texts(items@).take(i + 1);
            assert(next.drop_last() == texts(items@).take(i as int));
            assert(next.last() == items@[i as int]@);
        }
        i += 1;
    }
    assert(texts(items@).take(items@.len() as int) == texts(items@));
    joined
}

/// Splitting never gives an empty list of pieces.
pub proof fn lemma_split_len(s: Seq<char>, separator: char)
    ensures
        split(s, separator).len() >= 1,
    decreases s.len(),
{
    if s.len() > 0 {
        lemma_split_len(s.drop_last(), separator);
    }
}

/// Joining the pieces of a string with the separator that cut it gives the
/// string back, whatever the string is.
pub proof fn lemma_join_split(s: Seq<char>, separator: char)
    ensures
        join(split(s, separator), separator) == s,
    decreases s.len(),
{
    if s.len() > 0 {
        let body = s.drop_last();
        let head = split(body, separator);
        lemma_split_len(body, separator);
        lemma_join_split(body, separator);
        if s.last() == separator {
            let all = head.push(Seq::empty());
            assert(all.drop_last() == head);
            assert(join(all, separator) == body.push(separator) + Seq::<char>::empty());
            assert(s == body.push(separator));
        } else {
            let piece = head.last().push(s.last());
            let all = head.drop_last().push(piece);
            assert(all.drop_last() == head.drop_last());
            assert(all.last() == piece);
            if head.len() == 1 {
                assert(head[0] == head.last());
                assert(join(all, separator) == piece);
            } else {
                assert(join(all, separator) == join(head.drop_last(), separator).push(separator)
                    + piece);
                assert(join(head.drop_last(), separator).push(separator) + piece == (join(
                    head.drop_last(),
                    separator,
                ).push(separator) + head.last()).push(s.last()));
            }
            assert(s == body.push(s.last()));
        }
    }
}

proof fn lemma_split_plain_tail(s: Seq<char>, t: Seq<char>, separator: char)
    requires
        !t.contains(separator),
    ensures
        split(s + t, separator) == split(s, separator).drop_last().push(
            split(s, separator).last() + t,
        ),
    decreases t.len(),
{
    lemma_split_len(s, separator);
    if t.len() == 0 {
        assert(s + t == s);
        assert(split(s, separator).last() + t == split(s, separator).last());
        assert(split(s, separator).drop_last().push(split(s, separator).last()) == split(
            s,
            separator,
        ));
    } else {
        let t0 = t.drop_last();
        assert(!t0.contains(separator)) by {
            if t0.contains(separator) {
                let i = choose|i: int| 0 <= i < t0.len() && t0[i] == separator;
                assert(t[i] == separator);
            }
        }
        assert(t.last() != separator) by {
            assert(t[t.len() - 1] == t.last());
        }
        lemma_split_plain_tail(s, t0, separator);
        assert((s + t).drop_last() == s + t0);
        assert((s + t).last() == t.last());
        let head = split(s + t0, separator);
        assert(head.last() == split(s, separator).last() + t0);
        assert(head.drop_last() == split(s, separator).drop_last());
        assert((split(s, separator).last() + t0).push(t.last()) == split(s, separator).last() + t);
    }
}

/// Cutting a joined path at its separators gives the segments back, provided
/// there is at least one segment and none of them holds the separator.
pub proof fn lemma_split_join(items: Seq<Seq<char>>, separator: char)
    requires
        items.len() >= 1,
        forall|i: int| 0 <= i < items.len() ==> !(#[trigger] items[i]).contains(separator),
    ensures
        split(join(items, separator), separator) == items,
    decreases items.len(),
{
    let empty = Seq::<char>::empty();
    if items.len() == 1 {
        lemma_split_plain_tail(empty, items[0], separator);
        assert(empty + items[0] == items[0]);
        assert(split(empty, separator) == seq![empty]);
        assert(seq![empty].drop_last().push(empty + items[0]) == items);
    } else {
        let head = items.drop_last();
        assert forall|i: int| 0 <= i < head.len() implies !(#[trigger] head[i]).contains(
            separator,
        ) by {
            assert(head[i] == items[i]);
        }
        lemma_split_join(head, separator);
        let joined = join(head, separator);
        assert(joined.push(separator).drop_last() == joined);
        assert(split(joined.push(separator), separator) == head.push(empty));
        assert(items.last() == items[items.len() - 1]);
        lemma_split_plain_tail(joined.push(separator), items.last(), separator);
        assert(head.push(empty).drop_last() == head);
        assert(empty + items.last() == items.last());
        assert(head.push(items.last()) == items);
    }
}

/// How many characters `a` and `b` share at their start.
pub open spec fn common_prefix_len(a: Seq<char>, b: Seq<char>) -> nat
    decreases a.len(),
{
    if a.len() > 0 && b.len() > 0 && a[0] == b[0] {
        1 + common_prefix_len(a.skip(1), b.skip(1))
    } else {
        0
    }
}

/// How many characters `a` and `b` share at their end.
pub open spec fn common_suffix_len(a: Seq<char>, b: Seq<char>) -> nat
    decreases a.len(),
{
    if a.len() > 0 && b.len() > 0 && a.last() == b.last() {
        1 + common_suffix_len(a.drop_last(), b.drop_last())
    } else {
        0
    }
}

/// The longest string that both `a` and `b` start with.
pub open spec fn common_prefix(a: Seq<char>, b: Seq<char>) -> Seq<char> {
    a.take(common_prefix_len(a, b) as int)
}

/// The longest string that both `a` and `b` end with.
pub open spec fn common_suffix(a: Seq<char>, b: Seq<char>) -> Seq<char> {
    a.skip(a.len() - common_suffix_len(a, b))
}

/// `k` is the length of the common prefix as soon as the two strings agree on
/// their first `k` characters and do not agree on one more.
pub proof fn lemma_common_prefix_len(a: Seq<char>, b: Seq<char>, k: int)
    requires
        0 <= k <= a.len(),
        k <= b.len(),
        a.take(k) == b.take(k),
        k == a.len() || k == b.len() || a[k] != b[k],
    ensures
        common_prefix_len(a, b) == k,
    decreases k,
{
    if k > 0 {
        assert(a[0] == a.take(k)[0]);
        assert(b[0] == b.take(k)[0]);
        assert(a.skip(1).take(k - 1) == a.take(k).skip(1));
        assert(b.skip(1).take(k - 1) == b.take(k).skip(1));
        lemma_common_prefix_len(a.skip(1), b.skip(1), k - 1);
    }
}

/// `k` is the length of the common suffix as soon as the two strings agree on
/// their last `k` characters and do not agree on one more.
pub proof fn lemma_common_suffix_len(a: Seq<char>, b: Seq<char>, k: int)
    requires
        0 <= k <= a.len(),
        k <= b.len(),
        a.skip(a.len() - k) == b.skip(b.len() - k),
        k == a.len() || k == b.len() || a[a.len() - k - 1] != b[b.len() - k - 1],
    ensures
        common_suffix_len(a, b) == k,
    decreases k,
{
    if k > 0 {
        let x = a.skip(a.len() - k);
        let y = b.skip(b.len() - k);
        assert(a.last() == x[k - 1]);
        assert(b.last() == y[k - 1]);
        assert(a.drop_last().skip(a.len() - k) == x.drop_last());
        assert(b.drop_last().skip(b.len() - k) == y.drop_last());
        lemma_common_suffix_len(a.drop_last(), b.drop_last(), k - 1);
    }
}

/// What the common prefix is: the two strings agree on it, and past it they
/// differ or one of them ends.
pub proof fn lemma_common_prefix_is_common(a: Seq<char>, b: Seq<char>)
    ensures
        common_prefix_len(a, b) <= a.len(),
        common_prefix_len(a, b) <= b.len(),
        common_prefix(a, b) == b.take(common_prefix_len(a, b) as int),
        common_prefix(a, b).is_prefix_of(a),
        common_prefix(a, b).is_prefix_of(b),
    decreases a.len(),
{
    if a.len() > 0 && b.len() > 0 && a[0] == b[0] {
        lemma_common_prefix_is_common(a.skip(1), b.skip(1));
        let k = common_prefix_len(a.skip(1), b.skip(1)) as int;
        assert(a.take(k + 1) == seq![a[0]] + a.skip(1).take(k));
        assert(b.take(k + 1) == seq![b[0]] + b.skip(1).take(k));
    } else {
        assert(a.take(0) == b.take(0));
    }
}

/// The common prefix is the longest: whatever both strings start with, the
/// common prefix starts with too.
pub proof fn lemma_common_prefix_is_longest(a: Seq<char>, b: Seq<char>, d: Seq<char>)
    requires
        d.is_prefix_of(a),
        d.is_prefix_of(b),
    ensures
        d.is_prefix_of(common_prefix(a, b)),
    decreases a.len(),
{
    if d.len() > 0 {
        assert(a[0] == d[0] && b[0] == d[0]);
        assert(d.skip(1).is_prefix_of(a.skip(1))) by {
            assert(d.skip(1) == a.skip(1).take(d.len() - 1));
        }
        assert(d.skip(1).is_prefix_of(b.skip(1))) by {
            assert(d.skip(1) == b.skip(1).take(d.len() - 1));
        }
        lemma_common_prefix_is_longest(a.skip(1), b.skip(1), d.skip(1));
        lemma_common_prefix_is_common(a.skip(1), b.skip(1));
        let k = common_prefix_len(a.skip(1), b.skip(1)) as int;
        assert(a.take(k + 1) == seq![a[0]] + a.skip(1).take(k));
        assert(d == seq![d[0]] + d.skip(1));
        assert(d == common_prefix(a, b).take(d.len() as int));
    } else {
        assert(d == common_prefix(a, b).take(0));
    }
}

/// What the common suffix is: the two strings agree on it.
pub proof fn lemma_common_suffix_is_common(a: Seq<char>, b: Seq<char>)
    ensures
        common_suffix_len(a, b) <= a.len(),
        common_suffix_len(a, b) <= b.len(),
        common_suffix(a, b) == b.skip(b.len() - common_suffix_len(a, b)),
        common_suffix(a, b).is_suffix_of(a),
        common_suffix(a, b).is_suffix_of(b),
    decreases a.len(),
{
    if a.len() > 0 && b.len() > 0 && a.last() == b.last() {
        lemma_common_suffix_is_common(a.drop_last(), b.drop_last());
        let k = common_suffix_len(a.drop_last(), b.drop_last()) as int;
        assert(a.skip(a.len() - k - 1) == a.drop_last().skip(a.len() - 1 - k).push(a.last()));
        assert(b.skip(b.len() - k - 1) == b.drop_last().skip(b.len() - 1 - k).push(b.last()));
    } else {
        assert(a.skip(a.len() as int) == b.skip(b.len() as int));
    }
}

/// The common suffix is the longest: whatever both strings end with, the
/// common suffix ends with too.
pub proof fn lemma_common_suffix_is_longest(a: Seq<char>, b: Seq<char>, d: Seq<char>)
    requires
        d.is_suffix_of(a),
        d.is_suffix_of(b),
    ensures
        d.is_suffix_of(common_suffix(a, b)),
    decreases a.len(),
{
    let c = common_suffix(a, b);
    if d.len() > 0 {
        assert(a.last() == d.last() && b.last() == d.last());
        assert(d.drop_last().is_suffix_of(a.drop_last())) by {
            assert(d.drop_last() == a.drop_last().skip(a.len() - d.len()));
        }
        assert(d.drop_last().is_suffix_of(b.drop_last())) by {
            assert(d.drop_last() == b.drop_last().skip(b.len() - d.len()));
        }
        lemma_common_suffix_is_longest(a.drop_last(), b.drop_last(), d.drop_last());
        lemma_common_suffix_is_common(a.drop_last(), b.drop_last());
        let k = common_suffix_len(a.drop_last(), b.drop_last()) as int;
        assert(a.skip(a.len() - k - 1) == a.drop_last().skip(a.len() - 1 - k).push(a.last()));
        assert(d == d.drop_last().push(d.last()));
        assert(d == c.skip(c.len() - d.len()));
    } else {
        assert(d == c.skip(c.len() as int));
    }
}

/// The string that a borrowed or owned string holds, as a slice.
pub fn as_str<'a, 'b>(s: &'b Cow<'a, str>) -> (slice: &'b str)
    ensures
        slice@ == s@,
{
    match s {
        Cow::Borrowed(borrowed) => borrowed,
        Cow::Owned(owned) => owned.as_str(),
    }
}

/// The longest prefix that `s1` shares with `s2`: a slice of `s1` where `s1`
/// is borrowed, a string of its own where `s1` is owned. The comparison goes
/// character by character, never inside one.
pub fn str_common_prefix<'a>(s1: Cow<'a, str>, s2: &str) -> (prefix: Cow<'a, str>)
    ensures
        prefix@ == common_prefix(s1@, s2@),
{
    let a = to_chars(as_str(&s1));
    let b = to_chars(s2);
    let mut k: usize = 0;
    while k < a.len() && k < b.len() && a[k] == b[k]
        invariant
            k <= a@.len(),
            k <= b@.len(),
            a@.take(k as int) == b@.take(k as int),
        decreases a@.len() - k,
    {
        assert(a@.take(k + 1) == a@.take(k as int).push(a@[k as int]));
        assert(b@.take(k + 1) == b@.take(k as int).push(b@[k as int]));
        k += 1;
    }
    proof {
        lemma_common_prefix_len(a@, b@, k as int);
    }
    match s1 {
        Cow::Borrowed(borrowed) => Cow::Borrowed(borrowed.substring_char(0, k)),
        Cow::Owned(owned) => Cow::Owned(owned.as_str().substring_char(0, k).to_owned()),
    }
}

/// The longest suffix that `s1` shares with `s2`: a slice of `s1` where `s1`
/// is borrowed, a string of its own where `s1` is owned. The comparison goes
/// character by character, never inside one.
pub fn str_common_suffix<'a>(s1: Cow<'a, str>, s2: &str) -> (suffix: Cow<'a, str>)
    ensures
        suffix@ == common_suffix(s1@, s2@),
{
    let a = to_chars(as_str(&s1));
    let b = to_chars(s2);
    let n = a.len();
    let m = b.len();
    let mut k: usize = 0;
    while k < n && k < m && a[n - k - 1] == b[m - k - 1]
        invariant
            n == a@.len(),
            m == b@.len(),
            k <= n,
            k <= m,
            a@.skip(n - k) == b@.skip(m - k),
        decreases n - k,
    {
        assert(a@.skip(n - k - 1) == seq![a@[n - k - 1]] + a@.skip(n - k));
        assert(b@.skip(m - k - 1) == seq![b@[m - k - 1]] + b@.skip(m - k));
        k += 1;
    }
    proof {
        lemma_common_suffix_len(a@, b@, k as int);
    }
    match s1 {
        Cow::Borrowed(borrowed) => Cow::Borrowed(borrowed.substring_char(n - k, n)),
        Cow::Owned(owned) => Cow::Owned(owned.as_str().substring_char(n - k, n).to_owned()),
    }
}

/// Where the last `'.'` of `name` stands, or `-1` if it has none.
pub open spec fn last_dot(name: Seq<char>) -> int
    decreases name.len(),
{
    if name.len() == 0 {
        -1
    } else if name.last() == '.' {
        name.len() - 1
    } else {
        last_dot(name.drop_last())
    }
}

/// The stem of a file name: what stands before its last `'.'`. A name
/// without a `'.'`, one whose only `'.'` is its first character, and the name
/// `".."` are their own stems.
pub open spec fn file_stem(name: Seq<char>) -> Seq<char> {
    if name == seq!['.', '.'] || last_dot(name) <= 0 {
        name
    } else {
        name.take(last_dot(name))
    }
}

/// The stem of the file name `name`, as a slice of it.
pub fn stem_of<'a>(name: &'a str) -> (stem: &'a str)
    ensures
        stem@ == file_stem(name@),
{
    let chars = to_chars(name);
    let n = chars.len();
    let mut i: usize = n;
    assert(chars@.take(n as int) == chars@);
    while i > 0 && chars[i - 1] != '.'
        invariant
            i <= n,
            n == chars@.len(),
            last_dot(chars@) == last_dot(chars@.take(i as int)),
        decreases i,
    {
        assert(chars@.take(i as int).drop_last() == chars@.take(i - 1));
        i -= 1;
    }
    assert(chars@.take(n as int) == chars@);
    proof {
        if i > 0 {
            assert(chars@.take(i as int).last() == '.');
        }
    }
    // Now `i - 1` is where the last dot stands, or `i` is 0.
    if i <= 1 || (n == 2 && chars[0] == '.') {
        assert(n == 2 && chars@[0] == '.' && i == 2 ==> chars@ == seq!['.', '.']);
        assert(chars@ == seq!['.', '.'] ==> i == 2);
        assert(name@.take(n as int) == name@);
        name.substring_char(0, n)
    } else {
        assert(chars@ != seq!['.', '.']) by {
            if chars@ == seq!['.', '.'] {
                assert(seq!['.', '.'].len() == 2);
                assert(chars@[0] == seq!['.', '.'][0]);
            }
        }
        name.substring_char(0, i - 1)
    }
}

/// `s` with every occurrence of the non-empty string `from` replaced by `to`,
/// reading from the left and never looking back into what was replaced.
pub open spec fn replace_all(s: Seq<char>, from: Seq<char>, to: Seq<char>) -> Seq<char>
    decreases s.len(),
{
    if from.len() == 0 || s.len() < from.len() {
        s
    } else if s.take(from.len() as int) == from {
        to + replace_all(s.skip(from.len() as int), from, to)
    } else {
        seq![s[0]] + replace_all(s.skip(1), from, to)
    }
}

/// Replaces every occurrence of `from` in `s` by `to`.
pub fn replace(s: &str, from: &str, to: &str) -> (replaced: String)
    ensures
        replaced@ == replace_all(s@, from@, to@),
{
    let text = to_chars(s);
    let pattern = to_chars(from);
    let n = text.len();
    let m = pattern.len();
    let mut replaced = String::new();
    if m == 0 {
        replaced.append(s);
        return replaced;
    }
    let mut i: usize = 0;
    assert(text@.skip(0) == text@);
    assert(replaced@ + replace_all(text@, from@, to@) == replace_all(s@, from@, to@));
    while i < n
        invariant
            n == text@.len(),
            m == pattern@.len(),
            m > 0,
            i <= n,
            text@ == s@,
            pattern@ == from@,
            replaced@ + replace_all(text@.skip(i as int), from@, to@) == replace_all(
                s@,
                from@,
                to@,
            ),
        decreases n - i,
    {
        let ghost tail = text@.skip(i as int);
        let mut j: usize = 0;
        if n - i >= m {
            while j < m && text[i + j] == pattern[j]
                invariant
                    n == text@.len(),
                    m == pattern@.len(),
                    i + m <= n,
                    j <= m,
                    tail == text@.skip(i as int),
                    tail.take(j as int) == pattern@.take(j as int),
                decreases m - j,
            {
                assert(tail.take(j + 1) == tail.take(j as int).push(tail[j as int]));
                assert(pattern@.take(j + 1) == pattern@.take(j as int).push(pattern@[j as int]));
                j += 1;
            }
        }
        if j == m {
            proof {
                assert(pattern@.take(m as int) == pattern@);
                assert(tail.skip(m as int) == text@.skip(i + m));
            }
            let ghost before = replaced@;
            replaced.append(to);
            assert(before + to@ + replace_all(text@.skip(i + m), from@, to@) == before + (to@
                + replace_all(text@.skip(i + m), from@, to@)));
            i += m;
        } else {
            proof {
                if n - i >= m {
                    assert(tail.take(m as int) != pattern@) by {
                        if tail.take(m as int) == pattern@ {
                            assert(tail.take(m as int)[j as int] == tail[j as int]);
                        }
                    }
                    assert(tail.skip(1) == text@.skip(i + 1));
                } else {
                    lemma_replace_short(tail, from@, to@);
                    lemma_replace_short(text@.skip(i + 1), from@, to@);
                    assert(tail == seq![tail[0]] + text@.skip(i + 1));
                }
            }
            let ghost before = replaced@;
            push_char(&mut replaced, text[i]);
            assert(before.push(text@[i as int]) + replace_all(text@.skip(i + 1), from@, to@)
                == before + (seq![tail[0]] + replace_all(text@.skip(i + 1), from@, to@)));
            i += 1;
        }
    }
    assert(text@.skip(n as int) == Seq::<char>::empty());
    assert(replaced@ + Seq::<char>::empty() == replaced@);
    replaced
}

proof fn lemma_replace_short(s: Seq<char>, from: Seq<char>, to: Seq<char>)
    requires
        s.len() < from.len(),
    ensures
        replace_all(s, from, to) == s,
{
}

} // verus!
