//! What the names of a batch share at either end: the mask of a name, in
//! which each run of digits counts as one sign, and the matching of a shared
//! mask against a name.

use vstd::prelude::*;
use vstd::string::*;
use crate::magnitude::{is_ascii_digit, is_digit};
use crate::natural_ordered_str::{digit_run_len, lemma_digit_run_len_bound, lemma_digit_run_len_is};
use crate::text::{push_char, to_chars};

verus! {

/// The mask of a name: the name with each run of digits replaced by the one
/// character `'0'`. No other digit is left in a mask, so a digit in a mask
/// always stands for one whole run of digits, of whatever length.
pub open spec fn mask(name: Seq<char>) -> Seq<char>
    decreases name.len(),
    via mask_decreases
{
    if name.len() == 0 {
        Seq::empty()
    } else if is_digit(name[0]) {
        seq!['0'] + mask(name.skip(digit_run_len(name) as int))
    } else {
        seq![name[0]] + mask(name.skip(1))
    }
}

#[via_fn]
proof fn mask_decreases(name: Seq<char>) {
    lemma_digit_run_len_bound(name);
}

/// How many digits `s` ends with.
pub open spec fn trailing_digit_run_len(s: Seq<char>) -> nat
    decreases s.len(),
{
    if s.len() > 0 && is_digit(s.last()) {
        1 + trailing_digit_run_len(s.drop_last())
    } else {
        0
    }
}

/// The length of what `pattern` matches at the start of `s`, or `None` where
/// `s` does not start as `pattern` says. A digit in the pattern matches the
/// whole run of digits that `s` shows there, which must hold one digit at
/// least; any other character of the pattern matches itself.
pub open spec fn match_prefix(pattern: Seq<char>, s: Seq<char>) -> Option<int>
    decreases pattern.len(),
{
    if pattern.len() == 0 {
        Some(0)
    } else if is_digit(pattern[0]) {
        if s.len() > 0 && is_digit(s[0]) {
            let n = digit_run_len(s) as int;
            match match_prefix(pattern.skip(1), s.skip(n)) {
                Some(k) => Some(n + k),
                None => None,
            }
        } else {
            None
        }
    } else if s.len() > 0 && s[0] == pattern[0] {
        match match_prefix(pattern.skip(1), s.skip(1)) {
            Some(k) => Some(1 + k),
            None => None,
        }
    } else {
        None
    }
}

/// The length of what `pattern` matches at the end of `s`, or `None` where
/// `s` does not end as `pattern` says. It reads as `match_prefix` does, from
/// the end backwards.
pub open spec fn match_suffix(pattern: Seq<char>, s: Seq<char>) -> Option<int>
    decreases pattern.len(),
{
    if pattern.len() == 0 {
        Some(0)
    } else if is_digit(pattern.last()) {
        if s.len() > 0 && is_digit(s.last()) {
            let n = trailing_digit_run_len(s) as int;
            match match_suffix(pattern.drop_last(), s.take(s.len() - n)) {
                Some(k) => Some(n + k),
                None => None,
            }
        } else {
            None
        }
    } else if s.len() > 0 && s.last() == pattern.last() {
        match match_suffix(pattern.drop_last(), s.drop_last()) {
            Some(k) => Some(1 + k),
            None => None,
        }
    } else {
        None
    }
}

/// `s` without what `pattern` matches at its start; `s` itself where the
/// pattern does not match.
pub open spec fn strip_prefix(s: Seq<char>, pattern: Seq<char>) -> Seq<char> {
    match match_prefix(pattern, s) {
        Some(k) => s.skip(k),
        None => s,
    }
}

/// `s` without what `pattern` matches at its end; `s` itself where the
/// pattern does not match.
pub open spec fn strip_suffix(s: Seq<char>, pattern: Seq<char>) -> Seq<char> {
    match match_suffix(pattern, s) {
        Some(k) => s.take(s.len() - k),
        None => s,
    }
}

/// `name` without the prefix pattern at its start and then, in what is left,
/// without the suffix pattern at its end.
pub open spec fn strip_affixes(name: Seq<char>, prefix: Seq<char>, suffix: Seq<char>) -> Seq<
    char,
> {
    strip_suffix(strip_prefix(name, prefix), suffix)
}

/// A run of trailing digits is never longer than the string.
pub proof fn lemma_trailing_digit_run_len_bound(s: Seq<char>)
    ensures
        trailing_digit_run_len(s) <= s.len(),
    decreases s.len(),
{
    if s.len() > 0 && is_digit(s.last()) {
        lemma_trailing_digit_run_len_bound(s.drop_last());
    }
}

proof fn lemma_trailing_digit_run_len_is(s: Seq<char>, k: int)
    requires
        0 <= k <= s.len(),
        forall|j: int| s.len() - k <= j < s.len() ==> is_digit(#[trigger] s[j]),
        k == s.len() || !is_digit(s[s.len() - k - 1]),
    ensures
        trailing_digit_run_len(s) == k,
    decreases k,
{
    if k > 0 {
        assert(is_digit(s[s.len() - 1]));
        assert forall|j: int| s.drop_last().len() - (k - 1) <= j < s.drop_last().len() implies is_digit(
            #[trigger] s.drop_last()[j],
        ) by {
            assert(s.drop_last()[j] == s[j]);
        }
        lemma_trailing_digit_run_len_is(s.drop_last(), k - 1);
    }
}

/// What a pattern matches at the end of a string is never longer than the
/// string.
pub proof fn lemma_match_suffix_bound(pattern: Seq<char>, s: Seq<char>)
    ensures
        match_suffix(pattern, s) matches Some(k) ==> 0 <= k <= s.len(),
    decreases pattern.len(),
{
    if pattern.len() > 0 {
        lemma_trailing_digit_run_len_bound(s);
        if is_digit(pattern.last()) {
            if s.len() > 0 && is_digit(s.last()) {
                lemma_match_suffix_bound(
                    pattern.drop_last(),
                    s.take(s.len() - trailing_digit_run_len(s)),
                );
            }
        } else if s.len() > 0 && s.last() == pattern.last() {
            lemma_match_suffix_bound(pattern.drop_last(), s.drop_last());
        }
    }
}

/// The mask of a name matches the whole name.
pub proof fn lemma_mask_matches_name(name: Seq<char>)
    ensures
        match_prefix(mask(name), name) == Some(name.len() as int),
    decreases name.len(),
{
    if name.len() > 0 {
        lemma_digit_run_len_bound(name);
        if is_digit(name[0]) {
            let rest = name.skip(digit_run_len(name) as int);
            lemma_mask_matches_name(rest);
            assert(mask(name).skip(1) == mask(rest));
        } else {
            lemma_mask_matches_name(name.skip(1));
            assert(mask(name).skip(1) == mask(name.skip(1)));
        }
    }
}

/// Where the prefix pattern is the mask of the name itself, nothing is left
/// of the name, whatever the suffix pattern is.
pub proof fn lemma_own_mask_strips_all(name: Seq<char>, suffix: Seq<char>)
    ensures
        strip_affixes(name, mask(name), suffix) == Seq::<char>::empty(),
{
    lemma_mask_matches_name(name);
    let left = name.skip(name.len() as int);
    assert(left == Seq::<char>::empty());
    lemma_match_suffix_bound(suffix, left);
}

/// The mask of `name`.
pub fn mask_digits(name: &str) -> (masked: String)
    ensures
        masked@ == mask(name@),
{
    let chars = to_chars(name);
    let n = chars.len();
    let mut masked = String::new();
    let mut i: usize = 0;
    assert(chars@.skip(0) == chars@);
    assert(masked@ + mask(chars@) == mask(chars@));
    while i < n
        invariant
            n == chars@.len(),
            i <= n,
            masked@ + mask(chars@.skip(i as int)) == mask(chars@),
        decreases n - i,
    {
        let ghost tail = chars@.skip(i as int);
        let ghost before = masked@;
        if is_ascii_digit(chars[i]) {
            push_char(&mut masked, '0');
            let start = i;
            i += 1;
            while i < n && is_ascii_digit(chars[i])
                invariant
                    n == chars@.len(),
                    start < i <= n,
                    tail == chars@.skip(start as int),
                    forall|j: int| 0 <= j < i - start ==> is_digit(#[trigger] tail[j]),
                decreases n - i,
            {
                i += 1;
            }
            proof {
                lemma_digit_run_len_is(tail, i - start);
                assert(tail.skip(i - start) == chars@.skip(i as int));
                assert(before.push('0') + mask(chars@.skip(i as int)) == before + (seq!['0'] + mask(
                    chars@.skip(i as int),
                )));
            }
        } else {
            push_char(&mut masked, chars[i]);
            proof {
                assert(tail.skip(1) == chars@.skip(i + 1));
                assert(before.push(tail[0]) + mask(chars@.skip(i + 1)) == before + (seq![tail[0]]
                    + mask(chars@.skip(i + 1))));
            }
            i += 1;
        }
    }
    assert(chars@.skip(n as int) == Seq::<char>::empty());
    assert(masked@ + Seq::<char>::empty() == masked@);
    masked
}

spec fn shifted(found: Option<int>, by: int) -> Option<int> {
    match found {
        Some(k) => Some(by + k),
        None => None,
    }
}

fn matched_prefix_len(pattern: &Vec<char>, s: &Vec<char>) -> (found: Option<usize>)
    ensures
        match found {
            Some(k) => match_prefix(pattern@, s@) == Some(k as int) && k <= s@.len(),
            None => match_prefix(pattern@, s@) is None,
        },
{
    let n = s.len();
    let mut i: usize = 0;
    let mut p: usize = 0;
    assert(pattern@.skip(0) == pattern@);
    assert(s@.skip(0) == s@);
    while p < pattern.len()
        invariant
            n == s@.len(),
            i <= n,
            p <= pattern@.len(),
            match_prefix(pattern@, s@) == shifted(
                match_prefix(pattern@.skip(p as int), s@.skip(i as int)),
                i as int,
            ),
        decreases pattern@.len() - p,
    {
        let ghost tail = s@.skip(i as int);
        let ghost rest = pattern@.skip(p as int);
        assert(rest.skip(1) == pattern@.skip(p + 1));
        if i == n {
            return None;
        }
        if is_ascii_digit(pattern[p]) {
            if !is_ascii_digit(s[i]) {
                return None;
            }
            let start = i;
            i += 1;
            while i < n && is_ascii_digit(s[i])
                invariant
                    n == s@.len(),
                    start < i <= n,
                    tail == s@.skip(start as int),
                    forall|j: int| 0 <= j < i - start ==> is_digit(#[trigger] tail[j]),
                decreases n - i,
            {
                i += 1;
            }
            proof {
                lemma_digit_run_len_is(tail, i - start);
                assert(tail.skip(i - start) == s@.skip(i as int));
            }
        } else {
            if s[i] != pattern[p] {
                return None;
            }
            proof {
                assert(tail.skip(1) == s@.skip(i + 1));
            }
            i += 1;
        }
        p += 1;
    }
    assert(pattern@.skip(p as int).len() == 0);
    Some(i)
}

/// Matches `pattern` at the end of what `s` holds from `start` on.
fn matched_suffix_len(pattern: &Vec<char>, s: &Vec<char>, start: usize) -> (found: Option<usize>)
    requires
        start <= s@.len(),
    ensures
        match found {
            Some(k) => match_suffix(pattern@, s@.skip(start as int)) == Some(k as int) && k
                <= s@.len() - start,
            None => match_suffix(pattern@, s@.skip(start as int)) is None,
        },
{
    let ghost whole = s@.skip(start as int);
    let n = s.len();
    let mut i: usize = n;
    let mut p: usize = pattern.len();
    assert(pattern@.take(p as int) == pattern@);
    assert(whole.take(n - start) == whole);
    while p > 0
        invariant
            n == s@.len(),
            start <= i <= n,
            p <= pattern@.len(),
            whole == s@.skip(start as int),
            match_suffix(pattern@, whole) == shifted(
                match_suffix(pattern@.take(p as int), whole.take(i - start)),
                n - i,
            ),
        decreases p,
    {
        let ghost head = whole.take(i - start);
        let ghost rest = pattern@.take(p as int);
        assert(rest.drop_last() == pattern@.take(p - 1));
        assert(rest.last() == pattern@[p - 1]);
        if i == start {
            return None;
        }
        assert(head.last() == s@[i - 1]);
        if is_ascii_digit(pattern[p - 1]) {
            if !is_ascii_digit(s[i - 1]) {
                return None;
            }
            let end = i;
            i -= 1;
            while i > start && is_ascii_digit(s[i - 1])
                invariant
                    n == s@.len(),
                    start <= i < end <= n,
                    whole == s@.skip(start as int),
                    head == whole.take(end - start),
                    forall|j: int| i - start <= j < end - start ==> is_digit(#[trigger] head[j]),
                decreases i,
            {
                i -= 1;
            }
            proof {
                lemma_trailing_digit_run_len_is(head, end - i);
                assert(head.take(head.len() - (end - i)) == whole.take(i - start));
            }
        } else {
            if s[i - 1] != pattern[p - 1] {
                return None;
            }
            proof {
                assert(head.drop_last() == whole.take(i - 1 - start));
            }
            i -= 1;
        }
        p -= 1;
    }
    assert(pattern@.take(p as int).len() == 0);
    Some(n - i)
}

/// What is left of `name` once the prefix pattern is taken off its start and
/// then the suffix pattern off the end of the remainder; a pattern that does
/// not match takes nothing off.
pub fn strip<'a>(name: &'a str, prefix: &str, suffix: &str) -> (text: &'a str)
    ensures
        text@ == strip_affixes(name@, prefix@, suffix@),
{
    let chars = to_chars(name);
    let n = chars.len();
    let start = match matched_prefix_len(&to_chars(prefix), &chars) {
        Some(k) => k,
        None => 0,
    };
    assert(chars@.skip(0) == chars@);
    let taken = match matched_suffix_len(&to_chars(suffix), &chars, start) {
        Some(k) => k,
        None => 0,
    };
    assert(chars@.skip(start as int).take(n - start - taken) == chars@.subrange(
        start as int,
        n - taken,
    ));
    assert(chars@.skip(start as int).take(n - start) == chars@.skip(start as int));
    assert(chars@.subrange(start as int, n as int) == chars@.skip(start as int));
    name.substring_char(start, n - taken)
}

} // verus!
