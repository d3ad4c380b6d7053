//! The natural order of strings, in which a run of digits counts as one
//! number, and strings decomposed into their runs for comparing in it.

use vstd::prelude::*;
use vstd::seq_lib::lemma_flatten_concat;
use vstd::string::*;
use std::cmp::Ordering;
use itertools::Itertools;
use crate::magnitude::{all_digits, decimal_value, is_ascii_digit, is_digit, Magnitude};
use crate::order::{order_of, ordering_of, Order};

verus! {

/// How many digits `s` starts with.
pub open spec fn digit_run_len(s: Seq<char>) -> nat
    decreases s.len(),
{
    if s.len() > 0 && is_digit(s[0]) {
        1 + digit_run_len(s.skip(1))
    } else {
        0
    }
}

/// The natural order of two strings.
///
/// The strings are read side by side. Where both show a digit, the two runs
/// of digits that start there are compared as numbers, and skipped when the
/// numbers agree, however long either run is. Anywhere else one character is
/// compared with one character by code point. A string that ends first comes
/// first.
pub open spec fn natural_compare(a: Seq<char>, b: Seq<char>) -> Order
    decreases a.len(),
    via natural_compare_decreases
{
    if a.len() == 0 || b.len() == 0 {
        order_of(a.len() as int, b.len() as int)
    } else if is_digit(a[0]) && is_digit(b[0]) {
        let m = digit_run_len(a) as int;
        let n = digit_run_len(b) as int;
        let by_number = order_of(
            decimal_value(a.take(m)) as int,
            decimal_value(b.take(n)) as int,
        );
        if by_number != Order::Equal {
            by_number
        } else {
            natural_compare(a.skip(m), b.skip(n))
        }
    } else if a[0] != b[0] {
        order_of(a[0] as int, b[0] as int)
    } else {
        natural_compare(a.skip(1), b.skip(1))
    }
}

#[via_fn]
proof fn natural_compare_decreases(a: Seq<char>, b: Seq<char>) {
    lemma_digit_run_len_bound(a);
}

/// A run of digits is never longer than the string it starts.
pub proof fn lemma_digit_run_len_bound(s: Seq<char>)
    ensures
        digit_run_len(s) <= s.len(),
        s.len() > 0 && is_digit(s[0]) ==> digit_run_len(s) >= 1,
    decreases s.len(),
{
    if s.len() > 0 && is_digit(s[0]) {
        lemma_digit_run_len_bound(s.skip(1));
    }
}

/// `k` is the length of the run of digits that `s` starts with as soon as the
/// first `k` characters are digits and the next one, if any, is not.
pub proof fn lemma_digit_run_len_is(s: Seq<char>, k: int)
    requires
        0 <= k <= s.len(),
        forall|j: int| 0 <= j < k ==> is_digit(#[trigger] s[j]),
        k == s.len() || !is_digit(s[k]),
    ensures
        digit_run_len(s) == k,
    decreases k,
{
    if k > 0 {
        assert(is_digit(s[0]));
        assert forall|j: int| 0 <= j < k - 1 implies is_digit(#[trigger] s.skip(1)[j]) by {
            assert(s.skip(1)[j] == s[j + 1]);
        }
        lemma_digit_run_len_is(s.skip(1), k - 1);
    }
}

/// A string is equal to itself in the natural order.
pub proof fn lemma_natural_compare_reflexive(a: Seq<char>)
    ensures
        natural_compare(a, a) == Order::Equal,
    decreases a.len(),
{
    lemma_digit_run_len_bound(a);
    if a.len() == 0 {
    } else if is_digit(a[0]) {
        lemma_natural_compare_reflexive(a.skip(digit_run_len(a) as int));
    } else {
        lemma_natural_compare_reflexive(a.skip(1));
    }
}

/// Exchanging the two strings reverses the outcome: the natural order is
/// antisymmetric, and any two strings are comparable.
pub proof fn lemma_natural_compare_antisymmetric(a: Seq<char>, b: Seq<char>)
    ensures
        natural_compare(b, a) == natural_compare(a, b).reverse(),
    decreases a.len(),
{
    lemma_digit_run_len_bound(a);
    lemma_digit_run_len_bound(b);
    if a.len() == 0 || b.len() == 0 {
    } else if is_digit(a[0]) && is_digit(b[0]) {
        lemma_natural_compare_antisymmetric(
            a.skip(digit_run_len(a) as int),
            b.skip(digit_run_len(b) as int),
        );
    } else if a[0] == b[0] {
        lemma_natural_compare_antisymmetric(a.skip(1), b.skip(1));
    }
}

/// The natural order is transitive: if `a` is not after `b` and `b` is not
/// after `c`, then `a` is not after `c`; and `a` is before `c` as soon as one
/// of the two steps is strict.
pub proof fn lemma_natural_compare_transitive(a: Seq<char>, b: Seq<char>, c: Seq<char>)
    requires
        natural_compare(a, b) != Order::Greater,
        natural_compare(b, c) != Order::Greater,
    ensures
        natural_compare(a, c) != Order::Greater,
        natural_compare(a, b) == Order::Less || natural_compare(b, c) == Order::Less
            ==> natural_compare(a, c) == Order::Less,
    decreases a.len(),
{
    lemma_digit_run_len_bound(a);
    lemma_digit_run_len_bound(b);
    lemma_digit_run_len_bound(c);
    if a.len() == 0 || b.len() == 0 || c.len() == 0 {
    } else if is_digit(a[0]) && is_digit(b[0]) && is_digit(c[0]) {
        let x = decimal_value(a.take(digit_run_len(a) as int));
        let y = decimal_value(b.take(digit_run_len(b) as int));
        let z = decimal_value(c.take(digit_run_len(c) as int));
        if x == y && y == z {
            lemma_natural_compare_transitive(
                a.skip(digit_run_len(a) as int),
                b.skip(digit_run_len(b) as int),
                c.skip(digit_run_len(c) as int),
            );
        }
    } else if a[0] == b[0] && b[0] == c[0] {
        lemma_natural_compare_transitive(a.skip(1), b.skip(1), c.skip(1));
    }
}

/// Whether `texts` cuts `s` into its runs: the pieces, put end to end, give
/// `s`; none is empty; each holds digits only or no digit at all; and a piece
/// of digits never follows another one, nor a piece without digits another.
pub open spec fn is_run_split(texts: Seq<Seq<char>>, s: Seq<char>) -> bool {
    &&& texts.flatten() == s
    &&& forall|i: int| 0 <= i < texts.len() ==> (#[trigger] texts[i]).len() > 0
    &&& forall|i: int, j: int|
        0 <= i < texts.len() && 0 <= j < texts[i].len() ==> is_digit(#[trigger] texts[i][j])
            == is_digit(texts[i][0])
    &&& forall|i: int, j: int|
        0 <= i && j == i + 1 && j < texts.len() ==> is_digit(#[trigger] texts[i][0]) != is_digit(
            #[trigger] texts[j][0],
        )
}

/// One run of a decomposed string.
#[derive(Debug, PartialEq, Eq)]
pub enum NaturalOrderedStrItem<'a> {
    /// A run without any digit.
    String(&'a str),
    /// A run of digits, with the number that it writes.
    Number(Magnitude, &'a str),
}

impl<'a> NaturalOrderedStrItem<'a> {
    /// The characters of the run.
    pub open spec fn text(&self) -> Seq<char> {
        match self {
            NaturalOrderedStrItem::String(s) => s@,
            NaturalOrderedStrItem::Number(_, s) => s@,
        }
    }

    /// Whether the item is a run of the kind that it claims to be, and, for
    /// a run of digits, carries the number that the digits write.
    pub open spec fn is_run(&self) -> bool {
        match self {
            NaturalOrderedStrItem::String(s) => s@.len() > 0 && !is_digit(s@[0]),
            NaturalOrderedStrItem::Number(m, s) => s@.len() > 0 && is_digit(s@[0]) && m@
                == decimal_value(s@),
        }
    }

    /// The run as a slice of the string that was decomposed.
    pub fn as_str(&self) -> (r: &'a str)
        ensures
            r@ == self.text(),
    {
        match self {
            NaturalOrderedStrItem::String(s) => s,
            NaturalOrderedStrItem::Number(_, s) => s,
        }
    }

    /// The number of a run of digits; `None` for any other run.
    pub fn get_number(&self) -> (r: Option<&Magnitude>)
        ensures
            match *self {
                NaturalOrderedStrItem::String(_) => r is None,
                NaturalOrderedStrItem::Number(m, _) => r == Some(&m),
            },
    {
        match self {
            NaturalOrderedStrItem::String(_) => None,
            NaturalOrderedStrItem::Number(m, _) => Some(m),
        }
    }
}

/// The texts of a sequence of items, in order.
pub open spec fn item_texts(items: Seq<NaturalOrderedStrItem<'_>>) -> Seq<Seq<char>> {
    Seq::new(items.len(), |i: int| items[i].text())
}

/// Whether `items` is the decomposition of the string `s` into its runs.
pub open spec fn is_decomposition(items: Seq<NaturalOrderedStrItem<'_>>, s: Seq<char>) -> bool {
    &&& is_run_split(item_texts(items), s)
    &&& forall|i: int| 0 <= i < items.len() ==> (#[trigger] items[i]).is_run()
}

/// A string cut into its runs of digits and its runs of other characters,
/// ready to be compared in the natural order. The runs are slices of the
/// string.
#[derive(Debug, PartialEq, Eq)]
pub struct NaturalOrderedStr<'a> {
    items: Vec<NaturalOrderedStrItem<'a>>,
    /// The runs as they were found, each with its characters, for comparing
    /// without decoding a slice again.
    chars: Vec<(bool, Vec<char>)>,
}

impl<'a> View for NaturalOrderedStr<'a> {
    type V = Seq<char>;

    /// The string that was decomposed.
    open spec fn view(&self) -> Seq<char> {
        item_texts(self.segments()).flatten()
    }
}

/// The characters of each run that a grouping gave, in order.
pub open spec fn run_texts(runs: Seq<(bool, Vec<char>)>) -> Seq<Seq<char>> {
    Seq::new(runs.len(), |i: int| runs[i].1@)
}

/// itertools' `group_by` on the characters of `value`, keyed by
/// `is_ascii_digit`: consecutive characters with the same key form one group.
/// The groups are handed back in order, each with its key and its characters,
/// so they cut `value` into its runs, and a group's key says whether the run
/// is made of digits.
#[verifier::external_body]
fn digit_runs(value: &str) -> (runs: Vec<(bool, Vec<char>)>)
    ensures
        is_run_split(run_texts(runs@), value@),
        forall|i: int| 0 <= i < runs@.len() ==> (#[trigger] runs@[i]).0 == is_digit(runs@[i].1@[0]),
{
    value.chars().group_by(|c| is_ascii_digit(*c)).into_iter().map(
        |(key, run)| (key, run.collect()),
    ).collect()
}

proof fn lemma_flatten_skip(texts: Seq<Seq<char>>, i: int)
    requires
        0 <= i < texts.len(),
    ensures
        texts.skip(i).flatten() == texts[i] + texts.skip(i + 1).flatten(),
{
    assert(texts.skip(i).first() == texts[i]);
    assert(texts.skip(i).drop_first() == texts.skip(i + 1));
}

proof fn lemma_digit_run_of_concat(t: Seq<char>, u: Seq<char>)
    requires
        all_digits(t),
        u.len() > 0 ==> !is_digit(u[0]),
    ensures
        digit_run_len(t + u) == t.len(),
    decreases t.len(),
{
    if t.len() == 0 {
        assert(t + u == u);
    } else {
        assert((t + u).skip(1) == t.skip(1) + u);
        assert forall|i: int| 0 <= i < t.skip(1).len() implies is_digit(#[trigger] t.skip(1)[i]) by {
            assert(t.skip(1)[i] == t[i + 1]);
        }
        lemma_digit_run_of_concat(t.skip(1), u);
    }
}

/// What is left of the flat string from offset `o` of piece `i` on.
spec fn rest(texts: Seq<Seq<char>>, i: int, o: int) -> Seq<char> {
    texts.skip(i).flatten().skip(o)
}

proof fn lemma_rest(texts: Seq<Seq<char>>, i: int, o: int)
    requires
        is_run_split(texts, texts.flatten()),
        0 <= i < texts.len(),
        0 <= o < texts[i].len(),
    ensures
        rest(texts, i, o).len() > 0,
        rest(texts, i, o)[0] == texts[i][o],
        rest(texts, i, o).skip(1) == if o + 1 < texts[i].len() {
            rest(texts, i, o + 1)
        } else {
            rest(texts, i + 1, 0)
        },
        o == 0 ==> rest(texts, i, 0) == texts[i] + rest(texts, i + 1, 0),
        rest(texts, i + 1, 0).len() > 0 ==> is_digit(rest(texts, i + 1, 0)[0]) != is_digit(
            texts[i][0],
        ),
{
    lemma_flatten_skip(texts, i);
    let tail = texts.skip(i + 1).flatten();
    assert(rest(texts, i + 1, 0) == tail);
    assert(rest(texts, i, 0) == texts[i] + tail);
    if o + 1 < texts[i].len() {
        assert(rest(texts, i, o).skip(1) == rest(texts, i, o + 1));
    } else {
        assert(rest(texts, i, o).skip(1) == tail);
    }
    if i + 1 < texts.len() {
        lemma_flatten_skip(texts, i + 1);
        assert(texts[i + 1].len() > 0);
        assert(tail[0] == texts[i + 1][0]);
    } else {
        assert(texts.skip(i + 1) == Seq::<Seq<char>>::empty());
    }
}

proof fn lemma_flatten_take(texts: Seq<Seq<char>>, i: int)
    requires
        0 <= i < texts.len(),
    ensures
        texts.flatten() == texts.take(i).flatten() + texts[i] + texts.skip(i + 1).flatten(),
        texts.take(i + 1).flatten() == texts.take(i).flatten() + texts[i],
{
    lemma_flatten_concat(texts.take(i), texts.skip(i));
    assert(texts.take(i) + texts.skip(i) == texts);
    lemma_flatten_skip(texts, i);
    assert(texts.take(i + 1) == texts.take(i).push(texts[i]));
    texts.take(i).lemma_flatten_push(texts[i]);
}

impl<'a> NaturalOrderedStr<'a> {
    /// The runs of the decomposed string, in order.
    pub closed spec fn segments(&self) -> Seq<NaturalOrderedStrItem<'a>> {
        self.items@
    }

    #[verifier::type_invariant]
    spec fn well_formed(&self) -> bool {
        &&& is_decomposition(self.items@, item_texts(self.items@).flatten())
        &&& run_texts(self.chars@) == item_texts(self.items@)
    }

    /// Decomposes `value` into its runs of digits and of other characters. A
    /// run of digits carries the number it writes, whatever its length.
    pub fn new(value: &'a str) -> (r: NaturalOrderedStr<'a>)
        ensures
            r@ == value@,
            is_decomposition(r.segments(), value@),
    {
        let runs = digit_runs(value);
        let ghost texts = run_texts(runs@);
        let n = value.unicode_len();
        let mut items: Vec<NaturalOrderedStrItem<'a>> = Vec::new();
        let mut start: usize = 0;
        let mut i: usize = 0;
        assert(texts.take(0).flatten() == Seq::<char>::empty());
        while i < runs.len()
            invariant
                i <= runs@.len(),
                n == value@.len(),
                texts == run_texts(runs@),
                is_run_split(texts, value@),
                forall|k: int|
                    0 <= k < runs@.len() ==> (#[trigger] runs@[k]).0 == is_digit(runs@[k].1@[0]),
                items@.len() == i,
                start <= n,
                value@.take(start as int) == texts.take(i as int).flatten(),
                forall|k: int|
                    0 <= k < i ==> (#[trigger] items@[k]).is_run() && items@[k].text() == texts[k],
            decreases runs@.len() - i,
        {
            proof {
                lemma_flatten_take(texts, i as int);
                assert(texts[i as int] == runs@[i as int].1@);
                assert(value@.len() == start + texts[i as int].len() + texts.skip(
                    i + 1,
                ).flatten().len());
            }
            let end = start + runs[i].1.len();
            let text = value.substring_char(start, end);
            proof {
                assert(text@ == texts[i as int]);
                assert(value@.take(end as int) == texts.take(i + 1).flatten());
                assert(texts[i as int].len() > 0);
            }
            let item = if runs[i].0 {
                assert(all_digits(text@)) by {
                    assert forall|j: int| 0 <= j < text@.len() implies is_digit(#[trigger] text@[j]) by {
                        assert(is_digit(texts[i as int][j]) == is_digit(texts[i as int][0]));
                    }
                }
                match Magnitude::parse(text) {
                    Some(number) => NaturalOrderedStrItem::Number(number, text),
                    None => unreached(),
                }
            } else {
                NaturalOrderedStrItem::String(text)
            };
            items.push(item);
            start = end;
            i += 1;
        }
        assert(item_texts(items@) == texts);
        NaturalOrderedStr { items, chars: runs }
    }

    /// The runs of the decomposed string.
    pub fn items(&self) -> (r: &Vec<NaturalOrderedStrItem<'a>>)
        ensures
            r@ == self.segments(),
    {
        &self.items
    }

    /// Compares two decomposed strings in the natural order.
    ///
    /// Each side has a cursor: the run it is in, and how far into the run.
    /// Two runs of digits that are met together are compared by their
    /// numbers; anywhere else one character is compared with one character.
    pub fn compare(&self, other: &NaturalOrderedStr<'_>) -> (r: Order)
        ensures
            r == natural_compare(self@, other@),
    {
        proof {
            use_type_invariant(self);
            use_type_invariant(other);
        }
        let ghost lt = item_texts(self.items@);
        let ghost rt = item_texts(other.items@);
        let n = self.items.len();
        let m = other.items.len();
        let mut li: usize = 0;
        let mut ri: usize = 0;
        let mut lo: usize = 0;
        let mut ro: usize = 0;
        assert(rest(lt, 0, 0) == self@) by {
            assert(lt.skip(0) == lt);
        }
        assert(rest(rt, 0, 0) == other@) by {
            assert(rt.skip(0) == rt);
        }
        loop
            invariant
                lt == item_texts(self.items@),
                rt == item_texts(other.items@),
                self.well_formed(),
                other.well_formed(),
                n == self.items@.len(),
                m == other.items@.len(),
                li <= n,
                ri <= m,
                li < n ==> lo < lt[li as int].len(),
                ri < m ==> ro < rt[ri as int].len(),
                li == n ==> lo == 0,
                ri == m ==> ro == 0,
                lo > 0 ==> !is_digit(lt[li as int][0]),
                ro > 0 ==> !is_digit(rt[ri as int][0]),
                natural_compare(self@, other@) == natural_compare(
                    rest(lt, li as int, lo as int),
                    rest(rt, ri as int, ro as int),
                ),
            decreases n - li, (if li < n { lt[li as int].len() - lo } else { 0 }),
        {
            if li == n || ri == m {
                proof {
                    if li == n {
                        assert(lt.skip(li as int) == Seq::<Seq<char>>::empty());
                    } else {
                        lemma_rest(lt, li as int, lo as int);
                    }
                    if ri == m {
                        assert(rt.skip(ri as int) == Seq::<Seq<char>>::empty());
                    } else {
                        lemma_rest(rt, ri as int, ro as int);
                    }
                }
                return if li < n {
                    Order::Greater
                } else if ri < m {
                    Order::Less
                } else {
                    Order::Equal
                };
            }
            proof {
                lemma_rest(lt, li as int, lo as int);
                lemma_rest(rt, ri as int, ro as int);
                assert(self.items@[li as int].is_run());
                assert(other.items@[ri as int].is_run());
                assert(lt[li as int] == self.items@[li as int].text());
                assert(rt[ri as int] == other.items@[ri as int].text());
                assert(self.chars@[li as int].1@ == run_texts(self.chars@)[li as int]);
                assert(other.chars@[ri as int].1@ == run_texts(other.chars@)[ri as int]);
            }
            let numbers = match (self.items[li].get_number(), other.items[ri].get_number()) {
                (Some(a), Some(b)) => Some(a.compare(b)),
                _ => None,
            };
            match numbers {
                Some(by_number) => {
                    proof {
                        let a = rest(lt, li as int, 0);
                        let b = rest(rt, ri as int, 0);
                        assert(all_digits(lt[li as int])) by {
                            assert forall|j: int| 0 <= j < lt[li as int].len() implies is_digit(
                                #[trigger] lt[li as int][j],
                            ) by {
                                assert(is_digit(lt[li as int][j]) == is_digit(lt[li as int][0]));
                            }
                        }
                        assert(all_digits(rt[ri as int])) by {
                            assert forall|j: int| 0 <= j < rt[ri as int].len() implies is_digit(
                                #[trigger] rt[ri as int][j],
                            ) by {
                                assert(is_digit(rt[ri as int][j]) == is_digit(rt[ri as int][0]));
                            }
                        }
                        lemma_digit_run_of_concat(lt[li as int], rest(lt, li + 1, 0));
                        lemma_digit_run_of_concat(rt[ri as int], rest(rt, ri + 1, 0));
                        assert(a.take(lt[li as int].len() as int) == lt[li as int]);
                        assert(b.take(rt[ri as int].len() as int) == rt[ri as int]);
                        assert(a.skip(lt[li as int].len() as int) == rest(lt, li + 1, 0));
                        assert(b.skip(rt[ri as int].len() as int) == rest(rt, ri + 1, 0));
                    }
                    match by_number {
                        Order::Equal => {
                            li += 1;
                            ri += 1;
                        },
                        _ => {
                            return by_number;
                        },
                    }
                },
                None => {
                    let lc = self.chars[li].1[lo];
                    let rc = other.chars[ri].1[ro];
                    assert(!(is_digit(lc) && is_digit(rc))) by {
                        assert(is_digit(lt[li as int][lo as int]) == is_digit(lt[li as int][0]));
                        assert(is_digit(rt[ri as int][ro as int]) == is_digit(rt[ri as int][0]));
                    }
                    if lc < rc {
                        return Order::Less;
                    }
                    if lc > rc {
                        return Order::Greater;
                    }
                    proof {
                        assert(is_digit(lt[li as int][lo as int]) == is_digit(lt[li as int][0]));
                        assert(is_digit(rt[ri as int][ro as int]) == is_digit(rt[ri as int][0]));
                    }
                    assert(lo < self.chars[li as int].1.len() && ro < other.chars[ri as int].1.len());
                    lo += 1;
                    ro += 1;
                    if lo == self.chars[li].1.len() {
                        li += 1;
                        lo = 0;
                    }
                    if ro == other.chars[ri].1.len() {
                        ri += 1;
                        ro = 0;
                    }
                },
            }
            proof {
                if li < n {
                    assert(lt[li as int].len() > 0);
                }
                if ri < m {
                    assert(rt[ri as int].len() > 0);
                }
            }
        }
    }

    /// Compares two decomposed strings in the natural order, with the
    /// standard `Ordering` for an outcome.
    pub fn cmp(&self, other: &NaturalOrderedStr<'_>) -> (r: Ordering)
        ensures
            r == ordering_of(natural_compare(self@, other@)),
    {
        match self.compare(other) {
            Order::Less => Ordering::Less,
            Order::Equal => Ordering::Equal,
            Order::Greater => Ordering::Greater,
        }
    }

    /// Compares two decomposed strings in the natural order; any two can be
    /// compared, so there always is an outcome.
    pub fn partial_cmp(&self, other: &NaturalOrderedStr<'_>) -> (r: Option<Ordering>)
        ensures
            r == Some(ordering_of(natural_compare(self@, other@))),
    {
        Some(self.cmp(other))
    }
}

} // verus!
