//! The order of paths, and sorting by it.

use vstd::prelude::*;
use vstd::set_lib::{lemma_int_range, lemma_len_subset, lemma_subset_equality, set_int_range};
use std::cmp::Ordering;
use crate::natural_ordered_str::{
    lemma_natural_compare_antisymmetric, lemma_natural_compare_transitive, natural_compare,
    NaturalOrderedStr,
};
use crate::order::{order_of, ordering_of, Order};
use crate::text::texts;

verus! {

/// What a path is sorted by: the segments of its directory and the name of
/// the file in it.
pub struct PathText {
    pub dir: Seq<Seq<char>>,
    pub name: Seq<char>,
}

/// The order of two directories: their segments are compared one by one in
/// the natural order, and the first pair that differs decides; a directory
/// that ends first comes first.
pub open spec fn compare_dirs(a: Seq<Seq<char>>, b: Seq<Seq<char>>) -> Order
    decreases a.len(),
{
    if a.len() == 0 || b.len() == 0 {
        order_of(a.len() as int, b.len() as int)
    } else if natural_compare(a[0], b[0]) != Order::Equal {
        natural_compare(a[0], b[0])
    } else {
        compare_dirs(a.skip(1), b.skip(1))
    }
}

/// The order of two paths: by directory first, then by name in the natural
/// order.
pub open spec fn compare_paths(a: PathText, b: PathText) -> Order {
    if compare_dirs(a.dir, b.dir) != Order::Equal {
        compare_dirs(a.dir, b.dir)
    } else {
        natural_compare(a.name, b.name)
    }
}

/// Exchanging two directories reverses the outcome.
pub proof fn lemma_compare_dirs_antisymmetric(a: Seq<Seq<char>>, b: Seq<Seq<char>>)
    ensures
        compare_dirs(b, a) == compare_dirs(a, b).reverse(),
    decreases a.len(),
{
    if a.len() > 0 && b.len() > 0 {
        lemma_natural_compare_antisymmetric(a[0], b[0]);
        lemma_compare_dirs_antisymmetric(a.skip(1), b.skip(1));
    }
}

/// The order of directories is transitive.
pub proof fn lemma_compare_dirs_transitive(a: Seq<Seq<char>>, b: Seq<Seq<char>>, c: Seq<Seq<char>>)
    requires
        compare_dirs(a, b) != Order::Greater,
        compare_dirs(b, c) != Order::Greater,
    ensures
        compare_dirs(a, c) != Order::Greater,
        compare_dirs(a, b) == Order::Less || compare_dirs(b, c) == Order::Less ==> compare_dirs(
            a,
            c,
        ) == Order::Less,
    decreases a.len(),
{
    if a.len() > 0 && b.len() > 0 && c.len() > 0 {
        lemma_natural_compare_transitive(a[0], b[0], c[0]);
        if natural_compare(a[0], b[0]) == Order::Equal && natural_compare(b[0], c[0])
            == Order::Equal {
            lemma_compare_dirs_transitive(a.skip(1), b.skip(1), c.skip(1));
        }
    }
}

/// Exchanging two paths reverses the outcome: the order of paths is
/// antisymmetric, and any two paths are comparable.
pub proof fn lemma_compare_paths_antisymmetric(a: PathText, b: PathText)
    ensures
        compare_paths(b, a) == compare_paths(a, b).reverse(),
{
    lemma_compare_dirs_antisymmetric(a.dir, b.dir);
    lemma_natural_compare_antisymmetric(a.name, b.name);
}

/// The order of paths is transitive.
pub proof fn lemma_compare_paths_transitive(a: PathText, b: PathText, c: PathText)
    requires
        compare_paths(a, b) != Order::Greater,
        compare_paths(b, c) != Order::Greater,
    ensures
        compare_paths(a, c) != Order::Greater,
        compare_paths(a, b) == Order::Less || compare_paths(b, c) == Order::Less ==> compare_paths(
            a,
            c,
        ) == Order::Less,
{
    lemma_compare_dirs_transitive(a.dir, b.dir, c.dir);
    if compare_dirs(a.dir, b.dir) == Order::Equal && compare_dirs(b.dir, c.dir) == Order::Equal {
        lemma_natural_compare_transitive(a.name, b.name, c.name);
    }
}

/// A path without a directory is ordered as its name is in the natural order.
pub proof fn lemma_compare_bare_names(a: Seq<char>, b: Seq<char>)
    ensures
        compare_paths(
            PathText { dir: Seq::empty(), name: a },
            PathText { dir: Seq::empty(), name: b },
        ) == natural_compare(a, b),
{
}

/// Whether `order` lists the positions `0..keys.len()`, each once, so that
/// the keys come in ascending order and keys that are equal in the order of
/// paths keep the order in which `keys` holds them.
pub open spec fn is_stable_sort(order: Seq<usize>, keys: Seq<PathText>) -> bool {
    &&& order.len() == keys.len()
    &&& forall|i: int| 0 <= i < order.len() ==> (#[trigger] order[i]) < keys.len()
    &&& forall|i: int, j: int|
        0 <= i < j < order.len() ==> (#[trigger] order[i]) != (#[trigger] order[j])
    &&& forall|i: int, j: int|
        0 <= i < j < order.len() ==> compare_paths(
            keys[(#[trigger] order[i]) as int],
            keys[(#[trigger] order[j]) as int],
        ) != Order::Greater
    &&& forall|i: int, j: int|
        0 <= i < j < order.len() && compare_paths(
            keys[(#[trigger] order[i]) as int],
            keys[(#[trigger] order[j]) as int],
        ) == Order::Equal ==> order[i] < order[j]
}

/// The one order that sorts `keys` and keeps equal keys in place.
pub open spec fn sorted_order(keys: Seq<PathText>) -> Seq<usize> {
    choose|order: Seq<usize>| is_stable_sort(order, keys)
}

/// The positions `0..n`, in order.
pub open spec fn identity_order(n: nat) -> Seq<usize> {
    Seq::new(n, |i: int| i as usize)
}

/// Whether the order of paths behaves as a total order on `keys`: exchanging
/// two keys reverses the outcome, and "not after" is transitive.
pub open spec fn is_total_order_on(keys: Seq<PathText>) -> bool {
    &&& forall|i: int, j: int|
        0 <= i < keys.len() && 0 <= j < keys.len() ==> #[trigger] compare_paths(keys[j], keys[i])
            == compare_paths(keys[i], keys[j]).reverse()
    &&& forall|i: int, j: int, k: int|
        0 <= i < keys.len() && 0 <= j < keys.len() && 0 <= k < keys.len() && #[trigger] compare_paths(
            keys[i],
            keys[j],
        ) != Order::Greater && #[trigger] compare_paths(keys[j], keys[k]) != Order::Greater
            ==> compare_paths(keys[i], keys[k]) != Order::Greater
}

/// The order of paths is a total order on any keys.
pub proof fn lemma_total_order_on(keys: Seq<PathText>)
    ensures
        is_total_order_on(keys),
{
    assert forall|i: int, j: int|
        0 <= i < keys.len() && 0 <= j < keys.len() implies #[trigger] compare_paths(
        keys[j],
        keys[i],
    ) == compare_paths(keys[i], keys[j]).reverse() by {
        lemma_compare_paths_antisymmetric(keys[i], keys[j]);
    }
    assert forall|i: int, j: int, k: int|
        0 <= i < keys.len() && 0 <= j < keys.len() && 0 <= k < keys.len() && #[trigger] compare_paths(
            keys[i],
            keys[j],
        ) != Order::Greater && #[trigger] compare_paths(keys[j], keys[k])
            != Order::Greater implies compare_paths(keys[i], keys[k]) != Order::Greater by {
        lemma_compare_paths_transitive(keys[i], keys[j], keys[k]);
    }
}

/// An order that sorts `keys` reaches every position.
pub proof fn lemma_stable_sort_onto(order: Seq<usize>, keys: Seq<PathText>, k: int)
    requires
        is_stable_sort(order, keys),
        0 <= k < keys.len(),
    ensures
        exists|i: int| 0 <= i < order.len() && order[i] == k,
{
    let n = keys.len() as int;
    let positions = Seq::new(order.len(), |i: int| order[i] as int);
    assert(positions.no_duplicates()) by {
        assert forall|i: int, j: int|
            0 <= i < positions.len() && 0 <= j < positions.len() && i != j implies positions[i]
            != positions[j] by {
            if i < j {
                assert(order[i] != order[j]);
            } else {
                assert(order[j] != order[i]);
            }
        }
    }
    positions.unique_seq_to_set();
    lemma_int_range(0, n);
    assert(positions.to_set().subset_of(set_int_range(0, n))) by {
        assert forall|x: int| positions.to_set().contains(x) implies set_int_range(0, n).contains(
            x,
        ) by {
            let i = choose|i: int| 0 <= i < positions.len() && positions[i] == x;
            assert(order[i] < keys.len());
        }
    }
    lemma_len_subset(positions.to_set(), set_int_range(0, n));
    lemma_subset_equality(positions.to_set(), set_int_range(0, n));
    assert(set_int_range(0, n).contains(k));
    assert(positions.to_set().contains(k));
    let i = choose|i: int| 0 <= i < positions.len() && positions[i] == k;
    assert(order[i] == k);
}

proof fn lemma_stable_sorts_agree(p: Seq<usize>, q: Seq<usize>, keys: Seq<PathText>, upto: int)
    requires
        is_stable_sort(p, keys),
        is_stable_sort(q, keys),
        0 <= upto <= keys.len(),
    ensures
        forall|j: int| 0 <= j < upto ==> p[j] == q[j],
    decreases upto,
{
    if upto > 0 {
        lemma_stable_sorts_agree(p, q, keys, upto - 1);
        let t = upto - 1;
        if p[t] != q[t] {
            let x = p[t] as int;
            let y = q[t] as int;
            lemma_stable_sort_onto(q, keys, x);
            let jq = choose|i: int| 0 <= i < q.len() && q[i] == x;
            lemma_stable_sort_onto(p, keys, y);
            let jp = choose|i: int| 0 <= i < p.len() && p[i] == y;
            if jq < t {
                assert(p[jq] == q[jq]);
                assert(p[jq] != p[t]);
            }
            if jp < t {
                assert(p[jp] == q[jp]);
                assert(q[jp] != q[t]);
            }
            assert(t < jq && t < jp);
            assert(compare_paths(keys[q[t] as int], keys[q[jq] as int]) != Order::Greater);
            assert(compare_paths(keys[p[t] as int], keys[p[jp] as int]) != Order::Greater);
            lemma_compare_paths_antisymmetric(keys[x], keys[y]);
            assert(compare_paths(keys[x], keys[y]) == Order::Equal);
            assert(q[t] < q[jq]);
            assert(p[t] < p[jp]);
        }
    }
}

/// Only one order sorts `keys` and keeps equal keys in place.
pub proof fn lemma_stable_sort_unique(p: Seq<usize>, q: Seq<usize>, keys: Seq<PathText>)
    requires
        is_stable_sort(p, keys),
        is_stable_sort(q, keys),
    ensures
        p == q,
{
    lemma_stable_sorts_agree(p, q, keys, keys.len() as int);
    assert(p =~= q);
}

/// An order that sorts `keys` and keeps equal keys in place is the sorted
/// order of `keys`.
pub proof fn lemma_sorted_order_is(order: Seq<usize>, keys: Seq<PathText>)
    requires
        is_stable_sort(order, keys),
    ensures
        order == sorted_order(keys),
        is_stable_sort(sorted_order(keys), keys),
{
    lemma_stable_sort_unique(order, sorted_order(keys), keys);
}

/// Where a new key goes among sorted ones: the first position from `from` on
/// whose key comes after `key`, or the end.
spec fn insertion_point(order: Seq<usize>, keys: Seq<PathText>, key: PathText, from: int) -> int
    decreases order.len() - from,
{
    if from < 0 || from >= order.len() {
        order.len() as int
    } else if compare_paths(keys[order[from] as int], key) == Order::Greater {
        from
    } else {
        insertion_point(order, keys, key, from + 1)
    }
}

proof fn lemma_insertion_point(order: Seq<usize>, keys: Seq<PathText>, key: PathText, from: int)
    requires
        0 <= from <= order.len(),
    ensures
        from <= insertion_point(order, keys, key, from) <= order.len(),
        forall|i: int|
            from <= i < insertion_point(order, keys, key, from) ==> compare_paths(
                keys[(#[trigger] order[i]) as int],
                key,
            ) != Order::Greater,
        insertion_point(order, keys, key, from) < order.len() ==> compare_paths(
            keys[order[insertion_point(order, keys, key, from)] as int],
            key,
        ) == Order::Greater,
    decreases order.len() - from,
{
    if from < order.len() && compare_paths(keys[order[from] as int], key) != Order::Greater {
        lemma_insertion_point(order, keys, key, from + 1);
    }
}

/// `order` with the position `last` put in at the place `at`.
spec fn inserted(order: Seq<usize>, at: int, last: usize) -> Seq<usize> {
    Seq::new(
        order.len() + 1,
        |i: int|
            if i < at {
                order[i]
            } else if i == at {
                last
            } else {
                order[i - 1]
            },
    )
}

/// Whether `at` is where the last key goes among the others, sorted by
/// `order`.
spec fn is_insertion_point(order: Seq<usize>, keys: Seq<PathText>, at: int) -> bool {
    &&& keys.len() >= 1
    &&& is_stable_sort(order, keys.drop_last())
    &&& 0 <= at <= order.len()
    &&& forall|i: int|
        0 <= i < at ==> compare_paths(keys[(#[trigger] order[i]) as int], keys.last())
            != Order::Greater
    &&& at < order.len() ==> compare_paths(keys[order[at] as int], keys.last()) == Order::Greater
}

proof fn lemma_inserted_pair(order: Seq<usize>, keys: Seq<PathText>, at: int, i: int, j: int)
    requires
        keys.len() <= usize::MAX,
        is_insertion_point(order, keys, at),
        0 <= i < j <= order.len(),
    ensures
        ({
            let q = inserted(order, at, (keys.len() - 1) as usize);
            &&& q[i] != q[j]
            &&& q[i] < keys.len()
            &&& q[j] < keys.len()
            &&& compare_paths(keys[q[i] as int], keys[q[j] as int]) != Order::Greater
            &&& compare_paths(keys[q[i] as int], keys[q[j] as int]) == Order::Equal ==> q[i] < q[j]
        }),
{
    let head = keys.drop_last();
    let last = (keys.len() - 1) as usize;
    let q = inserted(order, at, last);
    if j < at {
        assert(q[i] == order[i] && q[j] == order[j]);
        assert(head[order[i] as int] == keys[order[i] as int]);
        assert(head[order[j] as int] == keys[order[j] as int]);
    } else if j == at {
        assert(q[i] == order[i] && q[j] == last);
        assert(order[i] < head.len());
    } else if i < at {
        assert(q[i] == order[i] && q[j] == order[j - 1]);
        assert(head[order[i] as int] == keys[order[i] as int]);
        assert(head[order[j - 1] as int] == keys[order[j - 1] as int]);
    } else if i == at {
        assert(q[i] == last && q[j] == order[j - 1]);
        assert(order[j - 1] < head.len());
        assert(order[at] < head.len());
        lemma_compare_paths_antisymmetric(keys[order[at] as int], keys[last as int]);
        if j - 1 > at {
            assert(head[order[at] as int] == keys[order[at] as int]);
            assert(head[order[j - 1] as int] == keys[order[j - 1] as int]);
            assert(compare_paths(head[order[at] as int], head[order[j - 1] as int])
                != Order::Greater);
            lemma_compare_paths_transitive(
                keys[last as int],
                keys[order[at] as int],
                keys[order[j - 1] as int],
            );
        }
    } else {
        assert(q[i] == order[i - 1] && q[j] == order[j - 1]);
        assert(head[order[i - 1] as int] == keys[order[i - 1] as int]);
        assert(head[order[j - 1] as int] == keys[order[j - 1] as int]);
    }
}

proof fn lemma_inserted_sorts(order: Seq<usize>, keys: Seq<PathText>, at: int)
    requires
        keys.len() <= usize::MAX,
        is_insertion_point(order, keys, at),
    ensures
        is_stable_sort(inserted(order, at, (keys.len() - 1) as usize), keys),
{
    let last = (keys.len() - 1) as usize;
    let q = inserted(order, at, last);
    assert forall|i: int| 0 <= i < q.len() implies (#[trigger] q[i]) < keys.len() by {
        if i < at {
            assert(order[i] < keys.drop_last().len());
        } else if i > at {
            assert(order[i - 1] < keys.drop_last().len());
        }
    }
    assert forall|i: int, j: int| 0 <= i < j < q.len() implies (#[trigger] q[i]) != (
    #[trigger] q[j]) by {
        lemma_inserted_pair(order, keys, at, i, j);
    }
    assert forall|i: int, j: int| 0 <= i < j < q.len() implies compare_paths(
        keys[(#[trigger] q[i]) as int],
        keys[(#[trigger] q[j]) as int],
    ) != Order::Greater by {
        lemma_inserted_pair(order, keys, at, i, j);
    }
    assert forall|i: int, j: int|
        0 <= i < j < q.len() && compare_paths(
            keys[(#[trigger] q[i]) as int],
            keys[(#[trigger] q[j]) as int],
        ) == Order::Equal implies q[i] < q[j] by {
        lemma_inserted_pair(order, keys, at, i, j);
    }
}

/// Any keys can be sorted: the sorted order of `keys` does sort them and
/// keeps equal keys in place.
pub proof fn lemma_sorted_order_sorts(keys: Seq<PathText>)
    requires
        keys.len() <= usize::MAX,
    ensures
        is_stable_sort(sorted_order(keys), keys),
    decreases keys.len(),
{
    if keys.len() == 0 {
        lemma_sorted_order_is(Seq::<usize>::empty(), keys);
    } else {
        lemma_sorted_order_sorts(keys.drop_last());
        let p = sorted_order(keys.drop_last());
        let at = insertion_point(p, keys, keys.last(), 0);
        lemma_insertion_point(p, keys, keys.last(), 0);
        lemma_inserted_sorts(p, keys, at);
        lemma_sorted_order_is(inserted(p, at, (keys.len() - 1) as usize), keys);
    }
}

/// Keys that already stand in ascending order are left where they are.
pub proof fn lemma_sorted_keys_stay(keys: Seq<PathText>)
    requires
        keys.len() <= usize::MAX,
        forall|i: int, j: int|
            0 <= i < j < keys.len() ==> #[trigger] compare_paths(keys[i], keys[j])
                != Order::Greater,
    ensures
        sorted_order(keys) == identity_order(keys.len()),
{
    let order = identity_order(keys.len());
    assert(is_stable_sort(order, keys));
    lemma_sorted_order_is(order, keys);
}

/// The key by which one path is sorted, decomposed once for many
/// comparisons.
#[derive(Debug)]
pub struct PathKey<'a> {
    dir: Vec<NaturalOrderedStr<'a>>,
    name: NaturalOrderedStr<'a>,
}

impl<'a> View for PathKey<'a> {
    type V = PathText;

    closed spec fn view(&self) -> PathText {
        PathText { dir: Seq::new(self.dir@.len(), |i: int| self.dir@[i]@), name: self.name@ }
    }
}

/// What a list of keys stands for, key by key.
pub open spec fn key_texts(keys: Seq<PathKey<'_>>) -> Seq<PathText> {
    Seq::new(keys.len(), |i: int| keys[i]@)
}

impl<'a> PathKey<'a> {
    /// The key of the file called `name` in the directory with the segments
    /// `dir`.
    pub fn new(dir: &'a [String], name: &'a str) -> (key: PathKey<'a>)
        ensures
            key@ == (PathText { dir: texts(dir@), name: name@ }),
    {
        let mut segments: Vec<NaturalOrderedStr<'a>> = Vec::new();
        let mut i: usize = 0;
        while i < dir.len()
            invariant
                i <= dir@.len(),
                segments@.len() == i,
                forall|k: int| 0 <= k < i ==> (#[trigger] segments@[k])@ == dir@[k]@,
            decreases dir@.len() - i,
        {
            segments.push(NaturalOrderedStr::new(dir[i].as_str()));
            i += 1;
        }
        let key = PathKey { dir: segments, name: NaturalOrderedStr::new(name) };
        assert(key@.dir =~= texts(dir@));
        key
    }

    /// Compares two keys in the order of paths.
    pub fn compare(&self, other: &PathKey<'_>) -> (r: Order)
        ensures
            r == compare_paths(self@, other@),
    {
        let n = self.dir.len();
        let m = other.dir.len();
        let mut i: usize = 0;
        assert(self@.dir.skip(0) == self@.dir);
        assert(other@.dir.skip(0) == other@.dir);
        while i < n && i < m
            invariant
                n == self.dir@.len(),
                m == other.dir@.len(),
                i <= n,
                i <= m,
                compare_dirs(self@.dir, other@.dir) == compare_dirs(
                    self@.dir.skip(i as int),
                    other@.dir.skip(i as int),
                ),
            decreases n - i,
        {
            assert(self@.dir.skip(i as int).skip(1) == self@.dir.skip(i + 1));
            assert(other@.dir.skip(i as int).skip(1) == other@.dir.skip(i + 1));
            assert(self@.dir.skip(i as int)[0] == self.dir@[i as int]@);
            assert(other@.dir.skip(i as int)[0] == other.dir@[i as int]@);
            match self.dir[i].compare(&other.dir[i]) {
                Order::Equal => {},
                decided => {
                    return decided;
                },
            }
            i += 1;
        }
        if i < m {
            Order::Less
        } else if i < n {
            Order::Greater
        } else {
            self.name.compare(&other.name)
        }
    }

    /// Compares two keys in the order of paths.
    pub fn cmp(&self, other: &PathKey<'_>) -> (r: Ordering)
        ensures
            r == ordering_of(compare_paths(self@, other@)),
    {
        match self.compare(other) {
            Order::Less => Ordering::Less,
            Order::Equal => Ordering::Equal,
            Order::Greater => Ordering::Greater,
        }
    }
}

/// std's `sort_by` on a slice, with `PathKey::cmp` on the keys at two
/// positions as the comparison. The sort is stable: it orders the positions
/// by their keys and does not reorder positions whose keys are equal. std
/// may panic where the comparison is no total order, which `requires` leaves
/// out, as it does a position outside `keys`.
#[verifier::external_body]
fn sort_by_key(order: &mut Vec<usize>, keys: &Vec<PathKey<'_>>)
    requires
        old(order)@ == identity_order(keys@.len()),
        is_total_order_on(key_texts(keys@)),
    ensures
        is_stable_sort(final(order)@, key_texts(keys@)),
{
    order.sort_by(|a, b| keys[*a].cmp(&keys[*b]));
}

/// The order that sorts `keys`: the positions of the keys, ascending by key,
/// with equal keys in the order in which `keys` holds them.
pub fn sort_keys(keys: &Vec<PathKey<'_>>) -> (order: Vec<usize>)
    ensures
        is_stable_sort(order@, key_texts(keys@)),
        order@ == sorted_order(key_texts(keys@)),
{
    let mut order: Vec<usize> = Vec::new();
    let mut i: usize = 0;
    while i < keys.len()
        invariant
            i <= keys@.len(),
            order@ == identity_order(i as nat),
        decreases keys@.len() - i,
    {
        order.push(i);
        assert(order@ =~= identity_order((i + 1) as nat));
        i += 1;
    }
    proof {
        lemma_total_order_on(key_texts(keys@));
    }
    sort_by_key(&mut order, keys);
    proof {
        lemma_sorted_order_is(order@, key_texts(keys@));
    }
    order
}

} // verus!
