//! Derives, for a batch of file paths, one record for each file: its path,
//! its normalized name, what distinguishes the name within the batch, the
//! reading of the name, and a category made from its directory. The batch is
//! sorted in the natural order, in which a run of digits counts as one number.

pub mod affix;
pub mod magnitude;
pub mod natural_ordered_str;
pub mod normalize;
pub mod order;
pub mod path_key;
pub mod text;
pub mod token;

use vstd::prelude::*;
use vstd::slice::slice_subrange;
use vstd::string::*;
use lindera::error::LinderaError;
use lindera::segmenter::Segmenter;
use std::borrow::Cow;
use crate::affix::{lemma_own_mask_strips_all, mask, mask_digits, strip, strip_affixes};
use crate::natural_ordered_str::natural_compare;
use crate::normalize::{nfkc, normalize};
use crate::order::Order;
use crate::path_key::{
    compare_paths, is_stable_sort, key_texts, lemma_compare_bare_names, lemma_sorted_keys_stay,
    lemma_sorted_order_sorts, lemma_stable_sort_onto, sort_keys, sorted_order, PathKey, PathText,
};
use crate::text::{
    as_str, common_prefix, common_suffix, file_stem, join, join_separated, lemma_common_prefix_is_common,
    lemma_common_prefix_is_longest, lemma_common_suffix_is_common, lemma_common_suffix_is_longest,
    lemma_split_join, replace, replace_all, split, stem_of, str_common_prefix, str_common_suffix,
    texts,
};
use crate::token::{derive_ruby, ruby_of, tokenize, Token};

verus! {

/// The record derived for one file of a batch.
#[derive(Debug, Default, PartialEq, Eq)]
pub struct Entry {
    /// The segments of the path, joined with `'/'`.
    pub path: String,
    /// The stem of the file name, normalized.
    pub name: String,
    /// The name without what all names of the batch share at either end.
    pub text: String,
    /// The reading of the name.
    pub ruby: String,
    /// The category pattern with the directory in place of `${DIR}`.
    pub category: String,
}

/// What an entry holds of a path, but for the reading.
pub struct EntryText {
    pub path: Seq<char>,
    pub name: Seq<char>,
    pub text: Seq<char>,
    pub category: Seq<char>,
}

impl Entry {
    /// What the entry holds, but for the reading.
    pub open spec fn derived(&self) -> EntryText {
        EntryText {
            path: self.path@,
            name: self.name@,
            text: self.text@,
            category: self.category@,
        }
    }

    /// The five fields in the order path, name, text, ruby, category.
    pub fn into_array(self) -> (fields: [String; 5])
        ensures
            fields@ == seq![self.path, self.name, self.text, self.ruby, self.category],
    {
        [self.path, self.name, self.text, self.ruby, self.category]
    }
}

/// What a list of entries holds, entry by entry, but for the readings.
pub open spec fn entry_texts(entries: Seq<Entry>) -> Seq<EntryText> {
    Seq::new(entries.len(), |i: int| entries[i].derived())
}

/// The paths of a batch as sequences of segments.
pub open spec fn paths_of(list: Seq<Vec<String>>) -> Seq<Seq<Seq<char>>> {
    Seq::new(list.len(), |i: int| texts(list[i]@))
}

/// The placeholder that a category pattern holds for the directory.
pub open spec fn placeholder() -> Seq<char> {
    "${DIR}"@
}

/// The name of the file of a path: the stem of its last segment, normalized.
pub open spec fn name_of(path: Seq<Seq<char>>) -> Seq<char> {
    file_stem(nfkc(path.last()))
}

/// The key by which a path is sorted: its segments but the last, and the name
/// of its file.
pub open spec fn key_of(path: Seq<Seq<char>>) -> PathText {
    PathText { dir: path.drop_last(), name: name_of(path) }
}

/// The keys of the paths of a batch.
pub open spec fn keys_of(paths: Seq<Seq<Seq<char>>>) -> Seq<PathText> {
    Seq::new(paths.len(), |i: int| key_of(paths[i]))
}

/// The masks of the names of a batch.
pub open spec fn masks_of(paths: Seq<Seq<Seq<char>>>) -> Seq<Seq<char>> {
    Seq::new(paths.len(), |i: int| mask(name_of(paths[i])))
}

/// The longest string that all of `items` start with.
pub open spec fn common_prefix_of(items: Seq<Seq<char>>) -> Seq<char>
    decreases items.len(),
{
    if items.len() == 0 {
        Seq::empty()
    } else if items.len() == 1 {
        items[0]
    } else {
        common_prefix(common_prefix_of(items.drop_last()), items.last())
    }
}

/// The longest string that all of `items` end with.
pub open spec fn common_suffix_of(items: Seq<Seq<char>>) -> Seq<char>
    decreases items.len(),
{
    if items.len() == 0 {
        Seq::empty()
    } else if items.len() == 1 {
        items[0]
    } else {
        common_suffix(common_suffix_of(items.drop_last()), items.last())
    }
}

/// What is derived for the path at position `k` of a batch.
pub open spec fn entry_of(paths: Seq<Seq<Seq<char>>>, pattern: Seq<char>, k: int) -> EntryText {
    EntryText {
        path: join(paths[k], '/'),
        name: name_of(paths[k]),
        text: strip_affixes(
            name_of(paths[k]),
            common_prefix_of(masks_of(paths)),
            common_suffix_of(masks_of(paths)),
        ),
        category: replace_all(pattern, placeholder(), join(paths[k].drop_last(), '/')),
    }
}

/// What is derived for a batch: one entry for each path, in the sorted order
/// of the paths.
pub open spec fn batch(paths: Seq<Seq<Seq<char>>>, pattern: Seq<char>) -> Seq<EntryText> {
    Seq::new(
        paths.len(),
        |i: int| entry_of(paths, pattern, sorted_order(keys_of(paths))[i] as int),
    )
}

/// Whether a batch can be processed: it holds a path, and every path holds a
/// segment.
pub open spec fn is_batch(list: Seq<Vec<String>>) -> bool {
    &&& list.len() > 0
    &&& forall|i: int| 0 <= i < list.len() ==> (#[trigger] list[i])@.len() > 0
}

/// Derives the entries of a batch, but for their readings, which are left
/// empty.
pub fn derive_entries(list: &Vec<Vec<String>>, cat_pattern: &str) -> (entries: Vec<Entry>)
    requires
        is_batch(list@),
    ensures
        entry_texts(entries@) == batch(paths_of(list@), cat_pattern@),
        forall|i: int| 0 <= i < entries@.len() ==> (#[trigger] entries@[i]).ruby@.len() == 0,
{
    let ghost paths = paths_of(list@);
    let n = list.len();
    let mut names: Vec<String> = Vec::new();
    let mut i: usize = 0;
    while i < n
        invariant
            n == list@.len(),
            is_batch(list@),
            paths == paths_of(list@),
            i <= n,
            names@.len() == i,
            forall|k: int| 0 <= k < i ==> (#[trigger] names@[k])@ == name_of(paths[k]),
        decreases n - i,
    {
        let path = list[i].as_slice();
        let normalized = normalize(path[path.len() - 1].as_str());
        proof {
            assert(paths[i as int] == texts(path@));
            assert(paths[i as int].last() == path@[path@.len() - 1]@);
        }
        names.push(stem_of(normalized.as_str()).to_owned());
        i += 1;
    }
    let mut keys: Vec<PathKey> = Vec::new();
    let mut i: usize = 0;
    while i < n
        invariant
            n == list@.len(),
            is_batch(list@),
            paths == paths_of(list@),
            i <= n,
            names@.len() == n,
            keys@.len() == i,
            forall|k: int| 0 <= k < n ==> (#[trigger] names@[k])@ == name_of(paths[k]),
            forall|k: int| 0 <= k < i ==> (#[trigger] keys@[k])@ == key_of(paths[k]),
        decreases n - i,
    {
        let path = list[i].as_slice();
        let dir = slice_subrange(path, 0, path.len() - 1);
        proof {
            assert(paths[i as int] == texts(path@));
            assert(texts(dir@) =~= paths[i as int].drop_last());
        }
        keys.push(PathKey::new(dir, names[i].as_str()));
        i += 1;
    }
    assert(key_texts(keys@) =~= keys_of(paths));
    let order = sort_keys(&keys);

    let first = mask_digits(names[0].as_str());
    let mut prefix: Cow<str> = Cow::Borrowed(first.as_str());
    let mut suffix: Cow<str> = Cow::Borrowed(first.as_str());
    let mut i: usize = 1;
    assert(masks_of(paths).take(1) =~= seq![first@]);
    while i < n
        invariant
            n == list@.len(),
            paths == paths_of(list@),
            1 <= i <= n,
            names@.len() == n,
            forall|k: int| 0 <= k < n ==> (#[trigger] names@[k])@ == name_of(paths[k]),
            prefix@ == common_prefix_of(masks_of(paths).take(i as int)),
            suffix@ == common_suffix_of(masks_of(paths).take(i as int)),
        decreases n - i,
    {
        let masked = mask_digits(names[i].as_str());
        proof {
            let next = masks_of(paths).take(i + 1);
            assert(next.drop_last() == masks_of(paths).take(i as int));
            assert(next.last() == masked@);
        }
        prefix = str_common_prefix(prefix, masked.as_str());
        suffix = str_common_suffix(suffix, masked.as_str());
        i += 1;
    }
    assert(masks_of(paths).take(n as int) == masks_of(paths));

    let mut entries: Vec<Entry> = Vec::new();
    let mut i: usize = 0;
    while i < n
        invariant
            n == list@.len(),
            is_batch(list@),
            paths == paths_of(list@),
            i <= n,
            names@.len() == n,
            forall|k: int| 0 <= k < n ==> (#[trigger] names@[k])@ == name_of(paths[k]),
            prefix@ == common_prefix_of(masks_of(paths)),
            suffix@ == common_suffix_of(masks_of(paths)),
            order@ == sorted_order(keys_of(paths)),
            is_stable_sort(order@, keys_of(paths)),
            entries@.len() == i,
            forall|k: int|
                0 <= k < i ==> (#[trigger] entries@[k]).derived() == entry_of(
                    paths,
                    cat_pattern@,
                    order@[k] as int,
                ) && entries@[k].ruby@.len() == 0,
        decreases n - i,
    {
        let k = order[i];
        assert(k < n);
        let path = list[k].as_slice();
        let dir = join_separated(slice_subrange(path, 0, path.len() - 1), '/');
        proof {
            assert(paths[k as int] == texts(path@));
            assert(texts(path@.subrange(0, path@.len() - 1)) =~= paths[k as int].drop_last());
        }
        let entry = Entry {
            path: join_separated(path, '/'),
            name: names[k].clone(),
            text: strip(names[k].as_str(), as_str(&prefix), as_str(&suffix)).to_owned(),
            ruby: String::new(),
            category: replace(cat_pattern, "${DIR}", dir.as_str()),
        };
        entries.push(entry);
        i += 1;
    }
    assert(entry_texts(entries@) =~= batch(paths, cat_pattern@));
    entries
}

/// Why a batch could not be processed.
#[derive(Debug)]
pub enum ProcessError {
    /// The batch holds no path.
    EmptyBatch,
    /// A path of the batch holds no segment.
    EmptyPath,
    /// The tokenizer failed on a name.
    Tokenizer(LinderaError),
}

/// Gives each entry its reading: that of the tokens that stand at its place
/// in `tokens`. An entry for which `tokens` holds nothing is left as it is.
pub fn attach_rubies(entries: Vec<Entry>, tokens: &Vec<Vec<Token>>) -> (read: Vec<Entry>)
    ensures
        entry_texts(read@) == entry_texts(entries@),
        forall|i: int|
            0 <= i < read@.len() ==> (#[trigger] read@[i]).ruby@ == if i < tokens@.len() {
                ruby_of(tokens@[i]@)
            } else {
                entries@[i].ruby@
            },
{
    let ghost given = entries@;
    let mut read: Vec<Entry> = Vec::new();
    for entry in it: entries
        invariant
            it.seq() == given,
            read@.len() == it.index(),
            forall|k: int|
                0 <= k < it.index() ==> (#[trigger] read@[k]).derived() == given[k].derived()
                    && read@[k].ruby@ == if k < tokens@.len() {
                    ruby_of(tokens@[k]@)
                } else {
                    given[k].ruby@
                },
    {
        let i = read.len();
        let ruby = if i < tokens.len() {
            derive_ruby(&tokens[i])
        } else {
            entry.ruby
        };
        read.push(
            Entry {
                path: entry.path,
                name: entry.name,
                text: entry.text,
                ruby,
                category: entry.category,
            },
        );
    }
    assert(entry_texts(read@) =~= entry_texts(given));
    read
}

/// Derives the entries of a batch: one for each path, in the sorted order of
/// the paths. The reading of each name is made of the tokens that `segmenter`
/// finds in it; where the segmenter fails on a name, its error is handed back
/// and no entry is.
pub fn process_path_list(list: &Vec<Vec<String>>, cat_pattern: &str, segmenter: &Segmenter) -> (r:
    Result<Vec<Entry>, LinderaError>)
    requires
        is_batch(list@),
    ensures
        r matches Ok(entries) ==> entry_texts(entries@) == batch(paths_of(list@), cat_pattern@),
{
    let entries = derive_entries(list, cat_pattern);
    let mut tokens: Vec<Vec<Token>> = Vec::new();
    let mut i: usize = 0;
    while i < entries.len()
        invariant
            i <= entries@.len(),
        decreases entries@.len() - i,
    {
        match tokenize(segmenter, entries[i].name.as_str()) {
            Ok(found) => {
                tokens.push(found);
            },
            Err(error) => {
                return Err(error);
            },
        }
        i += 1;
    }
    Ok(attach_rubies(entries, &tokens))
}

/// Tells whether a batch can be processed, and if not, why.
pub fn check_batch(list: &Vec<Vec<String>>) -> (r: Result<(), ProcessError>)
    ensures
        is_batch(list@) <==> r is Ok,
        list@.len() == 0 <==> r matches Err(ProcessError::EmptyBatch),
        list@.len() > 0 && !is_batch(list@) <==> r matches Err(ProcessError::EmptyPath),
{
    if list.len() == 0 {
        return Err(ProcessError::EmptyBatch);
    }
    let mut i: usize = 0;
    while i < list.len()
        invariant
            i <= list@.len(),
            forall|k: int| 0 <= k < i ==> (#[trigger] list@[k])@.len() > 0,
        decreases list@.len() - i,
    {
        if list[i].len() == 0 {
            return Err(ProcessError::EmptyPath);
        }
        i += 1;
    }
    Ok(())
}

/// What a row of five fields holds, but for the reading.
pub open spec fn row_text(row: [String; 5]) -> EntryText {
    EntryText { path: row@[0]@, name: row@[1]@, text: row@[2]@, category: row@[4]@ }
}

/// What a list of rows holds, row by row, but for the readings.
pub open spec fn row_texts(rows: Seq<[String; 5]>) -> Seq<EntryText> {
    Seq::new(rows.len(), |i: int| row_text(rows[i]))
}

/// Processes a batch of paths, each given by its segments, into one row of
/// five fields for each path: path, name, text, ruby and category. A batch
/// without a path and a path without a segment are refused; beyond that only
/// the tokenizer can fail.
pub fn process(list: &Vec<Vec<String>>, cat_pattern: &str, segmenter: &Segmenter) -> (r: Result<
    Vec<[String; 5]>,
    ProcessError,
>)
    ensures
        list@.len() == 0 ==> r matches Err(ProcessError::EmptyBatch),
        list@.len() > 0 && !is_batch(list@) ==> r matches Err(ProcessError::EmptyPath),
        is_batch(list@) ==> {
            ||| r matches Err(ProcessError::Tokenizer(_))
            ||| r matches Ok(rows) && row_texts(rows@) == batch(paths_of(list@), cat_pattern@)
        },
{
    match check_batch(list) {
        Ok(()) => {},
        Err(error) => {
            return Err(error);
        },
    }
    match process_path_list(list, cat_pattern, segmenter) {
        Ok(entries) => {
            let ghost expected = entry_texts(entries@);
            let mut rows: Vec<[String; 5]> = Vec::new();
            for entry in it: entries
                invariant
                    entry_texts(it.seq()) == expected,
                    rows@.len() == it.index(),
                    forall|k: int| 0 <= k < it.index() ==> row_text(#[trigger] rows@[k]) == expected[k],
            {
                assert(entry.derived() == expected[it.index()]);
                rows.push(entry.into_array());
            }
            assert(row_texts(rows@) =~= expected);
            Ok(rows)
        },
        Err(error) => Err(ProcessError::Tokenizer(error)),
    }
}

/// The keys of bare names: each name as a path without a directory.
pub open spec fn name_keys(names: Seq<Seq<char>>) -> Seq<PathText> {
    Seq::new(names.len(), |i: int| PathText { dir: Seq::empty(), name: names[i] })
}

/// The order that sorts `list` in the natural order: the positions of its
/// strings, ascending, with strings that are equal in the natural order in
/// the order in which `list` holds them. `list` itself is left as it is.
pub fn natural_sort(list: &Vec<String>) -> (order: Vec<usize>)
    ensures
        order@ == sorted_order(name_keys(texts(list@))),
        order@.len() == list@.len(),
        forall|i: int| 0 <= i < order@.len() ==> (#[trigger] order@[i]) < list@.len(),
        forall|i: int, j: int|
            0 <= i < j < order@.len() ==> (#[trigger] order@[i]) != (#[trigger] order@[j]),
        forall|i: int, j: int|
            0 <= i < j < order@.len() ==> natural_compare(
                list@[(#[trigger] order@[i]) as int]@,
                list@[(#[trigger] order@[j]) as int]@,
            ) != Order::Greater,
        forall|i: int, j: int|
            0 <= i < j < order@.len() && natural_compare(
                list@[(#[trigger] order@[i]) as int]@,
                list@[(#[trigger] order@[j]) as int]@,
            ) == Order::Equal ==> order@[i] < order@[j],
{
    let none: Vec<String> = Vec::new();
    let mut keys: Vec<PathKey> = Vec::new();
    let mut i: usize = 0;
    while i < list.len()
        invariant
            i <= list@.len(),
            none@.len() == 0,
            keys@.len() == i,
            forall|k: int|
                0 <= k < i ==> (#[trigger] keys@[k])@ == (PathText {
                    dir: Seq::empty(),
                    name: list@[k]@,
                }),
        decreases list@.len() - i,
    {
        let key = PathKey::new(none.as_slice(), list[i].as_str());
        assert(texts(none@) =~= Seq::<Seq<char>>::empty());
        keys.push(key);
        i += 1;
    }
    assert(key_texts(keys@) =~= name_keys(texts(list@)));
    let order = sort_keys(&keys);
    proof {
        let named = name_keys(texts(list@));
        assert forall|i: int, j: int| 0 <= i < j < order@.len() implies natural_compare(
            list@[(#[trigger] order@[i]) as int]@,
            list@[(#[trigger] order@[j]) as int]@,
        ) == compare_paths(named[order@[i] as int], named[order@[j] as int]) by {
            lemma_compare_bare_names(list@[order@[i] as int]@, list@[order@[j] as int]@);
        }
    }
    order
}

/// All of `items` start with their common prefix.
pub proof fn lemma_common_prefix_of_is_common(items: Seq<Seq<char>>, i: int)
    requires
        0 <= i < items.len(),
    ensures
        common_prefix_of(items).is_prefix_of(items[i]),
    decreases items.len(),
{
    if items.len() > 1 {
        let head = items.drop_last();
        lemma_common_prefix_is_common(common_prefix_of(head), items.last());
        if i < items.len() - 1 {
            lemma_common_prefix_of_is_common(head, i);
            assert(head[i] == items[i]);
        }
    }
}

/// What all of `items` start with, their common prefix starts with too.
pub proof fn lemma_common_prefix_of_is_longest(items: Seq<Seq<char>>, d: Seq<char>)
    requires
        items.len() >= 1,
        forall|i: int| 0 <= i < items.len() ==> d.is_prefix_of(#[trigger] items[i]),
    ensures
        d.is_prefix_of(common_prefix_of(items)),
    decreases items.len(),
{
    if items.len() > 1 {
        let head = items.drop_last();
        assert forall|i: int| 0 <= i < head.len() implies d.is_prefix_of(#[trigger] head[i]) by {
            assert(head[i] == items[i]);
        }
        lemma_common_prefix_of_is_longest(head, d);
        assert(d.is_prefix_of(items[items.len() - 1]));
        lemma_common_prefix_is_longest(common_prefix_of(head), items.last(), d);
    } else {
        assert(d.is_prefix_of(items[0]));
    }
}

/// All of `items` end with their common suffix.
pub proof fn lemma_common_suffix_of_is_common(items: Seq<Seq<char>>, i: int)
    requires
        0 <= i < items.len(),
    ensures
        common_suffix_of(items).is_suffix_of(items[i]),
    decreases items.len(),
{
    if items.len() > 1 {
        let head = items.drop_last();
        lemma_common_suffix_is_common(common_suffix_of(head), items.last());
        if i < items.len() - 1 {
            lemma_common_suffix_of_is_common(head, i);
            assert(head[i] == items[i]);
            let c = common_suffix_of(items);
            let h = common_suffix_of(head);
            assert(c == items[i].skip(items[i].len() - c.len())) by {
                assert(c == h.skip(h.len() - c.len()));
                assert(h == items[i].skip(items[i].len() - h.len()));
            }
        }
    }
}

/// What all of `items` end with, their common suffix ends with too.
pub proof fn lemma_common_suffix_of_is_longest(items: Seq<Seq<char>>, d: Seq<char>)
    requires
        items.len() >= 1,
        forall|i: int| 0 <= i < items.len() ==> d.is_suffix_of(#[trigger] items[i]),
    ensures
        d.is_suffix_of(common_suffix_of(items)),
    decreases items.len(),
{
    if items.len() > 1 {
        let head = items.drop_last();
        assert forall|i: int| 0 <= i < head.len() implies d.is_suffix_of(#[trigger] head[i]) by {
            assert(head[i] == items[i]);
        }
        lemma_common_suffix_of_is_longest(head, d);
        assert(d.is_suffix_of(items[items.len() - 1]));
        lemma_common_suffix_is_longest(common_suffix_of(head), items.last(), d);
    } else {
        assert(d.is_suffix_of(items[0]));
    }
}

/// Whether `order` holds the position `k`.
pub open spec fn reaches(order: Seq<usize>, k: int) -> bool {
    exists|i: int| 0 <= i < order.len() && #[trigger] order[i] == k
}

/// Whether `moved` holds the items of `items` in the order that `order`
/// gives, and none of them is left out.
pub open spec fn is_reordering(
    moved: Seq<Seq<char>>,
    items: Seq<Seq<char>>,
    order: Seq<usize>,
) -> bool {
    &&& moved.len() == items.len()
    &&& order.len() == items.len()
    &&& forall|i: int| 0 <= i < order.len() ==> (#[trigger] order[i]) < items.len()
    &&& forall|i: int| 0 <= i < moved.len() ==> #[trigger] moved[i] == items[order[i] as int]
    &&& forall|k: int| 0 <= k < items.len() ==> #[trigger] reaches(order, k)
}

/// What all items share at either end does not depend on the order in which
/// the items stand.
pub proof fn lemma_common_affixes_of_reordering(
    moved: Seq<Seq<char>>,
    items: Seq<Seq<char>>,
    order: Seq<usize>,
)
    requires
        is_reordering(moved, items, order),
    ensures
        common_prefix_of(moved) == common_prefix_of(items),
        common_suffix_of(moved) == common_suffix_of(items),
{
    if items.len() > 0 {
        let p = common_prefix_of(items);
        let q = common_prefix_of(moved);
        assert forall|i: int| 0 <= i < moved.len() implies p.is_prefix_of(#[trigger] moved[i]) by {
            lemma_common_prefix_of_is_common(items, order[i] as int);
        }
        lemma_common_prefix_of_is_longest(moved, p);
        assert forall|k: int| 0 <= k < items.len() implies q.is_prefix_of(#[trigger] items[k]) by {
            assert(reaches(order, k));
            let i = choose|i: int| 0 <= i < order.len() && #[trigger] order[i] == k;
            lemma_common_prefix_of_is_common(moved, i);
            assert(moved[i] == items[k]);
        }
        lemma_common_prefix_of_is_longest(items, q);
        assert(p =~= q);

        let s = common_suffix_of(items);
        let t = common_suffix_of(moved);
        assert forall|i: int| 0 <= i < moved.len() implies s.is_suffix_of(#[trigger] moved[i]) by {
            lemma_common_suffix_of_is_common(items, order[i] as int);
        }
        lemma_common_suffix_of_is_longest(moved, s);
        assert forall|k: int| 0 <= k < items.len() implies t.is_suffix_of(#[trigger] items[k]) by {
            assert(reaches(order, k));
            let i = choose|i: int| 0 <= i < order.len() && #[trigger] order[i] == k;
            lemma_common_suffix_of_is_common(moved, i);
            assert(moved[i] == items[k]);
        }
        lemma_common_suffix_of_is_longest(items, t);
        assert(s.len() == t.len());
        assert(s =~= t);
    }
}

/// The text of the one entry of a batch of one path is empty: the mask of
/// the one name is all that the names share, and it matches the whole name.
pub proof fn lemma_single_path_leaves_no_text(paths: Seq<Seq<Seq<char>>>, pattern: Seq<char>)
    requires
        paths.len() == 1,
    ensures
        batch(paths, pattern) == seq![entry_of(paths, pattern, 0)],
        batch(paths, pattern)[0].text == Seq::<char>::empty(),
{
    lemma_sorted_keys_stay(keys_of(paths));
    assert(sorted_order(keys_of(paths))[0] == 0);
    assert(batch(paths, pattern) =~= seq![entry_of(paths, pattern, 0)]);
    assert(masks_of(paths)[0] == mask(name_of(paths[0])));
    lemma_own_mask_strips_all(name_of(paths[0]), common_suffix_of(masks_of(paths)));
}

/// The paths of derived entries, each cut into its segments again.
pub open spec fn resplit(entries: Seq<EntryText>) -> Seq<Seq<Seq<char>>> {
    Seq::new(entries.len(), |i: int| split(entries[i].path, '/'))
}

/// Whether no segment of any path is empty of segments or holds a `'/'`:
/// what cutting a joined path into its segments again needs.
pub open spec fn is_resplittable(paths: Seq<Seq<Seq<char>>>) -> bool {
    &&& forall|i: int| 0 <= i < paths.len() ==> (#[trigger] paths[i]).len() >= 1
    &&& forall|i: int, j: int|
        0 <= i < paths.len() && 0 <= j < paths[i].len() ==> !(#[trigger] paths[i][j]).contains('/')
}

/// Processing a batch again, from the paths of its entries cut into segments
/// once more, derives the same entries in the same order. The names are the
/// same, so the tokenizer is asked the same questions.
pub proof fn lemma_batch_idempotent(paths: Seq<Seq<Seq<char>>>, pattern: Seq<char>)
    requires
        paths.len() <= usize::MAX,
        is_resplittable(paths),
    ensures
        batch(resplit(batch(paths, pattern)), pattern) == batch(paths, pattern),
{
    let keys = keys_of(paths);
    lemma_sorted_order_sorts(keys);
    let order = sorted_order(keys);
    let first = batch(paths, pattern);
    let again = resplit(first);
    assert forall|i: int| 0 <= i < again.len() implies #[trigger] again[i] == paths[order[i] as int] by {
        let k = order[i] as int;
        assert(first[i].path == join(paths[k], '/'));
        assert forall|j: int| 0 <= j < paths[k].len() implies !(#[trigger] paths[k][j]).contains(
            '/',
        ) by {}
        lemma_split_join(paths[k], '/');
    }
    let keys2 = keys_of(again);
    assert forall|i: int| 0 <= i < keys2.len() implies #[trigger] keys2[i] == keys[order[i] as int] by {
        assert(again[i] == paths[order[i] as int]);
    }
    assert forall|i: int, j: int| 0 <= i < j < keys2.len() implies #[trigger] compare_paths(
        keys2[i],
        keys2[j],
    ) != Order::Greater by {
        assert(compare_paths(keys[order[i] as int], keys[order[j] as int]) != Order::Greater);
    }
    lemma_sorted_keys_stay(keys2);
    let masks = masks_of(paths);
    let masks2 = masks_of(again);
    assert(is_reordering(masks2, masks, order)) by {
        assert forall|i: int| 0 <= i < masks2.len() implies #[trigger] masks2[i] == masks[order[i] as int] by {
            assert(again[i] == paths[order[i] as int]);
        }
        assert forall|k: int| 0 <= k < masks.len() implies #[trigger] reaches(order, k) by {
            lemma_stable_sort_onto(order, keys, k);
        }
    }
    lemma_common_affixes_of_reordering(masks2, masks, order);
    let second = batch(again, pattern);
    assert forall|i: int| 0 <= i < second.len() implies #[trigger] second[i] == first[i] by {
        assert(sorted_order(keys2)[i] == i);
        assert(again[i] == paths[order[i] as int]);
        assert(second[i] == entry_of(again, pattern, i));
        assert(first[i] == entry_of(paths, pattern, order[i] as int));
    }
    assert(second =~= first);
}

} // verus!
