use pitagoecsvgen_core::token::{derive_ruby, Token};
use pitagoecsvgen_core::{
    attach_rubies, check_batch, derive_entries, natural_sort, Entry, ProcessError,
};

fn paths(list: &[&[&str]]) -> Vec<Vec<String>> {
    list.iter().map(|path| path.iter().map(|segment| segment.to_string()).collect()).collect()
}

fn strings(list: &[&str]) -> Vec<String> {
    list.iter().map(|s| s.to_string()).collect()
}

fn token(text: &str, detail: &[&str]) -> Token {
    Token { text: text.to_string(), detail: strings(detail) }
}

#[test]
fn natural_sort_of_nothing_is_empty() {
    assert_eq!(natural_sort(&Vec::new()), Vec::<usize>::new());
}

#[test]
fn natural_sort_gives_positions_in_natural_order() {
    let list = strings(&["x10", "x2", "x1", "", "a"]);
    assert_eq!(natural_sort(&list), vec![3, 4, 2, 1, 0]);
    assert_eq!(list, strings(&["x10", "x2", "x1", "", "a"]));
}

#[test]
fn natural_sort_is_stable() {
    let list = strings(&["a07", "a7", "a007", "a6", "a0007"]);
    assert_eq!(natural_sort(&list), vec![3, 0, 1, 2, 4]);
    let list = strings(&["a7", "a007", "a07"]);
    assert_eq!(natural_sort(&list), vec![0, 1, 2]);
}

#[test]
fn check_batch_refuses_an_empty_batch() {
    assert!(matches!(check_batch(&Vec::new()), Err(ProcessError::EmptyBatch)));
}

#[test]
fn check_batch_refuses_an_empty_path() {
    let list = paths(&[&["a", "b.txt"], &[]]);
    assert!(matches!(check_batch(&list), Err(ProcessError::EmptyPath)));
}

#[test]
fn check_batch_accepts_paths_with_segments() {
    let list = paths(&[&["a", "b.txt"], &[""]]);
    assert!(matches!(check_batch(&list), Ok(())));
}

#[test]
fn batch_of_numbered_files() {
    let list = paths(&[&["x1.png"], &["x2.png"], &["x10.png"]]);
    let entries = derive_entries(&list, "cat/${DIR}");
    let names: Vec<&str> = entries.iter().map(|e| e.name.as_str()).collect();
    assert_eq!(names, vec!["x1", "x2", "x10"]);
    let found: Vec<&str> = entries.iter().map(|e| e.path.as_str()).collect();
    assert_eq!(found, vec!["x1.png", "x2.png", "x10.png"]);
    for entry in &entries {
        assert_eq!(entry.category, "cat/");
        assert_eq!(entry.ruby, "");
    }
    // All three names have the mask "x0", which therefore is the whole of the
    // common prefix: nothing of a name is left.
    let found: Vec<&str> = entries.iter().map(|e| e.text.as_str()).collect();
    assert_eq!(found, vec!["", "", ""]);
}

#[test]
fn batch_is_sorted_whatever_the_input_order() {
    let list = paths(&[&["x10.png"], &["x2.png"], &["x1.png"]]);
    let entries = derive_entries(&list, "cat/${DIR}");
    let names: Vec<&str> = entries.iter().map(|e| e.name.as_str()).collect();
    assert_eq!(names, vec!["x1", "x2", "x10"]);
}

#[test]
fn batch_of_one_file_leaves_no_text() {
    let list = paths(&[&["a12b.txt"]]);
    let entries = derive_entries(&list, "${DIR}");
    assert_eq!(
        entries,
        vec![Entry {
            path: "a12b.txt".to_string(),
            name: "a12b".to_string(),
            text: "".to_string(),
            ruby: "".to_string(),
            category: "".to_string(),
        }]
    );
}

#[test]
fn batch_strips_shared_prefix_and_suffix() {
    let list = paths(&[
        &["img", "set2", "01_apple_v2.png"],
        &["img", "set10", "02_banana_v2.png"],
        &["img", "set2", "10_cherry_v2.jpg"],
    ]);
    let entries = derive_entries(&list, "fruit/${DIR}/${DIR}!");
    let expected = vec![
        Entry {
            path: "img/set2/01_apple_v2.png".to_string(),
            name: "01_apple_v2".to_string(),
            text: "apple".to_string(),
            ruby: "".to_string(),
            category: "fruit/img/set2/img/set2!".to_string(),
        },
        Entry {
            path: "img/set2/10_cherry_v2.jpg".to_string(),
            name: "10_cherry_v2".to_string(),
            text: "cherry".to_string(),
            ruby: "".to_string(),
            category: "fruit/img/set2/img/set2!".to_string(),
        },
        Entry {
            path: "img/set10/02_banana_v2.png".to_string(),
            name: "02_banana_v2".to_string(),
            text: "banana".to_string(),
            ruby: "".to_string(),
            category: "fruit/img/set10/img/set10!".to_string(),
        },
    ];
    assert_eq!(entries, expected);
}

#[test]
fn batch_sorts_a_shorter_directory_first() {
    let list = paths(&[&["a", "b", "z"], &["a", "z"], &["z"], &["a", "b", "c"]]);
    let entries = derive_entries(&list, "");
    let found: Vec<&str> = entries.iter().map(|e| e.path.as_str()).collect();
    assert_eq!(found, vec!["z", "a/z", "a/b/c", "a/b/z"]);
}

#[test]
fn batch_normalizes_names() {
    // Full-width letters and digits become ASCII ones in the name; the path
    // keeps what it was given.
    let list = paths(&[&["ｘ１２.png"], &["x3.png"]]);
    let entries = derive_entries(&list, "${DIR}");
    let names: Vec<&str> = entries.iter().map(|e| e.name.as_str()).collect();
    assert_eq!(names, vec!["x3", "x12"]);
    let found: Vec<&str> = entries.iter().map(|e| e.path.as_str()).collect();
    assert_eq!(found, vec!["x3.png", "ｘ１２.png"]);
    // A composed form comes out of a decomposed one.
    let list = paths(&[&["か\u{3099}.txt"]]);
    let entries = derive_entries(&list, "");
    assert_eq!(entries[0].name, "が");
}

#[test]
fn batch_takes_pattern_characters_literally() {
    let list = paths(&[&["a(1+.txt"], &["a(2+.txt"], &["a(x+.txt"]]);
    let entries = derive_entries(&list, "");
    let found: Vec<&str> = entries.iter().map(|e| e.text.as_str()).collect();
    assert_eq!(found, vec!["1", "2", "x"]);
}

#[test]
fn batch_strips_each_name_as_far_as_the_pattern_matches() {
    // The masks "a0b" and "a0" share "a0"; in "a1b" the run is "1" and the
    // pattern matches "a1", in "a22" it matches all.
    let list = paths(&[&["a1b"], &["a22"]]);
    let entries = derive_entries(&list, "");
    let found: Vec<&str> = entries.iter().map(|e| e.text.as_str()).collect();
    assert_eq!(found, vec!["b", ""]);
    // The masks "x_" and "x0_" share "x" at the start and "_" at the end;
    // "x5_" comes first, as '5' is before '_'.
    let list = paths(&[&["x_"], &["x5_"]]);
    let entries = derive_entries(&list, "");
    let found: Vec<&str> = entries.iter().map(|e| e.text.as_str()).collect();
    assert_eq!(found, vec!["5", ""]);
}

#[test]
fn into_array_keeps_the_order_of_the_fields() {
    let entry = Entry {
        path: "p".to_string(),
        name: "n".to_string(),
        text: "t".to_string(),
        ruby: "r".to_string(),
        category: "c".to_string(),
    };
    assert_eq!(entry.into_array(), ["p", "n", "t", "r", "c"].map(String::from));
}

#[test]
fn ruby_takes_the_reading_where_there_is_one() {
    let tokens = vec![
        token("東京", &["名詞", "固有名詞", "地域", "一般", "*", "*", "東京", "トウキョウ", "トーキョー"]),
        token("abc", &["UNK"]),
        token("都", &["名詞", "接尾", "地域", "*", "*", "*", "都", "ト"]),
        token("x", &["1", "2", "3", "4", "5", "6", "7"]),
    ];
    assert_eq!(derive_ruby(&tokens), "トウキョウabcトx");
}

#[test]
fn ruby_of_no_token_is_empty() {
    assert_eq!(derive_ruby(&Vec::new()), "");
}

#[test]
fn rubies_go_to_the_entries_in_order() {
    let list = paths(&[&["地図", "東京2.png"], &["地図", "abc1.png"]]);
    let entries = derive_entries(&list, "${DIR}");
    let names: Vec<&str> = entries.iter().map(|e| e.name.as_str()).collect();
    assert_eq!(names, vec!["abc1", "東京2"]);
    let tokens = vec![
        vec![token("abc", &["UNK"]), token("1", &["名詞", "数", "*", "*", "*", "*", "*"])],
        vec![
            token("東京", &["名詞", "固有名詞", "地域", "一般", "*", "*", "東京", "トウキョウ", "トーキョー"]),
            token("2", &["名詞", "数", "*", "*", "*", "*", "2", "ニ", "ニ"]),
        ],
    ];
    let read = attach_rubies(entries, &tokens);
    assert_eq!(
        read,
        vec![
            Entry {
                path: "地図/abc1.png".to_string(),
                name: "abc1".to_string(),
                text: "abc".to_string(),
                ruby: "abc1".to_string(),
                category: "地図".to_string(),
            },
            Entry {
                path: "地図/東京2.png".to_string(),
                name: "東京2".to_string(),
                text: "東京".to_string(),
                ruby: "トウキョウニ".to_string(),
                category: "地図".to_string(),
            },
        ]
    );
}

#[test]
fn rubies_leave_an_entry_without_tokens_as_it_is() {
    let list = paths(&[&["a.png"], &["b.png"]]);
    let entries = derive_entries(&list, "");
    let read = attach_rubies(entries, &vec![vec![token("a", &[])]]);
    assert_eq!(read[0].ruby, "a");
    assert_eq!(read[1].ruby, "");
    assert_eq!(read[1].name, "b");
}

#[test]
fn batch_derived_again_from_its_own_paths_is_the_same() {
    let list = paths(&[
        &["", "home", "b", "img10.png"],
        &["", "home", "b", "img9.png"],
        &["", "home", "a2", "img09.png"],
        &["", "home", "a10", "notes.txt"],
        &["top.txt"],
        &["", "home", "b", "img009.png"],
    ]);
    let first = derive_entries(&list, "in ${DIR}");
    let again: Vec<Vec<String>> =
        first.iter().map(|e| e.path.split('/').map(String::from).collect()).collect();
    let found: Vec<&str> = first.iter().map(|e| e.path.as_str()).collect();
    assert_eq!(
        found,
        vec![
            "top.txt",
            "/home/a2/img09.png",
            "/home/a10/notes.txt",
            "/home/b/img9.png",
            "/home/b/img009.png",
            "/home/b/img10.png",
        ]
    );
    assert_eq!(derive_entries(&again, "in ${DIR}"), first);
}
