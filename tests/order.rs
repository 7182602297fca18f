use std::cmp::Ordering;

use cars_pak::order::{compare_chars, sort_key, windows_sort, NameEntry};

fn file(name: &str) -> NameEntry {
    NameEntry { name: name.to_string(), is_dir: false }
}

fn dir(name: &str) -> NameEntry {
    NameEntry { name: name.to_string(), is_dir: true }
}

fn key(e: &NameEntry) -> String {
    sort_key(e).into_iter().collect()
}

#[test]
fn car_siblings_tie_on_key() {
    let a = file("Car.1");
    let b = file("car 2.txt");
    let c = dir("Car");
    assert_eq!(key(&a), "car");
    assert_eq!(key(&b), "car");
    assert_eq!(key(&c), "car");
    assert_eq!(windows_sort(&a, &c), Ordering::Less);
    assert_eq!(windows_sort(&b, &c), Ordering::Less);
    assert_eq!(windows_sort(&c, &a), Ordering::Greater);
    // "car.1" against "car 2.txt": '.' comes after ' '.
    assert_eq!(windows_sort(&a, &b), Ordering::Greater);
    assert_eq!(windows_sort(&b, &a), Ordering::Less);
    let mut v = vec![c.clone(), a.clone(), b.clone()];
    v.sort_by(windows_sort);
    let names: Vec<&str> = v.iter().map(|e| e.name.as_str()).collect();
    assert_eq!(names, vec!["car 2.txt", "Car.1", "Car"]);
}

#[test]
fn keys_cut_files_only() {
    assert_eq!(key(&file("Music Loop.final.wav")), "music");
    assert_eq!(key(&file("readme.txt")), "readme");
    assert_eq!(key(&file(".hidden")), "");
    assert_eq!(key(&dir("My Dir.d")), "my dir.d");
    assert_eq!(key(&file("NoDot")), "nodot");
}

#[test]
fn keys_decide_before_kind() {
    assert_eq!(windows_sort(&dir("a"), &file("b.txt")), Ordering::Less);
    assert_eq!(windows_sort(&file("b.txt"), &dir("a")), Ordering::Greater);
    assert_eq!(windows_sort(&file("B.txt"), &file("a.txt")), Ordering::Greater);
}

#[test]
fn natural_order_breaks_ties() {
    assert_eq!(windows_sort(&file("x 2.a"), &file("x 10.a")), Ordering::Less);
    assert_eq!(windows_sort(&dir("x2"), &dir("x10")), Ordering::Greater);
    assert_eq!(windows_sort(&file("x.2"), &file("x.10")), Ordering::Less);
    assert_eq!(windows_sort(&file("x.b"), &file("x.b")), Ordering::Equal);
}

#[test]
fn lexicographic_order_of_keys() {
    let c = |s: &str| s.chars().collect::<Vec<char>>();
    assert_eq!(compare_chars(&c("abc"), &c("abd")), Ordering::Less);
    assert_eq!(compare_chars(&c("ab"), &c("abc")), Ordering::Less);
    assert_eq!(compare_chars(&c("b"), &c("abc")), Ordering::Greater);
    assert_eq!(compare_chars(&c(""), &c("")), Ordering::Equal);
    assert_eq!(compare_chars(&c("a_b"), &c("a-b")), Ordering::Greater);
}

#[test]
fn sibling_order_is_consistent() {
    let entries = vec![
        file("Car.1"),
        file("car 2.txt"),
        dir("Car"),
        file("car10"),
        file("car9"),
        dir("b"),
        file("B.wav"),
        file("z"),
        dir("ZZ"),
        file("_x"),
        file("x y.z"),
    ];
    for a in &entries {
        assert_ne!(windows_sort(a, a), Ordering::Less);
        for b in &entries {
            assert_eq!(windows_sort(b, a), windows_sort(a, b).reverse());
            for c in &entries {
                if windows_sort(a, b) == Ordering::Less && windows_sort(b, c) == Ordering::Less {
                    assert_eq!(windows_sort(a, c), Ordering::Less);
                }
            }
        }
    }
}
