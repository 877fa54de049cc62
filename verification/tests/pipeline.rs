use kgram_search::docstore::contains_sub;
use kgram_search::kgram::{anchor_both_vec, kgrams_vec};
use kgram_search::sorted::{insert_sorted, intersect, union_sorted};
use kgram_search::text::normalize;
use kgram_search::wildcard::pieces_vec;

fn chars(s: &str) -> Vec<char> {
    s.chars().collect()
}

fn words(v: &[&str]) -> Vec<Vec<char>> {
    v.iter().map(|s| chars(s)).collect()
}

#[test]
fn normalize_lowercases_strips_and_splits() {
    let toks = normalize(&chars("The QUICK, brown-fox!"), &words(&["the"]));
    assert_eq!(toks, words(&["quick", "brownfox"]));
}

#[test]
fn normalize_expands_escapes_before_splitting() {
    let toks = normalize(&chars("a[NEWLINE]b[TAB]c"), &words(&[]));
    assert_eq!(toks, words(&["a", "b", "c"]));
}

#[test]
fn normalize_drops_anchor_and_wildcard_characters() {
    let toks = normalize(&chars("pri$ce st*ar"), &words(&[]));
    assert_eq!(toks, words(&["price", "star"]));
}

#[test]
fn kgrams_of_anchored_token() {
    let anchored = anchor_both_vec(&chars("fox"));
    assert_eq!(anchored, chars("$fox$"));
    let grams = kgrams_vec(&anchored, 3);
    assert_eq!(grams, words(&["$fo", "fox", "ox$"]));
}

#[test]
fn kgrams_empty_when_too_short() {
    let grams = kgrams_vec(&chars("ab"), 3);
    assert_eq!(grams, Vec::<Vec<char>>::new());
}

#[test]
fn intersect_is_a_sorted_intersection() {
    let a: Vec<u64> = vec![1, 3, 5, 7];
    let b: Vec<u64> = vec![3, 4, 5, 8];
    assert_eq!(intersect(&a, &b), vec![3, 5]);
    let empty: Vec<u64> = vec![];
    assert_eq!(intersect(&a, &empty), Vec::<u64>::new());
}

#[test]
fn intersect_commutes_and_is_idempotent_on_values() {
    let a: Vec<u64> = vec![2, 4, 6];
    let b: Vec<u64> = vec![1, 2, 3, 4];
    assert_eq!(intersect(&a, &b), intersect(&b, &a));
    assert_eq!(intersect(&a, &a), a);
}

#[test]
fn intersect_associates_on_values() {
    let a: Vec<u64> = vec![1, 2, 3, 4];
    let b: Vec<u64> = vec![2, 3, 4];
    let c: Vec<u64> = vec![3, 4, 9];
    let left = intersect(&intersect(&a, &b), &c);
    let right = intersect(&a, &intersect(&b, &c));
    assert_eq!(left, right);
    assert_eq!(left, vec![3, 4]);
}

#[test]
fn union_merges_without_duplicates() {
    let a: Vec<u64> = vec![1, 3, 5];
    let b: Vec<u64> = vec![2, 3, 6];
    assert_eq!(union_sorted(&a, &b), vec![1, 2, 3, 5, 6]);
}

#[test]
fn insert_sorted_keeps_order_and_dedups() {
    let mut v: Vec<u64> = vec![2, 5, 9];
    insert_sorted(&mut v, 5);
    assert_eq!(v, vec![2, 5, 9]);
    insert_sorted(&mut v, 7);
    assert_eq!(v, vec![2, 5, 7, 9]);
    insert_sorted(&mut v, 1);
    assert_eq!(v, vec![1, 2, 5, 7, 9]);
}

#[test]
fn pieces_split_on_wildcards_omitting_empties() {
    assert_eq!(pieces_vec(&chars("vacc*on")), words(&["vacc", "on"]));
    assert_eq!(pieces_vec(&chars("*nu*")), words(&["nu"]));
    assert_eq!(pieces_vec(&chars("**")), Vec::<Vec<char>>::new());
}

#[test]
fn substring_search_finds_inner_pieces() {
    assert!(contains_sub(&chars("vaccination"), &chars("vacc")));
    assert!(contains_sub(&chars("vaccination"), &chars("on")));
    assert!(!contains_sub(&chars("vacation"), &chars("vacc")));
    assert!(contains_sub(&chars("abc"), &chars("")));
    assert!(!contains_sub(&chars("ab"), &chars("abc")));
}
