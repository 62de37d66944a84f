//! The support collections: ordered lookup sets and token-set signatures.

use engine::support::filter::Filter;
use engine::support::lookup::Lookup;
use engine::support::signature::Signature;

#[test]
fn lookup_insert_and_contains() {
    let mut s = Lookup::new();
    assert!(!s.contains(5));
    s.insert(5);
    s.insert(1);
    s.insert(5);
    assert!(s.contains(5));
    assert!(s.contains(1));
    assert!(!s.contains(2));
    assert_eq!(s.collection, vec![1, 5]);
}

#[test]
fn lookup_merge_unions() {
    let mut a = Lookup::new();
    a.insert(1);
    a.insert(3);
    let mut b = Lookup::new();
    b.insert(2);
    b.insert(3);
    a.merge(&b);
    assert_eq!(a.collection, vec![1, 2, 3]);
    assert_eq!(b.collection, vec![2, 3]);
}

#[test]
fn lookup_clear_empties() {
    let mut s = Lookup::new();
    s.insert(7);
    s.clear();
    assert!(!s.contains(7));
    assert!(s.collection.is_empty());
}

#[test]
fn filter_push_dedups_and_orders() {
    let mut f = Filter::new();
    assert!(f.is_empty());
    f.push(3);
    f.push(-1);
    f.push(2);
    f.push(3);
    assert!(!f.is_empty());
    assert_eq!(f.size(), 3);
    assert!(f.includes(-1));
    assert!(f.includes(2));
    assert!(!f.includes(0));
    assert_eq!(f.collection, vec![-1, 2, 3]);
}

#[test]
fn filter_dup_is_independent() {
    let mut f = Filter::new();
    f.push(4);
    let copy = f.dup();
    f.clear();
    assert_eq!(f.size(), 0);
    assert_eq!(copy.collection, vec![4]);
}

#[test]
fn filter_inspect_renders_sorted_entries() {
    let mut f = Filter::new();
    assert_eq!(f.inspect(), "Filter {}");
    f.push(2);
    f.push(-10);
    f.push(7);
    assert_eq!(f.inspect(), "Filter {-10, 2, 7}");
}

#[test]
fn signature_of_same_data_is_identical() {
    let a = Signature::new("submit the form now");
    let b = Signature::new("submit the form now");
    assert!(a.equals(&b));
    assert_eq!(a.ahash(), b.ahash());
    assert_eq!(a.tokens, b.tokens);
}

#[test]
fn signature_tokenizes_words_and_dedups() {
    let a = Signature::new("hello world hello");
    assert_eq!(a.size(), 2);
    let empty = Signature::new("");
    assert!(empty.is_empty());
    assert_eq!(empty.size(), 0);
    let punctuation = Signature::new("...!!!");
    assert!(punctuation.is_empty());
}

#[test]
fn signature_push_adds_tokens() {
    let mut a = Signature::new("hello");
    assert_eq!(a.size(), 1);
    a.push("world");
    assert_eq!(a.size(), 2);
    let b = Signature::new("hello world");
    assert!(a.equals(&b));
}

#[test]
fn signature_refine_keeps_shared_tokens() {
    let a = Signature::new("hello world");
    let b = Signature::new("world peace");
    let shared = a.refine(&b);
    assert_eq!(shared.size(), 1);
    assert!(shared.equals(&Signature::new("world")));
    let mut c = a.dup();
    c.refine_bang(&b);
    assert!(c.equals(&shared));
}

#[test]
fn signature_difference_sizes_count_exclusive_and_union() {
    let a = Signature::new("hello world");
    let b = Signature::new("world peace");
    assert_eq!(a.difference_sizes(&b), (2, 3));
    assert_eq!(a.difference_sizes(&a), (0, 2));
    let empty = Signature::new("");
    assert_eq!(a.difference_sizes(&empty), (2, 2));
    assert_eq!(empty.difference_sizes(&a), (2, 2));
}

#[test]
fn signature_clear_and_dup() {
    let mut a = Signature::new("one two");
    let copy = a.dup();
    a.clear();
    assert!(a.is_empty());
    assert_eq!(copy.size(), 2);
}

#[test]
fn signature_inspect_renders_braces() {
    let empty = Signature::new("");
    assert_eq!(empty.inspect(), "Signature {}");
    let one = Signature::new("hello");
    let rendered = one.inspect();
    assert!(rendered.starts_with("Signature {"));
    assert!(rendered.ends_with("}"));
}
