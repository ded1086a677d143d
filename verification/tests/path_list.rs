use std::collections::hash_map::DefaultHasher;
use std::hash::{Hash, Hasher};
use zed_shell_marks::path_list::{PathList, SerializedPathList};

fn strings(items: &[&str]) -> Vec<String> {
    items.iter().map(|s| s.to_string()).collect()
}

#[test]
fn test_path_list() {
    let list1 = PathList::new(&["a/d", "a/c"]);
    let list2 = PathList::new(&["a/c", "a/d"]);

    assert_eq!(list1.paths(), list2.paths(), "paths differ");
    assert_eq!(list1.order(), &[1, 0], "list1 order incorrect");
    assert_eq!(list2.order(), &[0, 1], "list2 order incorrect");

    // Same paths in different order are equal (order is display-only).
    assert_eq!(
        list1, list2,
        "same paths with different order should be equal"
    );

    let list1_deserialized = PathList::deserialize(&list1.serialize());
    assert_eq!(list1_deserialized, list1, "list1 deserialization failed");

    let list2_deserialized = PathList::deserialize(&list2.serialize());
    assert_eq!(list2_deserialized, list2, "list2 deserialization failed");

    assert_eq!(
        list1.ordered_paths(),
        strings(&["a/d", "a/c"]),
        "list1 ordered paths incorrect"
    );
    assert_eq!(
        list2.ordered_paths(),
        strings(&["a/c", "a/d"]),
        "list2 ordered paths incorrect"
    );
}

#[test]
fn test_path_list_ordering() {
    let list = PathList::new(&["b", "a", "c"]);
    assert_eq!(list.paths(), strings(&["a", "b", "c"]).as_slice());
    assert_eq!(list.order(), &[1, 0, 2]);
    assert!(!list.is_lexicographically_ordered());

    let serialized = list.serialize();
    let deserialized = PathList::deserialize(&serialized);
    assert_eq!(deserialized, list);

    assert_eq!(deserialized.ordered_paths(), strings(&["b", "a", "c"]));

    let list = PathList::new(&["b", "c", "a"]);
    assert_eq!(list.paths(), strings(&["a", "b", "c"]).as_slice());
    assert_eq!(list.order(), &[2, 0, 1]);
    assert!(!list.is_lexicographically_ordered());

    let serialized = list.serialize();
    let deserialized = PathList::deserialize(&serialized);
    assert_eq!(deserialized, list);

    assert_eq!(deserialized.ordered_paths(), strings(&["b", "c", "a"]));
}

#[test]
fn test_path_list_dedups_input() {
    let dup = PathList::new(&["a", "a"]);
    let single = PathList::new(&["a"]);
    assert_eq!(
        dup, single,
        "PathList::new must collapse duplicate input paths"
    );
    assert_eq!(dup.paths(), strings(&["a"]).as_slice());
    assert_eq!(dup.order(), &[0]);

    let dup_multi = PathList::new(&["b", "a", "b", "c", "a"]);
    let clean_multi = PathList::new(&["b", "a", "c"]);
    assert_eq!(
        dup_multi, clean_multi,
        "PathList::new must dedup while preserving first-seen order"
    );
    // First-seen order is preserved: b, a, c
    assert_eq!(dup_multi.ordered_paths(), strings(&["b", "a", "c"]));
}

#[test]
fn test_path_list_deserialize_dedups_legacy_rows() {
    let corrupt = SerializedPathList {
        paths: "a\na".to_string(),
        order: "0,1".to_string(),
    };
    let healed = PathList::deserialize(&corrupt);
    assert_eq!(
        healed,
        PathList::new(&["a"]),
        "deserialized PathList must dedup duplicate input paths"
    );
    assert_eq!(healed.paths(), strings(&["a"]).as_slice());
}

#[test]
fn path_list_serialize_exact_text() {
    let list = PathList::new(&["b", "a", "c"]);
    let serialized = list.serialize();
    assert_eq!(serialized.paths, "a\nb\nc");
    assert_eq!(serialized.order, "1,0,2");
}

#[test]
fn path_list_sorted_input_is_lexicographic() {
    let list = PathList::new(&["a", "b", "c"]);
    assert!(list.is_lexicographically_ordered());
    assert_eq!(list.order(), &[0, 1, 2]);
}

#[test]
fn path_list_orders_by_components() {
    // "a/b" comes before "a-b" by component, though '-' < '/' as a byte.
    let list = PathList::new(&["a-b", "a/b"]);
    assert_eq!(list.paths(), strings(&["a/b", "a-b"]).as_slice());
    assert_eq!(list.ordered_paths(), strings(&["a-b", "a/b"]));
}

#[test]
fn path_list_same_path_spelled_differently_is_one() {
    let list = PathList::new(&["a/b", "a//b/"]);
    assert_eq!(list.paths().len(), 1);
    assert_eq!(list.paths_owned(), strings(&["a/b"]));
}

#[test]
fn path_list_empty() {
    let list = PathList::new(&[]);
    assert!(list.is_empty());
    assert!(list.paths().is_empty());
    assert_eq!(PathList::default(), list);
    let serialized = list.serialize();
    assert_eq!(serialized.paths, "");
    assert_eq!(serialized.order, "");
    assert_eq!(PathList::deserialize(&serialized), list);
}

#[test]
fn path_list_without_path() {
    let list = PathList::new(&["b", "a", "c"]);
    let rest = list.without_path("a");
    assert_eq!(rest, PathList::new(&["b", "c"]));
    assert_eq!(rest.ordered_paths(), strings(&["b", "c"]));
    let same = list.without_path("z");
    assert_eq!(same, list);
}

#[test]
fn path_list_deserialize_bad_order_falls_back_to_sorted() {
    let serialized = SerializedPathList {
        paths: "b\na".to_string(),
        order: "x,1".to_string(),
    };
    let list = PathList::deserialize(&serialized);
    assert_eq!(list, PathList::new(&["a", "b"]));
}

#[test]
fn path_list_deserialize_order_length_mismatch() {
    let serialized = SerializedPathList {
        paths: "b\na".to_string(),
        order: "1".to_string(),
    };
    let list = PathList::deserialize(&serialized);
    assert_eq!(list.paths(), strings(&["a", "b"]).as_slice());
}

#[test]
fn path_list_round_trip_keeps_display_order() {
    let list = PathList::new(&["z", "m", "a/b", "q"]);
    let back = PathList::deserialize(&list.serialize());
    assert_eq!(back, list);
    assert_eq!(back.ordered_paths(), list.ordered_paths());
    assert_eq!(back.order(), list.order());
}

fn hash_of(list: &PathList) -> u64 {
    let mut h = DefaultHasher::new();
    list.hash(&mut h);
    h.finish()
}

#[test]
fn path_list_hash_agrees_with_eq() {
    let a = PathList::new(&["a/b", "c"]);
    let b = PathList::new(&["c", "a//b/"]);
    assert_eq!(a, b);
    assert_eq!(hash_of(&a), hash_of(&b));
    assert_ne!(hash_of(&a), hash_of(&PathList::new(&["a/b"])));
}

#[test]
fn path_list_round_trip_keeps_order_indices() {
    for inputs in [&["a/d", "a/c"][..], &["b", "a", "c"][..], &["b", "c", "a"][..]] {
        let list = PathList::new(inputs);
        let back = PathList::deserialize(&list.serialize());
        assert_eq!(back.order(), list.order());
        assert_eq!(back.paths(), list.paths());
    }
}

#[test]
fn path_list_lexicographic_iff_sorted_input() {
    assert!(PathList::new(&["a", "b/c", "b/d"]).is_lexicographically_ordered());
    assert!(!PathList::new(&["b", "a"]).is_lexicographically_ordered());
    let sorted = PathList::new(&["a", "b"]);
    assert_eq!(sorted.ordered_paths(), sorted.paths_owned());
}
