use app_graph::assoc::Assoc;
use app_graph::cache::{Cache, Cacheable};
use app_graph::graph::{write_edge_note, Edge, Node};
use app_graph::label::Label;
use app_graph::order::{bytes_before, SortKey};
use app_graph::text::{push_decimal, text_of, utf8_len, utf8_of};
use app_graph::wire::{Present, Wire};
use std::collections::BTreeMap;

#[test]
fn numbers_are_written_as_eight_bytes_low_byte_first() {
    let mut out = vec![9u8];
    0x0102_0304usize.write(&mut out);
    assert_eq!(out, vec![9, 4, 3, 2, 1, 0, 0, 0, 0]);
    assert_eq!(usize::read(&out, 1), Some((0x0102_0304, 9)));
    assert_eq!(usize::read(&out, 2), None);
    assert_eq!(usize::read(&out, 9), None);
}

#[test]
fn texts_are_written_as_length_and_utf8() {
    let mut out = Vec::new();
    "hé".to_string().write(&mut out);
    assert_eq!(out, vec![3, 0, 0, 0, 0, 0, 0, 0, b'h', 0xc3, 0xa9]);
    assert_eq!(String::read(&out, 0), Some(("hé".to_string(), 11)));
    assert_eq!(String::read(&out[..10], 0), None);
    out[10] = b'x';
    assert_eq!(String::read(&out, 0), None);
}

#[test]
fn rows_are_written_as_count_and_items() {
    let mut out = Vec::new();
    vec![1usize, 2].write(&mut out);
    assert_eq!(out.len(), 24);
    assert_eq!(&out[..8], &2u64.to_le_bytes());
    assert_eq!(Vec::<usize>::read(&out, 0), Some((vec![1, 2], 24)));
    assert_eq!(Vec::<usize>::read(&out[..23], 0), None);
    let mut empty = Vec::new();
    Vec::<String>::new().write(&mut empty);
    assert_eq!(empty, vec![0u8; 8]);
}

#[test]
fn pairs_and_marks() {
    let mut out = Vec::new();
    (5usize, "a".to_string()).write(&mut out);
    assert_eq!(out.len(), 17);
    let back = <(usize, String)>::read(&out, 0).unwrap();
    assert_eq!(back, ((5, "a".to_string()), 17));
    let mut none = Vec::new();
    Present.write(&mut none);
    assert!(none.is_empty());
    assert_eq!(Present::read(&none, 0).map(|r| r.1), Some(0));
}

#[test]
fn utf8_helpers() {
    assert_eq!(utf8_of(&"é".to_string()), vec![0xc3, 0xa9]);
    assert_eq!(utf8_len(&"é".to_string()), 2);
    assert_eq!(text_of(vec![0xc3, 0xa9]), Some("é".to_string()));
    assert_eq!(text_of(vec![0xc3]), None);
    assert_eq!(text_of(vec![]), Some(String::new()));
}

#[test]
fn decimal_numbers() {
    for (n, expected) in [(0usize, "0"), (7, "7"), (10, "10"), (909, "909"), (1000, "1000")] {
        let mut out = "n=".to_string();
        push_decimal(&mut out, n);
        assert_eq!(out, format!("n={}", expected));
    }
    let mut out = String::new();
    push_decimal(&mut out, usize::MAX);
    assert_eq!(out, usize::MAX.to_string());
}

#[test]
fn labels_render() {
    assert_eq!("likes".to_string().render(), "likes");
    assert_eq!(42usize.render(), "42");
}

#[test]
fn byte_order() {
    assert!(bytes_before(b"", b"a"));
    assert!(!bytes_before(b"", b""));
    assert!(!bytes_before(b"a", b""));
    assert!(bytes_before(b"a", b"ab"));
    assert!(bytes_before(b"ab", b"b"));
    assert!(!bytes_before(b"b", b"ab"));
    assert!(!bytes_before(b"ab", b"ab"));
    assert!(bytes_before(&[1, 255], &[2, 0]));
}

#[test]
fn key_order() {
    assert!(3usize.before(&4));
    assert!(!4usize.before(&4));
    assert!(4usize.same(&4));
    assert!("Z".to_string().before(&"a".to_string()));
    assert!("z".to_string().before(&"é".to_string()));
    assert!(!"a".to_string().same(&"b".to_string()));
}

#[test]
fn assoc_insert_get_remove() {
    let mut m: Assoc<usize, String> = Assoc::new();
    assert_eq!(m.len(), 0);
    m.insert(5, "five".to_string());
    m.insert(1, "one".to_string());
    m.insert(3, "three".to_string());
    m.insert(5, "FIVE".to_string());
    assert_eq!(m.len(), 3);
    assert_eq!((*m.key_at(0), *m.key_at(1), *m.key_at(2)), (1, 3, 5));
    assert_eq!(m.value_at(2), "FIVE");
    assert_eq!(m.get(&3), Some(&"three".to_string()));
    assert_eq!(m.get(&4), None);
    assert!(m.contains_key(&1));
    assert_eq!(m.remove(&1), Some("one".to_string()));
    assert_eq!(m.remove(&1), None);
    assert!(!m.contains_key(&1));
    assert_eq!(m.len(), 2);
}

#[test]
fn assoc_is_read_only_in_order() {
    let mut m: Assoc<usize, usize> = Assoc::new();
    m.insert(2, 20);
    m.insert(1, 10);
    let mut out = Vec::new();
    m.write(&mut out);
    let (back, end) = Assoc::<usize, usize>::read(&out, 0).unwrap();
    assert_eq!(end, out.len());
    assert_eq!((back.get(&1), back.get(&2)), (Some(&10), Some(&20)));
    let mut unordered = Vec::new();
    vec![(2usize, 20usize), (1, 10)].write(&mut unordered);
    assert!(Assoc::<usize, usize>::read(&unordered, 0).is_none());
    let mut twice = Vec::new();
    vec![(1usize, 20usize), (1, 10)].write(&mut twice);
    assert!(Assoc::<usize, usize>::read(&twice, 0).is_none());
}

#[test]
fn cache_keeps_what_it_is_given() {
    let mut c: Cache<String, u32> = Cache { cache: BTreeMap::new() };
    assert!(!c.has(&"a".to_string()));
    assert_eq!(c.get(&"a".to_string()), None);
    assert_eq!(c.set("a".to_string(), 1), None);
    assert_eq!(c.set("a".to_string(), 2), Some(1));
    assert_eq!(c.set("b".to_string(), 3), None);
    assert!(c.has(&"a".to_string()));
    assert_eq!(c.get(&"a".to_string()), Some(&2));
    assert_eq!(c.delete(&"a".to_string()), Some(2));
    assert_eq!(c.delete(&"a".to_string()), None);
    assert!(c.has(&"b".to_string()));
    assert_eq!(c.clear(), None);
    assert!(!c.has(&"b".to_string()));
    assert!(c.cache.is_empty());
}

#[test]
fn edge_note_is_id_source_target_label() {
    assert_eq!(write_edge_note(0, 0, 1, &"likes".to_string()), "0 0 1 likes");
    assert_eq!(write_edge_note(12, 3, 45, &6usize), "12 3 45 6");
    assert_eq!(write_edge_note(1, 2, 3, &String::new()), "1 2 3 ");
}

#[test]
fn nodes_and_edges_are_written_as_their_parts() {
    let mut out = Vec::new();
    Node { label: 7usize }.write(&mut out);
    assert_eq!(out, 7u64.to_le_bytes());
    let mut out = Vec::new();
    Edge { source: 1, target: 2, label: "x".to_string() }.write(&mut out);
    let mut expected = Vec::new();
    expected.extend_from_slice(&1u64.to_le_bytes());
    expected.extend_from_slice(&2u64.to_le_bytes());
    expected.extend_from_slice(&1u64.to_le_bytes());
    expected.push(b'x');
    assert_eq!(out, expected);
    let (edge, end) = Edge::<String>::read(&out, 0).unwrap();
    assert_eq!((edge.source, edge.target, edge.label.as_str(), end), (1, 2, "x", 25));
    assert!(Edge::<String>::read(&out[..24], 0).is_none());
    assert!(Edge::<String>::read(&out, 30).is_none());
}

#[test]
fn a_copy_of_a_map_is_its_own() {
    let mut m: Assoc<usize, String> = Assoc::new();
    m.insert(1, "one".to_string());
    let mut copy = m.clone();
    copy.insert(2, "two".to_string());
    assert_eq!(m.len(), 1);
    assert_eq!(copy.len(), 2);
}
