use app_graph::codec::{compute_checksum, seal, unseal, IoFailure, LoadError};
use app_graph::graph::{AppGraph, GraphError};
use app_graph::overlay::StringSet;

fn s(t: &str) -> String {
    t.to_string()
}

fn fnv1a(bytes: &[u8]) -> u64 {
    let mut h: u64 = 0xcbf29ce484222325;
    for b in bytes {
        h ^= *b as u64;
        h = h.wrapping_mul(0x100000001b3);
    }
    h
}

fn sample() -> AppGraph<String, String> {
    let mut g = AppGraph::new(s("/data/graph.bin"));
    g.add_node(s("a"));
    g.add_node(s("b"));
    g.add_node(s("c"));
    g.add_edge(0, 1, s("likes")).unwrap();
    g.add_edge(1, 2, s("is amazed by")).unwrap();
    g.add_edge(0, 2, s("hates")).unwrap();
    g.set_meta(1, s("tags"), StringSet::from_vec(vec![s("x"), s("y")]));
    g.set_meta(9, s("orphan"), StringSet::from_vec(vec![]));
    g
}

fn assert_same(a: &AppGraph<String, String>, b: &AppGraph<String, String>) {
    let mut n = 0;
    while a.get_node(n).is_some() || b.get_node(n).is_some() {
        assert_eq!(a.get_node(n).unwrap().label, b.get_node(n).unwrap().label);
        n += 1;
    }
    let mut e = 0;
    while a.get_edge(e).is_some() || b.get_edge(e).is_some() {
        let (x, y) = (a.get_edge(e).unwrap(), b.get_edge(e).unwrap());
        assert_eq!((x.source, x.target, &x.label), (y.source, y.target, &y.label));
        e += 1;
    }
    for node in 0..12usize {
        match (a.get_meta(node), b.get_meta(node)) {
            (None, None) => {}
            (Some(x), Some(y)) => {
                assert_eq!(x.len(), y.len());
                for i in 0..x.len() {
                    assert_eq!(x.key_at(i), y.key_at(i));
                    let (xs, ys) = (x.value_at(i), y.value_at(i));
                    assert_eq!(xs.len(), ys.len());
                    for j in 0..xs.len() {
                        assert_eq!(xs.key_at(j), ys.key_at(j));
                    }
                }
            }
            _ => panic!("annotations of node {} differ", node),
        }
    }
    assert_eq!(a.get_path(), b.get_path());
}

#[test]
fn round_trip_gives_the_same_graph() {
    let g = sample();
    let back = AppGraph::<String, String>::deser(&g.ser()).unwrap();
    assert_same(&g, &back);
    assert_eq!(back.ser(), g.ser());
}

#[test]
fn round_trip_of_the_empty_graph() {
    let g: AppGraph<String, String> = AppGraph::new(s(""));
    let back = AppGraph::<String, String>::deser(&g.ser()).unwrap();
    assert!(back.get_node(0).is_none());
    assert!(back.get_edge(0).is_none());
    assert_eq!(back.get_path(), "");
}

#[test]
fn round_trip_with_number_labels() {
    let mut g: AppGraph<usize, usize> = AppGraph::new(s("n"));
    g.add_node_at(7, s("t"));
    g.add_node_at(usize::MAX, s("t"));
    g.add_edge(1, 0, 0).unwrap();
    let back = AppGraph::<usize, usize>::deser(&g.ser()).unwrap();
    assert_eq!(back.get_node(0).unwrap().label, 7);
    assert_eq!(back.get_node(1).unwrap().label, usize::MAX);
    let e = back.get_edge(0).unwrap();
    assert_eq!((e.source, e.target, e.label), (1, 0, 0));
    assert!(back.get_meta(1).unwrap().get(&s("edges")).unwrap().has(&s("0 1 0 0")));
}

#[test]
fn round_trip_with_labels_beyond_ascii() {
    let mut g: AppGraph<String, String> = AppGraph::new(s("päth/グラフ"));
    g.add_node_at(s("näme"), s("t"));
    g.add_node_at(s("\u{1F600}"), s("t"));
    g.add_edge(0, 1, s("→")).unwrap();
    let back = AppGraph::<String, String>::deser(&g.ser()).unwrap();
    assert_same(&g, &back);
}

#[test]
fn a_decoded_graph_goes_on_where_the_first_stopped() {
    let g = sample();
    let mut back = AppGraph::<String, String>::deser(&g.ser()).unwrap();
    assert_eq!(back.add_node(s("d")), 3);
    assert_eq!(back.add_edge(3, 0, s("new")), Ok(3));
    assert_eq!(back.add_edge(4, 0, s("new")), Err(GraphError::UnknownNode));
    assert_eq!(back.topology().node_count(), 4);
    assert_eq!(back.topology().edge_count(), 4);
}

#[test]
fn scenario_three_nodes_one_edge() {
    let mut g: AppGraph<String, String> = AppGraph::new(s("p"));
    assert_eq!(g.add_node(s("a")), 0);
    assert_eq!(g.add_node(s("b")), 1);
    assert_eq!(g.add_node(s("c")), 2);
    assert_eq!(g.add_edge(0, 1, s("likes")), Ok(0));
    let e = g.get_edge(0).unwrap();
    assert_eq!((e.source, e.target, e.label.as_str()), (0, 1, "likes"));
    let back = AppGraph::<String, String>::deser(&g.ser()).unwrap();
    let e = back.get_edge(0).unwrap();
    assert_eq!((e.source, e.target, e.label.as_str()), (0, 1, "likes"));
    assert_eq!(back.get_node(0).unwrap().label, "a");
    assert_eq!(back.get_node(1).unwrap().label, "b");
    assert_eq!(back.get_node(2).unwrap().label, "c");
    assert!(back.get_node(3).is_none());
}

#[test]
fn scenario_damaged_last_byte_is_corrupt() {
    let g = sample();
    let mut stored = g.ser();
    let last = stored.len() - 1;
    stored[last] ^= 0x01;
    assert!(matches!(AppGraph::<String, String>::deser(&stored), Err(GraphError::Corrupt)));
    assert!(matches!(
        AppGraph::<String, String>::load(Ok(stored)),
        Err(LoadError::Corrupt)
    ));
    assert_eq!(g.get_node(2).unwrap().label, "c");
    assert_eq!(g.get_edge(2).unwrap().label, "hates");
    let again = AppGraph::<String, String>::deser(&g.ser()).unwrap();
    assert_same(&g, &again);
}

#[test]
fn every_single_damaged_byte_is_corrupt() {
    let stored = sample().ser();
    for i in 0..stored.len() {
        let mut damaged = stored.clone();
        damaged[i] = damaged[i].wrapping_add(1);
        assert!(AppGraph::<String, String>::deser(&damaged).is_err(), "byte {}", i);
    }
}

#[test]
fn cut_short_bytes_are_corrupt() {
    let stored = sample().ser();
    for len in 0..stored.len() {
        assert!(matches!(
            AppGraph::<String, String>::deser(&stored[..len]),
            Err(GraphError::Corrupt)
        ));
    }
}

#[test]
fn bytes_after_the_end_are_corrupt() {
    let mut stored = sample().ser();
    stored.push(0);
    assert!(AppGraph::<String, String>::deser(&stored).is_err());
}

#[test]
fn labels_of_another_type_are_corrupt() {
    let mut g: AppGraph<String, String> = AppGraph::new(s("p"));
    g.add_node_at(s("abc"), s("t"));
    assert!(AppGraph::<usize, String>::deser(&g.ser()).is_err());
}

#[test]
fn payload_with_an_edge_to_nowhere_is_corrupt() {
    // one node "a", one edge 0 -> 1 "x", no annotations, path "p"
    let mut payload: Vec<u8> = Vec::new();
    payload.extend_from_slice(&1u64.to_le_bytes());
    payload.extend_from_slice(&1u64.to_le_bytes());
    payload.push(b'a');
    payload.extend_from_slice(&1u64.to_le_bytes());
    payload.extend_from_slice(&0u64.to_le_bytes());
    payload.extend_from_slice(&1u64.to_le_bytes());
    payload.extend_from_slice(&1u64.to_le_bytes());
    payload.push(b'x');
    payload.extend_from_slice(&0u64.to_le_bytes());
    payload.extend_from_slice(&1u64.to_le_bytes());
    payload.push(b'p');
    let mut good = payload.clone();
    good[8 + 9 + 8 + 8] = 0;
    assert!(AppGraph::<String, String>::deser(&seal(payload)).is_err());
    let g = AppGraph::<String, String>::deser(&seal(good)).unwrap();
    assert_eq!(g.get_edge(0).unwrap().target, 0);
}

#[test]
fn payload_with_keys_out_of_order_is_corrupt() {
    let mut g: AppGraph<String, String> = AppGraph::new(s(""));
    g.set_meta(0, s("a"), StringSet::new());
    g.set_meta(0, s("b"), StringSet::new());
    let stored = g.ser();
    let payload = unseal(&stored).unwrap().to_vec();
    let a = payload.iter().position(|b| *b == b'a').unwrap();
    let b = payload.iter().position(|b| *b == b'b').unwrap();
    let mut swapped = payload.clone();
    swapped.swap(a, b);
    assert!(AppGraph::<String, String>::deser(&seal(payload)).is_ok());
    assert!(AppGraph::<String, String>::deser(&seal(swapped)).is_err());
    let mut twice = unseal(&stored).unwrap().to_vec();
    twice[b] = b'a';
    assert!(AppGraph::<String, String>::deser(&seal(twice)).is_err());
}

#[test]
fn payload_with_bad_utf8_is_corrupt() {
    let mut g: AppGraph<String, String> = AppGraph::new(s("p"));
    g.add_node_at(s("a"), s("t"));
    let mut payload = unseal(&g.ser()).unwrap().to_vec();
    let a = payload.iter().position(|b| *b == b'a').unwrap();
    payload[a] = 0xff;
    assert!(AppGraph::<String, String>::deser(&seal(payload)).is_err());
}

#[test]
fn stored_form_of_the_empty_graph_byte_by_byte() {
    let g: AppGraph<String, String> = AppGraph::new(s("p"));
    let mut payload: Vec<u8> = Vec::new();
    payload.extend_from_slice(&[0u8; 24]);
    payload.extend_from_slice(&[1, 0, 0, 0, 0, 0, 0, 0, b'p']);
    let mut expected: Vec<u8> = vec![0x41, 0x47, 0x52, 0x46, 1];
    expected.extend_from_slice(&[33, 0, 0, 0, 0, 0, 0, 0]);
    expected.extend_from_slice(&payload);
    expected.extend_from_slice(&fnv1a(&payload).to_le_bytes());
    assert_eq!(g.ser(), expected);
    assert_eq!(expected.len(), 33 + 21);
}

#[test]
fn stored_form_of_a_small_graph_byte_by_byte() {
    let mut g: AppGraph<String, usize> = AppGraph::new(s(""));
    g.set_meta(3, s("k"), StringSet::from_vec(vec![s("v")]));
    let mut payload: Vec<u8> = Vec::new();
    payload.extend_from_slice(&0u64.to_le_bytes()); // nodes
    payload.extend_from_slice(&0u64.to_le_bytes()); // edges
    payload.extend_from_slice(&1u64.to_le_bytes()); // annotated nodes
    payload.extend_from_slice(&3u64.to_le_bytes()); // node 3
    payload.extend_from_slice(&1u64.to_le_bytes()); // its keys
    payload.extend_from_slice(&1u64.to_le_bytes());
    payload.push(b'k');
    payload.extend_from_slice(&1u64.to_le_bytes()); // texts under k
    payload.extend_from_slice(&1u64.to_le_bytes());
    payload.push(b'v');
    payload.extend_from_slice(&0u64.to_le_bytes()); // path
    assert_eq!(g.ser(), seal(payload));
}

#[test]
fn equal_graphs_have_equal_stored_forms() {
    let mut a: AppGraph<String, String> = AppGraph::new(s("p"));
    let mut b: AppGraph<String, String> = AppGraph::new(s("q"));
    a.add_node_at(s("n"), s("t"));
    b.add_node_at(s("n"), s("t"));
    a.set_meta(5, s("k2"), StringSet::from_vec(vec![s("y"), s("x")]));
    a.set_meta(0, s("k1"), StringSet::from_vec(vec![s("z")]));
    b.set_meta(0, s("k1"), StringSet::from_vec(vec![s("z"), s("z")]));
    b.set_meta(5, s("k2"), StringSet::from_vec(vec![s("x"), s("y")]));
    b.set_path(s("p"));
    assert_eq!(a.ser(), b.ser());
}

#[test]
fn checksum_of_known_inputs() {
    assert_eq!(compute_checksum(b""), 0xcbf29ce484222325);
    assert_eq!(compute_checksum(b"a"), 0xaf63dc4c8601ec8c);
    assert_eq!(compute_checksum(b"foobar"), 0x85944171f73967e8);
}

#[test]
fn seal_and_unseal() {
    let sealed = seal(vec![1, 2, 3]);
    assert_eq!(sealed.len(), 3 + 21);
    assert_eq!(&sealed[..5], &[0x41, 0x47, 0x52, 0x46, 1]);
    assert_eq!(&sealed[5..13], &3u64.to_le_bytes());
    assert_eq!(&sealed[13..16], &[1, 2, 3]);
    assert_eq!(&sealed[16..], &fnv1a(&[1, 2, 3]).to_le_bytes());
    assert_eq!(unseal(&sealed), Some(&[1u8, 2, 3][..]));
    assert_eq!(unseal(&seal(vec![])), Some(&[][..]));
    let mut other_version = sealed.clone();
    other_version[4] = 2;
    assert_eq!(unseal(&other_version), None);
    let mut other_tag = sealed.clone();
    other_tag[0] = 0x42;
    assert_eq!(unseal(&other_tag), None);
    let mut other_length = sealed.clone();
    other_length[5] = 2;
    assert_eq!(unseal(&other_length), None);
    assert_eq!(unseal(&sealed[..20]), None);
    assert_eq!(unseal(&[]), None);
}

#[test]
fn load_tells_failures_apart() {
    let g = sample();
    let loaded = AppGraph::<String, String>::load(Ok(g.ser()));
    assert_same(&g, &loaded.ok().unwrap());
    assert!(matches!(
        AppGraph::<String, String>::load(Err(IoFailure::NotFound)),
        Err(LoadError::Io(IoFailure::NotFound))
    ));
    assert!(matches!(
        AppGraph::<String, String>::load(Err(IoFailure::Other)),
        Err(LoadError::Io(IoFailure::Other))
    ));
    assert!(matches!(
        AppGraph::<String, String>::load(Ok(vec![1, 2, 3])),
        Err(LoadError::Corrupt)
    ));
}
