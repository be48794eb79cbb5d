//! The exercises around the store: hasher, hash map, heap, ids,
//! generators, lists and the small numeric functions.

use blockstore::dlist;
use blockstore::huffman::HuffmanNode;
use blockstore::ecs::{EcsStore, GenData, GenManager, VecStore};
use blockstore::factorial::factorial;
use blockstore::fibonacci::fibonacci;
use blockstore::hash_map::HMap;
use blockstore::hasher::hash;
use blockstore::heap::Heap;
use blockstore::list;
use blockstore::rng::RandGen;
use std::collections::HashSet;

#[test]
fn same_input_same_hash() {
    let h = hash(55, b"cat");
    assert_eq!(hash(55, b"cat"), h);
}

#[test]
fn different_input_different_hash() {
    let h = hash(55, b"cat");
    assert!(hash(55, b"cats") != h);
}

#[test]
fn different_hash_with_different_order() {
    let h = hash(55, b"abc");
    assert!(hash(55, b"cba") != h);
}

#[test]
fn diffrent_hash_with_different_numbers() {
    let mut result = HashSet::new();

    for i in 0..10_000i32 {
        // It returns true if there is no identical hash
        // before.
        assert!(result.insert(hash(55, &i.to_le_bytes())));
    }
}

#[test]
fn test_get_right_values() {
    let mut map = HMap::new();
    map.insert("keith".to_string(), 18);
    map.insert("dave".to_string(), 1);
    map.insert("andy".to_string(), 9);
    map.insert("pete".to_string(), 88);
    map.insert("jane".to_string(), 22);
    map.insert("sam".to_string(), 2);
    map.insert("andrew".to_string(), 99);

    assert_eq!(map.get(&"andrew".to_string()), Some(&99));
}

#[test]
fn test_update_right_values() {
    let mut map = HMap::new();
    map.insert("keith".to_string(), 18);
    map.insert("dave".to_string(), 1);
    map.insert("andy".to_string(), 9);
    map.insert("pete".to_string(), 88);
    map.insert("jane".to_string(), 22);
    map.insert("sam".to_string(), 2);
    map.insert("andrew".to_string(), 99);

    assert_eq!(map.get(&"keith".to_string()), Some(&18));
    map.insert("keith".to_string(), 27);
    assert_eq!(map.get(&"keith".to_string()), Some(&27));
}

#[test]
fn test_map_len() {
    let mut map = HMap::new();
    map.insert("keith".to_string(), 18);
    map.insert("dave".to_string(), 1);
    map.insert("andy".to_string(), 9);
    map.insert("pete".to_string(), 88);
    map.insert("jane".to_string(), 22);
    map.insert("sam".to_string(), 2);
    map.insert("andrew".to_string(), 99);

    assert_eq!(map.len(), 7);
}

#[test]
fn test_lots_of_numbers() {
    let mut map = HMap::new();
    for x in 0..10_000i32 {
        map.insert(x, x + 250);
    }

    assert_eq!(map.len(), 10_000);
    assert_eq!(map.get(&500), Some(&750));

    for i in 0..map.main_bucket_count() {
        let n = map.main_bucket_len(i);
        assert!(n < 10, "main bucket[{i}] too big: {}", n);
    }
    for i in 0..map.grow_bucket_count() {
        let n = map.grow_bucket_len(i);
        assert!(n < 10, "grow bucket[{i}] too big: {}", n);
    }
}

#[test]
fn binary_heap() {
    let mut heap = Heap::new(2);

    heap.insert(15);
    heap.insert(11);
    heap.insert(10);
    assert_eq!(heap.top(), Some(15));
    assert_eq!(heap.top(), Some(11));
    assert_eq!(heap.top(), Some(10));
}

#[test]
fn ternary_heap() {
    let mut heap = Heap::new(3);

    heap.insert(15);
    heap.insert(11);
    heap.insert(10);
    assert_eq!(heap.top(), Some(15));
    assert_eq!(heap.top(), Some(11));
    assert_eq!(heap.top(), Some(10));
}

#[test]
fn heap_update_moves_values() {
    let mut heap = Heap::new(3);
    heap.insert(10);
    heap.insert(11);
    heap.insert(51);
    assert!(heap.update(10, 55));
    assert!(!heap.update(10, 10));
    assert!(!heap.update(99, 1));
    assert_eq!(heap.top(), Some(55));
    assert_eq!(heap.top(), Some(51));
    assert_eq!(heap.top(), Some(11));
    assert_eq!(heap.top(), None);
}

#[test]
fn test_items_drop() {
    let mut gm = GenManager::new();

    let g = gm.next_gen();
    assert_eq!(g, GenData { gen: 0, pos: 0 });
    let g2 = gm.next_gen();
    gm.next_gen();
    gm.next_gen();
    gm.next_gen();
    gm.drop(g2);
    let g3 = gm.next_gen();
    assert_eq!(g3, GenData { gen: 1, pos: 1 });
}

#[test]
fn items_drop() {
    let mut gm = blockstore::id_generator::GenManager::new();

    let g = gm.next_gen();
    assert_eq!(
        g,
        blockstore::id_generator::GenData { gen: 0, pos: 0 }
    );
    let g2 = gm.next_gen();
    gm.next_gen();
    gm.next_gen();
    gm.next_gen();
    gm.drop(g2);
    let g3 = gm.next_gen();
    assert_eq!(
        g3,
        blockstore::id_generator::GenData { gen: 1, pos: 1 }
    );
}

#[test]
fn store_can_drop() {
    let mut gm = GenManager::new();
    let mut store = VecStore::new();

    store.add(gm.next_gen(), 5);
    store.add(gm.next_gen(), 3);
    store.add(gm.next_gen(), 2);

    let g4 = gm.next_gen();

    store.add(g4, 5);

    for g in store.ids() {
        if let Some(d) = store.get(g) {
            let bumped = *d + 2;
            store.set(g, bumped);
        }
    }

    assert_eq!(store.get(g4), Some(&7));

    store.drop(g4);

    assert_eq!(store.get(g4), None);
}

#[test]
fn test_fibonacci() {
    fn fib(n: usize) -> usize {
        if n < 2 {
            return 1;
        }
        fib(n - 1) + fib(n - 2)
    }
    for n in 0..=30 {
        assert_eq!(fibonacci(n), fib(n));
    }
}

#[test]
fn test_factorial() {
    assert_eq!(factorial(0), 1);
    assert_eq!(factorial(1), 1);
    assert_eq!(factorial(5), 120);
    assert_eq!(factorial(20), 2432902008176640000);
}

#[test]
fn rand() {
    let mut hit = HashSet::new();
    let mut rg = RandGen::new(31);
    for _ in 0..100 {
        let got = rg.next(10000);
        assert!(hit.insert(got));
    }
}

#[test]
fn deque_pushes_and_pops() {
    let mut l = dlist::LinkedList::new();
    l.push_front(2);
    l.push_front(1);
    l.push_back(3);
    assert_eq!(l.len(), 3);
    assert!(!l.is_empty());
    let mut it = l.iter();
    assert_eq!(it.next(), Some(&1));
    assert_eq!(it.next(), Some(&2));
    assert_eq!(it.next(), Some(&3));
    assert_eq!(it.next(), None);
    assert_eq!(l.pop_front(), Some(1));
    assert_eq!(l.pop_back(), Some(3));
    assert_eq!(l.pop_back(), Some(2));
    assert_eq!(l.pop_front(), None);
}

#[test]
fn sorted_list_insert() {
    let mut l = list::LinkedList::new();
    l.push_front(5);
    l.push_back(9);
    l.insert(7);
    l.insert(1);
    l.insert(12);
    assert_eq!(l.to_vec(), vec![1, 5, 7, 9, 12]);
}

#[test]
fn merge_sort_sorts() {
    let v = vec![9, 8, 10, 22, 1, -1];
    let v = blockstore::merge_sort::merge_sort(v);
    assert_eq!(v, vec![-1, 1, 8, 9, 10, 22]);
    assert_eq!(
        blockstore::merge_sort::merge_sort(Vec::new()),
        Vec::<i32>::new()
    );
}

#[test]
fn search_tree_insert() {
    let mut tree = blockstore::tree::Tree::new();
    for x in [4, 5, 6, 10, 1, 94, 54, 3, 4] {
        tree.insert(x);
    }
    assert_eq!(tree.in_order(), vec![1, 3, 4, 5, 6, 10, 54, 94]);
}

#[test]
fn balanced_tree_insert() {
    let mut tree = blockstore::balanced_tree::Tree::new();
    for x in [4, 5, 6, 10, 1, 94, 54, 3] {
        tree.insert(x);
    }
    for x in 0..1000 {
        tree.insert(x);
    }
    assert!(tree.height() >= 1);
}

#[test]
fn graph_edges_need_nodes() {
    let mut g = blockstore::graph::Graph::new();
    for x in ['A', 'B', 'C'] {
        g.add_node(x, ());
    }
    assert!(g.add_edge('a', 'A', 'B', 6).is_ok());
    assert_eq!(
        g.add_edge('b', 'Z', 'B', 1),
        Err(blockstore::graph::GraphError::InvalidFrom)
    );
    assert_eq!(
        g.add_edge('c', 'A', 'Z', 1),
        Err(blockstore::graph::GraphError::InvalidTo)
    );
}

#[test]
fn huffman_codes() {
    // ((a|b) | c): a = 00, b = 01, c = 1.
    let tree = HuffmanNode::Tree(
        Box::new(HuffmanNode::Tree(
            Box::new(HuffmanNode::Leaf('a')),
            Box::new(HuffmanNode::Leaf('b')),
        )),
        Box::new(HuffmanNode::Leaf('c')),
    );
    assert_eq!(tree.encode_char('a'), Some(vec!['0', '0']));
    assert_eq!(tree.encode_char('b'), Some(vec!['0', '1']));
    assert_eq!(tree.encode_char('c'), Some(vec!['1']));
    assert_eq!(tree.encode_char('z'), None);
    assert_eq!(
        tree.encode_str("cab"),
        Some(vec!['1', '0', '0', '0', '1'])
    );
    assert_eq!(tree.encode_str("zz"), None);
}
