use skipnode::levels_required;
use skipnode::IntoIter;
use skipnode::SkipNode;

#[test]
fn test_level_required() {
    assert_eq!(levels_required(0), 1);
    assert_eq!(levels_required(1), 1);
    assert_eq!(levels_required(2), 2);
    assert_eq!(levels_required(3), 2);
    assert_eq!(levels_required(1023), 10);
    assert_eq!(levels_required(1024), 11);
}

fn level_for_index(mut n: usize) -> usize {
    let mut cnt = 0;
    while n & 0x1 == 1 {
        cnt += 1;
        n /= 2;
    }
    cnt
}

#[test]
fn test_level_index() {
    assert_eq!(level_for_index(0), 0);
    assert_eq!(level_for_index(1), 1);
    assert_eq!(level_for_index(2), 0);
    assert_eq!(level_for_index(3), 2);
    assert_eq!(level_for_index(4), 0);
    assert_eq!(level_for_index(5), 1);
    assert_eq!(level_for_index(6), 0);
    assert_eq!(level_for_index(7), 3);
    assert_eq!(level_for_index(8), 0);
    assert_eq!(level_for_index(9), 1);
    assert_eq!(level_for_index(10), 0);
    assert_eq!(level_for_index(11), 2);
}

/// Make a list of size n by appending; levels are evenly spread out.
fn new_list_for_test(n: usize) -> SkipNode<usize> {
    let max_level = levels_required(n);
    let mut head = SkipNode::<usize>::head(max_level);
    assert_eq!(head.level_count(), max_level);
    for i in 0..n {
        let node = SkipNode::new(i, level_for_index(i));
        head.insert(node, i);
    }
    head
}

#[test]
fn test_make_new_list() {
    fn test_list_integrity(len: usize) {
        let list = new_list_for_test(len);
        // every element came out at the level it was given, in order
        let mut expected = 0usize;
        let mut it = list.into_iter();
        while let Some(v) = it.next() {
            assert_eq!(v, expected);
            assert_eq!(level_for_index(v), level_for_index(expected));
            expected += 1;
        }
        assert_eq!(expected, len);

        // the spans at every level sum to the chain's length
        let list = new_list_for_test(len);
        for level in 0..levels_required(len) {
            assert_eq!(list.distance(0, level, None), Ok(len));
        }
    }
    test_list_integrity(0);
    test_list_integrity(1);
    test_list_integrity(2);
    test_list_integrity(3);
    test_list_integrity(10);
    test_list_integrity(1023);
    test_list_integrity(1024);
    test_list_integrity(1025);
}

#[test]
fn head_node_is_valueless_anchor() {
    let head = SkipNode::<u32>::head(4);
    assert_eq!(head.level_count(), 4);
    assert!(head.is_head(0));
    assert_eq!(head.into_inner(), None);
}

#[test]
fn new_node_carries_its_value() {
    let node = SkipNode::new(7u32, 2);
    assert_eq!(node.into_inner(), Some(7));
}

#[test]
fn scenario_append_then_remove_middle() {
    // start with an empty structure of height 1 and append 0..10
    let mut head = SkipNode::<usize>::head(1);
    for i in 0..10 {
        head.insert(SkipNode::new(i, 0), i);
    }
    assert_eq!(head.distance(0, 0, None), Ok(10));

    // removing at offset 5 returns value 5 and the distance travelled
    let (node, travelled) = head.remove(5).unwrap();
    assert_eq!(travelled, 6);
    assert_eq!(node.into_inner(), Some(5));

    // level-0 order afterwards
    assert_eq!(head.distance(0, 0, None), Ok(9));
    let mut it = head.into_iter();
    let mut seen = Vec::new();
    while let Some(v) = it.next() {
        seen.push(v);
    }
    assert_eq!(seen, vec![0, 1, 2, 3, 4, 6, 7, 8, 9]);
}

#[test]
fn insert_lands_at_requested_offset() {
    let mut head = SkipNode::<&str>::head(2);
    head.insert(SkipNode::new("a", 0), 0);
    head.insert(SkipNode::new("c", 0), 1);
    let (_, travelled) = head.insert(SkipNode::new("b", 1), 1);
    assert_eq!(travelled, 2);
    let mut it = head.into_iter();
    assert_eq!(it.next(), Some("a"));
    assert_eq!(it.next(), Some("b"));
    assert_eq!(it.next(), Some("c"));
    assert_eq!(it.next(), None);
}

#[test]
fn insert_beyond_end_appends() {
    let mut head = SkipNode::<u8>::head(1);
    head.insert(SkipNode::new(1, 0), 0);
    let (_, travelled) = head.insert(SkipNode::new(2, 0), 100);
    assert_eq!(travelled, 2);
    let mut it = head.into_iter();
    assert_eq!(it.next(), Some(1));
    assert_eq!(it.next(), Some(2));
    assert_eq!(it.next(), None);
}

#[test]
fn remove_past_end_is_none() {
    let mut head = SkipNode::<u8>::head(1);
    assert!(head.remove(0).is_none());
    head.insert(SkipNode::new(9, 0), 0);
    assert!(head.remove(1).is_none());
    let (node, travelled) = head.remove(0).unwrap();
    assert_eq!(travelled, 1);
    assert_eq!(node.into_inner(), Some(9));
}

#[test]
fn insert_then_remove_at_same_offset_restores_spans() {
    let mut head = new_list_for_test(10);
    let before: Vec<Result<usize, ()>> =
        (0..levels_required(10)).map(|l| head.distance(0, l, None)).collect();

    head.insert(SkipNode::new(77, 1), 4);
    let (node, travelled) = head.remove(4).unwrap();
    assert_eq!(travelled, 5);
    assert_eq!(node.into_inner(), Some(77));

    let after: Vec<Result<usize, ()>> =
        (0..levels_required(10)).map(|l| head.distance(0, l, None)).collect();
    assert_eq!(before, after);

    let mut it = head.into_iter();
    let mut seen = Vec::new();
    while let Some(v) = it.next() {
        seen.push(v);
    }
    assert_eq!(seen, vec![0, 1, 2, 3, 4, 5, 6, 7, 8, 9]);
}

#[test]
fn distance_reports_unreachable_targets() {
    let mut head = SkipNode::<usize>::head(3);
    let mut handles = Vec::new();
    for i in 0..6 {
        let (h, _) = head.insert(SkipNode::new(i, level_for_index(i)), i);
        handles.push(h);
    }
    // forward at level 0: reachable, with the exact distance
    assert_eq!(head.distance(0, 0, Some(handles[3])), Ok(4));
    assert_eq!(head.distance(handles[0], 0, Some(handles[3])), Ok(3));
    assert_eq!(head.distance(handles[3], 0, Some(handles[3])), Ok(0));
    // backward: the target lies behind the start node
    assert_eq!(head.distance(handles[3], 0, Some(handles[0])), Err(()));
    // a node of too low a level is not linked at a higher level
    assert_eq!(head.distance(0, 1, Some(handles[0])), Err(()));
    assert_eq!(head.distance(0, 1, Some(handles[1])), Ok(2));
}

#[test]
fn advance_atmost_respects_the_budget() {
    let mut head = SkipNode::<usize>::head(4);
    for i in 0..9 {
        head.insert(SkipNode::new(i, level_for_index(i)), i);
    }
    let (h0, d0) = head.advance_atmost(0, 0, 0);
    assert_eq!((h0, d0), (0, 0));
    let (h1, d1) = head.advance_atmost(0, 0, 3);
    assert_eq!(d1, 3);
    assert_eq!(head.distance(0, 0, Some(h1)), Ok(3));
    let (_, d2) = head.advance_atmost(0, 0, 100);
    assert_eq!(d2, 9);
    // at level 1 only every other node is linked
    let (h3, d3) = head.advance_atmost(0, 1, 3);
    assert_eq!(d3, 2);
    assert_eq!(head.distance(0, 0, Some(h3)), Ok(2));
}

#[test]
fn advance_while_walks_until_the_predicate_fails() {
    let mut head = SkipNode::<usize>::head(3);
    let mut handles = Vec::new();
    for i in 0..8 {
        let (h, _) = head.insert(SkipNode::new(i, level_for_index(i)), i);
        handles.push(h);
    }
    let stop = handles[4];
    let (h, d) = head.advance_while(0, 0, |cur: usize, _next: usize| cur != stop);
    assert_eq!(h, stop);
    assert_eq!(d, 5);
    let (h2, d2) = head.advance_while(0, 0, |_cur: usize, _next: usize| false);
    assert_eq!((h2, d2), (0, 0));
    let (h3, d3) = head.advance_while_mut(0, 0, |_cur: usize, _next: usize| true);
    assert_eq!(d3, 8);
    assert_eq!(head.distance(0, 0, Some(h3)), Ok(8));
}

#[test]
fn two_ended_iteration_round_trip() {
    let fwd: Vec<usize> = {
        let mut it = new_list_for_test(7).into_iter();
        let mut v = Vec::new();
        while let Some(x) = it.next() {
            v.push(x);
        }
        v
    };
    let mut bwd: Vec<usize> = {
        let mut it = new_list_for_test(7).into_iter();
        let mut v = Vec::new();
        while let Some(x) = it.next_back() {
            v.push(x);
        }
        v
    };
    bwd.reverse();
    assert_eq!(fwd, bwd);
    assert_eq!(fwd, vec![0, 1, 2, 3, 4, 5, 6]);

    // partial consumption from both ends leaves the middle, in order
    let mut it: IntoIter<usize> = new_list_for_test(7).into_iter();
    assert_eq!(it.size_hint(), (7, Some(7)));
    assert_eq!(it.next(), Some(0));
    assert_eq!(it.next_back(), Some(6));
    assert_eq!(it.next_back(), Some(5));
    assert_eq!(it.size_hint(), (4, Some(4)));
    let mut mid = Vec::new();
    while let Some(x) = it.next() {
        mid.push(x);
    }
    assert_eq!(mid, vec![1, 2, 3, 4]);
    assert_eq!(it.next_back(), None);
    assert_eq!(it.size_hint(), (0, Some(0)));
}

#[test]
fn teardown_of_long_chains_is_iterative() {
    // dropping a chain of 10_000 nodes must not recurse node by node; the
    // arena owns them flatly, so this completes without deep call stacks
    let list = new_list_for_test(10_000);
    assert_eq!(list.distance(0, 0, None), Ok(10_000));
    drop(list);

    // the same holds for a chain torn down through the iterator
    let mut it = new_list_for_test(10_000).into_iter();
    assert_eq!(it.size_hint(), (10_000, Some(10_000)));
    assert_eq!(it.next(), Some(0));
    drop(it);
}
