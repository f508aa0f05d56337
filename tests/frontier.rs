use nqueens::search::{AStar, Dijkstra, NoAllocDFS, Search, BFS, DFS};

fn drain<S: Search<Item = u32>>(s: &mut S) -> Vec<u32> {
    let mut out = Vec::new();
    while let Some(x) = s.pop_next() {
        out.push(x);
    }
    out
}

#[test]
fn dfs_pops_newest_first() {
    let mut s: DFS<u32> = DFS::new();
    s.push(1);
    s.push(2);
    s.push(3);
    assert_eq!(s.len(), 3);
    assert_eq!(s.next(), Some(&3));
    assert_eq!(drain(&mut s), vec![3, 2, 1]);
    assert_eq!(s.pop_next(), None);
    assert_eq!(s.next(), None);
    assert!(!s.is_abort_on_found());
    assert!(!s.is_informed_search());
}

#[test]
fn fixed_stack_pops_newest_first() {
    let mut s: NoAllocDFS<u32, 4> = NoAllocDFS::new();
    s.push(7);
    s.push(8);
    s.push(9);
    assert_eq!(s.to_vec(), vec![7, 8, 9]);
    assert_eq!(s.next(), Some(&9));
    assert_eq!(drain(&mut s), vec![9, 8, 7]);
    assert_eq!(s.len(), 0);
}

#[test]
fn bfs_orders_by_layer_then_arrival() {
    let mut s: BFS<u32> = BFS::with_capacity(8);
    s.moves_hint(2).push(20);
    s.moves_hint(1).push(10);
    s.moves_hint(2).push(21);
    s.moves_hint(1).push(11);
    s.moves_hint(0).push(0);
    assert_eq!(s.next(), Some(&0));
    assert_eq!(drain(&mut s), vec![0, 10, 11, 20, 21]);
    assert!(s.is_abort_on_found());
}

#[test]
fn dijkstra_pops_least_cost_newest_among_equals() {
    let mut s: Dijkstra<u32> = Dijkstra::new();
    s.apply_path_cost(5).push(50);
    s.apply_path_cost(1).push(10);
    s.apply_path_cost(3).push(30);
    s.apply_path_cost(1).push(11);
    assert_eq!(s.len(), 4);
    assert_eq!(drain(&mut s), vec![11, 10, 30, 50]);
    assert!(s.is_abort_on_found());
    assert!(!s.is_informed_search());
}

#[test]
fn astar_orders_by_cost_plus_estimate() {
    let mut s: AStar<u32> = AStar::new();
    s.apply_path_cost(1).apply_node_heuristic(5).push(6);
    s.apply_path_cost(2).apply_node_heuristic(2).push(4);
    // Hints start again from zero after each push.
    s.push(0);
    s.apply_node_heuristic(4).push(40);
    assert_eq!(drain(&mut s), vec![0, 40, 4, 6]);
    assert!(s.is_informed_search());
}

fn run_astar_script() -> Vec<u32> {
    let mut s: AStar<u32> = AStar::new();
    let mut order = Vec::new();
    for i in 0..20u32 {
        s.apply_path_cost((i % 3) as usize).apply_node_heuristic((i % 5) as usize).push(i);
        if i % 4 == 3 {
            order.push(s.pop_next().unwrap());
        }
    }
    order.extend(drain(&mut s));
    order
}

#[test]
fn replaying_a_search_gives_the_same_order() {
    let a = run_astar_script();
    let b = run_astar_script();
    assert_eq!(a.len(), 20);
    assert_eq!(a, b);
}

#[test]
fn fixed_stack_fills_to_capacity() {
    let mut s: NoAllocDFS<u8, 2> = NoAllocDFS::with_capacity(0);
    s.push(1);
    s.push(2);
    assert_eq!(s.len(), 2);
    assert_eq!(s.pop_next(), Some(2));
    s.push(3);
    assert_eq!(s.to_vec(), vec![1, 3]);
}
