//! Frontiers: the ordered open sets behind depth-first, breadth-first,
//! Dijkstra and A* search, all offered through one trait.
use vstd::prelude::*;

verus! {

/// An open set of search nodes.
///
/// `pending()` lists the stored nodes so that its last element is the next
/// one to leave; `after_push` says where a pushed node lands, given the cost
/// hints supplied since the previous push.
pub trait Search: Sized {
    type Item;

    /// The stored nodes; the last one leaves next.
    spec fn pending(&self) -> Seq<Self::Item>;

    /// The frontier's internal invariant.
    spec fn inv(&self) -> bool;

    /// Whether one more node fits.
    spec fn has_room(&self) -> bool;

    /// The stored nodes after pushing `item`.
    spec fn after_push(&self, item: Self::Item) -> Seq<Self::Item>;

    /// True where the first goal that leaves the frontier is an optimal one.
    spec fn spec_abort_on_found() -> bool;

    /// True where the order uses an estimate of the remaining cost.
    spec fn spec_informed() -> bool;

    fn is_abort_on_found(&self) -> (r: bool)
        ensures
            r == Self::spec_abort_on_found(),
    ;

    fn is_informed_search(&self) -> (r: bool)
        ensures
            r == Self::spec_informed(),
    ;

    fn new() -> (r: Self)
        ensures
            r.inv(),
            r.pending().len() == 0,
    ;

    fn with_capacity(n: usize) -> (r: Self)
        ensures
            r.inv(),
            r.pending().len() == 0,
    ;

    /// The node that `pop_next` would return, left in place.
    fn next(&self) -> (r: Option<&Self::Item>)
        requires
            self.inv(),
        ensures
            self.pending().len() == 0 ==> r is None,
            self.pending().len() > 0 ==> r == Some(&self.pending().last()),
    ;

    fn pop_next(&mut self) -> (r: Option<Self::Item>)
        requires
            old(self).inv(),
        ensures
            final(self).inv(),
            old(self).pending().len() == 0 ==> r is None && final(self).pending()
                == old(self).pending(),
            old(self).pending().len() > 0 ==> r == Some(old(self).pending().last())
                && final(self).pending() == old(self).pending().drop_last(),
    ;

    fn push(&mut self, item: Self::Item)
        requires
            old(self).inv(),
            old(self).has_room(),
        ensures
            final(self).inv(),
            final(self).pending() == old(self).after_push(item),
            exists|k: int|
                0 <= k <= old(self).pending().len() && final(self).pending() == old(
                    self,
                ).pending().insert(k, item),
    ;

    fn len(&self) -> (r: usize)
        requires
            self.inv(),
        ensures
            r == self.pending().len(),
    ;

    /// Supplies the layer (depth) of the next pushed node; only the
    /// breadth-first frontier orders by it.
    fn moves_hint(&mut self, moves: i8) -> (r: &mut Self)
        requires
            old(self).inv(),
        ensures
            r.inv(),
            r.pending() == old(self).pending(),
            r.has_room() == old(self).has_room(),
            *final(self) == *final(r),
    ;

    /// Supplies the accumulated path cost of the next pushed node.
    fn apply_path_cost(&mut self, cost: usize) -> (r: &mut Self)
        requires
            old(self).inv(),
        ensures
            r.inv(),
            r.pending() == old(self).pending(),
            r.has_room() == old(self).has_room(),
            *final(self) == *final(r),
    ;

    /// Supplies the estimated remaining cost of the next pushed node.
    fn apply_node_heuristic(&mut self, cost: usize) -> (r: &mut Self)
        requires
            old(self).inv(),
        ensures
            r.inv(),
            r.pending() == old(self).pending(),
            r.has_room() == old(self).has_room(),
            *final(self) == *final(r),
    ;
}

/// Depth-first frontier over a fixed array of `N` slots: it never allocates.
#[derive(Copy, Clone)]
pub struct NoAllocDFS<T: Copy, const N: usize>([Option<T>; N], usize);

impl<T: Copy, const N: usize> NoAllocDFS<T, N> {
    /// The stored nodes, oldest first.
    pub fn to_vec(self) -> (r: Vec<T>)
        requires
            self.inv(),
        ensures
            r@ == self.pending(),
    {
        let mut out: Vec<T> = Vec::new();
        let mut i: usize = 0;
        while i < self.1
            invariant
                self.inv(),
                i <= self.1,
                out@ == self.pending().subrange(0, i as int),
            decreases self.1 - i,
        {
            match self.0[i] {
                Some(x) => {
                    out.push(x);
                },
                None => {},
            }
            assert(out@ =~= self.pending().subrange(0, i + 1));
            i = i + 1;
        }
        assert(out@ =~= self.pending());
        out
    }
}

impl<T: Copy, const N: usize> Search for NoAllocDFS<T, N> {
    type Item = T;

    closed spec fn pending(&self) -> Seq<T> {
        self.0@.subrange(0, self.1 as int).map_values(|x: Option<T>| x.unwrap())
    }

    closed spec fn inv(&self) -> bool {
        &&& self.1 <= N
        &&& forall|i: int| 0 <= i < self.1 ==> (#[trigger] self.0@[i]) is Some
    }

    open spec fn has_room(&self) -> bool {
        self.pending().len() < N
    }

    open spec fn after_push(&self, item: T) -> Seq<T> {
        self.pending().push(item)
    }

    open spec fn spec_abort_on_found() -> bool {
        false
    }

    open spec fn spec_informed() -> bool {
        false
    }

    fn is_abort_on_found(&self) -> (r: bool) {
        false
    }

    fn is_informed_search(&self) -> (r: bool) {
        false
    }

    fn new() -> (r: Self) {
        NoAllocDFS([None; N], 0)
    }

    fn with_capacity(n: usize) -> (r: Self) {
        NoAllocDFS([None; N], 0)
    }

    fn next(&self) -> (r: Option<&T>) {
        if self.1 > 0 {
            match &self.0[self.1 - 1] {
                Some(x) => Some(x),
                None => None,
            }
        } else {
            None
        }
    }

    fn pop_next(&mut self) -> (r: Option<T>) {
        if self.1 > 0 {
            self.1 = self.1 - 1;
            let r = self.0[self.1];
            assert(self.pending() =~= old(self).pending().drop_last());
            r
        } else {
            None
        }
    }

    fn push(&mut self, item: T) {
        self.0[self.1] = Some(item);
        self.1 = self.1 + 1;
        assert(self.pending() =~= old(self).pending().push(item));
        assert(self.pending() =~= old(self).pending().insert(old(self).pending().len() as int, item));
    }

    fn len(&self) -> (r: usize) {
        self.1
    }

    fn moves_hint(&mut self, moves: i8) -> (r: &mut Self) {
        self
    }

    fn apply_path_cost(&mut self, cost: usize) -> (r: &mut Self) {
        self
    }

    fn apply_node_heuristic(&mut self, cost: usize) -> (r: &mut Self) {
        self
    }
}

/// Iterative depth-first frontier: a growable stack.
pub struct DFS<T>(Vec<T>);

impl<T> Search for DFS<T> {
    type Item = T;

    closed spec fn pending(&self) -> Seq<T> {
        self.0@
    }

    closed spec fn inv(&self) -> bool {
        true
    }

    open spec fn has_room(&self) -> bool {
        self.pending().len() < usize::MAX
    }

    open spec fn after_push(&self, item: T) -> Seq<T> {
        self.pending().push(item)
    }

    open spec fn spec_abort_on_found() -> bool {
        false
    }

    open spec fn spec_informed() -> bool {
        false
    }

    fn is_abort_on_found(&self) -> (r: bool) {
        false
    }

    fn is_informed_search(&self) -> (r: bool) {
        false
    }

    fn new() -> (r: Self) {
        DFS(Vec::new())
    }

    fn with_capacity(n: usize) -> (r: Self) {
        DFS(Vec::with_capacity(n))
    }

    fn next(&self) -> (r: Option<&T>) {
        if self.0.len() > 0 {
            Some(&self.0[self.0.len() - 1])
        } else {
            None
        }
    }

    fn pop_next(&mut self) -> (r: Option<T>) {
        self.0.pop()
    }

    fn push(&mut self, item: T) {
        self.0.push(item);
        assert(self.0@ =~= old(self).0@.insert(old(self).0@.len() as int, item));
    }

    fn len(&self) -> (r: usize) {
        self.0.len()
    }

    fn moves_hint(&mut self, moves: i8) -> (r: &mut Self) {
        self
    }

    fn apply_path_cost(&mut self, cost: usize) -> (r: &mut Self) {
        self
    }

    fn apply_node_heuristic(&mut self, cost: usize) -> (r: &mut Self) {
        self
    }
}

/// Index at which a node with key `k` joins entries whose keys run from the
/// largest to the smallest: past every larger key, and past the equal ones too
/// when `newest_first` (so that it leaves before them).
pub open spec fn slot(keys: Seq<int>, k: int, newest_first: bool) -> int
    decreases keys.len(),
{
    if keys.len() == 0 {
        0
    } else if keys.last() > k || (newest_first && keys.last() == k) {
        keys.len() as int
    } else {
        slot(keys.drop_last(), k, newest_first)
    }
}

/// A slot lies within the entries or just past them.
pub proof fn lemma_slot_bounds(keys: Seq<int>, k: int, newest_first: bool)
    ensures
        0 <= slot(keys, k, newest_first) <= keys.len(),
    decreases keys.len(),
{
    if keys.len() > 0 {
        lemma_slot_bounds(keys.drop_last(), k, newest_first);
    }
}

/// Keys that never increase along the sequence: the smallest one is last.
pub open spec fn non_increasing(keys: Seq<int>) -> bool {
    forall|i: int, j: int| 0 <= i < j < keys.len() ==> keys[i] >= keys[j]
}

/// A stored node with its ordering key.
pub struct BinaryHeapItem<T>(T, usize);

spec fn entry_items<T>(s: Seq<BinaryHeapItem<T>>) -> Seq<T> {
    s.map_values(|e: BinaryHeapItem<T>| e.0)
}

spec fn entry_keys<T>(s: Seq<BinaryHeapItem<T>>) -> Seq<int> {
    s.map_values(|e: BinaryHeapItem<T>| e.1 as int)
}

/// Inserts a node into entries kept by non-increasing key, so that the
/// smallest key leaves first.
fn insert_by_key<T>(v: &mut Vec<BinaryHeapItem<T>>, item: T, key: usize, newest_first: bool)
    requires
        non_increasing(entry_keys(old(v)@)),
    ensures
        final(v)@ == old(v)@.insert(
            slot(entry_keys(old(v)@), key as int, newest_first),
            BinaryHeapItem(item, key),
        ),
        non_increasing(entry_keys(final(v)@)),
        0 <= slot(entry_keys(old(v)@), key as int, newest_first) <= old(v)@.len(),
{
    let ghost keys = entry_keys(v@);
    let mut i: usize = v.len();
    assert(keys.subrange(0, i as int) =~= keys);
    while i > 0 && (v[i - 1].1 < key || (!newest_first && v[i - 1].1 == key))
        invariant
            i <= v.len(),
            v@ == old(v)@,
            keys == entry_keys(v@),
            slot(keys, key as int, newest_first) == slot(
                keys.subrange(0, i as int),
                key as int,
                newest_first,
            ),
            forall|j: int|
                i <= j < keys.len() ==> keys[j] < key || (!newest_first && keys[j] == key),
        decreases i,
    {
        assert(keys.subrange(0, i as int).drop_last() =~= keys.subrange(0, i - 1));
        i = i - 1;
    }
    assert(keys.subrange(0, 0) =~= Seq::<int>::empty());
    assert(slot(keys, key as int, newest_first) == i);
    v.insert(i, BinaryHeapItem(item, key));
    assert(entry_keys(v@) =~= keys.insert(i as int, key as int));
}

/// Breadth-first frontier: nodes leave by non-decreasing layer, and in the
/// order they came within a layer.
pub struct BFS<T>(Vec<BinaryHeapItem<T>>, i8);

impl<T> BFS<T> {
    /// The layers of the stored nodes, in the order of `pending()`.
    pub closed spec fn layers(&self) -> Seq<int> {
        self.0@.map_values(|e: BinaryHeapItem<T>| e.1 as int - 128)
    }

    /// The layer given to the next pushed node.
    pub closed spec fn layer_hint(&self) -> i8 {
        self.1
    }
}

impl<T> Search for BFS<T> {
    type Item = T;

    closed spec fn pending(&self) -> Seq<T> {
        entry_items(self.0@)
    }

    closed spec fn inv(&self) -> bool {
        &&& non_increasing(entry_keys(self.0@))
        &&& forall|i: int| 0 <= i < self.0@.len() ==> (#[trigger] self.0@[i]).1 < 256
    }

    open spec fn has_room(&self) -> bool {
        self.pending().len() < usize::MAX
    }

    open spec fn after_push(&self, item: T) -> Seq<T> {
        self.pending().insert(slot(self.layers(), self.layer_hint() as int, false), item)
    }

    open spec fn spec_abort_on_found() -> bool {
        true
    }

    open spec fn spec_informed() -> bool {
        false
    }

    fn is_abort_on_found(&self) -> (r: bool) {
        true
    }

    fn is_informed_search(&self) -> (r: bool) {
        false
    }

    fn new() -> (r: Self)
        ensures
            r.layers().len() == 0,
            r.layer_hint() == 0,
    {
        BFS(Vec::new(), 0)
    }

    fn with_capacity(n: usize) -> (r: Self)
        ensures
            r.layers().len() == 0,
            r.layer_hint() == 0,
    {
        BFS(Vec::with_capacity(n), 0)
    }

    fn next(&self) -> (r: Option<&T>) {
        if self.0.len() > 0 {
            Some(&self.0[self.0.len() - 1].0)
        } else {
            None
        }
    }

    fn pop_next(&mut self) -> (r: Option<T>)
        ensures
            final(self).layer_hint() == old(self).layer_hint(),
            old(self).layers().len() > 0 ==> final(self).layers() == old(self).layers().drop_last(),
            old(self).layers().len() == 0 ==> final(self).layers() == old(self).layers(),
    {
        let r = self.0.pop();
        proof {
            if old(self).0@.len() > 0 {
                assert(entry_items(self.0@) =~= entry_items(old(self).0@).drop_last());
                assert(entry_keys(self.0@) =~= entry_keys(old(self).0@).drop_last());
                assert(self.layers() =~= old(self).layers().drop_last());
            }
        }
        match r {
            Some(e) => Some(e.0),
            None => None,
        }
    }

    fn push(&mut self, item: T)
        ensures
            final(self).layers() == old(self).layers().insert(
                slot(old(self).layers(), old(self).layer_hint() as int, false),
                old(self).layer_hint() as int,
            ),
            final(self).layer_hint() == old(self).layer_hint(),
    {
        let key: usize = (self.1 as i16 + 128) as usize;
        proof {
            lemma_slot_shift(entry_keys(self.0@), self.layers(), self.1 as int, false);
        }
        insert_by_key(&mut self.0, item, key, false);
        assert(entry_items(self.0@) =~= entry_items(old(self).0@).insert(
            slot(old(self).layers(), old(self).1 as int, false),
            item,
        ));
    }

    fn len(&self) -> (r: usize) {
        self.0.len()
    }

    fn moves_hint(&mut self, moves: i8) -> (r: &mut Self)
        ensures
            r.layer_hint() == moves,
            r.layers() == old(self).layers(),
    {
        self.1 = moves;
        self
    }

    fn apply_path_cost(&mut self, cost: usize) -> (r: &mut Self)
        ensures
            r.layers() == old(self).layers(),
            r.layer_hint() == old(self).layer_hint(),
    {
        self
    }

    fn apply_node_heuristic(&mut self, cost: usize) -> (r: &mut Self)
        ensures
            r.layers() == old(self).layers(),
            r.layer_hint() == old(self).layer_hint(),
    {
        self
    }
}

/// Shifting every key by the same amount keeps each slot.
proof fn lemma_slot_shift(keys: Seq<int>, shifted: Seq<int>, k: int, newest_first: bool)
    requires
        keys.len() == shifted.len(),
        forall|i: int| 0 <= i < keys.len() ==> shifted[i] == keys[i] - 128,
    ensures
        slot(keys, k + 128, newest_first) == slot(shifted, k, newest_first),
    decreases keys.len(),
{
    if keys.len() > 0 {
        lemma_slot_shift(keys.drop_last(), shifted.drop_last(), k, newest_first);
    }
}

/// Dijkstra's frontier: the node with the least path cost leaves first, the
/// newest among equals.
pub struct Dijkstra<T>(Vec<BinaryHeapItem<T>>, usize);

impl<T> Dijkstra<T> {
    /// The path costs of the stored nodes, in the order of `pending()`.
    pub closed spec fn costs(&self) -> Seq<int> {
        entry_keys(self.0@)
    }

    /// The cost given to the next pushed node.
    pub closed spec fn cost_hint(&self) -> usize {
        self.1
    }
}

impl<T> Search for Dijkstra<T> {
    type Item = T;

    closed spec fn pending(&self) -> Seq<T> {
        entry_items(self.0@)
    }

    closed spec fn inv(&self) -> bool {
        non_increasing(entry_keys(self.0@))
    }

    open spec fn has_room(&self) -> bool {
        self.pending().len() < usize::MAX
    }

    open spec fn after_push(&self, item: T) -> Seq<T> {
        self.pending().insert(slot(self.costs(), self.cost_hint() as int, true), item)
    }

    open spec fn spec_abort_on_found() -> bool {
        true
    }

    open spec fn spec_informed() -> bool {
        false
    }

    fn is_abort_on_found(&self) -> (r: bool) {
        true
    }

    fn is_informed_search(&self) -> (r: bool) {
        false
    }

    fn new() -> (r: Self)
        ensures
            r.costs().len() == 0,
            r.cost_hint() == 0,
    {
        Dijkstra(Vec::new(), 0)
    }

    fn with_capacity(n: usize) -> (r: Self)
        ensures
            r.costs().len() == 0,
            r.cost_hint() == 0,
    {
        Dijkstra(Vec::with_capacity(n), 0)
    }

    fn next(&self) -> (r: Option<&T>) {
        if self.0.len() > 0 {
            Some(&self.0[self.0.len() - 1].0)
        } else {
            None
        }
    }

    fn pop_next(&mut self) -> (r: Option<T>)
        ensures
            final(self).cost_hint() == old(self).cost_hint(),
            old(self).costs().len() > 0 ==> final(self).costs() == old(self).costs().drop_last(),
            old(self).costs().len() == 0 ==> final(self).costs() == old(self).costs(),
    {
        let r = self.0.pop();
        proof {
            if old(self).0@.len() > 0 {
                assert(entry_items(self.0@) =~= entry_items(old(self).0@).drop_last());
                assert(entry_keys(self.0@) =~= entry_keys(old(self).0@).drop_last());
            }
        }
        match r {
            Some(e) => Some(e.0),
            None => None,
        }
    }

    fn push(&mut self, item: T)
        ensures
            final(self).costs() == old(self).costs().insert(
                slot(old(self).costs(), old(self).cost_hint() as int, true),
                old(self).cost_hint() as int,
            ),
            final(self).cost_hint() == old(self).cost_hint(),
    {
        insert_by_key(&mut self.0, item, self.1, true);
        assert(entry_items(self.0@) =~= entry_items(old(self).0@).insert(
            slot(old(self).costs(), old(self).1 as int, true),
            item,
        ));
        assert(entry_keys(self.0@) =~= entry_keys(old(self).0@).insert(
            slot(old(self).costs(), old(self).1 as int, true),
            old(self).1 as int,
        ));
    }

    fn len(&self) -> (r: usize) {
        self.0.len()
    }

    fn moves_hint(&mut self, moves: i8) -> (r: &mut Self)
        ensures
            r.costs() == old(self).costs(),
            r.cost_hint() == old(self).cost_hint(),
    {
        self
    }

    fn apply_path_cost(&mut self, cost: usize) -> (r: &mut Self)
        ensures
            r.cost_hint() == cost,
            r.costs() == old(self).costs(),
    {
        self.1 = cost;
        self
    }

    fn apply_node_heuristic(&mut self, cost: usize) -> (r: &mut Self)
        ensures
            r.costs() == old(self).costs(),
            r.cost_hint() == old(self).cost_hint(),
    {
        self
    }
}

/// A* frontier: the node with the least path cost plus estimate leaves first,
/// the newest among equals. Both hints add up into the key of the next push,
/// which then starts again from zero.
pub struct AStar<T>(Vec<BinaryHeapItem<T>>, usize);

impl<T> AStar<T> {
    /// The keys (cost plus estimate) of the stored nodes, in the order of `pending()`.
    pub closed spec fn keys(&self) -> Seq<int> {
        entry_keys(self.0@)
    }

    /// The key given to the next pushed node.
    pub closed spec fn key_hint(&self) -> usize {
        self.1
    }
}

impl<T> Search for AStar<T> {
    type Item = T;

    closed spec fn pending(&self) -> Seq<T> {
        entry_items(self.0@)
    }

    closed spec fn inv(&self) -> bool {
        non_increasing(entry_keys(self.0@))
    }

    open spec fn has_room(&self) -> bool {
        self.pending().len() < usize::MAX
    }

    open spec fn after_push(&self, item: T) -> Seq<T> {
        self.pending().insert(slot(self.keys(), self.key_hint() as int, true), item)
    }

    open spec fn spec_abort_on_found() -> bool {
        true
    }

    open spec fn spec_informed() -> bool {
        true
    }

    fn is_abort_on_found(&self) -> (r: bool) {
        true
    }

    fn is_informed_search(&self) -> (r: bool) {
        true
    }

    fn new() -> (r: Self)
        ensures
            r.key_hint() == 0,
            r.keys().len() == 0,
    {
        AStar(Vec::new(), 0)
    }

    fn with_capacity(n: usize) -> (r: Self)
        ensures
            r.key_hint() == 0,
            r.keys().len() == 0,
    {
        AStar(Vec::with_capacity(n), 0)
    }

    fn next(&self) -> (r: Option<&T>) {
        if self.0.len() > 0 {
            Some(&self.0[self.0.len() - 1].0)
        } else {
            None
        }
    }

    fn pop_next(&mut self) -> (r: Option<T>)
        ensures
            final(self).key_hint() == old(self).key_hint(),
            old(self).keys().len() > 0 ==> final(self).keys() == old(self).keys().drop_last(),
            old(self).keys().len() == 0 ==> final(self).keys() == old(self).keys(),
    {
        let r = self.0.pop();
        proof {
            if old(self).0@.len() > 0 {
                assert(entry_items(self.0@) =~= entry_items(old(self).0@).drop_last());
                assert(entry_keys(self.0@) =~= entry_keys(old(self).0@).drop_last());
            }
        }
        match r {
            Some(e) => Some(e.0),
            None => None,
        }
    }

    fn push(&mut self, item: T)
        ensures
            final(self).keys() == old(self).keys().insert(
                slot(old(self).keys(), old(self).key_hint() as int, true),
                old(self).key_hint() as int,
            ),
            final(self).key_hint() == 0,
    {
        insert_by_key(&mut self.0, item, self.1, true);
        self.1 = 0;
        assert(entry_items(self.0@) =~= entry_items(old(self).0@).insert(
            slot(old(self).keys(), old(self).1 as int, true),
            item,
        ));
        assert(entry_keys(self.0@) =~= entry_keys(old(self).0@).insert(
            slot(old(self).keys(), old(self).1 as int, true),
            old(self).1 as int,
        ));
    }

    fn len(&self) -> (r: usize) {
        self.0.len()
    }

    fn moves_hint(&mut self, moves: i8) -> (r: &mut Self)
        ensures
            r.keys() == old(self).keys(),
            r.key_hint() == old(self).key_hint(),
    {
        self
    }

    /// Adds the path cost to the key of the next push, saturating at the
    /// largest key.
    fn apply_path_cost(&mut self, cost: usize) -> (r: &mut Self)
        ensures
            r.key_hint() == if old(self).key_hint() + cost <= usize::MAX {
                (old(self).key_hint() + cost) as usize
            } else {
                usize::MAX
            },
            r.keys() == old(self).keys(),
    {
        self.1 = self.1.saturating_add(cost);
        self
    }

    /// Adds the estimate to the key of the next push, saturating at the
    /// largest key.
    fn apply_node_heuristic(&mut self, cost: usize) -> (r: &mut Self)
        ensures
            r.key_hint() == if old(self).key_hint() + cost <= usize::MAX {
                (old(self).key_hint() + cost) as usize
            } else {
                usize::MAX
            },
            r.keys() == old(self).keys(),
    {
        self.1 = self.1.saturating_add(cost);
        self
    }
}

/// Where a node joins keys kept from the largest to the smallest: every
/// entry before the slot (leaving after it) has a larger key, or an equal
/// one when `newest_first`; every entry from the slot on (leaving before
/// it) has a smaller key, or an equal one when not `newest_first`.
pub proof fn lemma_slot_splits(keys: Seq<int>, k: int, newest_first: bool)
    requires
        non_increasing(keys),
    ensures
        forall|j: int|
            0 <= j < slot(keys, k, newest_first) ==> keys[j] > k || (newest_first && keys[j] == k),
        forall|j: int|
            slot(keys, k, newest_first) <= j < keys.len() ==> keys[j] < k || (!newest_first
                && keys[j] == k),
    decreases keys.len(),
{
    lemma_slot_bounds(keys, k, newest_first);
    if keys.len() > 0 {
        let front = keys.drop_last();
        let last = keys[keys.len() - 1];
        assert(non_increasing(front));
        if last > k || (newest_first && last == k) {
            assert forall|j: int| 0 <= j < keys.len() implies keys[j] > k || (newest_first && keys[j]
                == k) by {
                if j < keys.len() - 1 {
                    assert(keys[j] >= last);
                }
            }
            assert(slot(keys, k, newest_first) == keys.len());
        } else {
            lemma_slot_splits(front, k, newest_first);
            let sl = slot(keys, k, newest_first);
            assert(sl == slot(front, k, newest_first));
            assert forall|j: int| 0 <= j < sl implies keys[j] > k || (newest_first && keys[j] == k) by {
                assert(front[j] == keys[j]);
            }
            assert forall|j: int| sl <= j < keys.len() implies keys[j] < k || (!newest_first
                && keys[j] == k) by {
                if j < keys.len() - 1 {
                    assert(front[j] == keys[j]);
                }
            }
        }
    }
}

/// The node that leaves a Dijkstra frontier next has the least path cost of
/// all stored nodes.
pub proof fn lemma_dijkstra_least_cost_first<T>(d: Dijkstra<T>)
    requires
        d.inv(),
        d.pending().len() > 0,
    ensures
        d.costs().len() == d.pending().len(),
        forall|i: int| 0 <= i < d.costs().len() ==> d.costs().last() <= #[trigger] d.costs()[i],
{
}

/// The node that leaves an A* frontier next has the least cost plus
/// estimate of all stored nodes.
pub proof fn lemma_astar_least_key_first<T>(a: AStar<T>)
    requires
        a.inv(),
        a.pending().len() > 0,
    ensures
        a.keys().len() == a.pending().len(),
        forall|i: int| 0 <= i < a.keys().len() ==> a.keys().last() <= #[trigger] a.keys()[i],
{
}

/// The node that leaves a breadth-first frontier next has the lowest layer
/// of all stored nodes.
pub proof fn lemma_bfs_lowest_layer_first<T>(b: BFS<T>)
    requires
        b.inv(),
        b.pending().len() > 0,
    ensures
        b.layers().len() == b.pending().len(),
        forall|i: int| 0 <= i < b.layers().len() ==> b.layers().last() <= #[trigger] b.layers()[i],
{
    assert forall|i: int| 0 <= i < b.layers().len() implies b.layers().last() <= #[trigger] b.layers()[i] by {
        assert(entry_keys(b.0@)[i] >= entry_keys(b.0@)[b.0@.len() - 1]);
    }
}

} // verus!
