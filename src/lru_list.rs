use vstd::prelude::*;
use crate::error::StoreError;

verus! {

/// Links of one slot in the recency ring; the node's index is the slot index.
#[derive(Clone, Copy)]
struct LruNode {
    prev: usize,
    next: usize,
}

impl LruNode {
    fn new(prev_ptr: usize, next_ptr: usize) -> (r: LruNode)
        ensures
            r.prev == prev_ptr,
            r.next == next_ptr,
    {
        LruNode { prev: prev_ptr, next: next_ptr }
    }
}

/// Position after `i` in a ring of `n` positions.
pub open spec fn succ(i: int, n: int) -> int {
    if i + 1 == n {
        0
    } else {
        i + 1
    }
}

/// Position before `i` in a ring of `n` positions.
pub open spec fn pred(i: int, n: int) -> int {
    if i == 0 {
        n - 1
    } else {
        i - 1
    }
}

/// The recency order after `s` is used: `s` moves to the front, the others keep their order.
pub open spec fn promoted(order: Seq<usize>, s: usize) -> Seq<usize> {
    seq![s] + order.remove(order.index_of(s))
}

/// A recency order over the allocated slots `0..order.len()`: each exactly once.
pub open spec fn ring_order(order: Seq<usize>, capacity: nat) -> bool {
    &&& order.len() <= capacity
    &&& order.no_duplicates()
    &&& forall|i: int| 0 <= i < order.len() ==> #[trigger] order[i] < order.len()
    &&& forall|k: usize| k < order.len() ==> #[trigger] order.contains(k)
}

spec fn with_next(n: LruNode, v: usize) -> LruNode {
    LruNode { prev: n.prev, next: v }
}

spec fn with_prev(n: LruNode, v: usize) -> LruNode {
    LruNode { prev: v, next: n.next }
}

/// Every node in `order` links to its neighbours in the circular order.
spec fn links_ok(list: Seq<LruNode>, order: Seq<usize>) -> bool {
    forall|i: int|
        0 <= i < order.len() ==> {
            &&& list[#[trigger] order[i] as int].next == order[succ(i, order.len() as int)]
            &&& list[order[i] as int].prev == order[pred(i, order.len() as int)]
        }
}

spec fn in_bounds(list: Seq<LruNode>, order: Seq<usize>) -> bool {
    forall|i: int| 0 <= i < order.len() ==> #[trigger] order[i] < list.len()
}

/// Unlinking the node at position `j` leaves a ring over the other nodes.
proof fn lemma_unlink(list: Seq<LruNode>, order: Seq<usize>, j: int)
    requires
        links_ok(list, order),
        in_bounds(list, order),
        order.no_duplicates(),
        0 < j < order.len(),
        order.len() >= 2,
    ensures
        ({
            let x = order[j] as int;
            let p = list[x].prev as int;
            let nx = list[x].next as int;
            let l1 = list.update(p, with_next(list[p], nx as usize));
            let l2 = l1.update(nx, with_prev(l1[nx], p as usize));
            &&& links_ok(l2, order.remove(j))
            &&& in_bounds(l2, order.remove(j))
            &&& l2.len() == list.len()
            &&& l2[x] == list[x] || order.len() == 2
        }),
{
    let n = order.len() as int;
    let x = order[j] as int;
    let p = list[x].prev as int;
    let nx = list[x].next as int;
    let l1 = list.update(p, with_next(list[p], nx as usize));
    let l2 = l1.update(nx, with_prev(l1[nx], p as usize));
    let o2 = order.remove(j);
    assert(p == order[j - 1]);
    assert(nx == order[succ(j, n)]);
    assert forall|i: int| 0 <= i < o2.len() implies {
        &&& #[trigger] l2[o2[i] as int].next == o2[succ(i, o2.len() as int)]
        &&& l2[o2[i] as int].prev == o2[pred(i, o2.len() as int)]
    } by {
        let k = if i < j { i } else { i + 1 };
        assert(o2[i] == order[k]);
        if i < j {
            assert(order[k] != order[j]);
        } else {
            assert(order[k] != order[j]);
        }
        if k == j - 1 {
            assert(o2[i] as int == p);
        } else {
            assert(order[k] != order[j - 1]);
        }
        if k == succ(j, n) {
            assert(o2[i] as int == nx);
        } else {
            assert(order[k] != order[succ(j, n)]);
        }
        assert(succ(i, n - 1) == (if i + 1 == n - 1 { 0 } else { i + 1 }));
        if i + 1 < n - 1 {
            let k2 = if i + 1 < j { i + 1 } else { i + 2 };
            assert(o2[i + 1] == order[k2]);
        } else {
            assert(o2[0] == order[0]);
        }
        if i > 0 {
            let k0 = if i - 1 < j { i - 1 } else { i };
            assert(o2[i - 1] == order[k0]);
        } else {
            assert(o2[n - 2] == order[if n - 2 < j { n - 2 } else { n - 1 }]);
        }
    }
    assert forall|i: int| 0 <= i < o2.len() implies #[trigger] o2[i] < l2.len() by {
        let k = if i < j { i } else { i + 1 };
        assert(o2[i] == order[k]);
    }
    if n > 2 {
        assert(order[j - 1] != order[j]);
        assert(order[succ(j, n)] != order[j]);
    }
}

/// Linking a fresh node `x` before the head makes it the new head.
proof fn lemma_link_front(list: Seq<LruNode>, order: Seq<usize>, x: usize)
    requires
        links_ok(list, order),
        in_bounds(list, order),
        order.no_duplicates(),
        order.len() >= 1,
        !order.contains(x),
        x < list.len(),
    ensures
        ({
            let h = order[0] as int;
            let t = list[h].prev as int;
            let l1 = list.update(t, with_next(list[t], x));
            let l2 = l1.update(x as int, with_prev(l1[x as int], t as usize));
            let l3 = l2.update(h, with_prev(l2[h], x));
            let l4 = l3.update(x as int, with_next(l3[x as int], h as usize));
            &&& links_ok(l4, seq![x] + order)
            &&& in_bounds(l4, seq![x] + order)
            &&& l4.len() == list.len()
        }),
{
    let n = order.len() as int;
    let h = order[0] as int;
    let t = list[h].prev as int;
    let l1 = list.update(t, with_next(list[t], x));
    let l2 = l1.update(x as int, with_prev(l1[x as int], t as usize));
    let l3 = l2.update(h, with_prev(l2[h], x));
    let l4 = l3.update(x as int, with_next(l3[x as int], h as usize));
    let o2 = seq![x] + order;
    assert(t == order[n - 1]);
    assert(order[0] != x);
    assert(order[n - 1] != x);
    assert forall|i: int| 0 <= i < o2.len() implies {
        &&& #[trigger] l4[o2[i] as int].next == o2[succ(i, o2.len() as int)]
        &&& l4[o2[i] as int].prev == o2[pred(i, o2.len() as int)]
    } by {
        if i == 0 {
            assert(o2[0] == x);
            assert(o2[1] == order[0]);
            assert(o2[n] == order[n - 1]);
        } else {
            assert(o2[i] == order[i - 1]);
            assert(order[i - 1] != x);
            if i < n {
                assert(o2[i + 1] == order[i]);
            }
            if i > 1 {
                assert(o2[i - 1] == order[i - 2]);
                assert(order[i - 1] != order[0]);
            }
            if i - 1 != n - 1 {
                assert(order[i - 1] != order[n - 1]);
            }
        }
    }
    assert forall|i: int| 0 <= i < o2.len() implies #[trigger] o2[i] < l4.len() by {
        if i > 0 {
            assert(o2[i] == order[i - 1]);
        }
    }
}

spec fn pos_after_lift(pos: Seq<int>, s: usize, j: int) -> Seq<int> {
    Seq::new(pos.len(), |k: int| if k == s { 0 } else if pos[k] < j { pos[k] + 1 } else { pos[k] })
}

spec fn inverse_pair(order: Seq<usize>, pos: Seq<int>) -> bool {
    let n = order.len() as int;
    &&& pos.len() == n
    &&& forall|i: int| 0 <= i < n ==> #[trigger] order[i] < n && pos[order[i] as int] == i
    &&& forall|k: int| 0 <= k < n ==> 0 <= #[trigger] pos[k] < n && order[pos[k]] == k
}

proof fn lemma_rest(order: Seq<usize>, pos: Seq<int>, j: int)
    requires
        inverse_pair(order, pos),
        0 < j < order.len(),
    ensures
        ({
            let rest = order.remove(j);
            &&& rest[0] == order[0]
            &&& !rest.contains(order[j])
            &&& rest.no_duplicates()
        }),
{
    let rest = order.remove(j);
    let s = order[j];
    if rest.contains(s) {
        let i = choose|i: int| 0 <= i < rest.len() && rest[i] == s;
        let k = if i < j { i } else { i + 1 };
        assert(order[k] == s);
        assert(pos[order[k] as int] == k);
    }
    assert forall|a: int, b: int| 0 <= a < rest.len() && 0 <= b < rest.len() && a != b implies rest[a] != rest[b] by {
        let ka = if a < j { a } else { a + 1 };
        let kb = if b < j { b } else { b + 1 };
        assert(rest[a] == order[ka]);
        assert(rest[b] == order[kb]);
        assert(pos[order[ka] as int] == ka);
        assert(pos[order[kb] as int] == kb);
    }
}

proof fn lemma_pos_after_lift(order: Seq<usize>, pos: Seq<int>, j: int)
    requires
        inverse_pair(order, pos),
        0 < j < order.len(),
    ensures
        inverse_pair(seq![order[j]] + order.remove(j), pos_after_lift(pos, order[j], j)),
{
    let n = order.len() as int;
    let s = order[j];
    let rest = order.remove(j);
    let o2 = seq![s] + rest;
    let new_pos = pos_after_lift(pos, s, j);
    assert(pos[s as int] == j);
    assert forall|i: int| 0 <= i < n implies #[trigger] o2[i] < n && new_pos[o2[i] as int] == i by {
        if i > 0 {
            let k = if i - 1 < j { i - 1 } else { i };
            assert(o2[i] == order[k]);
            assert(pos[order[k] as int] == k);
        }
    }
    assert forall|k: int| 0 <= k < n implies 0 <= #[trigger] new_pos[k] < n && o2[new_pos[k]] == k by {
        if k != s {
            let pk = pos[k];
            assert(order[pk] == k);
            if pk < j {
                assert(o2[pk + 1] == order[pk]);
            } else {
                assert(pk != j);
                assert(o2[pk] == rest[pk - 1]);
            }
        }
    }
}

proof fn lemma_promoted_at(order: Seq<usize>, s: usize, j: int)
    requires
        order.no_duplicates(),
        0 <= j < order.len(),
        order[j] == s,
    ensures
        promoted(order, s) == seq![s] + order.remove(j),
{
    assert(order.contains(s));
    let i = order.index_of(s);
    assert(0 <= i < order.len() && order[i] == s);
    assert(i == j);
}

/// Promoting the same slot twice in a row gives the same order as promoting it once.
pub proof fn lemma_promote_idempotent(order: Seq<usize>, s: usize)
    requires
        order.no_duplicates(),
        order.contains(s),
    ensures
        promoted(promoted(order, s), s) == promoted(order, s),
{
    let j = choose|j: int| 0 <= j < order.len() && order[j] == s;
    lemma_promoted_at(order, s, j);
    let once = promoted(order, s);
    let rest = order.remove(j);
    assert(once.no_duplicates()) by {
        assert forall|a: int, b: int| 0 <= a < once.len() && 0 <= b < once.len() && a != b implies once[a] != once[b] by {
            let ka = if a == 0 { j } else if a - 1 < j { a - 1 } else { a };
            let kb = if b == 0 { j } else if b - 1 < j { b - 1 } else { b };
            assert(once[a] == order[ka]);
            assert(once[b] == order[kb]);
        }
    }
    lemma_promoted_at(once, s, 0);
    assert(once.remove(0) =~= rest);
}

/// Fixed-capacity ring of slot indices `0..PAGE_NUM`, ordered from most to
/// least recently used, starting at the head.
pub struct LruList<const PAGE_NUM: usize> {
    list: Vec<LruNode>,
    list_len: usize,
    head_ptr: Option<usize>,
    order: Ghost<Seq<usize>>,
    pos: Ghost<Seq<int>>,
}

impl<const PAGE_NUM: usize> View for LruList<PAGE_NUM> {
    type V = Seq<usize>;

    /// Allocated slots, most recently used first.
    closed spec fn view(&self) -> Seq<usize> {
        self.order@
    }
}

impl<const PAGE_NUM: usize> LruList<PAGE_NUM> {
    pub closed spec fn wf(&self) -> bool {
        let n = self.list_len as int;
        let order = self.order@;
        let pos = self.pos@;
        &&& self.list@.len() == n
        &&& n <= PAGE_NUM
        &&& order.len() == n
        &&& inverse_pair(order, pos)
        &&& (n == 0 <==> self.head_ptr.is_none())
        &&& (n > 0 ==> self.head_ptr == Some(order[0]))
        &&& links_ok(self.list@, order)
    }

    /// What a well-formed ring guarantees of its order.
    pub proof fn lemma_order(&self)
        requires
            self.wf(),
        ensures
            ring_order(self@, PAGE_NUM as nat),
    {
        let order = self.order@;
        let pos = self.pos@;
        let n = order.len();
        assert forall|a: int, b: int| 0 <= a < n && 0 <= b < n && a != b implies order[a] != order[b] by {
            assert(pos[order[a] as int] == a);
            assert(pos[order[b] as int] == b);
        }
        assert forall|k: usize| k < n implies #[trigger] order.contains(k) by {
            assert(order[pos[k as int]] == k);
        }
    }

    pub fn new() -> (r: Self)
        ensures
            r.wf(),
            r@ == Seq::<usize>::empty(),
    {
        LruList { list: Vec::new(), list_len: 0, head_ptr: None, order: Ghost(Seq::empty()), pos: Ghost(Seq::empty()) }
    }

    /// True while fewer than `PAGE_NUM` slots have been allocated.
    pub fn have_free_page(&self) -> (r: bool)
        requires
            self.wf(),
        ensures
            r == (self@.len() < PAGE_NUM),
    {
        self.list_len < PAGE_NUM
    }

    /// Allocates the next unused slot and makes it the most recently used one.
    pub fn new_page(&mut self) -> (r: Result<usize, StoreError>)
        requires
            old(self).wf(),
        ensures
            final(self).wf(),
            old(self)@.len() < PAGE_NUM ==> r == Ok::<usize, StoreError>(old(self)@.len() as usize)
                && final(self)@ == seq![old(self)@.len() as usize] + old(self)@,
            old(self)@.len() >= PAGE_NUM ==> r == Err::<usize, StoreError>(StoreError::CapacityExceeded)
                && final(self)@ == old(self)@,
    {
        if self.list_len >= PAGE_NUM {
            return Err(StoreError::CapacityExceeded);
        }
        let lru_id = self.list_len;
        match self.head_ptr {
            None => {
                self.list.push(LruNode::new(0, 0));
                self.head_ptr = Some(0);
                self.list_len = 1;
                let ghost o1 = seq![0usize];
                let ghost first_pos = seq![0int];
                self.order = Ghost(o1);
                self.pos = Ghost(first_pos);
                Ok(0)
            },
            Some(head) => {
                let ghost old_list = self.list@;
                let ghost order = self.order@;
                let ghost pos = self.pos@;
                self.list.push(LruNode::new(lru_id, lru_id));
                proof {
                    self.lemma_order_raw(order, pos);
                    assert(links_ok(self.list@, order)) by {
                        assert forall|i: int| 0 <= i < order.len() implies
                            #[trigger] self.list@[order[i] as int] == old_list[order[i] as int] by {}
                    }
                    assert(!order.contains(lru_id)) by {
                        if order.contains(lru_id) {
                            let i = choose|i: int| 0 <= i < order.len() && order[i] == lru_id;
                            assert(order[i] < lru_id);
                        }
                    }
                    assert(in_bounds(self.list@, order));
                    lemma_link_front(self.list@, order, lru_id);
                }
                let tail = self.list[head].prev;
                self.list[tail].next = lru_id;
                self.list[lru_id].prev = tail;
                self.list[head].prev = lru_id;
                self.list[lru_id].next = head;
                self.head_ptr = Some(lru_id);
                self.list_len = lru_id + 1;
                let ghost o2 = seq![lru_id] + order;
                let ghost new_pos = Seq::new((lru_id + 1) as nat, |k: int| if k == lru_id { 0 } else { pos[k] + 1 });
                self.order = Ghost(o2);
                self.pos = Ghost(new_pos);
                proof {
                    let o2 = self.order@;
                    let new_pos = self.pos@;
                    let n2 = lru_id + 1;
                    assert forall|i: int| 0 <= i < n2 implies #[trigger] o2[i] < n2 && new_pos[o2[i] as int] == i by {
                        if i > 0 {
                            assert(o2[i] == order[i - 1]);
                        }
                    }
                    assert forall|k: int| 0 <= k < n2 implies 0 <= #[trigger] new_pos[k] < n2 && o2[new_pos[k]] == k by {
                        if k != lru_id {
                            assert(o2[new_pos[k]] == order[pos[k]]);
                        }
                    }
                }
                Ok(lru_id)
            },
        }
    }

    /// Moves an allocated slot to the most recently used position.
    pub fn lift_page(&mut self, lru_id: usize) -> (r: Result<(), StoreError>)
        requires
            old(self).wf(),
        ensures
            final(self).wf(),
            final(self)@.len() == old(self)@.len(),
            (lru_id as int) < old(self)@.len() ==> r == Ok::<(), StoreError>(())
                && final(self)@ == promoted(old(self)@, lru_id),
            (lru_id as int) >= old(self)@.len() ==> r == Err::<(), StoreError>(StoreError::InvalidSlot)
                && final(self)@ == old(self)@,
    {
        if lru_id >= self.list_len {
            return Err(StoreError::InvalidSlot);
        }
        let ghost order = self.order@;
        let ghost pos = self.pos@;
        let ghost n = order.len() as int;
        let ghost j = pos[lru_id as int];
        proof {
            self.lemma_order_raw(order, pos);
            assert(order[j] == lru_id);
            lemma_promoted_at(order, lru_id, j);
        }
        let head = match self.head_ptr {
            Some(h) => h,
            None => {
                return Err(StoreError::InvalidSlot);
            },
        };
        if lru_id == head {
            proof {
                assert(j == 0);
                assert(promoted(order, lru_id) =~= order);
            }
            return Ok(());
        }
        let ghost list0 = self.list@;
        proof {
            assert(j > 0);
            assert(in_bounds(list0, order));
            lemma_unlink(list0, order, j);
        }
        let prev = self.list[lru_id].prev;
        let next = self.list[lru_id].next;
        self.list[prev].next = next;
        self.list[next].prev = prev;
        let ghost rest = order.remove(j);
        proof {
            lemma_rest(order, pos, j);
            lemma_link_front(self.list@, rest, lru_id);
        }
        let tail = self.list[head].prev;
        self.list[tail].next = lru_id;
        self.list[lru_id].prev = tail;
        self.list[head].prev = lru_id;
        self.list[lru_id].next = head;
        self.head_ptr = Some(lru_id);
        let ghost o2 = seq![lru_id] + rest;
        let ghost new_pos = pos_after_lift(pos, lru_id, j);
        self.order = Ghost(o2);
        self.pos = Ghost(new_pos);
        proof {
            lemma_pos_after_lift(order, pos, j);
        }
        Ok(())
    }

    /// The least recently used allocated slot, which stays in the ring.
    pub fn get_drop_page(&self) -> (r: Result<usize, StoreError>)
        requires
            self.wf(),
        ensures
            self@.len() > 0 ==> r == Ok::<usize, StoreError>(self@.last()),
            self@.len() == 0 ==> r == Err::<usize, StoreError>(StoreError::EmptyList),
    {
        match self.head_ptr {
            Some(head_id) => {
                proof {
                    assert(self.order@[0] == head_id);
                }
                Ok(self.list[head_id].prev)
            },
            None => Err(StoreError::EmptyList),
        }
    }

    proof fn lemma_order_raw(&self, order: Seq<usize>, pos: Seq<int>)
        requires
            order.len() == pos.len(),
            forall|i: int| 0 <= i < order.len() ==> #[trigger] order[i] < order.len() && pos[order[i] as int] == i,
        ensures
            order.no_duplicates(),
    {
        assert forall|a: int, b: int| 0 <= a < order.len() && 0 <= b < order.len() && a != b implies order[a] != order[b] by {
            assert(pos[order[a] as int] == a);
            assert(pos[order[b] as int] == b);
        }
    }
}

} // verus!
