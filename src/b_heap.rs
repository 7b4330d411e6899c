//! An indexed binary min-heap over (key, vertex, direction) entries, with a
//! position index that lets a vertex's key be lowered in place.

use vstd::prelude::*;

verus! {

/// One heap entry.
#[derive(Clone, Copy, Debug, PartialEq, Eq, Structural)]
pub struct HeapNode {
    pub key: u64,
    pub v_number: usize,
    pub edge_direction: i32,
}

pub struct BinaryHeap {
    node_list: Vec<HeapNode>,
    vertex_pos: Vec<usize>,
}

pub open spec fn parent(i: int) -> int {
    (i - 1) / 2
}

/// Heap order holds for every entry but `idx` and its parent.
pub open spec fn heap_except(s: Seq<HeapNode>, idx: int) -> bool {
    forall|i: int| 0 < i < s.len() && i != idx ==> s[parent(i)].key <= #[trigger] s[i].key
}

/// Heap order holds for every entry but the children of `idx`.
pub open spec fn heap_below(s: Seq<HeapNode>, idx: int) -> bool {
    forall|i: int| 0 < i < s.len() && parent(i) != idx ==> s[parent(i)].key <= #[trigger] s[i].key
}

pub open spec fn positions_ok(s: Seq<HeapNode>, pos: Seq<usize>) -> bool {
    forall|i: int|
        0 <= i < s.len() ==> (#[trigger] s[i]).v_number < pos.len() && pos[s[i].v_number as int] == i
}

/// The entries held, by vertex.
pub open spec fn entries_of(s: Seq<HeapNode>, pos: Seq<usize>) -> Map<usize, (u64, i32)> {
    Map::new(
        |v: usize| v < pos.len() && pos[v as int] < s.len() && s[pos[v as int] as int].v_number == v,
        |v: usize| (s[pos[v as int] as int].key, s[pos[v as int] as int].edge_direction),
    )
}

proof fn lemma_root_smallest(s: Seq<HeapNode>, i: int)
    requires
        heap_except(s, 0),
        0 <= i < s.len(),
    ensures
        s[0].key <= s[i].key,
    decreases i,
{
    if i > 0 {
        lemma_root_smallest(s, parent(i));
    }
}

impl View for BinaryHeap {
    type V = Map<usize, (u64, i32)>;

    /// Each vertex held, with its key and direction.
    closed spec fn view(&self) -> Map<usize, (u64, i32)> {
        entries_of(self.node_list@, self.vertex_pos@)
    }
}

impl BinaryHeap {
    pub closed spec fn wf(&self) -> bool {
        &&& positions_ok(self.node_list@, self.vertex_pos@)
        &&& heap_except(self.node_list@, 0)
    }

    pub closed spec fn len_spec(&self) -> nat {
        self.node_list.len() as nat
    }

    pub fn new() -> (h: BinaryHeap)
        ensures
            h.wf(),
            h@ == Map::<usize, (u64, i32)>::empty(),
            h.len_spec() == 0,
    {
        let h = BinaryHeap { node_list: Vec::new(), vertex_pos: Vec::new() };
        assert(h@ =~= Map::<usize, (u64, i32)>::empty());
        h
    }

    fn left_child(idx: usize) -> (r: usize)
        requires
            idx < usize::MAX / 2 - 1,
        ensures
            r == 2 * idx + 1,
    {
        2 * idx + 1
    }

    fn right_child(idx: usize) -> (r: usize)
        requires
            idx < usize::MAX / 2 - 1,
        ensures
            r == 2 * idx + 2,
    {
        2 * idx + 2
    }

    fn parent(idx: usize) -> (r: usize)
        requires
            idx > 0,
        ensures
            r == parent(idx as int),
    {
        (idx - 1) / 2
    }

    /// Exchanges the entries at two positions and updates the index.
    fn swap_elems(&mut self, pos1: usize, pos2: usize)
        requires
            positions_ok(old(self).node_list@, old(self).vertex_pos@),
            pos1 < old(self).node_list.len(),
            pos2 < old(self).node_list.len(),
        ensures
            positions_ok(final(self).node_list@, final(self).vertex_pos@),
            final(self)@ == old(self)@,
            final(self).node_list@ == old(self).node_list@.update(pos1 as int, old(self).node_list[pos2 as int]).update(
                pos2 as int,
                old(self).node_list[pos1 as int],
            ),
    {
        let ghost s0 = self.node_list@;
        let ghost p0 = self.vertex_pos@;
        let v1 = self.node_list[pos1].v_number;
        let v2 = self.node_list[pos2].v_number;
        self.vertex_pos.set(v1, pos2);
        self.vertex_pos.set(v2, pos1);
        let n1 = self.node_list[pos1];
        let n2 = self.node_list[pos2];
        self.node_list.set(pos1, n2);
        self.node_list.set(pos2, n1);
        let ghost s1 = self.node_list@;
        let ghost p1 = self.vertex_pos@;
        assert forall|i: int| 0 <= i < s1.len() implies (#[trigger] s1[i]).v_number < p1.len() && p1[s1[i].v_number as int] == i by {
            if i != pos1 && i != pos2 {
                assert(s1[i] == s0[i]);
                assert(p0[s0[i].v_number as int] == i);
            }
        }
        assert forall|v: usize| #[trigger] entries_of(s1, p1).contains_key(v) <==> entries_of(s0, p0).contains_key(v) by {
            if v != v1 && v != v2 && v < p0.len() && p0[v as int] < s0.len() {
                let q = p0[v as int] as int;
                assert(p1[v as int] == p0[v as int]);
                if q == pos1 || q == pos2 {
                    assert(s1[q].v_number != v);
                    assert(s0[q].v_number != v) by {
                        if s0[q].v_number == v {
                            assert(p0[s0[q].v_number as int] == q);
                        }
                    }
                } else {
                    assert(s1[q] == s0[q]);
                }
            }
        }
        assert(entries_of(s1, p1) =~= entries_of(s0, p0));
    }

    /// Moves the entry at `idx` up until its parent's key is no larger.
    fn sift_up(&mut self, idx: usize)
        requires
            positions_ok(old(self).node_list@, old(self).vertex_pos@),
            idx < old(self).node_list.len(),
            heap_except(old(self).node_list@, idx as int),
            idx > 0 ==> forall|c: int|
                0 < c < old(self).node_list.len() && parent(c) == idx ==> old(self).node_list[parent(
                    idx as int,
                )].key <= #[trigger] old(self).node_list[c].key,
        ensures
            final(self).wf(),
            final(self)@ == old(self)@,
            final(self).node_list.len() == old(self).node_list.len(),
    {
        let mut idx = idx;
        while idx > 0
            invariant
                positions_ok(self.node_list@, self.vertex_pos@),
                self@ == old(self)@,
                self.node_list.len() == old(self).node_list.len(),
                idx < self.node_list.len(),
                heap_except(self.node_list@, idx as int),
                idx > 0 ==> forall|c: int|
                    0 < c < self.node_list.len() && parent(c) == idx ==> self.node_list[parent(
                        idx as int,
                    )].key <= #[trigger] self.node_list[c].key,
            decreases idx,
        {
            let p = Self::parent(idx);
            if self.node_list[p].key <= self.node_list[idx].key {
                assert(heap_except(self.node_list@, 0));
                return;
            }
            let ghost s0 = self.node_list@;
            self.swap_elems(idx, p);
            let ghost s1 = self.node_list@;
            assert forall|i: int| 0 < i < s1.len() && i != p implies s1[parent(i)].key <= #[trigger] s1[i].key by {
                if i == idx {
                } else if parent(i) == idx {
                    assert(s0[parent(idx as int)].key <= s0[i].key);
                } else if parent(i) == p {
                    assert(s0[p as int].key <= s0[i].key);
                } else {
                    assert(s1[i] == s0[i]);
                    assert(s1[parent(i)] == s0[parent(i)]);
                }
            }
            assert(p > 0 ==> forall|c: int|
                0 < c < s1.len() && parent(c) == p ==> s1[parent(p as int)].key <= #[trigger] s1[c].key) by {
                if p > 0 {
                    assert forall|c: int| 0 < c < s1.len() && parent(c) == p implies s1[parent(p as int)].key
                        <= #[trigger] s1[c].key by {
                        assert(s0[parent(p as int)].key <= s0[p as int].key);
                        if c != idx {
                            assert(s0[p as int].key <= s0[c].key);
                        }
                    }
                }
            }
            idx = p;
        }
    }

    /// Moves the entry at `idx` down until no child has a smaller key.
    fn sift_down(&mut self, idx: usize)
        requires
            positions_ok(old(self).node_list@, old(self).vertex_pos@),
            idx < old(self).node_list.len(),
            old(self).node_list.len() < usize::MAX / 4,
            heap_below(old(self).node_list@, idx as int),
            idx > 0 ==> forall|c: int|
                0 < c < old(self).node_list.len() && parent(c) == idx ==> old(self).node_list[parent(
                    idx as int,
                )].key <= #[trigger] old(self).node_list[c].key,
        ensures
            final(self).wf(),
            final(self)@ == old(self)@,
            final(self).node_list.len() == old(self).node_list.len(),
    {
        let mut idx = idx;
        let n = self.node_list.len();
        loop
            invariant
                positions_ok(self.node_list@, self.vertex_pos@),
                self@ == old(self)@,
                n == self.node_list.len(),
                n == old(self).node_list.len(),
                n < usize::MAX / 4,
                idx < n,
                heap_below(self.node_list@, idx as int),
                idx > 0 ==> forall|c: int|
                    0 < c < n && parent(c) == idx ==> self.node_list[parent(idx as int)].key
                        <= #[trigger] self.node_list[c].key,
            decreases n - idx,
        {
            let lc = Self::left_child(idx);
            if lc >= n {
                assert forall|i: int| 0 < i < n && i != 0 implies self.node_list[parent(i)].key
                    <= #[trigger] self.node_list[i].key by {
                    assert(parent(i) != idx);
                }
                return;
            }
            let rc = Self::right_child(idx);
            let m = if rc < n && self.node_list[rc].key < self.node_list[lc].key {
                rc
            } else {
                lc
            };
            if self.node_list[idx].key <= self.node_list[m].key {
                assert forall|i: int| 0 < i < n && i != 0 implies self.node_list[parent(i)].key
                    <= #[trigger] self.node_list[i].key by {
                    if parent(i) == idx {
                        assert(i == lc || i == rc);
                    }
                }
                return;
            }
            let ghost s0 = self.node_list@;
            self.swap_elems(idx, m);
            let ghost s1 = self.node_list@;
            assert(parent(m as int) == idx);
            assert forall|i: int| 0 < i < n && parent(i) != m implies s1[parent(i)].key <= #[trigger] s1[i].key by {
                if i == m {
                } else if parent(i) == idx {
                    assert(i == lc || i == rc);
                    assert(s1[i] == s0[i]);
                } else if i == idx {
                    assert(s0[parent(idx as int)].key <= s0[m as int].key);
                } else {
                    assert(s1[i] == s0[i]);
                    assert(s1[parent(i)] == s0[parent(i)]);
                }
            }
            assert forall|c: int| 0 < c < n && parent(c) == m implies s1[parent(m as int)].key
                <= #[trigger] s1[c].key by {
                assert(c != idx && c != m);
                assert(s1[c] == s0[c]);
                assert(s0[m as int].key <= s0[c].key);
            }
            idx = m;
        }
    }

    /// Adds vertex `v_number` with `key` and `direction`.
    pub fn insert(&mut self, v_number: usize, key: u64, direction: i32)
        requires
            old(self).wf(),
            !old(self)@.contains_key(v_number),
            old(self).len_spec() < usize::MAX / 4 - 1,
            v_number < usize::MAX,
        ensures
            final(self).wf(),
            final(self)@ == old(self)@.insert(v_number, (key, direction)),
            final(self).len_spec() == old(self).len_spec() + 1,
    {
        let ghost m0 = self@;
        let ghost pos_before = self.vertex_pos@;
        while self.vertex_pos.len() <= v_number
            invariant
                positions_ok(self.node_list@, self.vertex_pos@),
                heap_except(self.node_list@, 0),
                self@ == m0,
                self.node_list.len() == old(self).node_list.len(),
                !m0.contains_key(v_number),
                v_number < usize::MAX,
            decreases v_number + 1 - self.vertex_pos.len(),
        {
            let ghost p0 = self.vertex_pos@;
            let n = self.node_list.len();
            self.vertex_pos.push(n);
            assert(entries_of(self.node_list@, self.vertex_pos@) =~= entries_of(self.node_list@, p0));
        }
        let n = self.node_list.len();
        let ghost s0 = self.node_list@;
        let ghost p0 = self.vertex_pos@;
        self.node_list.push(HeapNode { key, v_number, edge_direction: direction });
        self.vertex_pos.set(v_number, n);
        proof {
            let s1 = self.node_list@;
            let p1 = self.vertex_pos@;
            assert forall|i: int| 0 <= i < s1.len() implies (#[trigger] s1[i]).v_number < p1.len()
                && p1[s1[i].v_number as int] == i by {
                if i < n {
                    assert(s1[i] == s0[i]);
                    if s0[i].v_number == v_number {
                        assert(p0[v_number as int] == i);
                        assert(m0.contains_key(v_number));
                    }
                }
            }
            assert forall|v: usize| #[trigger] entries_of(s1, p1).contains_key(v) <==> m0.insert(v_number, (key, direction)).contains_key(v) by {
                if v != v_number && v < p0.len() {
                    if p0[v as int] == n {
                        assert(s1[n as int].v_number == v_number);
                    }
                    if p0[v as int] < n {
                        assert(s1[p0[v as int] as int] == s0[p0[v as int] as int]);
                    }
                }
            }
            assert(entries_of(s1, p1) =~= m0.insert(v_number, (key, direction)));
            assert forall|c: int| 0 < c < s1.len() && parent(c) == n implies s1[parent(n as int)].key <= #[trigger] s1[c].key by {
                assert(c > n);
            }
        }
        self.sift_up(n);
    }

    /// Removes and returns the entry with the smallest key, as
    /// `(key, vertex, direction)`.
    pub fn extract_max(&mut self) -> (r: (u64, usize, i32))
        requires
            old(self).wf(),
            old(self).len_spec() > 0,
            old(self).len_spec() < usize::MAX / 4,
        ensures
            final(self).wf(),
            old(self)@.contains_key(r.1),
            old(self)@[r.1] == (r.0, r.2),
            forall|v: usize| #[trigger] old(self)@.contains_key(v) ==> r.0 <= old(self)@[v].0,
            final(self)@ == old(self)@.remove(r.1),
            final(self).len_spec() + 1 == old(self).len_spec(),
    {
        let ghost m0 = self@;
        let ghost s_start = self.node_list@;
        let ghost p_start = self.vertex_pos@;
        proof {
            assert forall|v: usize| #[trigger] m0.contains_key(v) implies self.node_list[0].key <= m0[v].0 by {
                lemma_root_smallest(s_start, p_start[v as int] as int);
            }
            assert(p_start[s_start[0].v_number as int] == 0);
        }
        let last = self.node_list.len() - 1;
        self.swap_elems(0, last);
        let ghost s0 = self.node_list@;
        let ghost p0 = self.vertex_pos@;
        let min = self.node_list.pop().unwrap();
        assert(min == s_start[0]);
        proof {
            let s1 = self.node_list@;
            assert(s1 =~= s0.subrange(0, last as int));
            assert forall|i: int| 0 <= i < s1.len() implies (#[trigger] s1[i]).v_number < p0.len() && p0[s1[i].v_number as int] == i by {
                assert(s1[i] == s0[i]);
            }
            assert forall|v: usize| #[trigger] entries_of(s1, p0).contains_key(v) <==> m0.remove(min.v_number).contains_key(v) by {
                if v == min.v_number {
                    assert(p0[v as int] == last);
                } else if v < p0.len() && p0[v as int] < last {
                    assert(s1[p0[v as int] as int] == s0[p0[v as int] as int]);
                }
            }
            assert(entries_of(s1, p0) =~= m0.remove(min.v_number));
            if last > 0 {
                assert forall|i: int| 0 < i < s1.len() && parent(i) != 0 implies s1[parent(i)].key <= #[trigger] s1[i].key by {
                    assert(s1[i] == s_start[i]);
                    assert(s1[parent(i)] == s_start[parent(i)]);
                }
            }
        }
        if last > 0 {
            self.sift_down(0);
        }
        (min.key, min.v_number, min.edge_direction)
    }

    /// Whether vertex `v` is held.
    pub fn contains(&self, v: usize) -> (r: bool)
        ensures
            r == self@.contains_key(v),
    {
        v < self.vertex_pos.len() && self.vertex_pos[v] < self.node_list.len()
            && self.node_list[self.vertex_pos[v]].v_number == v
    }

    /// Lowers the key of the entry at position `idx` to `new_key` and
    /// restores the heap order.
    fn decrease_key(&mut self, idx: usize, new_key: u64)
        requires
            old(self).wf(),
            idx < old(self).node_list.len(),
            new_key <= old(self).node_list[idx as int].key,
        ensures
            final(self).wf(),
            final(self)@ == old(self)@.insert(
                old(self).node_list[idx as int].v_number,
                (new_key, old(self).node_list[idx as int].edge_direction),
            ),
            final(self).len_spec() == old(self).len_spec(),
    {
        let ghost m0 = self@;
        let ghost s0 = self.node_list@;
        let node = self.node_list[idx];
        let v_num = node.v_number;
        self.node_list.set(idx, HeapNode { key: new_key, v_number: v_num, edge_direction: node.edge_direction });
        proof {
            let s1 = self.node_list@;
            let p = self.vertex_pos@;
            assert(p[v_num as int] == idx);
            assert forall|i: int| 0 <= i < s1.len() implies (#[trigger] s1[i]).v_number < p.len() && p[s1[i].v_number as int] == i by {
                if i != idx {
                    assert(s1[i] == s0[i]);
                }
            }
            assert forall|v: usize| #[trigger] entries_of(s1, p).contains_key(v) <==> m0.contains_key(v) by {
                if v < p.len() && p[v as int] < s1.len() && p[v as int] != idx {
                    assert(s1[p[v as int] as int] == s0[p[v as int] as int]);
                }
            }
            assert(entries_of(s1, p) =~= m0.insert(v_num, (new_key, node.edge_direction)));
            assert forall|i: int| 0 < i < s1.len() && i != idx implies s1[parent(i)].key <= #[trigger] s1[i].key by {
                if parent(i) == idx {
                    assert(s0[idx as int].key <= s0[i].key);
                } else {
                    assert(s1[parent(i)] == s0[parent(i)]);
                }
                assert(s1[i] == s0[i]);
            }
            if idx > 0 {
                assert forall|c: int| 0 < c < s1.len() && parent(c) == idx implies s1[parent(idx as int)].key <= #[trigger] s1[c].key by {
                    assert(s0[parent(idx as int)].key <= s0[idx as int].key);
                    assert(s0[idx as int].key <= s0[c].key);
                    assert(s1[c] == s0[c]);
                }
            }
        }
        self.sift_up(idx);
    }

    /// Relaxation: lowers vertex `v_num`'s key to `new_key`, with direction
    /// `new_dir`, when `new_key` is smaller than its key; otherwise changes
    /// nothing.
    pub fn try_update_smallest_edge(&mut self, v_num: usize, new_key: u64, new_dir: i32)
        requires
            old(self).wf(),
            old(self)@.contains_key(v_num),
        ensures
            final(self).wf(),
            final(self)@ == if new_key < old(self)@[v_num].0 {
                old(self)@.insert(v_num, (new_key, new_dir))
            } else {
                old(self)@
            },
            final(self).len_spec() == old(self).len_spec(),
    {
        let idx = self.vertex_pos[v_num];
        if new_key < self.node_list[idx].key {
            let ghost m0 = self@;
            self.decrease_key(idx, new_key);
            self.set_dir(v_num, new_dir);
            assert(self@ =~= m0.insert(v_num, (new_key, new_dir)));
        }
    }

    /// Sets the direction stored with vertex `v_num`.
    pub fn set_dir(&mut self, v_num: usize, new_dir: i32)
        requires
            old(self).wf(),
            old(self)@.contains_key(v_num),
        ensures
            final(self).wf(),
            final(self)@ == old(self)@.insert(v_num, (old(self)@[v_num].0, new_dir)),
            final(self).len_spec() == old(self).len_spec(),
    {
        let idx = self.vertex_pos[v_num];
        let ghost m0 = self@;
        let ghost s0 = self.node_list@;
        let node = self.node_list[idx];
        self.node_list.set(idx, HeapNode { key: node.key, v_number: v_num, edge_direction: new_dir });
        proof {
            let s1 = self.node_list@;
            let p = self.vertex_pos@;
            assert forall|i: int| 0 <= i < s1.len() implies (#[trigger] s1[i]).v_number < p.len() && p[s1[i].v_number as int] == i by {
                if i != idx {
                    assert(s1[i] == s0[i]);
                }
            }
            assert forall|v: usize| #[trigger] entries_of(s1, p).contains_key(v) <==> m0.contains_key(v) by {
                if v < p.len() && p[v as int] < s1.len() && p[v as int] != idx {
                    assert(s1[p[v as int] as int] == s0[p[v as int] as int]);
                }
            }
            assert(entries_of(s1, p) =~= m0.insert(v_num, (node.key, new_dir)));
            assert forall|i: int| 0 < i < s1.len() implies s1[parent(i)].key <= #[trigger] s1[i].key by {
                assert(s0[parent(i)].key <= s0[i].key);
            }
        }
    }

    pub fn is_empty(&self) -> (r: bool)
        ensures
            r == (self.len_spec() == 0),
            self.wf() ==> (r == (self@ == Map::<usize, (u64, i32)>::empty())),
    {
        proof {
            if self.wf() && self.node_list.len() > 0 {
                let v = self.node_list[0].v_number;
                assert(self@.contains_key(v));
            }
            if self.node_list.len() == 0 {
                assert(self@ =~= Map::<usize, (u64, i32)>::empty());
            }
        }
        self.node_list.len() == 0
    }
}

} // verus!
