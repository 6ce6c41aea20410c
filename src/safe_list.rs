use vstd::prelude::*;

use crate::model::{take_back, take_front};

verus! {

/// One link of the chain: the element and the slots of its two neighbours.
/// A node holds its element for as long as it is in the arena; it leaves the
/// arena whole, after it has been unlinked, and the element is moved out of
/// it then.
struct Node<T> {
    element: T,
    prev: Option<usize>,
    next: Option<usize>,
}

/// A doubly-linked list. Its nodes are owned by one arena (`nodes`), and a
/// node's `next` and `prev` name the slots of its successor and predecessor,
/// so links in either direction own nothing and cannot form an ownership
/// cycle. The ghost `order` records, front to back, the slot of each
/// position, and `pos` is its inverse.
///
/// Every change goes through `&mut self`, so Rust's borrowing rules exclude a
/// change racing with another change or with a walk; the list is `Send` and
/// `Sync` when `T` is, and threads share it behind one lock.
pub struct SafeList<T> {
    nodes: Vec<Node<T>>,
    head: Option<usize>,
    back: Option<usize>,
    order: Ghost<Seq<usize>>,
    pos: Ghost<Seq<int>>,
}

/// The slot at position `k` of `o`, or `None` past either end.
spec fn link_of(o: Seq<usize>, k: int) -> Option<usize> {
    if 0 <= k < o.len() {
        Some(o[k])
    } else {
        None
    }
}

/// The links of `nodes` spell out the chain `o`, from `head` to `back`.
spec fn chained<T>(nodes: Seq<Node<T>>, o: Seq<usize>, head: Option<usize>, back: Option<usize>) -> bool {
    &&& head == link_of(o, 0)
    &&& back == link_of(o, o.len() - 1)
    &&& forall|k: int|
        0 <= k < o.len() ==> {
            &&& (#[trigger] nodes[o[k] as int]).prev == link_of(o, k - 1)
            &&& nodes[o[k] as int].next == link_of(o, k + 1)
        }
}

/// `o` lists every slot below `n` exactly once, and `pos` gives each slot's
/// position in it.
spec fn indexed(o: Seq<usize>, pos: Seq<int>, n: int) -> bool {
    &&& o.len() == n
    &&& pos.len() == n
    &&& forall|k: int| 0 <= k < n ==> 0 <= #[trigger] o[k] < n && pos[o[k] as int] == k
    &&& forall|i: int| 0 <= i < n ==> 0 <= #[trigger] pos[i] < n && o[pos[i]] == i
}

/// The link `l` of a node of a second arena once that arena is placed after
/// `n` slots; a missing link becomes `none`.
spec fn shifted(l: Option<usize>, n: int, none: Option<usize>) -> Option<usize> {
    match l {
        Some(x) => Some((x + n) as usize),
        None => none,
    }
}

/// Where slot `x` ends up once the arena's last slot `last` is moved into
/// the freed slot `s`.
spec fn moved(x: usize, s: usize, last: int) -> usize {
    if x == last {
        s
    } else {
        x
    }
}

/// A read-only walk over a list that can be advanced from either end; the
/// two ends meet in the middle.
pub struct Iter<'a, T> {
    list: &'a SafeList<T>,
    head: Option<usize>,
    back: Option<usize>,
    len: usize,
    lo: Ghost<int>,
}

/// A walk over a list that hands out each element for change in turn, from
/// either end.
pub struct IterMut<'a, T> {
    list: &'a mut SafeList<T>,
    head: Option<usize>,
    back: Option<usize>,
    len: usize,
    lo: Ghost<int>,
}

/// A consuming walk over a list: each step from the front is a `pop_front`
/// and each step from the back a `pop_back`.
pub struct IntoIter<T> {
    safe_list: SafeList<T>,
}

impl<T> View for SafeList<T> {
    type V = Seq<T>;

    closed spec fn view(&self) -> Seq<T> {
        Seq::new(self.nodes@.len(), |k: int| self.nodes@[self.order@[k] as int].element)
    }
}

impl<T> SafeList<T> {
    /// The arena, the order and the links agree: each slot stands at exactly
    /// one position, and each node's links name the slots of its neighbours.
    pub closed spec fn wf(&self) -> bool {
        &&& indexed(self.order@, self.pos@, self.nodes@.len() as int)
        &&& chained(self.nodes@, self.order@, self.head, self.back)
    }

    /// An empty list.
    pub fn new() -> (r: SafeList<T>)
        ensures
            r.wf(),
            r@ == Seq::<T>::empty(),
    {
        let r = SafeList {
            nodes: Vec::new(),
            head: None,
            back: None,
            order: Ghost(Seq::empty()),
            pos: Ghost(Seq::empty()),
        };
        assert(r@ =~= Seq::<T>::empty());
        r
    }

    /// The number of elements.
    pub fn len(&self) -> (r: usize)
        requires
            self.wf(),
        ensures
            r == self@.len(),
    {
        self.nodes.len()
    }

    /// Appends `elt` after the last element.
    pub fn push_back(&mut self, elt: T)
        requires
            old(self).wf(),
        ensures
            final(self).wf(),
            final(self)@ == old(self)@.push(elt),
    {
        let s = self.nodes.len();
        let ghost n = s as int;
        self.nodes.push(Node { element: elt, prev: self.back, next: None });
        match self.back {
            Some(b) => {
                self.nodes[b].next = Some(s);
            },
            None => {
                self.head = Some(s);
            },
        }
        self.back = Some(s);
        self.order = Ghost(self.order@.push(s));
        self.pos = Ghost(self.pos@.push(n));
        proof {
            let o = old(self).order@;
            assert forall|k: int| 0 <= k <= n implies {
                &&& (#[trigger] self.nodes@[self.order@[k] as int]).prev == link_of(
                    self.order@,
                    k - 1,
                )
                &&& self.nodes@[self.order@[k] as int].next == link_of(self.order@, k + 1)
            } by {
                if k < n {
                    assert(old(self).nodes@[o[k] as int].prev == link_of(o, k - 1));
                }
            }
            assert(self@ =~= old(self)@.push(elt));
        }
    }

    /// Joins the neighbours of the node in slot `s`, at position `p`, to each
    /// other, so that the chain skips it. The arena keeps its length and its
    /// elements.
    fn detach(&mut self, s: usize, Ghost(p): Ghost<int>)
        requires
            old(self).wf(),
            0 <= p < old(self).nodes@.len(),
            s == old(self).order@[p],
        ensures
            final(self).nodes@.len() == old(self).nodes@.len(),
            forall|i: int|
                0 <= i < old(self).nodes@.len() ==> (#[trigger] final(self).nodes@[i]).element
                    == old(self).nodes@[i].element,
            chained(final(self).nodes@, old(self).order@.remove(p), final(self).head, final(self).back),
            final(self).order == old(self).order,
            final(self).pos == old(self).pos,
    {
        let ghost n = self.nodes@.len() as int;
        let ghost o = self.order@;
        let ghost pos = self.pos@;
        assert(self.nodes@[o[p] as int].prev == link_of(o, p - 1));
        let pv = self.nodes[s].prev;
        let nx = self.nodes[s].next;
        match pv {
            Some(a) => {
                self.nodes[a].next = nx;
            },
            None => {
                self.head = nx;
            },
        }
        match nx {
            Some(b) => {
                self.nodes[b].prev = pv;
            },
            None => {
                self.back = pv;
            },
        }
        proof {
            let o2 = o.remove(p);
            let nodes0 = old(self).nodes@;
            assert forall|k: int| 0 <= k < n - 1 implies {
                &&& (#[trigger] self.nodes@[o2[k] as int]).prev == link_of(o2, k - 1)
                &&& self.nodes@[o2[k] as int].next == link_of(o2, k + 1)
            } by {
                let kk = if k < p { k } else { k + 1 };
                assert(o2[k] == o[kk]);
                assert(pos[o[kk] as int] == kk);
                assert(nodes0[o[kk] as int].prev == link_of(o, kk - 1));
                if 0 < p {
                    assert(pos[o[p - 1] as int] == p - 1);
                }
                if p + 1 < n {
                    assert(pos[o[p + 1] as int] == p + 1);
                }
            }
        }
    }

    /// Takes the node in slot `s`, which the chain `o2` no longer uses, out
    /// of the arena: the arena's last node moves into the slot, and its
    /// neighbours are pointed at its new place.
    fn close_slot(
        &mut self,
        s: usize,
        Ghost(o2): Ghost<Seq<usize>>,
        Ghost(inv): Ghost<Seq<int>>,
        Ghost(j): Ghost<int>,
    ) -> (r: Node<T>)
        requires
            0 <= s < old(self).nodes@.len(),
            o2.len() == old(self).nodes@.len() - 1,
            chained(old(self).nodes@, o2, old(self).head, old(self).back),
            forall|k: int|
                0 <= k < o2.len() ==> {
                    &&& #[trigger] o2[k] < old(self).nodes@.len()
                    &&& o2[k] != s
                    &&& inv[o2[k] as int] == k
                },
            s < o2.len() ==> 0 <= j < o2.len() && o2[j] == o2.len(),
        ensures
            final(self).nodes@.len() == o2.len(),
            r == old(self).nodes@[s as int],
            chained(
                final(self).nodes@,
                o2.map_values(|x: usize| moved(x, s, o2.len() as int)),
                final(self).head,
                final(self).back,
            ),
            forall|k: int|
                0 <= k < o2.len() ==> (#[trigger] final(self).nodes@[moved(
                    o2[k],
                    s,
                    o2.len() as int,
                ) as int]).element == old(self).nodes@[o2[k] as int].element,
            final(self).order == old(self).order,
            final(self).pos == old(self).pos,
    {
        let ghost nodes0 = self.nodes@;
        let ghost h0 = self.head;
        let ghost b0 = self.back;
        let last = self.nodes.len() - 1;
        let r = self.nodes.swap_remove(s);
        let ghost nodes1 = self.nodes@;
        if s < last {
            assert(nodes0[o2[j] as int].prev == link_of(o2, j - 1));
            assert(j > 0 ==> o2[j - 1] != last);
            assert(j + 1 < o2.len() ==> o2[j + 1] != last);
            let mp = self.nodes[s].prev;
            let mn = self.nodes[s].next;
            match mp {
                Some(a) => {
                    self.nodes[a].next = Some(s);
                },
                None => {
                    self.head = Some(s);
                },
            }
            match mn {
                Some(b) => {
                    self.nodes[b].prev = Some(s);
                },
                None => {
                    self.back = Some(s);
                },
            }
        }
        proof {
            let o3 = o2.map_values(|x: usize| moved(x, s, last as int));
            assert forall|k: int| 0 <= k < o2.len() implies {
                &&& (#[trigger] self.nodes@[o3[k] as int]).prev == link_of(o3, k - 1)
                &&& self.nodes@[o3[k] as int].next == link_of(o3, k + 1)
                &&& self.nodes@[o3[k] as int].element == nodes0[o2[k] as int].element
            } by {
                assert(nodes0[o2[k] as int].prev == link_of(o2, k - 1));
                if k > 0 {
                    assert(inv[o2[k - 1] as int] == k - 1);
                }
                if k + 1 < o2.len() {
                    assert(inv[o2[k + 1] as int] == k + 1);
                }
                if s < last {
                    if j > 0 {
                        assert(inv[o2[j - 1] as int] == j - 1);
                    }
                    if j + 1 < o2.len() {
                        assert(inv[o2[j + 1] as int] == j + 1);
                    }
                }
            }
        }
        r
    }
}

impl<T> SafeList<T> {
    /// Removes the node in slot `s`, which stands at position `p`, and hands
    /// back its element. The node is unlinked before it leaves the arena.
    fn unlink(&mut self, s: usize, Ghost(p): Ghost<int>) -> (r: T)
        requires
            old(self).wf(),
            0 <= p < old(self)@.len(),
            s == old(self).order@[p],
        ensures
            final(self).wf(),
            r == old(self)@[p],
            final(self)@ == old(self)@.remove(p),
    {
        let ghost n = self.nodes@.len() as int;
        let ghost o = self.order@;
        let ghost pos = self.pos@;
        let ghost nodes0 = self.nodes@;
        self.detach(s, Ghost(p));
        let ghost o2 = o.remove(p);
        let ghost inv = Seq::new(n as nat, |i: int| if pos[i] > p { pos[i] - 1 } else { pos[i] });
        let ghost j = inv[n - 1];
        proof {
            assert forall|k: int| 0 <= k < o2.len() implies {
                &&& #[trigger] o2[k] < n
                &&& o2[k] != s
                &&& inv[o2[k] as int] == k
            } by {
                let kk = if k < p { k } else { k + 1 };
                assert(o2[k] == o[kk]);
                assert(pos[o[kk] as int] == kk);
            }
            if s < n - 1 {
                assert(o[pos[n - 1]] == n - 1);
                assert(o2[j] == o[pos[n - 1]]);
            }
        }
        let node = self.close_slot(s, Ghost(o2), Ghost(inv), Ghost(j));
        let ghost o3 = o2.map_values(|x: usize| moved(x, s, n - 1));
        let ghost pos3 = Seq::new((n - 1) as nat, |i: int| inv[if i == s { n - 1 } else { i }]);
        self.order = Ghost(o3);
        self.pos = Ghost(pos3);
        proof {
            assert forall|k: int| 0 <= k < n - 1 implies 0 <= #[trigger] o3[k] < n - 1 && pos3[o3[k] as int] == k by {
                assert(inv[o2[k] as int] == k);
                assert(o2[k] != s);
            }
            assert forall|i: int| 0 <= i < n - 1 implies 0 <= #[trigger] pos3[i] < n - 1 && o3[pos3[i]] == i by {
                let x = if i == s { n - 1 } else { i };
                let kk = pos[x];
                assert(o[kk] == x);
                assert(kk != p);
                let k = if kk > p { kk - 1 } else { kk };
                assert(o2[k] == o[kk]);
            }
            assert forall|k: int| 0 <= k < n - 1 implies #[trigger] self@[k] == old(self)@.remove(p)[k] by {
                let kk = if k < p { k } else { k + 1 };
                assert(o2[k] == o[kk]);
                assert(self.nodes@[o3[k] as int].element == nodes0[o2[k] as int].element);
            }
            assert(self@ =~= old(self)@.remove(p));
        }
        node.element
    }
}

impl<T> SafeList<T> {
    /// Whether the list holds no element.
    pub fn is_empty(&self) -> (r: bool)
        requires
            self.wf(),
        ensures
            r == (self@.len() == 0),
    {
        self.nodes.len() == 0
    }

    /// The first element, left in place.
    pub fn front(&self) -> (r: Option<&T>)
        requires
            self.wf(),
        ensures
            self@.len() == 0 ==> r is None,
            self@.len() > 0 ==> r == Some(&self@[0]),
    {
        match self.head {
            Some(h) => Some(&self.nodes[h].element),
            None => None,
        }
    }

    /// The last element, left in place.
    pub fn back(&self) -> (r: Option<&T>)
        requires
            self.wf(),
        ensures
            self@.len() == 0 ==> r is None,
            self@.len() > 0 ==> r == Some(&self@.last()),
    {
        match self.back {
            Some(b) => Some(&self.nodes[b].element),
            None => None,
        }
    }

    /// Puts `elt` before the first element.
    pub fn push_front(&mut self, elt: T)
        requires
            old(self).wf(),
        ensures
            final(self).wf(),
            final(self)@ == seq![elt] + old(self)@,
    {
        let s = self.nodes.len();
        let ghost n = s as int;
        let ghost o = self.order@;
        let ghost pos = self.pos@;
        self.nodes.push(Node { element: elt, prev: None, next: self.head });
        match self.head {
            Some(h) => {
                self.nodes[h].prev = Some(s);
            },
            None => {
                self.back = Some(s);
            },
        }
        self.head = Some(s);
        let ghost o1 = seq![s] + o;
        let ghost pos1 = Seq::new((n + 1) as nat, |i: int| if i == n { 0 } else { pos[i] + 1 });
        self.order = Ghost(o1);
        self.pos = Ghost(pos1);
        proof {
            assert forall|k: int| 0 <= k <= n implies 0 <= #[trigger] o1[k] <= n && pos1[o1[k] as int] == k by {
                if k > 0 {
                    assert(o1[k] == o[k - 1]);
                }
            }
            assert forall|i: int| 0 <= i <= n implies 0 <= #[trigger] pos1[i] <= n && o1[pos1[i]] == i by {
            }
            assert forall|k: int| 0 <= k <= n implies {
                &&& (#[trigger] self.nodes@[o1[k] as int]).prev == link_of(o1, k - 1)
                &&& self.nodes@[o1[k] as int].next == link_of(o1, k + 1)
            } by {
                if k > 0 {
                    assert(o1[k] == o[k - 1]);
                    assert(old(self).nodes@[o[k - 1] as int].prev == link_of(o, k - 2));
                }
            }
            assert(self@ =~= seq![elt] + old(self)@);
        }
    }

    /// Removes the first element and hands it back; an empty list is left
    /// as it is.
    pub fn pop_front(&mut self) -> (r: Option<T>)
        requires
            old(self).wf(),
        ensures
            final(self).wf(),
            (r, final(self)@) == take_front(old(self)@),
    {
        match self.head {
            Some(h) => {
                let e = self.unlink(h, Ghost(0));
                assert(self@ =~= old(self)@.drop_first());
                Some(e)
            },
            None => None,
        }
    }

    /// Removes the last element and hands it back; an empty list is left as
    /// it is.
    pub fn pop_back(&mut self) -> (r: Option<T>)
        requires
            old(self).wf(),
        ensures
            final(self).wf(),
            (r, final(self)@) == take_back(old(self)@),
    {
        match self.back {
            Some(b) => {
                let e = self.unlink(b, Ghost(self@.len() - 1));
                assert(self@ =~= old(self)@.drop_last());
                Some(e)
            },
            None => None,
        }
    }

    /// Drops every element.
    pub fn clear(&mut self)
        requires
            old(self).wf(),
        ensures
            final(self).wf(),
            final(self)@ == Seq::<T>::empty(),
    {
        *self = SafeList::new();
    }
}

impl<T> SafeList<T> {
    /// Moves every element of `other` after the last element of `self`,
    /// keeping their order, and leaves `other` empty. The nodes of `other`
    /// are carried over as they are; only their links are renumbered.
    pub fn append(&mut self, other: &mut SafeList<T>)
        requires
            old(self).wf(),
            old(other).wf(),
        ensures
            final(self).wf(),
            final(other).wf(),
            final(self)@ == old(self)@ + old(other)@,
            final(other)@ == Seq::<T>::empty(),
    {
        if self.nodes.len() == 0 {
            std::mem::swap(self, other);
            assert(other@ =~= Seq::<T>::empty());
            assert(old(self)@ =~= Seq::<T>::empty());
            assert(self@ =~= old(self)@ + old(other)@);
            assert(self.wf());
            assert(other.wf());
            return ;
        }
        let (oh, ob) = match (other.head, other.back) {
            (Some(oh), Some(ob)) => (oh, ob),
            _ => {
                assert(old(self)@ + old(other)@ =~= old(self)@);
                assert(self.wf());
                assert(other.wf());
                return ;
            },
        };
        let b = match self.back {
            Some(b) => b,
            None => {
                assert(false);
                return ;
            },
        };
        let n = self.nodes.len();
        let ghost o = self.order@;
        let ghost pos = self.pos@;
        let ghost oo = other.order@;
        let ghost opos = other.pos@;
        let ghost nodes0 = self.nodes@;
        let ghost others0 = other.nodes@;
        let ghost m = others0.len() as int;
        proof {
            assert forall|t: int| 0 <= t < m implies {
                &&& (#[trigger] others0[t]).prev matches Some(x) ==> x < m
                &&& others0[t].next matches Some(x) ==> x < m
                &&& others0[t].prev == link_of(oo, opos[t] - 1)
                &&& others0[t].next == link_of(oo, opos[t] + 1)
            } by {
                assert(oo[opos[t]] == t);
            }
        }
        self.nodes.append(&mut other.nodes);
        let total = self.nodes.len();
        let mut i: usize = n;
        while i < total
            invariant
                n == nodes0.len(),
                total == n + m,
                self.nodes@.len() == total,
                n <= i <= total,
                self.back == Some(b),
                self.head == old(self).head,
                forall|t: int| 0 <= t < n ==> #[trigger] self.nodes@[t] == nodes0[t],
                forall|t: int| i <= t < total ==> #[trigger] self.nodes@[t] == others0[t - n],
                forall|t: int|
                    n <= t < i ==> {
                        &&& (#[trigger] self.nodes@[t]).element == others0[t - n].element
                        &&& self.nodes@[t].prev == shifted(others0[t - n].prev, n as int, Some(b))
                        &&& self.nodes@[t].next == shifted(others0[t - n].next, n as int, None)
                    },
                forall|t: int|
                    0 <= t < m ==> {
                        &&& (#[trigger] others0[t]).prev matches Some(x) ==> x < m
                        &&& others0[t].next matches Some(x) ==> x < m
                    },
            decreases total - i,
        {
            assert(self.nodes@[i as int] == others0[i - n]);
            let pv = self.nodes[i].prev;
            let nx = self.nodes[i].next;
            self.nodes[i].prev = match pv {
                Some(x) => Some(x + n),
                None => Some(b),
            };
            self.nodes[i].next = match nx {
                Some(x) => Some(x + n),
                None => None,
            };
            i += 1;
        }
        self.nodes[b].next = Some(oh + n);
        self.back = Some(ob + n);
        let ghost o1 = o + oo.map_values(|x: usize| (x + n) as usize);
        let ghost pos1 = pos + opos.map_values(|q: int| q + n);
        self.order = Ghost(o1);
        self.pos = Ghost(pos1);
        other.head = None;
        other.back = None;
        other.order = Ghost(Seq::empty());
        other.pos = Ghost(Seq::empty());
        proof {
            assert forall|k: int| 0 <= k < total implies 0 <= #[trigger] o1[k] < total && pos1[o1[k] as int] == k by {
                if k >= n {
                    assert(o1[k] == oo[k - n] + n);
                }
            }
            assert forall|t: int| 0 <= t < total implies 0 <= #[trigger] pos1[t] < total && o1[pos1[t]] == t by {
                if t >= n {
                    assert(pos1[t] == opos[t - n] + n);
                }
            }
            assert forall|k: int| 0 <= k < total implies {
                &&& (#[trigger] self.nodes@[o1[k] as int]).prev == link_of(o1, k - 1)
                &&& self.nodes@[o1[k] as int].next == link_of(o1, k + 1)
            } by {
                if k < n {
                    assert(nodes0[o[k] as int].prev == link_of(o, k - 1));
                    assert(pos[b as int] == n - 1);
                } else {
                    let t = oo[k - n] as int;
                    assert(o1[k] == t + n);
                    assert(opos[t] == k - n);
                    assert(others0[t].prev == link_of(oo, k - n - 1));
                }
            }
            assert forall|k: int| 0 <= k < total implies #[trigger] self@[k] == (old(self)@ + old(other)@)[k] by {
                if k >= n {
                    assert(o1[k] == oo[k - n] + n);
                }
            }
            assert(self@ =~= old(self)@ + old(other)@);
            assert(other@ =~= Seq::<T>::empty());
            assert(indexed(self.order@, self.pos@, self.nodes@.len() as int));
            assert(o1[0] == o[0]);
            assert(o1[total - 1] == oo[m - 1] + n);
            assert(self.wf());

        }
    }
}

impl<'a, T> View for Iter<'a, T> {
    type V = Seq<T>;

    /// The elements not yet handed out, front to back.
    closed spec fn view(&self) -> Seq<T> {
        self.list@.subrange(self.lo@, self.lo@ + self.len)
    }
}

impl<'a, T> Iter<'a, T> {
    /// The cursors name the slots of the first and last elements not yet
    /// handed out.
    pub closed spec fn wf(&self) -> bool {
        &&& self.list.wf()
        &&& 0 <= self.lo@
        &&& self.lo@ + self.len <= self.list@.len()
        &&& self.len > 0 ==> self.head == Some(self.list.order@[self.lo@])
        &&& self.len > 0 ==> self.back == Some(self.list.order@[self.lo@ + self.len - 1])
    }

    /// Hands out the first element not yet handed out.
    pub fn next(&mut self) -> (r: Option<&'a T>)
        requires
            old(self).wf(),
        ensures
            final(self).wf(),
            old(self)@.len() == 0 ==> r is None && final(self)@ == old(self)@,
            old(self)@.len() > 0 ==> r == Some(&old(self)@[0]) && final(self)@
                == old(self)@.drop_first(),
    {
        if self.len == 0 {
            return None;
        }
        let list: &'a SafeList<T> = self.list;
        let ghost lo = self.lo@;
        match self.head {
            Some(h) => {
                let node = &list.nodes[h];
                assert(list.nodes@[list.order@[lo] as int].next == link_of(list.order@, lo + 1));
                self.head = node.next;
                self.len = self.len - 1;
                self.lo = Ghost(lo + 1);
                assert(self@ =~= old(self)@.drop_first());
                Some(&node.element)
            },
            None => None,
        }
    }

    /// Hands out the last element not yet handed out.
    pub fn next_back(&mut self) -> (r: Option<&'a T>)
        requires
            old(self).wf(),
        ensures
            final(self).wf(),
            old(self)@.len() == 0 ==> r is None && final(self)@ == old(self)@,
            old(self)@.len() > 0 ==> r == Some(&old(self)@.last()) && final(self)@
                == old(self)@.drop_last(),
    {
        if self.len == 0 {
            return None;
        }
        let list: &'a SafeList<T> = self.list;
        let ghost hi = self.lo@ + self.len - 1;
        match self.back {
            Some(b) => {
                let node = &list.nodes[b];
                assert(list.nodes@[list.order@[hi] as int].prev == link_of(list.order@, hi - 1));
                self.back = node.prev;
                self.len = self.len - 1;
                assert(self@ =~= old(self)@.drop_last());
                Some(&node.element)
            },
            None => None,
        }
    }

    /// The number of elements not yet handed out, as a lower and an upper
    /// bound.
    pub fn size_hint(&self) -> (r: (usize, Option<usize>))
        requires
            self.wf(),
        ensures
            r == (self@.len() as usize, Some(self@.len() as usize)),
    {
        (self.len, Some(self.len))
    }

    /// The last element not yet handed out.
    pub fn last(self) -> (r: Option<&'a T>)
        requires
            self.wf(),
        ensures
            self@.len() == 0 ==> r is None,
            self@.len() > 0 ==> r == Some(&self@.last()),
    {
        let mut it = self;
        it.next_back()
    }
}

impl<T> SafeList<T> {
    /// A walk over the elements, front to back or back to front.
    pub fn iter(&self) -> (r: Iter<'_, T>)
        requires
            self.wf(),
        ensures
            r.wf(),
            r@ == self@,
    {
        let r = Iter { list: self, head: self.head, back: self.back, len: self.nodes.len(), lo: Ghost(0) };
        assert(r@ =~= self@);
        r
    }

    /// A walk that takes the elements out of the list.
    pub fn into_iter(self) -> (r: IntoIter<T>)
        requires
            self.wf(),
        ensures
            r.wf(),
            r@ == self@,
    {
        IntoIter { safe_list: self }
    }
}

impl<T> View for IntoIter<T> {
    type V = Seq<T>;

    /// The elements still in the list.
    closed spec fn view(&self) -> Seq<T> {
        self.safe_list@
    }
}

impl<T> IntoIter<T> {
    /// The list still to be walked is well formed.
    pub closed spec fn wf(&self) -> bool {
        self.safe_list.wf()
    }

    /// Takes the first element out.
    pub fn next(&mut self) -> (r: Option<T>)
        requires
            old(self).wf(),
        ensures
            final(self).wf(),
            (r, final(self)@) == take_front(old(self)@),
    {
        self.safe_list.pop_front()
    }

    /// Takes the last element out.
    pub fn next_back(&mut self) -> (r: Option<T>)
        requires
            old(self).wf(),
        ensures
            final(self).wf(),
            (r, final(self)@) == take_back(old(self)@),
    {
        self.safe_list.pop_back()
    }

    /// The number of elements left.
    pub fn len(&self) -> (r: usize)
        requires
            self.wf(),
        ensures
            r == self@.len(),
    {
        self.safe_list.len()
    }
}

impl<'a, T> IterMut<'a, T> {
    /// The elements of the list as the walk stands.
    pub closed spec fn items(&self) -> Seq<T> {
        (*self.list)@
    }

    /// The list that the walk goes over.
    pub closed spec fn target(&self) -> &'a mut SafeList<T> {
        self.list
    }

    /// The position of the next element from the front.
    pub closed spec fn position(&self) -> int {
        self.lo@
    }

    /// The number of elements not yet handed out.
    pub closed spec fn remaining(&self) -> int {
        self.len as int
    }

    /// The cursors name the slots of the first and last elements not yet
    /// handed out.
    pub closed spec fn wf(&self) -> bool {
        &&& (*self.list).wf()
        &&& 0 <= self.lo@
        &&& self.lo@ + self.len <= self.items().len()
        &&& self.len > 0 ==> self.head == Some(self.list.order@[self.lo@])
        &&& self.len > 0 ==> self.back == Some(self.list.order@[self.lo@ + self.len - 1])
    }

    /// Hands out, for change, the first element not yet handed out.
    pub fn next(&mut self) -> (r: Option<&mut T>)
        requires
            old(self).wf(),
        ensures
            final(self).wf(),
            *final(final(self).target()) == *final(old(self).target()),
            old(self).remaining() == 0 ==> r is None && final(self).items() == old(self).items()
                && final(self).position() == old(self).position() && final(self).remaining() == 0,
            old(self).remaining() > 0 ==> (r matches Some(e) && *e == old(self).items()[old(self).position()]
                && final(self).items() == old(self).items().update(old(self).position(), *final(e))
                && final(self).position() == old(self).position() + 1
                && final(self).remaining() == old(self).remaining() - 1),
    {
        if self.len == 0 {
            return None;
        }
        let ghost lo = self.lo@;
        match self.head {
            Some(h) => {
                assert(self.list.nodes@[self.list.order@[lo] as int].next == link_of(self.list.order@, lo + 1));
                self.head = self.list.nodes[h].next;
                self.len = self.len - 1;
                self.lo = Ghost(lo + 1);
                Some(&mut self.list.nodes[h].element)
            },
            None => None,
        }
    }

    /// Hands out, for change, the last element not yet handed out.
    pub fn next_back(&mut self) -> (r: Option<&mut T>)
        requires
            old(self).wf(),
        ensures
            final(self).wf(),
            *final(final(self).target()) == *final(old(self).target()),
            final(self).position() == old(self).position(),
            old(self).remaining() == 0 ==> r is None && final(self).items() == old(self).items()
                && final(self).remaining() == 0,
            old(self).remaining() > 0 ==> (r matches Some(e)
                && *e == old(self).items()[old(self).position() + old(self).remaining() - 1]
                && final(self).items() == old(self).items().update(
                    old(self).position() + old(self).remaining() - 1,
                    *final(e),
                )
                && final(self).remaining() == old(self).remaining() - 1),
    {
        if self.len == 0 {
            return None;
        }
        let ghost hi = self.lo@ + self.len - 1;
        match self.back {
            Some(b) => {
                assert(self.list.nodes@[self.list.order@[hi] as int].prev == link_of(self.list.order@, hi - 1));
                self.back = self.list.nodes[b].prev;
                self.len = self.len - 1;
                Some(&mut self.list.nodes[b].element)
            },
            None => None,
        }
    }

    /// The number of elements not yet handed out, as a lower and an upper
    /// bound.
    pub fn size_hint(&self) -> (r: (usize, Option<usize>))
        requires
            self.wf(),
        ensures
            r == (self.remaining() as usize, Some(self.remaining() as usize)),
    {
        (self.len, Some(self.len))
    }

    /// Hands out, for change, the last element not yet handed out, and ends
    /// the walk.
    pub fn last(self) -> (r: Option<&'a mut T>)
        requires
            self.wf(),
        ensures
            self.remaining() == 0 ==> r is None && *final(self.target()) == *self.target(),
            self.remaining() > 0 ==> (r matches Some(e)
                && *e == self.items()[self.position() + self.remaining() - 1]
                && (*final(self.target()))@ == self.items().update(
                    self.position() + self.remaining() - 1,
                    *final(e),
                )),
    {
        let IterMut { list, head: _, back, len, lo } = self;
        if len == 0 {
            return None;
        }
        match back {
            Some(b) => Some(&mut list.nodes[b].element),
            None => None,
        }
    }
}

impl<T> SafeList<T> {
    pub fn iter_mut(&mut self) -> (r: IterMut<'_, T>)
        requires
            old(self).wf(),
        ensures
            r.wf(),
            r.items() == old(self)@,
            r.position() == 0,
            r.remaining() == old(self)@.len(),
            *final(self) == *final(r.target()),
    {
        let h = self.head;
        let b = self.back;
        let n = self.nodes.len();
        IterMut { list: self, head: h, back: b, len: n, lo: Ghost(0) }
    }
}

impl<T> SafeList<T> {
    /// A list of the elements of `v`, in the order of `v`.
    pub fn from_iter(v: Vec<T>) -> (r: SafeList<T>)
        ensures
            r.wf(),
            r@ == v@,
    {
        let ghost v0 = v@;
        let mut v = v;
        let mut list = SafeList::new();
        while v.len() > 0
            invariant
                list.wf(),
                v@.len() <= v0.len(),
                v@ == v0.subrange(0, v@.len() as int),
                list@ == v0.subrange(v@.len() as int, v0.len() as int),
            decreases v@.len(),
        {
            match v.pop() {
                Some(x) => {
                    list.push_front(x);
                    assert(list@ =~= v0.subrange(v@.len() as int, v0.len() as int));
                },
                None => {},
            }
        }
        assert(list@ =~= v0);
        list
    }

    /// Puts the elements of `v` after the last element, in the order of `v`.
    pub fn extend(&mut self, v: Vec<T>)
        requires
            old(self).wf(),
        ensures
            final(self).wf(),
            final(self)@ == old(self)@ + v@,
    {
        let mut rest = SafeList::from_iter(v);
        self.append(&mut rest);
    }
}

impl<T: Clone> Clone for SafeList<T> {
    /// A list of clones of the elements, in the same order; the arena is
    /// copied slot for slot, so the links carry over unchanged.
    fn clone(&self) -> (r: Self)
        ensures
            self.wf() ==> r.wf(),
            self.wf() ==> r@.len() == self@.len(),
            self.wf() ==> forall|k: int| 0 <= k < self@.len() ==> cloned::<T>(self@[k], #[trigger] r@[k]),
    {
        let mut nodes: Vec<Node<T>> = Vec::new();
        let mut i: usize = 0;
        while i < self.nodes.len()
            invariant
                i <= self.nodes@.len(),
                nodes@.len() == i,
                forall|t: int|
                    0 <= t < i ==> {
                        &&& (#[trigger] nodes@[t]).prev == self.nodes@[t].prev
                        &&& nodes@[t].next == self.nodes@[t].next
                        &&& cloned::<T>(self.nodes@[t].element, nodes@[t].element)
                    },
            decreases self.nodes@.len() - i,
        {
            let node = &self.nodes[i];
            nodes.push(Node { element: node.element.clone(), prev: node.prev, next: node.next });
            i += 1;
        }
        let r = SafeList { nodes, head: self.head, back: self.back, order: self.order, pos: self.pos };
        proof {
            if self.wf() {
                assert forall|k: int| 0 <= k < self.order@.len() implies {
                    &&& (#[trigger] r.nodes@[r.order@[k] as int]).prev == link_of(r.order@, k - 1)
                    &&& r.nodes@[r.order@[k] as int].next == link_of(r.order@, k + 1)
                } by {
                    assert(self.nodes@[self.order@[k] as int].prev == link_of(self.order@, k - 1));
                }
            }
        }
        r
    }
}

impl<'a, T> Clone for Iter<'a, T> {
    /// A second walk that stands where this one stands.
    fn clone(&self) -> (r: Self)
        ensures
            r == *self,
    {
        Iter { list: self.list, head: self.head, back: self.back, len: self.len, lo: self.lo }
    }
}

impl<T: Clone> Clone for IntoIter<T> {
    /// A consuming walk over clones of the elements still to come.
    fn clone(&self) -> (r: Self)
        ensures
            self.wf() ==> r.wf(),
            self.wf() ==> r@.len() == self@.len(),
            self.wf() ==> forall|k: int| 0 <= k < self@.len() ==> cloned::<T>(self@[k], #[trigger] r@[k]),
    {
        IntoIter { safe_list: self.safe_list.clone() }
    }
}

} // verus!
