use vstd::prelude::*;

verus! {

/// One element of the chain, with the index of the node that follows it.
pub struct Node<T> {
    next: Option<usize>,
    element: T,
}

impl<T> Node<T> {
    /// A detached node holding `element`.
    pub fn new(element: T) -> (n: Self)
        ensures
            n.next() == None::<usize>,
            n.element() == element,
    {
        Node { next: None, element }
    }

    pub closed spec fn next(self) -> Option<usize> {
        self.next
    }

    pub closed spec fn element(self) -> T {
        self.element
    }

    /// Consumes the node and hands back its element.
    pub fn into_node(self) -> (e: T)
        ensures
            e == self.element(),
    {
        self.element
    }
}

/// A singly-linked list.
///
/// Every node sits in `slots`; a slot that holds no node is listed in `free`
/// and is reused by the next insertion. `head` is the index of the first node
/// and `tail` that of the last one: `tail` never owns anything, it only makes
/// appending O(1). `chain` is the sequence of slot indices met when following
/// `next` from `head`.
///
/// Dropping a list drops `slots` one slot after another: a long chain never
/// turns into deep recursion, and should an element's destructor panic, the
/// remaining slots are still dropped, so each element is destroyed once.
pub struct List<T> {
    slots: Vec<Option<Node<T>>>,
    free: Vec<usize>,
    head: Option<usize>,
    tail: Option<usize>,
    len: usize,
    chain: Ghost<Seq<usize>>,
}

/// The link that the node at position `k` of `chain` must hold.
spec fn link_after(chain: Seq<usize>, k: int) -> Option<usize> {
    if k + 1 < chain.len() {
        Some(chain[k + 1])
    } else {
        None
    }
}

impl<T> List<T> {
    /// Slot `i` holds a node.
    spec fn occupied(self, i: int) -> bool {
        self.slots@[i] is Some
    }

    /// The node in slot `i`.
    spec fn node_at(self, i: int) -> Node<T> {
        self.slots@[i]->Some_0
    }

    /// The invariant of the list.
    pub closed spec fn well_formed(self) -> bool {
        let chain = self.chain@;
        &&& self.len == chain.len()
        &&& chain.no_duplicates()
        &&& forall|k: int|
            #![trigger chain[k]]
            0 <= k < chain.len() ==> {
                &&& chain[k] < self.slots@.len()
                &&& self.occupied(chain[k] as int)
                &&& self.node_at(chain[k] as int).next == link_after(chain, k)
            }
        &&& self.free@.no_duplicates()
        &&& forall|j: int|
            #![trigger self.free@[j]]
            0 <= j < self.free@.len() ==> self.free@[j] < self.slots@.len() && !self.occupied(
                self.free@[j] as int,
            )
        &&& forall|i: usize|
            #![trigger self.slots@[i as int]]
            i < self.slots@.len() ==> if self.occupied(i as int) {
                chain.contains(i)
            } else {
                self.free@.contains(i)
            }
        &&& if chain.len() == 0 {
            self.head is None && self.tail is None
        } else {
            self.head == Some(chain[0]) && self.tail == Some(chain.last())
        }
    }

    /// The elements from head to tail.
    pub closed spec fn view(self) -> Seq<T> {
        Seq::new(self.chain@.len(), |k: int| self.node_at(self.chain@[k] as int).element)
    }

    /// An empty list.
    pub fn new() -> (l: Self)
        ensures
            l.well_formed(),
            l@ == Seq::<T>::empty(),
    {
        let l = List { slots: Vec::new(), free: Vec::new(), head: None, tail: None, len: 0, chain: Ghost(Seq::empty()) };
        assert(l@ =~= Seq::<T>::empty());
        l
    }

    /// The number of elements.
    pub fn len(&self) -> (n: usize)
        requires
            self.well_formed(),
        ensures
            n == self@.len(),
    {
        self.len
    }

    /// Whether the list holds no element.
    pub fn is_empty(&self) -> (b: bool)
        requires
            self.well_formed(),
        ensures
            b == (self@.len() == 0),
    {
        self.len == 0
    }

    /// Puts `node` into a slot that no node of the chain uses: the last free
    /// slot if there is one, otherwise a new slot at the end of the arena.
    fn take_slot(&mut self, node: Node<T>) -> (i: usize)
        requires
            old(self).well_formed(),
        ensures
            final(self).chain == old(self).chain,
            final(self).head == old(self).head,
            final(self).tail == old(self).tail,
            final(self).len == old(self).len,
            if old(self).free@.len() > 0 {
                &&& i == old(self).free@.last()
                &&& final(self).free@ == old(self).free@.drop_last()
                &&& final(self).slots@ == old(self).slots@.update(i as int, Some(node))
            } else {
                &&& i == old(self).slots@.len()
                &&& final(self).free@ == old(self).free@
                &&& final(self).slots@ == old(self).slots@.push(Some(node))
            },
    {
        match self.free.pop() {
            Some(i) => {
                proof {
                    assert(old(self).free@[old(self).free@.len() - 1] == i);
                }
                self.slots.set(i, Some(node));
                i
            },
            None => {
                let i = self.slots.len();
                self.slots.push(Some(node));
                i
            },
        }
    }

    /// The slot chosen by `take_slot` holds no node of the chain.
    proof fn lemma_taken_slot_fresh(self, i: usize)
        requires
            self.well_formed(),
            (self.free@.len() > 0 && i == self.free@.last()) || (self.free@.len() == 0 && i
                == self.slots@.len()),
        ensures
            !self.chain@.contains(i),
    {
        if self.chain@.contains(i) {
            let k = choose|k: int| 0 <= k < self.chain@.len() && self.chain@[k] == i;
            assert(self.chain@[k] < self.slots@.len());
            if self.free@.len() > 0 {
                assert(self.free@[self.free@.len() - 1] == i);
            }
        }
    }

    /// Links `node` in front of the head.
    fn push_front_node(&mut self, node: Node<T>)
        requires
            old(self).well_formed(),
            old(self)@.len() < usize::MAX,
        ensures
            final(self).well_formed(),
            final(self)@ == seq![node.element] + old(self)@,
    {
        let mut node = node;
        node.next = self.head;
        let ghost linked = node;
        let was_empty = self.head.is_none();
        let i = self.take_slot(node);
        proof {
            old(self).lemma_taken_slot_fresh(i);
        }
        if was_empty {
            self.tail = Some(i);
        }
        self.head = Some(i);
        self.len = self.len + 1;
        self.chain = Ghost(seq![i] + self.chain@);
        proof {
            let old_chain = old(self).chain@;
            let chain = self.chain@;
            assert forall|k: int| 0 <= k < chain.len() implies #[trigger] chain[k] < self.slots@.len()
                && self.occupied(chain[k] as int) && self.node_at(chain[k] as int).next
                == link_after(chain, k) by {
                if k > 0 {
                    assert(chain[k] == old_chain[k - 1]);
                    assert(old_chain[k - 1] < old(self).slots@.len());
                }
            }
            assert forall|j: usize| j < self.slots@.len() implies if #[trigger] self.slots@[j as int] is Some {
                chain.contains(j)
            } else {
                self.free@.contains(j)
            } by {
                if j == i {
                    assert(chain[0] == i);
                } else if old(self).occupied(j as int) {
                    let k = choose|k: int| 0 <= k < old_chain.len() && old_chain[k] == j;
                    assert(chain[k + 1] == j);
                } else {
                    let f = old(self).free@;
                    let k = choose|k: int| 0 <= k < f.len() && f[k] == j;
                    assert(k != f.len() - 1);
                    assert(self.free@[k] == j);
                }
            }
            assert forall|j: int| 0 <= j < self.free@.len() implies #[trigger] self.free@[j]
                < self.slots@.len() && !self.occupied(self.free@[j] as int) by {
                assert(self.free@[j] == old(self).free@[j]);
            }
            assert(chain.last() == old_chain.last() || old_chain.len() == 0);
            assert(self@ =~= seq![linked.element] + old(self)@);
        }
    }

    /// Inserts `element` before the first element.
    pub fn push_front(&mut self, element: T)
        requires
            old(self).well_formed(),
            old(self)@.len() < usize::MAX,
        ensures
            final(self).well_formed(),
            final(self)@ == seq![element] + old(self)@,
    {
        self.push_front_node(Node::new(element));
    }

    /// Rewrites the link of the node in slot `at`; everything else stays.
    fn set_next(&mut self, at: usize, next: Option<usize>)
        requires
            at < old(self).slots@.len(),
            old(self).occupied(at as int),
        ensures
            final(self).slots@ == old(self).slots@.update(
                at as int,
                Some(Node { next, element: old(self).node_at(at as int).element }),
            ),
            final(self).free == old(self).free,
            final(self).chain == old(self).chain,
            final(self).head == old(self).head,
            final(self).tail == old(self).tail,
            final(self).len == old(self).len,
    {
        if let Some(n) = &mut self.slots[at] {
            n.next = next;
        }
    }

    /// Links `node` after the tail, through the back-reference.
    fn push_back_node(&mut self, node: Node<T>)
        requires
            old(self).well_formed(),
            old(self)@.len() < usize::MAX,
        ensures
            final(self).well_formed(),
            final(self)@ == old(self)@.push(node.element),
    {
        let mut node = node;
        node.next = None;
        let ghost linked = node;
        let i = self.take_slot(node);
        proof {
            old(self).lemma_taken_slot_fresh(i);
        }
        match self.tail {
            Some(t) => {
                proof {
                    let c = old(self).chain@;
                    assert(c[c.len() - 1] < old(self).slots@.len());
                    assert(c[c.len() - 1] != i);
                }
                self.set_next(t, Some(i));
            },
            None => {
                self.head = Some(i);
            },
        }
        self.tail = Some(i);
        self.len = self.len + 1;
        self.chain = Ghost(self.chain@.push(i));
        proof {
            let old_chain = old(self).chain@;
            let chain = self.chain@;
            let n = old_chain.len();
            assert forall|k: int| 0 <= k < chain.len() implies #[trigger] chain[k] < self.slots@.len()
                && self.occupied(chain[k] as int) && self.node_at(chain[k] as int).next
                == link_after(chain, k) by {
                if k < n {
                    assert(chain[k] == old_chain[k]);
                    assert(old_chain[k] < old(self).slots@.len());
                    if k + 1 < n {
                        assert(old_chain[k] != old_chain[n - 1]);
                    }
                }
            }
            assert forall|j: usize| j < self.slots@.len() implies if #[trigger] self.slots@[j as int] is Some {
                chain.contains(j)
            } else {
                self.free@.contains(j)
            } by {
                if j == i {
                    assert(chain[n as int] == i);
                } else if old(self).occupied(j as int) {
                    let k = choose|k: int| 0 <= k < old_chain.len() && old_chain[k] == j;
                    assert(chain[k] == j);
                } else {
                    let f = old(self).free@;
                    let k = choose|k: int| 0 <= k < f.len() && f[k] == j;
                    assert(k != f.len() - 1);
                    assert(self.free@[k] == j);
                }
            }
            assert forall|j: int| 0 <= j < self.free@.len() implies #[trigger] self.free@[j]
                < self.slots@.len() && !self.occupied(self.free@[j] as int) by {
                assert(self.free@[j] == old(self).free@[j]);
                if n > 0 {
                    assert(old_chain[n - 1] != self.free@[j]);
                }
            }
            assert(self@ =~= old(self)@.push(linked.element)) by {
                assert forall|k: int| 0 <= k < n implies self@[k] == old(self)@[k] by {
                    assert(chain[k] == old_chain[k]);
                    assert(old_chain[k] != i);
                }
            }
        }
    }

    /// Inserts `element` after the last element.
    pub fn push_back(&mut self, element: T)
        requires
            old(self).well_formed(),
            old(self)@.len() < usize::MAX,
        ensures
            final(self).well_formed(),
            final(self)@ == old(self)@.push(element),
    {
        self.push_back_node(Node::new(element));
    }

    /// Takes the node out of slot `at` and lists the slot as free.
    fn release(&mut self, at: usize) -> (n: Node<T>)
        requires
            at < old(self).slots@.len(),
            old(self).occupied(at as int),
        ensures
            n == old(self).node_at(at as int),
            final(self).slots@ == old(self).slots@.update(at as int, None),
            final(self).free@ == old(self).free@.push(at),
            final(self).chain == old(self).chain,
            final(self).head == old(self).head,
            final(self).tail == old(self).tail,
            final(self).len == old(self).len,
    {
        let taken = self.slots[at].take();
        self.free.push(at);
        taken.unwrap()
    }

    /// The link held by the node in slot `at`.
    fn next_at(&self, at: usize) -> (r: Option<usize>)
        requires
            at < self.slots@.len(),
            self.occupied(at as int),
        ensures
            r == self.node_at(at as int).next,
    {
        match &self.slots[at] {
            Some(n) => n.next,
            None => None,
        }
    }

    /// Removes and returns the first element, or returns `None` on an empty
    /// list.
    pub fn pop_front(&mut self) -> (r: Option<T>)
        requires
            old(self).well_formed(),
        ensures
            final(self).well_formed(),
            old(self)@.len() == 0 ==> r == None::<T> && final(self)@ == old(self)@,
            old(self)@.len() > 0 ==> r == Some(old(self)@[0]) && final(self)@ == old(self)@.drop_first(),
    {
        let h = match self.head {
            Some(h) => h,
            None => return None,
        };
        proof {
            assert(self.chain@[0] < self.slots@.len());
        }
        let node = self.release(h);
        self.head = node.next;
        if self.head.is_none() {
            self.tail = None;
        }
        self.len = self.len - 1;
        self.chain = Ghost(self.chain@.drop_first());
        proof {
            let old_chain = old(self).chain@;
            let chain = self.chain@;
            assert forall|k: int| 0 <= k < chain.len() implies #[trigger] chain[k] < self.slots@.len()
                && self.occupied(chain[k] as int) && self.node_at(chain[k] as int).next
                == link_after(chain, k) by {
                assert(chain[k] == old_chain[k + 1]);
                assert(old_chain[k + 1] < old(self).slots@.len());
            }
            assert(!old(self).free@.contains(h)) by {
                if old(self).free@.contains(h) {
                    let j = choose|j: int| 0 <= j < old(self).free@.len() && old(self).free@[j] == h;
                    assert(old(self).free@[j] < old(self).slots@.len());
                }
            }
            assert forall|j: usize| j < self.slots@.len() implies if #[trigger] self.slots@[j as int] is Some {
                chain.contains(j)
            } else {
                self.free@.contains(j)
            } by {
                if j == h {
                    assert(self.free@[self.free@.len() - 1] == h);
                } else if old(self).occupied(j as int) {
                    let k = choose|k: int| 0 <= k < old_chain.len() && old_chain[k] == j;
                    assert(chain[k - 1] == j);
                } else {
                    let f = old(self).free@;
                    let k = choose|k: int| 0 <= k < f.len() && f[k] == j;
                    assert(self.free@[k] == j);
                }
            }
            assert forall|j: int| 0 <= j < self.free@.len() implies #[trigger] self.free@[j]
                < self.slots@.len() && !self.occupied(self.free@[j] as int) by {
                if j < old(self).free@.len() {
                    assert(self.free@[j] == old(self).free@[j]);
                }
            }
            if chain.len() > 0 {
                assert(chain[0] == old_chain[1]);
            }
            assert(self@ =~= old(self)@.drop_first()) by {
                assert forall|k: int| 0 <= k < chain.len() implies self@[k] == old(self)@[k + 1] by {
                    assert(chain[k] == old_chain[k + 1]);
                    assert(old_chain[k + 1] != h);
                }
            }
        }
        Some(node.into_node())
    }

    /// Removes and returns the last element, or returns `None` on an empty
    /// list.
    ///
    /// Nodes know only their successor, so the node before the tail is found
    /// by walking from the head: this takes time linear in the length.
    pub fn pop_back(&mut self) -> (r: Option<T>)
        requires
            old(self).well_formed(),
        ensures
            final(self).well_formed(),
            old(self)@.len() == 0 ==> r == None::<T> && final(self)@ == old(self)@,
            old(self)@.len() > 0 ==> r == Some(old(self)@.last()) && final(self)@ == old(self)@.drop_last(),
    {
        let t = match self.tail {
            Some(t) => t,
            None => return None,
        };
        if self.len == 1 {
            return self.pop_front();
        }
        let ghost old_chain = self.chain@;
        let ghost n = old_chain.len();
        let mut cur = match self.head {
            Some(h) => h,
            None => return None,
        };
        let ghost mut k: int = 0;
        proof {
            assert(old_chain[0] < self.slots@.len());
        }
        loop
            invariant
                self == old(self),
                self.well_formed(),
                old_chain == self.chain@,
                n == old_chain.len(),
                self.tail == Some(t),
                0 <= k < n - 1,
                cur == old_chain[k],
            ensures
                k == n - 2,
                cur == old_chain[k],
            decreases n - k,
        {
            proof {
                assert(old_chain[k] < self.slots@.len());
            }
            let nx = self.next_at(cur);
            let nx = nx.unwrap();
            if nx == t {
                proof {
                    assert(old_chain[k + 1] == old_chain[n - 1]);
                }
                break;
            }
            cur = nx;
            proof {
                k = k + 1;
            }
        }
        proof {
            assert(old_chain[n - 1] < self.slots@.len());
            assert(old_chain[k] < self.slots@.len());
        }
        self.set_next(cur, None);
        let node = self.release(t);
        self.tail = Some(cur);
        self.len = self.len - 1;
        self.chain = Ghost(self.chain@.drop_last());
        proof {
            let chain = self.chain@;
            assert forall|m: int| 0 <= m < chain.len() implies #[trigger] chain[m] < self.slots@.len()
                && self.occupied(chain[m] as int) && self.node_at(chain[m] as int).next
                == link_after(chain, m) by {
                assert(chain[m] == old_chain[m]);
                assert(old_chain[m] < old(self).slots@.len());
                assert(old_chain[m] != t);
            }
            assert(!old(self).free@.contains(t)) by {
                if old(self).free@.contains(t) {
                    let j = choose|j: int| 0 <= j < old(self).free@.len() && old(self).free@[j] == t;
                    assert(old(self).free@[j] < old(self).slots@.len());
                }
            }
            assert forall|j: usize| j < self.slots@.len() implies if #[trigger] self.slots@[j as int] is Some {
                chain.contains(j)
            } else {
                self.free@.contains(j)
            } by {
                if j == t {
                    assert(self.free@[self.free@.len() - 1] == t);
                } else if old(self).occupied(j as int) {
                    let m = choose|m: int| 0 <= m < old_chain.len() && old_chain[m] == j;
                    assert(m != n - 1);
                    assert(chain[m] == j);
                } else {
                    let f = old(self).free@;
                    let m = choose|m: int| 0 <= m < f.len() && f[m] == j;
                    assert(self.free@[m] == j);
                }
            }
            assert forall|j: int| 0 <= j < self.free@.len() implies #[trigger] self.free@[j]
                < self.slots@.len() && !self.occupied(self.free@[j] as int) by {
                if j < old(self).free@.len() {
                    assert(self.free@[j] == old(self).free@[j]);
                }
            }
            assert(self@ =~= old(self)@.drop_last()) by {
                assert forall|m: int| 0 <= m < chain.len() implies self@[m] == old(self)@[m] by {
                    assert(chain[m] == old_chain[m]);
                    assert(old_chain[m] != t);
                }
            }
        }
        Some(node.into_node())
    }

    /// Reverses the order of the elements in place, by turning each link
    /// around in one walk from head to tail.
    pub fn rev(&mut self)
        requires
            old(self).well_formed(),
        ensures
            final(self).well_formed(),
            final(self)@ == old(self)@.reverse(),
    {
        let ghost chain = self.chain@;
        let ghost n = chain.len();
        let mut prev: Option<usize> = None;
        let mut cur = self.head;
        let ghost mut k: int = 0;
        while cur.is_some()
            invariant
                self.chain@ == chain,
                n == chain.len(),
                self.free == old(self).free,
                self.head == old(self).head,
                self.tail == old(self).tail,
                self.len == old(self).len,
                old(self).well_formed(),
                old(self).chain@ == chain,
                self.slots@.len() == old(self).slots@.len(),
                forall|j: int|
                    #![trigger self.slots@[j]]
                    0 <= j < self.slots@.len() ==> self.occupied(j) == old(self).occupied(j),
                0 <= k <= n,
                cur == if k < n {
                    Some(chain[k])
                } else {
                    None
                },
                prev == if k > 0 {
                    Some(chain[k - 1])
                } else {
                    None
                },
                forall|m: int|
                    #![trigger chain[m]]
                    0 <= m < n ==> {
                        &&& self.node_at(chain[m] as int).element == old(self).node_at(
                            chain[m] as int,
                        ).element
                        &&& self.node_at(chain[m] as int).next == if m < k {
                            if m > 0 {
                                Some(chain[m - 1])
                            } else {
                                None
                            }
                        } else {
                            link_after(chain, m)
                        }
                    },
            decreases n - k,
        {
            let at = cur.unwrap();
            proof {
                assert(chain[k] < self.slots@.len());
            }
            let nx = self.next_at(at);
            self.set_next(at, prev);
            prev = Some(at);
            cur = nx;
            proof {
                assert forall|m: int| 0 <= m < n && m != k implies chain[m] != chain[k] by {}
                k = k + 1;
            }
        }
        proof {
            if k < n {
                assert(cur is Some);
            }
        }
        self.tail = self.head;
        self.head = prev;
        self.chain = Ghost(chain.reverse());
        proof {
            let rc = self.chain@;
            assert forall|m: int| 0 <= m < rc.len() implies #[trigger] rc[m] < self.slots@.len()
                && self.occupied(rc[m] as int) && self.node_at(rc[m] as int).next
                == link_after(rc, m) by {
                assert(rc[m] == chain[n - 1 - m]);
                assert(chain[n - 1 - m] < self.slots@.len());
                assert(old(self).occupied(chain[n - 1 - m] as int));
                if m + 1 < n {
                    assert(rc[m + 1] == chain[n - 2 - m]);
                }
            }
            assert(rc.no_duplicates()) by {
                assert forall|a: int, b: int| 0 <= a < rc.len() && 0 <= b < rc.len() && a != b
                    implies rc[a] != rc[b] by {
                    assert(rc[a] == chain[n - 1 - a]);
                    assert(rc[b] == chain[n - 1 - b]);
                }
            }
            assert forall|j: usize| j < self.slots@.len() implies if #[trigger] self.slots@[j as int] is Some {
                rc.contains(j)
            } else {
                self.free@.contains(j)
            } by {
                assert(old(self).slots@[j as int] is Some == self.slots@[j as int] is Some);
                if self.occupied(j as int) {
                    let m = choose|m: int| 0 <= m < n && chain[m] == j;
                    assert(rc[n - 1 - m] == j);
                }
            }
            assert forall|j: int| 0 <= j < self.free@.len() implies #[trigger] self.free@[j]
                < self.slots@.len() && !self.occupied(self.free@[j] as int) by {
                assert(old(self).free@[j] < self.slots@.len());
            }
            if n > 0 {
                assert(rc[0] == chain[n - 1]);
                assert(rc[n - 1] == chain[0]);
            }
            assert(self@ =~= old(self)@.reverse()) by {
                assert forall|m: int| 0 <= m < n implies self@[m] == old(self)@.reverse()[m] by {
                    assert(rc[m] == chain[n - 1 - m]);
                }
            }
        }
    }

    /// A cursor over the elements, from head to tail. The list cannot be
    /// changed while the cursor borrows it.
    pub fn iter(&self) -> (it: Iter<'_, T>)
        requires
            self.well_formed(),
        ensures
            it.well_formed(),
            it@ == self@,
    {
        let it = Iter { list: self, cur: self.head, pos: Ghost(0) };
        assert(it@ =~= self@);
        it
    }
}

/// A forward cursor that lends out the elements of a list in order.
pub struct Iter<'a, T> {
    list: &'a List<T>,
    cur: Option<usize>,
    pos: Ghost<int>,
}

impl<'a, T> Iter<'a, T> {
    /// `cur` is the slot of the element at position `pos` of the list, or
    /// nothing once every element has been handed out.
    pub closed spec fn well_formed(self) -> bool {
        let chain = self.list.chain@;
        &&& self.list.well_formed()
        &&& 0 <= self.pos@ <= chain.len()
        &&& self.cur == if self.pos@ < chain.len() {
            Some(chain[self.pos@])
        } else {
            None
        }
    }

    /// The elements that are still to come.
    pub closed spec fn view(self) -> Seq<T> {
        self.list@.skip(self.pos@)
    }

    /// Hands out the next element, or `None` once the end is reached.
    pub fn next(&mut self) -> (r: Option<&'a T>)
        requires
            old(self).well_formed(),
        ensures
            final(self).well_formed(),
            old(self)@.len() == 0 ==> r is None && final(self)@ == old(self)@,
            old(self)@.len() > 0 ==> r == Some(&old(self)@[0]) && final(self)@ == old(self)@.drop_first(),
    {
        let at = match self.cur {
            Some(at) => at,
            None => return None,
        };
        let list: &'a List<T> = self.list;
        proof {
            assert(list.chain@[self.pos@] < list.slots@.len());
        }
        match &list.slots[at] {
            Some(n) => {
                self.cur = n.next;
                self.pos = Ghost(self.pos@ + 1);
                assert(self@ =~= old(self)@.drop_first());
                Some(&n.element)
            },
            None => None,
        }
    }

    /// Hands out every remaining element, in order.
    pub fn collect(self) -> (v: Vec<&'a T>)
        requires
            self.well_formed(),
        ensures
            v@.map_values(|e: &T| *e) == self@,
    {
        let mut it = self;
        let mut v: Vec<&'a T> = Vec::new();
        loop
            invariant
                it.well_formed(),
                v@.map_values(|e: &T| *e) + it@ == self@,
            ensures
                v@.map_values(|e: &T| *e) == self@,
            decreases it@.len(),
        {
            let ghost before = it@;
            match it.next() {
                Some(e) => {
                    v.push(e);
                    assert(v@.map_values(|e: &T| *e) + it@ =~= self@) by {
                        assert(before =~= seq![before[0]] + before.drop_first());
                    }
                },
                None => {
                    assert(v@.map_values(|e: &T| *e) =~= self@);
                    break;
                },
            }
        }
        v
    }
}

} // verus!
