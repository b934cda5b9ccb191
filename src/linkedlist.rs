use std::rc::Rc;
use vstd::prelude::*;

verus! {

/// One end of the list, and the direction of the link that points past it:
/// `Head` names the `prev` link, `Tail` the `next` link.
#[derive(Clone, Copy, PartialEq, Eq, Structural)]
enum Where {
    Head,
    Tail,
}

impl Where {
    fn opposite(self) -> (r: Where)
        ensures
            r != self,
    {
        match self {
            Where::Head => Where::Tail,
            Where::Tail => Where::Head,
        }
    }
}

/// A node holding one data item and the slots of its neighbours.
struct Node<T> {
    data: Rc<T>,
    prev: Option<usize>,
    next: Option<usize>,
}

impl<T> Node<T> {
    spec fn link_spec(&self, dir: Where) -> Option<usize> {
        match dir {
            Where::Head => self.prev,
            Where::Tail => self.next,
        }
    }

    /// Creates a node containing the given data item, with no neighbours.
    fn new(data: T) -> (r: Node<T>)
        ensures
            *r.data == data,
            r.prev is None,
            r.next is None,
    {
        Node { data: Rc::new(data), prev: None, next: None }
    }

    /// The neighbour toward end `dir`.
    fn get_link(&self, dir: Where) -> (r: Option<usize>)
        ensures
            r == self.link_spec(dir),
    {
        match dir {
            Where::Head => self.prev,
            Where::Tail => self.next,
        }
    }

    /// Updates the neighbour toward end `dir`.
    fn set_link(&mut self, dir: Where, other: Option<usize>)
        ensures
            final(self).data == old(self).data,
            final(self).prev == (match dir {
                Where::Head => other,
                Where::Tail => old(self).prev,
            }),
            final(self).next == (match dir {
                Where::Head => old(self).next,
                Where::Tail => other,
            }),
    {
        match dir {
            Where::Head => self.prev = other,
            Where::Tail => self.next = other,
        }
    }
}

/// Picks the slot at end `w` out of a (head, tail) pair.
fn end(ends: (usize, usize), w: Where) -> (r: usize)
    ensures
        r == (match w {
            Where::Head => ends.0,
            Where::Tail => ends.1,
        }),
{
    match w {
        Where::Head => ends.0,
        Where::Tail => ends.1,
    }
}

/// Replaces the slot at end `w` of a (head, tail) pair.
fn with_end(ends: (usize, usize), w: Where, slot: usize) -> (r: (usize, usize))
    ensures
        r == (match w {
            Where::Head => (slot, ends.1),
            Where::Tail => (ends.0, slot),
        }),
{
    match w {
        Where::Head => (slot, ends.1),
        Where::Tail => (ends.0, slot),
    }
}

/// The links of `nodes` chain the slots of `order` from head to tail, and `ends`
/// holds the first and the last of them.
spec fn links_ok<T>(nodes: Seq<Node<T>>, order: Seq<usize>, ends: Option<(usize, usize)>) -> bool {
    let n = order.len();
    &&& forall|k: int| 0 <= k < n ==> #[trigger] order[k] < nodes.len()
    &&& forall|k: int| #![trigger nodes[order[k] as int]] 0 <= k < n ==> {
        &&& nodes[order[k] as int].prev == (if k == 0 {
            None
        } else {
            Some(order[k - 1])
        })
        &&& nodes[order[k] as int].next == (if k == n - 1 {
            None
        } else {
            Some(order[k + 1])
        })
    }
    &&& ends == (if n == 0 {
        None
    } else {
        Some((order[0], order[n - 1]))
    })
}

/// `rank` inverts `order`, and together they cover every slot of `nodes`.
spec fn arranged<T>(
    nodes: Seq<Node<T>>,
    order: Seq<usize>,
    rank: Seq<int>,
    ends: Option<(usize, usize)>,
) -> bool {
    let n = nodes.len();
    &&& order.len() == n
    &&& rank.len() == n
    &&& links_ok(nodes, order, ends)
    &&& forall|k: int| 0 <= k < n ==> rank[#[trigger] order[k] as int] == k
    &&& forall|i: int| #![trigger rank[i]] 0 <= i < n ==> 0 <= rank[i] < n && order[rank[i]] == i
}

/// As `arranged`, except that slot `gap` of `nodes` belongs to no position of `order`.
spec fn arranged_with_gap<T>(
    nodes: Seq<Node<T>>,
    order: Seq<usize>,
    rank: Seq<int>,
    ends: Option<(usize, usize)>,
    gap: usize,
) -> bool {
    let n = nodes.len();
    &&& order.len() + 1 == n
    &&& rank.len() == n
    &&& gap < n
    &&& links_ok(nodes, order, ends)
    &&& forall|k: int|
        0 <= k < n - 1 ==> #[trigger] order[k] != gap && rank[order[k] as int] == k
    &&& forall|i: int|
        #![trigger rank[i]]
        0 <= i < n && i != gap ==> 0 <= rank[i] < n - 1 && order[rank[i]] == i
}

/// The data items of the slots of `order`, in that order.
spec fn items<T>(nodes: Seq<Node<T>>, order: Seq<usize>) -> Seq<T> {
    Seq::new(order.len(), |k: int| *nodes[order[k] as int].data)
}

/// After a push at the tail of a non-empty arrangement: the old tail links to the
/// new slot `n`, which links back to it.
proof fn lemma_push_back_arranged<T>(
    nodes: Seq<Node<T>>,
    order: Seq<usize>,
    rank: Seq<int>,
    ends: (usize, usize),
    new_nodes: Seq<Node<T>>,
    s: usize,
)
    requires
        arranged(nodes, order, rank, Some(ends)),
        s == nodes.len(),
        new_nodes.len() == nodes.len() + 1,
        forall|i: int|
            0 <= i < nodes.len() && i != ends.1 ==> #[trigger] new_nodes[i] == nodes[i],
        new_nodes[ends.1 as int].data == nodes[ends.1 as int].data,
        new_nodes[ends.1 as int].prev == nodes[ends.1 as int].prev,
        new_nodes[ends.1 as int].next == Some(s),
        new_nodes[nodes.len() as int].prev == Some(ends.1),
        new_nodes[nodes.len() as int].next is None,
    ensures
        arranged(
            new_nodes,
            order.push(s),
            rank.push(nodes.len() as int),
            Some((ends.0, s)),
        ),
        items(new_nodes, order.push(s)) == items(nodes, order).push(
            *new_nodes[nodes.len() as int].data,
        ),
{
    let n = nodes.len() as int;
    let order2 = order.push(s);
    let rank2 = rank.push(n);
    assert(order[n - 1] == ends.1);
    assert forall|k: int| #![trigger new_nodes[order2[k] as int]] 0 <= k < n + 1 implies {
        &&& new_nodes[order2[k] as int].prev == (if k == 0 {
            None
        } else {
            Some(order2[k - 1])
        })
        &&& new_nodes[order2[k] as int].next == (if k == n {
            None
        } else {
            Some(order2[k + 1])
        })
    } by {
        if k < n - 1 {
            assert(order2[k] == order[k]);
            assert(rank[order[k] as int] == k);
            assert(new_nodes[order[k] as int] == nodes[order[k] as int]);
            assert(order2[k + 1] == order[k + 1]);
            if k > 0 {
                assert(order2[k - 1] == order[k - 1]);
            }
        } else if k == n - 1 {
            assert(order2[k] == order[k]);
            assert(nodes[order[k] as int].prev == new_nodes[order[k] as int].prev);
            if k > 0 {
                assert(order2[k - 1] == order[k - 1]);
            }
        }
    }
    assert forall|k: int| 0 <= k < n + 1 implies rank2[#[trigger] order2[k] as int] == k by {
        if k < n {
            assert(order2[k] == order[k]);
        }
    }
    assert forall|i: int| #![trigger rank2[i]] 0 <= i < n + 1 implies 0 <= rank2[i] < n + 1
        && order2[rank2[i]] == i by {
        if i < n {
            assert(rank[i] < n);
        }
    }
    assert forall|k: int| 0 <= k < n implies new_nodes[(#[trigger] order[k]) as int].data
        == nodes[order[k] as int].data by {}
    assert(items(new_nodes, order2) =~= items(nodes, order).push(*new_nodes[n].data));
}

/// After a push at the head of a non-empty arrangement: the old head links to
/// the new slot `n`, which links back to it.
proof fn lemma_push_front_arranged<T>(
    nodes: Seq<Node<T>>,
    order: Seq<usize>,
    rank: Seq<int>,
    ends: (usize, usize),
    new_nodes: Seq<Node<T>>,
    s: usize,
)
    requires
        arranged(nodes, order, rank, Some(ends)),
        s == nodes.len(),
        new_nodes.len() == nodes.len() + 1,
        forall|i: int|
            0 <= i < nodes.len() && i != ends.0 ==> #[trigger] new_nodes[i] == nodes[i],
        new_nodes[ends.0 as int].data == nodes[ends.0 as int].data,
        new_nodes[ends.0 as int].next == nodes[ends.0 as int].next,
        new_nodes[ends.0 as int].prev == Some(s),
        new_nodes[nodes.len() as int].next == Some(ends.0),
        new_nodes[nodes.len() as int].prev is None,
    ensures
        arranged(
            new_nodes,
            seq![s] + order,
            Seq::new(nodes.len() + 1, |i: int| if i < nodes.len() { rank[i] + 1 } else { 0 }),
            Some((s, ends.1)),
        ),
        items(new_nodes, seq![s] + order) == seq![
            *new_nodes[nodes.len() as int].data,
        ] + items(nodes, order),
{
    let n = nodes.len() as int;
    let order2 = seq![s] + order;
    let rank2 = Seq::new((n + 1) as nat, |i: int| if i < n { rank[i] + 1 } else { 0 });
    assert(order[0] == ends.0);
    assert forall|k: int| #![trigger new_nodes[order2[k] as int]] 0 <= k < n + 1 implies {
        &&& new_nodes[order2[k] as int].prev == (if k == 0 {
            None
        } else {
            Some(order2[k - 1])
        })
        &&& new_nodes[order2[k] as int].next == (if k == n {
            None
        } else {
            Some(order2[k + 1])
        })
    } by {
        if k > 1 {
            assert(order2[k] == order[k - 1]);
            assert(rank[order[k - 1] as int] == k - 1);
            assert(new_nodes[order[k - 1] as int] == nodes[order[k - 1] as int]);
            assert(order2[k - 1] == order[k - 2]);
            if k < n {
                assert(order2[k + 1] == order[k]);
            }
        } else if k == 1 {
            assert(order2[k] == order[0]);
            assert(nodes[order[0] as int].next == new_nodes[order[0] as int].next);
            if k < n {
                assert(order2[k + 1] == order[k]);
            }
        }
    }
    assert forall|k: int| 0 <= k < n + 1 implies rank2[#[trigger] order2[k] as int] == k by {
        if k > 0 {
            assert(order2[k] == order[k - 1]);
        }
    }
    assert forall|i: int| #![trigger rank2[i]] 0 <= i < n + 1 implies 0 <= rank2[i] < n + 1
        && order2[rank2[i]] == i by {
        if i < n {
            assert(rank[i] < n);
        }
    }
    assert forall|k: int| 0 <= k < n implies new_nodes[(#[trigger] order[k]) as int].data
        == nodes[order[k] as int].data by {}
    assert(items(new_nodes, order2) =~= seq![*new_nodes[n].data] + items(nodes, order));
}

/// Removing the end node at `w` from the chain leaves its slot as a gap; its
/// inner neighbour, if any, becomes the new end.
proof fn lemma_unlink_arranged<T>(
    nodes: Seq<Node<T>>,
    order: Seq<usize>,
    rank: Seq<int>,
    ends: (usize, usize),
    w: Where,
    new_nodes: Seq<Node<T>>,
)
    requires
        arranged(nodes, order, rank, Some(ends)),
        new_nodes.len() == nodes.len(),
        ({
            let n = nodes.len() as int;
            let nb = (match w {
                Where::Head => order[1],
                Where::Tail => order[n - 2],
            }) as int;
            &&& forall|i: int| 0 <= i < n && (n == 1 || i != nb) ==> #[trigger] new_nodes[i] == nodes[i]
            &&& n > 1 ==> {
                &&& new_nodes[nb].data == nodes[nb].data
                &&& new_nodes[nb].prev == (match w {
                    Where::Head => None,
                    Where::Tail => nodes[nb].prev,
                })
                &&& new_nodes[nb].next == (match w {
                    Where::Head => nodes[nb].next,
                    Where::Tail => None,
                })
            }
        }),
    ensures
        ({
            let n = nodes.len() as int;
            let order2 = match w {
                Where::Head => order.skip(1),
                Where::Tail => order.drop_last(),
            };
            let rank2 = match w {
                Where::Head => Seq::new(n as nat, |i: int| rank[i] - 1),
                Where::Tail => rank,
            };
            let ends2 = if n == 1 {
                None
            } else {
                match w {
                    Where::Head => Some((order[1], ends.1)),
                    Where::Tail => Some((ends.0, order[n - 2])),
                }
            };
            let gap = match w {
                Where::Head => ends.0,
                Where::Tail => ends.1,
            };
            &&& arranged_with_gap(new_nodes, order2, rank2, ends2, gap)
            &&& items(new_nodes, order2) == match w {
                Where::Head => items(nodes, order).skip(1),
                Where::Tail => items(nodes, order).drop_last(),
            }
        }),
{
    let n = nodes.len() as int;
    assert(order[0] == ends.0 && order[n - 1] == ends.1);
    match w {
        Where::Head => {
            let order2 = order.skip(1);
            let rank2 = Seq::new(n as nat, |i: int| rank[i] - 1);
            assert forall|k: int| #![trigger new_nodes[order2[k] as int]] 0 <= k < n - 1 implies {
                &&& new_nodes[order2[k] as int].prev == (if k == 0 {
                    None
                } else {
                    Some(order2[k - 1])
                })
                &&& new_nodes[order2[k] as int].next == (if k == n - 2 {
                    None
                } else {
                    Some(order2[k + 1])
                })
            } by {
                assert(order2[k] == order[k + 1]);
                assert(rank[order[k + 1] as int] == k + 1);
                if k > 0 {
                    assert(new_nodes[order[k + 1] as int] == nodes[order[k + 1] as int]);
                }
            }
            assert forall|k: int| 0 <= k < n - 1 implies #[trigger] order2[k] != ends.0
                && rank2[order2[k] as int] == k by {
                assert(order2[k] == order[k + 1]);
                assert(rank[order[k + 1] as int] == k + 1);
            }
            assert forall|i: int| #![trigger rank2[i]] 0 <= i < n && i != ends.0 implies 0
                <= rank2[i] < n - 1 && order2[rank2[i]] == i by {
                assert(rank[i] != 0);
            }
            assert forall|k: int| 0 <= k < n - 1 implies new_nodes[(#[trigger] order2[k]) as int].data
                == nodes[order2[k] as int].data by {
                assert(order2[k] == order[k + 1]);
            }
            assert(items(new_nodes, order2) =~= items(nodes, order).skip(1));
        },
        Where::Tail => {
            let order2 = order.drop_last();
            assert forall|k: int| #![trigger new_nodes[order2[k] as int]] 0 <= k < n - 1 implies {
                &&& new_nodes[order2[k] as int].prev == (if k == 0 {
                    None
                } else {
                    Some(order2[k - 1])
                })
                &&& new_nodes[order2[k] as int].next == (if k == n - 2 {
                    None
                } else {
                    Some(order2[k + 1])
                })
            } by {
                assert(order2[k] == order[k]);
                assert(rank[order[k] as int] == k);
                if k < n - 2 {
                    assert(new_nodes[order[k] as int] == nodes[order[k] as int]);
                }
            }
            assert forall|k: int| 0 <= k < n - 1 implies #[trigger] order2[k] != ends.1
                && rank[order2[k] as int] == k by {
                assert(order2[k] == order[k]);
                assert(rank[order[k] as int] == k);
            }
            assert forall|i: int| #![trigger rank[i]] 0 <= i < n && i != ends.1 implies 0
                <= rank[i] < n - 1 && order2[rank[i]] == i by {}
            assert forall|k: int| 0 <= k < n - 1 implies new_nodes[(#[trigger] order2[k]) as int].data
                == nodes[order2[k] as int].data by {
                assert(order2[k] == order[k]);
            }
            assert(items(new_nodes, order2) =~= items(nodes, order).drop_last());
        },
    }
}

/// Moving the node of the last slot into the gap, once its neighbours and the
/// ends point to the gap, gives a full arrangement of one slot fewer.
proof fn lemma_fill_gap_arranged<T>(
    nodes: Seq<Node<T>>,
    order: Seq<usize>,
    rank: Seq<int>,
    ends: Option<(usize, usize)>,
    gap: usize,
    mid: Seq<Node<T>>,
    ends2: Option<(usize, usize)>,
)
    requires
        arranged_with_gap(nodes, order, rank, ends, gap),
        gap < nodes.len() - 1,
        mid.len() == nodes.len(),
        ({
            let last = nodes.len() - 1;
            let a = nodes[last].prev;
            let b = nodes[last].next;
            &&& forall|i: int|
                0 <= i < nodes.len() && a != Some(i as usize) && b != Some(i as usize)
                    ==> #[trigger] mid[i] == nodes[i]
            &&& a matches Some(x) ==> mid[x as int].data == nodes[x as int].data && mid[x as int].prev
                == nodes[x as int].prev && mid[x as int].next == Some(gap)
            &&& b matches Some(y) ==> mid[y as int].data == nodes[y as int].data && mid[y as int].next
                == nodes[y as int].next && mid[y as int].prev == Some(gap)
            &&& ends matches Some(e) && ends2 == Some(
                (
                    if a is None {
                        gap
                    } else {
                        e.0
                    },
                    if b is None {
                        gap
                    } else {
                        e.1
                    },
                ),
            )
        }),
    ensures
        ({
            let last = nodes.len() - 1;
            let p = rank[last];
            let new_nodes = mid.update(gap as int, mid[last]).drop_last();
            let order2 = order.update(p, gap);
            let rank2 = rank.update(gap as int, p).drop_last();
            &&& arranged(new_nodes, order2, rank2, ends2)
            &&& items(new_nodes, order2) == items(nodes, order)
        }),
{
    let n = nodes.len() - 1;
    let last = n;
    let p = rank[last];
    let new_nodes = mid.update(gap as int, mid[last]).drop_last();
    let order2 = order.update(p, gap);
    let rank2 = rank.update(gap as int, p).drop_last();
    assert(order[p] == last);
    assert(mid[last] == nodes[last]);
    assert forall|k: int| 0 <= k < n implies #[trigger] order2[k] < new_nodes.len() by {
        if k != p {
            assert(rank[order[k] as int] == k);
        }
    }
    assert forall|k: int| #![trigger new_nodes[order2[k] as int]] 0 <= k < n implies {
        &&& new_nodes[order2[k] as int].prev == (if k == 0 {
            None
        } else {
            Some(order2[k - 1])
        })
        &&& new_nodes[order2[k] as int].next == (if k == n - 1 {
            None
        } else {
            Some(order2[k + 1])
        })
    } by {
        if k == p {
            assert(nodes[order[k] as int] == nodes[last]);
            if k > 0 {
                assert(order2[k - 1] == order[k - 1]);
            }
            if k < n - 1 {
                assert(order2[k + 1] == order[k + 1]);
            }
        } else {
            let o = order[k];
            assert(rank[o as int] == k);
            assert(o != gap && o != last);
            assert(new_nodes[o as int] == mid[o as int]);
            if k > 0 && k - 1 != p {
                assert(order2[k - 1] == order[k - 1]);
            }
            if k < n - 1 && k + 1 != p {
                assert(order2[k + 1] == order[k + 1]);
            }
            if k == p - 1 {
                assert(nodes[last].prev == Some(o));
            } else if k == p + 1 {
                assert(nodes[last].next == Some(o));
            } else {
                if nodes[last].prev == Some(o) {
                    assert(rank[o as int] == p - 1);
                }
                if nodes[last].next == Some(o) {
                    assert(rank[o as int] == p + 1);
                }
                assert(mid[o as int] == nodes[o as int]);
            }
        }
    }
    assert forall|k: int| 0 <= k < n implies rank2[#[trigger] order2[k] as int] == k by {
        if k != p {
            assert(rank[order[k] as int] == k);
        }
    }
    assert forall|i: int| #![trigger rank2[i]] 0 <= i < n implies 0 <= rank2[i] < n
        && order2[rank2[i]] == i by {
        if i != gap {
            assert(rank[i] < n);
            assert(order[rank[i]] == i);
        }
    }
    if n > 0 {
        if p == 0 {
            assert(nodes[last].prev is None);
        } else {
            assert(nodes[last].prev is Some);
        }
        if p == n - 1 {
            assert(nodes[last].next is None);
        } else {
            assert(nodes[last].next is Some);
        }
    }
    assert forall|k: int| 0 <= k < n implies new_nodes[(#[trigger] order2[k]) as int].data
        == nodes[order[k] as int].data by {
        if k != p {
            let o = order[k];
            assert(rank[o as int] == k);
            assert(new_nodes[o as int] == mid[o as int]);
        }
    }
    assert(items(new_nodes, order2) =~= items(nodes, order));
}

/// A doubly linked list. Its nodes are kept in an arena and refer to their
/// neighbours by slot index; the data items cannot be changed once added.
pub struct LinkedList<T> {
    nodes: Vec<Node<T>>,
    head_and_tail: Option<(usize, usize)>,
    /// The occupied slots, from head to tail.
    order: Ghost<Seq<usize>>,
    /// For each slot, its position in `order`.
    rank: Ghost<Seq<int>>,
}

impl<T> View for LinkedList<T> {
    type V = Seq<T>;

    /// The data items from head to tail.
    closed spec fn view(&self) -> Seq<T> {
        items(self.nodes@, self.order@)
    }
}

impl<T> LinkedList<T> {
    /// The links chain every node of the arena from head to tail.
    pub closed spec fn wf(&self) -> bool {
        arranged(self.nodes@, self.order@, self.rank@, self.head_and_tail)
    }

    /// Creates an empty LinkedList.
    pub fn new() -> (r: LinkedList<T>)
        ensures
            r.wf(),
            r@ == Seq::<T>::empty(),
    {
        LinkedList {
            nodes: Vec::new(),
            head_and_tail: None,
            order: Ghost(Seq::empty()),
            rank: Ghost(Seq::empty()),
        }
    }

    /// Adds a node at end `w`: the old end, if any, and the new node link to
    /// each other, and the new node becomes the end.
    fn push_helper(&mut self, data: T, w: Where)
        requires
            old(self).wf(),
        ensures
            final(self).wf(),
            final(self)@ == (match w {
                Where::Head => seq![data] + old(self)@,
                Where::Tail => old(self)@.push(data),
            }),
    {
        let s = self.nodes.len();
        let mut node = Node::new(data);
        match self.head_and_tail {
            None => {
                self.nodes.push(node);
                self.head_and_tail = Some((s, s));
                proof {
                    self.order@ = seq![s];
                    self.rank@ = seq![0int];
                }
                assert(self@ =~= seq![data]);
            },
            Some(ends) => {
                let e = end(ends, w);
                node.set_link(w.opposite(), Some(e));
                self.nodes[e].set_link(w, Some(s));
                self.nodes.push(node);
                self.head_and_tail = Some(with_end(ends, w, s));
                proof {
                    let old_rank = self.rank@;
                    let old_order = self.order@;
                    match w {
                        Where::Head => {
                            lemma_push_front_arranged(
                                old(self).nodes@,
                                old_order,
                                old_rank,
                                ends,
                                self.nodes@,
                                s,
                            );
                            self.order@ = seq![s] + old_order;
                            self.rank@ = Seq::new(
                                (s + 1) as nat,
                                |i: int| if i < s { old_rank[i] + 1 } else { 0 },
                            );
                        },
                        Where::Tail => {
                            lemma_push_back_arranged(
                                old(self).nodes@,
                                old_order,
                                old_rank,
                                ends,
                                self.nodes@,
                                s,
                            );
                            self.order@ = old_order.push(s);
                            self.rank@ = old_rank.push(s as int);
                        },
                    }
                }
            },
        }
    }

    /// Moves the node of the last arena slot into slot `gap` and shrinks the
    /// arena; returns what `gap` held.
    fn fill_gap(&mut self, gap: usize) -> (r: Node<T>)
        requires
            arranged_with_gap(
                old(self).nodes@,
                old(self).order@,
                old(self).rank@,
                old(self).head_and_tail,
                gap,
            ),
        ensures
            final(self).wf(),
            final(self)@ == items(old(self).nodes@, old(self).order@),
            r == old(self).nodes@[gap as int],
    {
        let last = self.nodes.len() - 1;
        if gap < last {
            let prev = self.nodes[last].prev;
            let next = self.nodes[last].next;
            let ghost p = self.rank@[last as int];
            proof {
                assert(self.order@[p] == last);
            }
            if let Some(ends) = self.head_and_tail {
                let mut head = ends.0;
                let mut tail = ends.1;
                match prev {
                    Some(a) => self.nodes[a].set_link(Where::Tail, Some(gap)),
                    None => head = gap,
                }
                match next {
                    Some(b) => self.nodes[b].set_link(Where::Head, Some(gap)),
                    None => tail = gap,
                }
                self.head_and_tail = Some((head, tail));
            }
            let ghost mid = self.nodes@;
            let r = self.nodes.swap_remove(gap);
            proof {
                lemma_fill_gap_arranged(
                    old(self).nodes@,
                    old(self).order@,
                    old(self).rank@,
                    old(self).head_and_tail,
                    gap,
                    mid,
                    self.head_and_tail,
                );
                self.order@ = self.order@.update(p, gap);
                self.rank@ = self.rank@.update(gap as int, p).drop_last();
            }
            r
        } else {
            let r = self.nodes.swap_remove(gap);
            proof {
                self.rank@ = self.rank@.drop_last();
                assert forall|k: int| 0 <= k < self.order@.len() implies #[trigger] self.order@[k]
                    < self.nodes@.len() by {
                    assert(self.rank@[self.order@[k] as int] == k);
                }
                assert(self.nodes@ =~= old(self).nodes@.drop_last());
                assert(self@ =~= items(old(self).nodes@, old(self).order@));
            }
            r
        }
    }

    /// Removes the node at end `w`: its inner neighbour, if any, becomes the
    /// end; the node of the last arena slot then moves into the freed slot.
    fn pop_helper(&mut self, w: Where) -> (r: Option<Rc<T>>)
        requires
            old(self).wf(),
        ensures
            final(self).wf(),
            old(self)@.len() == 0 ==> r is None && final(self)@ == old(self)@,
            old(self)@.len() > 0 ==> match w {
                Where::Head => (r matches Some(v) && *v == old(self)@.first() && final(self)@
                    == old(self)@.skip(1)),
                Where::Tail => (r matches Some(v) && *v == old(self)@.last() && final(self)@
                    == old(self)@.drop_last()),
            },
    {
        match self.head_and_tail {
            None => None,
            Some(ends) => {
                let e = end(ends, w);
                let inner = self.nodes[e].get_link(w.opposite());
                let ghost n = self.nodes@.len() as int;
                proof {
                    assert(self.order@[0] == ends.0 && self.order@[n - 1] == ends.1);
                    assert(self.nodes@[self.order@[0] as int] == self.nodes@[ends.0 as int]);
                    assert(self.nodes@[self.order@[n - 1] as int] == self.nodes@[ends.1 as int]);
                }
                match inner {
                    None => self.head_and_tail = None,
                    Some(nb) => {
                        self.nodes[nb].set_link(w, None);
                        self.head_and_tail = Some(with_end(ends, w, nb));
                    },
                }
                proof {
                    lemma_unlink_arranged(
                        old(self).nodes@,
                        old(self).order@,
                        old(self).rank@,
                        ends,
                        w,
                        self.nodes@,
                    );
                    match w {
                        Where::Head => {
                            let old_rank = self.rank@;
                            self.order@ = self.order@.skip(1);
                            self.rank@ = Seq::new(n as nat, |i: int| old_rank[i] - 1);
                        },
                        Where::Tail => {
                            self.order@ = self.order@.drop_last();
                        },
                    }
                }
                let node = self.fill_gap(e);
                Some(node.data)
            },
        }
    }

    /// Pushes the data item to the end of the LinkedList.
    pub fn push(&mut self, data: T)
        requires
            old(self).wf(),
        ensures
            final(self).wf(),
            final(self)@ == old(self)@.push(data),
    {
        self.push_helper(data, Where::Tail)
    }

    /// Pushes the data item to the front of the LinkedList.
    pub fn push_front(&mut self, data: T)
        requires
            old(self).wf(),
        ensures
            final(self).wf(),
            final(self)@ == seq![data] + old(self)@,
    {
        self.push_helper(data, Where::Head)
    }

    /// Removes the last node from the LinkedList. Returns Some containing the
    /// value from the removed node, otherwise None.
    pub fn pop(&mut self) -> (r: Option<Rc<T>>)
        requires
            old(self).wf(),
        ensures
            final(self).wf(),
            old(self)@.len() == 0 ==> r is None && final(self)@ == old(self)@,
            old(self)@.len() > 0 ==> (r matches Some(v) && *v == old(self)@.last() && final(self)@
                == old(self)@.drop_last()),
    {
        self.pop_helper(Where::Tail)
    }

    /// Removes the first node from the LinkedList. Returns Some containing the
    /// value from the removed node, otherwise None.
    pub fn pop_front(&mut self) -> (r: Option<Rc<T>>)
        requires
            old(self).wf(),
        ensures
            final(self).wf(),
            old(self)@.len() == 0 ==> r is None && final(self)@ == old(self)@,
            old(self)@.len() > 0 ==> (r matches Some(v) && *v == old(self)@.first() && final(self)@
                == old(self)@.skip(1)),
    {
        self.pop_helper(Where::Head)
    }

    /// Returns the number of items contained in the LinkedList.
    pub fn len(&self) -> (r: usize)
        requires
            self.wf(),
        ensures
            r == self@.len(),
    {
        self.nodes.len()
    }

    /// Checks if the LinkedList is empty.
    pub fn is_empty(&self) -> (r: bool)
        requires
            self.wf(),
        ensures
            r == (self@.len() == 0),
    {
        self.nodes.len() == 0
    }

    /// Creates an iterator over the LinkedList, positioned at its head.
    pub fn iter(&self) -> (r: LinkedListIter<'_, T>)
        requires
            self.wf(),
        ensures
            r.wf(),
            r@ == self@,
    {
        let cursor = match self.head_and_tail {
            Some(ends) => Some(ends.0),
            None => None,
        };
        let r = LinkedListIter::new(self, cursor, Ghost(0));
        proof {
            assert(self@.skip(0) =~= self@);
        }
        r
    }

    /// Turns the LinkedList into an iterator that hands out its items from
    /// head to tail.
    pub fn into_iter(self) -> (r: LinkedListIntoIter<T>)
        requires
            self.wf(),
        ensures
            r.wf(),
            r@ == self@,
    {
        LinkedListIntoIter { list: self }
    }
}

impl<T> Default for LinkedList<T> {
    fn default() -> (r: Self)
        ensures
            r.wf(),
            r@ == Seq::<T>::empty(),
    {
        Self::new()
    }
}

/// Relies on `Rc::clone`: the new handle points to the same allocation, so it
/// holds the same value.
#[verifier::external_body]
fn share<T>(rc: &Rc<T>) -> (r: Rc<T>)
    ensures
        *r == **rc,
{
    Rc::clone(rc)
}

/// An iterator over a borrowed LinkedList that yields shared handles to its
/// data items, from head to tail. Once it has returned None it keeps doing so.
/// The borrow keeps the list from being changed while the iterator lives.
pub struct LinkedListIter<'a, T> {
    list: &'a LinkedList<T>,
    cursor: Option<usize>,
    /// How many items have been yielded so far.
    pos: Ghost<int>,
}

impl<'a, T> View for LinkedListIter<'a, T> {
    type V = Seq<T>;

    /// The items still to come.
    closed spec fn view(&self) -> Seq<T> {
        self.list@.skip(self.pos@)
    }
}

impl<'a, T> LinkedListIter<'a, T> {
    /// The cursor sits on the slot of the next item, or is unset past the tail.
    pub closed spec fn wf(&self) -> bool {
        &&& self.list.wf()
        &&& 0 <= self.pos@ <= self.list@.len()
        &&& self.cursor == if self.pos@ < self.list@.len() {
            Some(self.list.order@[self.pos@])
        } else {
            None
        }
    }

    fn new(list: &'a LinkedList<T>, cursor: Option<usize>, pos: Ghost<int>) -> (r: LinkedListIter<
        'a,
        T,
    >)
        ensures
            r.list == list,
            r.cursor == cursor,
            r.pos == pos,
    {
        LinkedListIter { list, cursor, pos }
    }

    /// Yields the next item, or None once the tail has been passed.
    pub fn next(&mut self) -> (r: Option<Rc<T>>)
        requires
            old(self).wf(),
        ensures
            final(self).wf(),
            old(self)@.len() == 0 ==> r is None && final(self)@ == old(self)@,
            old(self)@.len() > 0 ==> (r matches Some(v) && *v == old(self)@[0] && final(self)@
                == old(self)@.skip(1)),
    {
        match self.cursor {
            None => None,
            Some(c) => {
                let node = &self.list.nodes[c];
                let data = share(&node.data);
                self.cursor = node.next;
                proof {
                    let k = self.pos@;
                    assert(self.list.nodes@[self.list.order@[k] as int] == *node);
                    self.pos@ = k + 1;
                    assert(self.list@.skip(k + 1) =~= self.list@.skip(k).skip(1));
                }
                Some(data)
            },
        }
    }
}

/// An iterator that owns a LinkedList and hands out its items from head to tail.
pub struct LinkedListIntoIter<T> {
    list: LinkedList<T>,
}

impl<T> View for LinkedListIntoIter<T> {
    type V = Seq<T>;

    /// The items still to come.
    closed spec fn view(&self) -> Seq<T> {
        self.list@
    }
}

impl<T> LinkedListIntoIter<T> {
    /// The list it owns is well formed.
    pub closed spec fn wf(&self) -> bool {
        self.list.wf()
    }

    /// Yields the next item, or None once the list is drained.
    pub fn next(&mut self) -> (r: Option<Rc<T>>)
        requires
            old(self).wf(),
        ensures
            final(self).wf(),
            old(self)@.len() == 0 ==> r is None && final(self)@ == old(self)@,
            old(self)@.len() > 0 ==> (r matches Some(v) && *v == old(self)@[0] && final(self)@
                == old(self)@.skip(1)),
    {
        self.list.pop_front()
    }
}

} // verus!
