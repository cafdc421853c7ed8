//! A binary heap of search nodes: the node of least score leaves first, the
//! one of least index among nodes of equal score.
use vstd::multiset::Multiset;
use vstd::prelude::*;

verus! {

/// A queued search node: a total-order key of its score, and its cell.
#[derive(Clone, Copy, PartialEq, Eq, Structural, Debug)]
pub struct Entry {
    pub key: i64,
    pub index: usize,
}

/// Whether `a` leaves the queue no later than `b`.
pub open spec fn no_later(a: Entry, b: Entry) -> bool {
    a.key < b.key || (a.key == b.key && a.index <= b.index)
}

/// Whether `e` is the next node to leave a queue that holds `m`.
pub open spec fn leads(m: Multiset<Entry>, e: Entry) -> bool {
    &&& m.count(e) > 0
    &&& forall|x: Entry| m.count(x) > 0 ==> #[trigger] no_later(e, x)
}

/// At most one node is next.
pub proof fn lemma_leader_unique(m: Multiset<Entry>, a: Entry, b: Entry)
    requires
        leads(m, a),
        leads(m, b),
    ensures
        a == b,
{
    assert(no_later(a, b));
    assert(no_later(b, a));
}

/// The heap itself.
pub struct Queue {
    entries: Vec<Entry>,
}

spec fn ordered_at(h: Seq<Entry>, j: int) -> bool {
    no_later(h[(j - 1) / 2], h[j])
}

proof fn lemma_root_leads(h: Seq<Entry>, j: int)
    requires
        forall|i: int| 1 <= i < h.len() ==> #[trigger] ordered_at(h, i),
        0 <= j < h.len(),
    ensures
        no_later(h[0], h[j]),
    decreases j,
{
    if j > 0 {
        assert(ordered_at(h, j));
        lemma_root_leads(h, (j - 1) / 2);
    }
}

proof fn lemma_swap(h: Seq<Entry>, i: int, j: int)
    requires
        0 <= i < h.len(),
        0 <= j < h.len(),
    ensures
        h.update(i, h[j]).update(j, h[i]).to_multiset() == h.to_multiset(),
{
    vstd::seq_lib::to_multiset_update(h, i, h[j]);
    vstd::seq_lib::to_multiset_update(h.update(i, h[j]), j, h[i]);
    h.to_multiset_ensures();
    assert(h.to_multiset().count(h[i]) >= 1);
    assert(h.update(i, h[j]).update(j, h[i]).to_multiset() =~= h.to_multiset());
}

impl View for Queue {
    type V = Multiset<Entry>;

    closed spec fn view(&self) -> Multiset<Entry> {
        self.entries@.to_multiset()
    }
}

impl Queue {
    /// Every node leaves no earlier than its parent.
    pub closed spec fn wf(&self) -> bool {
        forall|j: int| 1 <= j < self.entries@.len() ==> #[trigger] ordered_at(self.entries@, j)
    }

    /// Number of queued nodes.
    pub closed spec fn length(&self) -> nat {
        self.entries@.len()
    }

    /// An empty queue.
    pub fn new() -> (q: Queue)
        ensures
            q.wf(),
            q@ == Multiset::<Entry>::empty(),
            q.length() == 0,
    {
        let q: Queue = Queue { entries: Vec::new() };
        proof {
            q.entries@.to_multiset_ensures();
            assert(q@ =~= Multiset::<Entry>::empty());
        }
        q
    }

    /// Forgets every node.
    pub fn clear(&mut self)
        ensures
            final(self).wf(),
            final(self)@ == Multiset::<Entry>::empty(),
            final(self).length() == 0,
    {
        self.entries.clear();
        proof {
            self.entries@.to_multiset_ensures();
            assert(self@ =~= Multiset::<Entry>::empty());
        }
    }

    fn exchange(&mut self, i: usize, j: usize)
        requires
            i < old(self).entries@.len(),
            j < old(self).entries@.len(),
        ensures
            final(self).entries@ == old(self).entries@.update(
                i as int,
                old(self).entries@[j as int],
            ).update(j as int, old(self).entries@[i as int]),
            final(self)@ == old(self)@,
    {
        proof {
            lemma_swap(self.entries@, i as int, j as int);
        }
        let a: Entry = self.entries[i];
        let b: Entry = self.entries[j];
        self.entries.set(i, b);
        self.entries.set(j, a);
    }

    /// Adds a node.
    pub fn push(&mut self, entry: Entry)
        requires
            old(self).wf(),
        ensures
            final(self).wf(),
            final(self)@ == old(self)@.insert(entry),
            final(self).length() == old(self).length() + 1,
    {
        let ghost before: Multiset<Entry> = self@;
        let ghost h0: Seq<Entry> = self.entries@;
        proof {
            h0.to_multiset_ensures();
        }
        self.entries.push(entry);
        let mut i: usize = self.entries.len() - 1;
        proof {
            assert forall|j: int| 1 <= j < self.entries@.len() && j != i implies #[trigger] ordered_at(
                self.entries@,
                j,
            ) by {
                assert(ordered_at(h0, j));
            }
        }
        let ghost count: nat = self.entries@.len();
        while i > 0
            invariant_except_break
                i < self.entries@.len(),
                forall|j: int|
                    1 <= j < self.entries@.len() && j != i ==> #[trigger] ordered_at(
                        self.entries@,
                        j,
                    ),
                forall|j: int|
                    #![trigger self.entries@[j]]
                    1 <= j < self.entries@.len() && (j - 1) / 2 == i && i > 0 ==> no_later(
                        self.entries@[(i - 1) / 2],
                        self.entries@[j],
                    ),
            invariant
                self@ == before.insert(entry),
                self.entries@.len() == count,
            ensures
                self.wf(),
            decreases i,
        {
            let parent: usize = (i - 1) / 2;
            let a: Entry = self.entries[parent];
            let b: Entry = self.entries[i];
            if a.key < b.key || (a.key == b.key && a.index <= b.index) {
                assert(ordered_at(self.entries@, i as int));
                break;
            }
            let ghost h: Seq<Entry> = self.entries@;
            self.exchange(parent, i);
            proof {
                let g: Seq<Entry> = self.entries@;
                assert forall|j: int| 1 <= j < g.len() && j != parent implies #[trigger] ordered_at(
                    g,
                    j,
                ) by {
                    if j != i {
                        assert(ordered_at(h, j));
                        let _ = h[j];
                    }
                }
                assert forall|j: int|
                    #![trigger g[j]]
                    1 <= j < g.len() && (j - 1) / 2 == parent && parent > 0 implies no_later(
                    g[(parent - 1) / 2],
                    g[j],
                ) by {
                    assert(ordered_at(h, parent as int));
                    if j != i {
                        assert(ordered_at(h, j));
                    }
                }
            }
            i = parent;
        }
    }

    /// Removes the node that leaves first.
    pub fn pop(&mut self) -> (r: Option<Entry>)
        requires
            old(self).wf(),
        ensures
            final(self).wf(),
            match r {
                None => {
                    &&& old(self)@ == Multiset::<Entry>::empty()
                    &&& final(self)@ == old(self)@
                    &&& old(self).length() == 0
                },
                Some(e) => {
                    &&& leads(old(self)@, e)
                    &&& final(self)@ == old(self)@.remove(e)
                    &&& final(self).length() + 1 == old(self).length()
                },
            },
    {
        let ghost h0: Seq<Entry> = self.entries@;
        proof {
            h0.to_multiset_ensures();
        }
        let size: usize = self.entries.len();
        if size == 0 {
            proof {
                assert(self@ =~= Multiset::<Entry>::empty());
            }
            return None;
        }
        let top: Entry = self.entries[0];
        proof {
            assert forall|x: Entry| h0.to_multiset().count(x) > 0 implies #[trigger] no_later(
                top,
                x,
            ) by {
                assert(h0.contains(x));
                let j: int = choose|j: int| 0 <= j < h0.len() && h0[j] == x;
                lemma_root_leads(h0, j);
            }
        }
        if size > 1 {
            self.exchange(0, size - 1);
        }
        let ghost h1: Seq<Entry> = self.entries@;
        let ghost full: Multiset<Entry> = self@;
        proof {
            h1.to_multiset_ensures();
            assert(h1[h1.len() - 1] == top);
            vstd::seq_lib::to_multiset_remove(h1, h1.len() - 1);
            assert(h1.remove(h1.len() - 1) == h1.drop_last());
        }
        let _last: Option<Entry> = self.entries.pop();
        let count: usize = self.entries.len();
        proof {
            assert(self.entries@ == h1.drop_last());
            assert forall|j: int|
                1 <= j < self.entries@.len() && (j - 1) / 2 != 0 implies #[trigger] ordered_at(
                self.entries@,
                j,
            ) by {
                assert(ordered_at(h0, j));
            }
        }
        let mut i: usize = 0;
        while count / 2 > i
            invariant_except_break
                i < count || count == 0,
                forall|j: int|
                    1 <= j < self.entries@.len() && (j - 1) / 2 != i ==> #[trigger] ordered_at(
                        self.entries@,
                        j,
                    ),
                forall|j: int|
                    #![trigger self.entries@[j]]
                    1 <= j < self.entries@.len() && (j - 1) / 2 == i && i > 0 ==> no_later(
                        self.entries@[(i - 1) / 2],
                        self.entries@[j],
                    ),
            invariant
                self@ == full.remove(top),
                self.entries@.len() == count,
            ensures
                self.wf(),
            decreases count - i,
        {
            let left: usize = 2 * i + 1;
            let right: usize = left + 1;
            let mut child: usize = left;
            if right < count {
                let a: Entry = self.entries[right];
                let b: Entry = self.entries[left];
                if a.key < b.key || (a.key == b.key && a.index <= b.index) {
                    child = right;
                }
            }
            let c: Entry = self.entries[child];
            let here: Entry = self.entries[i];
            if here.key < c.key || (here.key == c.key && here.index <= c.index) {
                proof {
                    assert forall|j: int|
                        1 <= j < self.entries@.len() implies #[trigger] ordered_at(
                        self.entries@,
                        j,
                    ) by {
                        if (j - 1) / 2 == i {
                            assert(j == left || j == right);
                        }
                    }
                }
                break;
            }
            let ghost h: Seq<Entry> = self.entries@;
            self.exchange(i, child);
            proof {
                let g: Seq<Entry> = self.entries@;
                assert forall|j: int|
                    1 <= j < g.len() && (j - 1) / 2 != child implies #[trigger] ordered_at(
                    g,
                    j,
                ) by {
                    if (j - 1) / 2 == i {
                        assert(j == left || j == right);
                    } else {
                        assert(ordered_at(h, j));
                        if j == i {
                            let _ = h[child as int];
                        }
                    }
                }
                assert forall|j: int|
                    #![trigger g[j]]
                    1 <= j < g.len() && (j - 1) / 2 == child && child > 0 implies no_later(
                    g[(child - 1) / 2],
                    g[j],
                ) by {
                    assert(ordered_at(h, j));
                }
            }
            i = child;
        }
        Some(top)
    }
}

} // verus!
