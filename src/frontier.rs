use vstd::prelude::*;

verus! {

/// An entry of the frontier: a tentative distance and a node index.
pub type Entry = (u128, usize);

/// Entries are ordered by distance, then by node index.
pub open spec fn entry_le(a: Entry, b: Entry) -> bool {
    a.0 < b.0 || (a.0 == b.0 && a.1 <= b.1)
}

fn less(a: Entry, b: Entry) -> (r: bool)
    ensures
        r == !entry_le(b, a),
{
    a.0 < b.0 || (a.0 == b.0 && a.1 < b.1)
}

pub open spec fn parent(i: int) -> int {
    (i - 1) / 2
}

/// A binary min-heap of entries.
pub struct Frontier {
    items: Vec<Entry>,
}

impl Frontier {
    /// The entries held, in heap order.
    pub closed spec fn view(&self) -> Seq<Entry> {
        self.items@
    }

    pub closed spec fn wf(&self) -> bool {
        forall|i: int| 0 < i < self.items@.len() ==> entry_le(self.items@[parent(i)], #[trigger] self.items@[i])
    }

    proof fn lemma_root_min(&self, i: int)
        requires
            self.wf(),
            0 <= i < self@.len(),
        ensures
            entry_le(self@[0], self@[i]),
        decreases i,
    {
        if i > 0 {
            self.lemma_root_min(parent(i));
        }
    }

    pub fn new() -> (f: Frontier)
        ensures
            f.wf(),
            f@.len() == 0,
    {
        Frontier { items: Vec::new() }
    }

    /// Adds an entry.
    pub fn push(&mut self, x: Entry)
        requires
            old(self).wf(),
        ensures
            final(self).wf(),
            final(self)@.len() == old(self)@.len() + 1,
            forall|y: Entry| #[trigger] final(self)@.contains(y) <==> old(self)@.contains(y) || y == x,
    {
        let ghost s0 = self.items@;
        self.items.push(x);
        let mut i: usize = self.items.len() - 1;
        proof {
            assert(self.items@ =~= s0.push(x));
            assert forall|y: Entry| #[trigger] self.items@.contains(y) <==> s0.contains(y) || y == x by {
                if s0.contains(y) {
                    let k = choose|k: int| 0 <= k < s0.len() && s0[k] == y;
                    assert(self.items@[k] == y);
                }
                if y == x {
                    assert(self.items@[i as int] == y);
                }
            }
        }
        while i > 0
            invariant
                i < self.items@.len(),
                self.items@.len() == s0.len() + 1,
                forall|y: Entry| #[trigger] self.items@.contains(y) <==> s0.contains(y) || y == x,
                forall|k: int|
                    0 < k < self.items@.len() && k != i ==> entry_le(self.items@[parent(k)], #[trigger] self.items@[k]),
                forall|k: int|
                    0 < k < self.items@.len() && parent(k) == i && i > 0 ==> entry_le(
                        self.items@[parent(i as int)],
                        #[trigger] self.items@[k],
                    ),
            ensures
                self.items@.len() == s0.len() + 1,
                forall|y: Entry| #[trigger] self.items@.contains(y) <==> s0.contains(y) || y == x,
                forall|k: int| 0 < k < self.items@.len() ==> entry_le(self.items@[parent(k)], #[trigger] self.items@[k]),
            decreases i,
        {
            let p = (i - 1) / 2;
            let a = self.items[i];
            let b = self.items[p];
            if !less(a, b) {
                break;
            }
            let ghost t0 = self.items@;
            self.items.set(i, b);
            self.items.set(p, a);
            proof {
                let t1 = self.items@;
                assert(t1 =~= t0.update(i as int, b).update(p as int, a));
                assert forall|y: Entry| #[trigger] t1.contains(y) <==> t0.contains(y) by {
                    if t1.contains(y) {
                        let k = choose|k: int| 0 <= k < t1.len() && t1[k] == y;
                        if k == i {
                            assert(t0[p as int] == y);
                        } else if k == p {
                            assert(t0[i as int] == y);
                        } else {
                            assert(t0[k] == y);
                        }
                    }
                    if t0.contains(y) {
                        let k = choose|k: int| 0 <= k < t0.len() && t0[k] == y;
                        if k == i {
                            assert(t1[p as int] == y);
                        } else if k == p {
                            assert(t1[i as int] == y);
                        } else {
                            assert(t1[k] == y);
                        }
                    }
                }
                assert forall|k: int|
                    0 < k < t1.len() && k != p implies entry_le(t1[parent(k)], #[trigger] t1[k]) by {
                        if k == i {
                        } else if parent(k) == i {
                            assert(entry_le(t0[p as int], t0[k]));
                        } else if parent(k) == p {
                            assert(entry_le(t0[p as int], t0[k]));
                        } else {
                            assert(t1[k] == t0[k]);
                            if parent(k) != i && parent(k) != p {
                                assert(t1[parent(k)] == t0[parent(k)]);
                            }
                        }
                }
                assert forall|k: int|
                    0 < k < t1.len() && parent(k) == p && p > 0 implies entry_le(t1[parent(p as int)], #[trigger] t1[k]) by {
                        assert(entry_le(t0[parent(p as int)], t0[p as int]));
                        if k != i {
                            assert(entry_le(t0[p as int], t0[k]));
                        }
                }
            }
            i = p;
        }
    }

    /// Removes and returns a least entry, or returns `None` when empty.
    pub fn pop(&mut self) -> (r: Option<Entry>)
        requires
            old(self).wf(),
        ensures
            final(self).wf(),
            old(self)@.len() == 0 <==> r is None,
            r is None ==> final(self)@ == old(self)@,
            r matches Some(m) ==> {
                &&& old(self)@.contains(m)
                &&& final(self)@.len() == old(self)@.len() - 1
                &&& forall|y: Entry| #[trigger] old(self)@.contains(y) ==> entry_le(m, y)
                &&& forall|y: Entry| #[trigger] old(self)@.contains(y) && y != m ==> final(self)@.contains(y)
                &&& forall|y: Entry| #[trigger] final(self)@.contains(y) ==> old(self)@.contains(y)
            },
    {
        let n = self.items.len();
        if n == 0 {
            return None;
        }
        let ghost s0 = self.items@;
        let m = self.items[0];
        proof {
            assert forall|y: Entry| #[trigger] s0.contains(y) implies entry_le(m, y) by {
                let k = choose|k: int| 0 <= k < s0.len() && s0[k] == y;
                self.lemma_root_min(k);
            }
        }
        let last = self.items.pop().unwrap();
        if n == 1 {
            proof {
                assert forall|y: Entry| #[trigger] s0.contains(y) && y != m implies self.items@.contains(y) by {
                    let k = choose|k: int| 0 <= k < s0.len() && s0[k] == y;
                }
            }
            return Some(m);
        }
        self.items.set(0, last);
        let len = n - 1;
        proof {
            assert(self.items@ =~= s0.drop_last().update(0, last));
            assert forall|y: Entry| #[trigger] s0.contains(y) && y != m implies self.items@.contains(y) by {
                let k = choose|k: int| 0 <= k < s0.len() && s0[k] == y;
                if k == n - 1 {
                    assert(self.items@[0] == y);
                } else {
                    assert(k != 0);
                    assert(self.items@[k] == y);
                }
            }
            assert forall|y: Entry| #[trigger] self.items@.contains(y) implies s0.contains(y) by {
                let k = choose|k: int| 0 <= k < self.items@.len() && self.items@[k] == y;
                if k == 0 {
                    assert(s0[n - 1] == y);
                } else {
                    assert(s0[k] == y);
                }
            }
        }
        let mut i: usize = 0;
        loop
            invariant
                len == self.items@.len(),
                len == s0.len() - 1,
                i < len,
                forall|y: Entry| #[trigger] s0.contains(y) && y != m ==> self.items@.contains(y),
                forall|y: Entry| #[trigger] self.items@.contains(y) ==> s0.contains(y),
                forall|k: int|
                    0 < k < len && parent(k) != i ==> entry_le(self.items@[parent(k)], #[trigger] self.items@[k]),
                forall|k: int|
                    0 < k < len && parent(k) == i && i > 0 ==> entry_le(
                        self.items@[parent(i as int)],
                        #[trigger] self.items@[k],
                    ),
            ensures
                len == self.items@.len(),
                forall|y: Entry| #[trigger] s0.contains(y) && y != m ==> self.items@.contains(y),
                forall|y: Entry| #[trigger] self.items@.contains(y) ==> s0.contains(y),
                forall|k: int| 0 < k < len ==> entry_le(self.items@[parent(k)], #[trigger] self.items@[k]),
            decreases len - i,
        {
            if i > (len - 1) / 2 {
                proof {
                    assert forall|k: int| 0 < k < len implies entry_le(self.items@[parent(k)], #[trigger] self.items@[k]) by {
                        if parent(k) == i {
                            assert(k >= 2 * i + 1);
                        }
                    }
                }
                break;
            }
            let l = 2 * i + 1;
            if l >= len {
                proof {
                    assert forall|k: int| 0 < k < len implies entry_le(self.items@[parent(k)], #[trigger] self.items@[k]) by {
                        if parent(k) == i {
                            assert(k >= 2 * i + 1);
                        }
                    }
                }
                break;
            }
            let r = l + 1;
            let mut c = l;
            if r < len && less(self.items[r], self.items[l]) {
                c = r;
            }
            let a = self.items[i];
            let b = self.items[c];
            if !less(b, a) {
                proof {
                    assert forall|k: int| 0 < k < len implies entry_le(
                        self.items@[parent(k)],
                        #[trigger] self.items@[k],
                    ) by {
                        if parent(k) == i {
                            assert(k == l || k == r);
                        }
                    }
                }
                break;
            }
            let ghost t0 = self.items@;
            self.items.set(c, a);
            self.items.set(i, b);
            proof {
                let t1 = self.items@;
                assert(t1 =~= t0.update(c as int, a).update(i as int, b));
                assert forall|y: Entry| #[trigger] t1.contains(y) <==> t0.contains(y) by {
                    if t1.contains(y) {
                        let k = choose|k: int| 0 <= k < t1.len() && t1[k] == y;
                        if k == i {
                            assert(t0[c as int] == y);
                        } else if k == c {
                            assert(t0[i as int] == y);
                        } else {
                            assert(t0[k] == y);
                        }
                    }
                    if t0.contains(y) {
                        let k = choose|k: int| 0 <= k < t0.len() && t0[k] == y;
                        if k == i {
                            assert(t1[c as int] == y);
                        } else if k == c {
                            assert(t1[i as int] == y);
                        } else {
                            assert(t1[k] == y);
                        }
                    }
                }
                assert(parent(c as int) == i);
                assert forall|k: int|
                    0 < k < len && parent(k) != c implies entry_le(t1[parent(k)], #[trigger] t1[k]) by {
                        if parent(k) == i {
                            assert(k == l || k == r);
                        } else if k == i {
                            assert(entry_le(t0[parent(i as int)], t0[c as int]));
                        } else {
                            assert(t1[k] == t0[k]);
                        }
                }
                assert forall|k: int|
                    0 < k < len && parent(k) == c implies entry_le(t1[parent(c as int)], #[trigger] t1[k]) by {
                        assert(entry_le(t0[c as int], t0[k]));
                }
            }
            i = c;
        }
        Some(m)
    }
}

} // verus!
