//! A priority queue: a binary heap of ranked entries.
use vstd::prelude::*;

verus! {

/// An entry: how urgent it is, and when it was made.
#[derive(Clone, Copy, Debug, PartialEq, Eq, Structural)]
pub struct Entry {
    pub rank: i64,
    pub sequence: usize,
}

impl Entry {
    /// Whether this entry comes out before another: it ranks higher, or as
    /// high and was made earlier.
    pub open spec fn spec_precedes(self, other: Entry) -> bool {
        self.rank > other.rank || (self.rank == other.rank && self.sequence < other.sequence)
    }

    #[verifier::when_used_as_spec(spec_precedes)]
    pub fn precedes(self, other: Entry) -> (result: bool)
        ensures
            result == self.spec_precedes(other),
    {
        self.rank > other.rank || (self.rank == other.rank && self.sequence < other.sequence)
    }
}

/// Entries arranged so that none precedes its parent, the entry at half its
/// distance from the root.
pub struct Queue {
    entries: Vec<Entry>,
}

/// The parent of a place in the heap.
spec fn parent(place: int) -> int {
    (place - 1) / 2
}

/// Whether an entry does not precede its parent.
spec fn in_order(entries: Seq<Entry>, place: int) -> bool {
    !entries[place].precedes(entries[parent(place)])
}

/// Whether all entries are in order, but perhaps the one at `place`.
spec fn ordered_but(entries: Seq<Entry>, place: int) -> bool {
    forall|i: int| 0 < i < entries.len() && i != place ==> #[trigger] in_order(entries, i)
}

/// Whether all entries are in order, but perhaps the children of `place`.
spec fn ordered_but_below(entries: Seq<Entry>, place: int) -> bool {
    forall|i: int|
        0 < i < entries.len() && parent(i) != place ==> #[trigger] in_order(entries, i)
}

/// Whether an entry does not precede the parent of its parent.
spec fn skips_in_order(entries: Seq<Entry>, place: int) -> bool {
    !entries[place].precedes(entries[parent(parent(place))])
}

/// Whether no child of `place` precedes the parent of `place`.
spec fn bridged(entries: Seq<Entry>, place: int) -> bool {
    place > 0 ==> forall|i: int|
        0 < i < entries.len() && parent(i) == place ==> #[trigger] skips_in_order(entries, i)
}

spec fn ordered(entries: Seq<Entry>) -> bool {
    ordered_but(entries, 0)
}

/// Nothing precedes the root.
proof fn lemma_root_is_first(entries: Seq<Entry>, place: int)
    requires
        ordered(entries),
        0 <= place < entries.len(),
    ensures
        !entries[place].precedes(entries[0]),
    decreases place,
{
    if place > 0 {
        assert(in_order(entries, place));
        lemma_root_is_first(entries, parent(place));
    }
}

/// Two entries exchanged.
spec fn exchanged(entries: Seq<Entry>, i: int, j: int) -> Seq<Entry> {
    entries.update(i, entries[j]).update(j, entries[i])
}

proof fn lemma_exchange(entries: Seq<Entry>, i: int, j: int)
    requires
        0 <= i < entries.len(),
        0 <= j < entries.len(),
    ensures
        exchanged(entries, i, j).to_set() == entries.to_set(),
        entries.no_duplicates() ==> exchanged(entries, i, j).no_duplicates(),
{
    let swapped = exchanged(entries, i, j);
    assert forall|e: Entry| entries.contains(e) implies swapped.contains(e) by {
        let k = entries.index_of(e);
        let l = if k == i {
            j
        } else if k == j {
            i
        } else {
            k
        };
        assert(swapped[l] == e);
    }
    assert forall|e: Entry| swapped.contains(e) implies entries.contains(e) by {
        let k = swapped.index_of(e);
        let l = if k == i {
            j
        } else if k == j {
            i
        } else {
            k
        };
        assert(entries[l] == e);
    }
    assert(swapped.to_set() =~= entries.to_set());
}

impl View for Queue {
    type V = Set<Entry>;

    closed spec fn view(&self) -> Set<Entry> {
        self.entries@.to_set()
    }
}

impl Queue {
    /// Whether the entries are distinct and in heap order.
    pub closed spec fn wf(&self) -> bool {
        ordered(self.entries@) && self.entries@.no_duplicates()
    }

    pub fn new() -> (result: Queue)
        ensures
            result.wf(),
            result@ == Set::<Entry>::empty(),
    {
        let result = Queue { entries: Vec::new() };
        assert(result@ =~= Set::<Entry>::empty());
        result
    }

    pub fn is_empty(&self) -> (result: bool)
        ensures
            result == (self@ == Set::<Entry>::empty()),
    {
        proof {
            if self.entries.len() > 0 {
                assert(self@.contains(self.entries@[0]));
            } else {
                assert(self@ =~= Set::<Entry>::empty());
            }
        }
        self.entries.len() == 0
    }

    /// Adds an entry.
    pub fn push(&mut self, entry: Entry)
        requires
            old(self).wf(),
            !old(self)@.contains(entry),
        ensures
            final(self).wf(),
            final(self)@ == old(self)@.insert(entry),
    {
        let ghost before = self.entries@;
        let mut place = self.entries.len();
        self.entries.push(entry);
        proof {
            assert(self.entries@.to_set() =~= before.to_set().insert(entry)) by {
                assert forall|e: Entry| before.to_set().insert(entry).contains(
                    e,
                ) implies self.entries@.contains(e) by {
                    if e == entry {
                        assert(self.entries@[before.len() as int] == e);
                    } else {
                        let k = before.index_of(e);
                        assert(self.entries@[k] == e);
                    }
                }
            }
            assert(!before.contains(entry));
            assert forall|i: int| 0 < i < before.len() implies #[trigger] in_order(
                self.entries@,
                i,
            ) by {
                assert(in_order(before, i));
            }
        }
        while place > 0
            invariant
                place < self.entries.len(),
                before == old(self).entries@,
                self.entries@.to_set() == before.to_set().insert(entry),
                self.entries@.no_duplicates(),
                ordered_but(self.entries@, place as int),
                bridged(self.entries@, place as int),
            decreases place,
        {
            let above = (place - 1) / 2;
            let child = self.entries[place];
            let other = self.entries[above];
            if !child.precedes(other) {
                assert(in_order(self.entries@, place as int));
                return;
            }
            proof {
                lemma_exchange(self.entries@, place as int, above as int);
                lemma_sift_up(self.entries@, place as int);
            }
            self.entries.set(place, other);
            self.entries.set(above, child);
            place = above;
        }
    }

    /// Takes out the entry that precedes all others.
    pub fn pop(&mut self) -> (result: Option<Entry>)
        requires
            old(self).wf(),
        ensures
            final(self).wf(),
            result is None <==> old(self)@ == Set::<Entry>::empty(),
            result is None ==> final(self)@ == old(self)@,
            result matches Some(first) ==> {
                &&& old(self)@.contains(first)
                &&& final(self)@ == old(self)@.remove(first)
                &&& forall|e: Entry|
                    old(self)@.contains(e) && e != first ==> first.precedes(e)
            },
    {
        let ghost before = self.entries@;
        let length = self.entries.len();
        if length == 0 {
            assert(self@ =~= Set::<Entry>::empty());
            return None;
        }
        let first = self.entries[0];
        let last = self.entries[length - 1];
        proof {
            assert(before.contains(first));
            assert forall|e: Entry| before.contains(e) && e != first implies first.precedes(e) by {
                let k = before.index_of(e);
                lemma_root_is_first(before, k);
            }
            assert(self@.contains(first));
            lemma_exchange(before, 0, length - 1);
        }
        self.entries.set(0, last);
        self.entries.set(length - 1, first);
        let ghost swapped = self.entries@;
        let _ = self.entries.pop();
        proof {
            assert(swapped =~= exchanged(before, 0, length - 1));
            assert(self.entries@ =~= swapped.drop_last());
            assert(self.entries@.to_set() =~= before.to_set().remove(first)) by {
                assert forall|e: Entry| before.to_set().remove(first).contains(
                    e,
                ) implies self.entries@.contains(e) by {
                    assert(swapped.to_set().contains(e));
                    let k = swapped.index_of(e);
                    assert(self.entries@[k] == e);
                }
                assert forall|e: Entry| self.entries@.contains(
                    e,
                ) implies before.to_set().remove(first).contains(e) by {
                    let k = self.entries@.index_of(e);
                    assert(swapped[k] == e);
                    assert(swapped.to_set().contains(e));
                }
            }
        }
        proof {
            assert forall|i: int|
                0 < i < self.entries@.len() && parent(i) != 0 implies #[trigger] in_order(
                self.entries@,
                i,
            ) by {
                assert(in_order(before, i));
            }
        }
        self.settle();
        Some(first)
    }

    /// Moves the entry at the root down to where it belongs.
    fn settle(&mut self)
        requires
            ordered_but_below(old(self).entries@, 0),
            old(self).entries@.no_duplicates(),
        ensures
            final(self).wf(),
            final(self)@ == old(self)@,
    {
        let ghost before = self.entries@;
        let length = self.entries.len();
        let mut place: usize = 0;
        proof {
            assert(bridged(self.entries@, 0));
        }
        while place < length / 2
            invariant
                length == self.entries.len(),
                before == old(self).entries@,
                self.entries@.to_set() == before.to_set(),
                self.entries@.no_duplicates(),
                ordered_but_below(self.entries@, place as int),
                bridged(self.entries@, place as int),
                place < length || length == 0,
            decreases length - place,
        {
            let left = 2 * place + 1;
            let right = 2 * place + 2;
            let child = if right < length && self.entries[right].precedes(self.entries[left]) {
                right
            } else {
                left
            };
            let lower = self.entries[child];
            let upper = self.entries[place];
            if !lower.precedes(upper) {
                assert forall|i: int| 0 < i < length implies #[trigger] in_order(
                    self.entries@,
                    i,
                ) by {
                    if parent(i) == place {
                        assert(i == left || i == right);
                    }
                }
                return;
            }
            proof {
                lemma_exchange(self.entries@, place as int, child as int);
                lemma_sift_down(self.entries@, place as int, child as int);
            }
            self.entries.set(place, lower);
            self.entries.set(child, upper);
            place = child;
        }
        assert forall|i: int| 0 < i < length implies #[trigger] in_order(self.entries@, i) by {
            assert(parent(i) != place);
        }
    }
}

/// Exchanging an entry with the parent that it precedes moves the one place
/// that may be out of order up.
proof fn lemma_sift_up(entries: Seq<Entry>, place: int)
    requires
        0 < place < entries.len(),
        ordered_but(entries, place),
        bridged(entries, place),
        entries[place].precedes(entries[parent(place)]),
    ensures
        ordered_but(exchanged(entries, place, parent(place)), parent(place)),
        bridged(exchanged(entries, place, parent(place)), parent(place)),
{
    let above = parent(place);
    let after = exchanged(entries, place, above);
    assert forall|i: int| 0 < i < after.len() && i != above implies #[trigger] in_order(
        after,
        i,
    ) by {
        if i != place {
            assert(in_order(entries, i));
            if parent(i) == place {
                assert(skips_in_order(entries, i));
            }
        }
    }
    if above > 0 {
        assert(in_order(entries, above));
        assert forall|i: int|
            0 < i < after.len() && parent(i) == above implies #[trigger] skips_in_order(
            after,
            i,
        ) by {
            if i != place {
                assert(in_order(entries, i));
            }
        }
    }
}

/// Exchanging an entry with the first of its children moves the one place
/// whose children may be out of order down.
proof fn lemma_sift_down(entries: Seq<Entry>, place: int, child: int)
    requires
        0 <= place < child < entries.len(),
        parent(child) == place,
        ordered_but_below(entries, place),
        bridged(entries, place),
        entries[child].precedes(entries[place]),
        forall|i: int|
            0 < i < entries.len() && parent(i) == place ==> !(#[trigger] entries[i]).precedes(
                entries[child],
            ),
    ensures
        ordered_but_below(exchanged(entries, place, child), child),
        bridged(exchanged(entries, place, child), child),
{
    let after = exchanged(entries, place, child);
    assert forall|i: int| 0 < i < after.len() && parent(i) != child implies #[trigger] in_order(
        after,
        i,
    ) by {
        if i == place {
            assert(skips_in_order(entries, child));
        } else if i != child && parent(i) != place {
            assert(in_order(entries, i));
        }
    }
    assert forall|i: int| 0 < i < after.len() && parent(i) == child implies #[trigger]
        skips_in_order(after, i) by {
        assert(in_order(entries, i));
    }
}

} // verus!
