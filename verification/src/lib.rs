//! A generic doubly linked list with insertion, removal and peeking at both
//! ends.
//!
//! Nodes live in a slot arena owned by the list itself: each node records the
//! arena indices of its two neighbours, the list holds the indices of the head
//! and tail nodes, and slots emptied by a removal are parked on a free list
//! for reuse. Links are plain indices, so no ownership cycle can arise, and a
//! removed node's element is handed back by value the moment its slot is
//! cleared.
//!
//! The list is modelled by the sequence of its elements from front to back:
//! the view of a list is that sequence, and every operation's contract states
//! exactly how it transforms the sequence and which element, if any, it hands
//! back.

use vstd::prelude::*;

verus! {

/// One record of the chain: an element together with the arena indices of its
/// two neighbours (`None` at either end of the chain).
pub struct Node<T> {
    /// The element this node holds.
    pub element: T,
    /// The slot of the node in front of this one, absent at the head.
    pub previous: Option<usize>,
    /// The slot of the node behind this one, absent at the tail.
    pub next: Option<usize>,
}

impl<T> Node<T> {
    /// A fresh node holding `element`, not yet linked in either direction.
    pub fn create(element: T) -> (node: Node<T>)
        ensures
            node.element == element,
            node.previous is None,
            node.next is None,
    {
        Node { element, previous: None, next: None }
    }
}

/// One operation on a double-ended list. The contracts of the four mutating
/// operations are stated as steps of the reference double-ended queue
/// (`deque_contents_after`, `deque_output`), so any interleaving of front and
/// end inserts and removals is pinned to what the reference produces.
pub enum Operation<T> {
    /// Push an element onto the front.
    InsertAtFront(T),
    /// Push an element onto the back.
    InsertAtEnd(T),
    /// Take the front element, if any.
    RemoveAtFront,
    /// Take the back element, if any.
    RemoveAtEnd,
}

/// The contents of the reference double-ended queue after `op` runs on
/// `contents`: an insert prepends or appends the element, a removal drops the
/// front or back element, and a removal from an empty queue changes nothing.
pub open spec fn deque_contents_after<T>(contents: Seq<T>, op: Operation<T>) -> Seq<T> {
    match op {
        Operation::InsertAtFront(element) => seq![element] + contents,
        Operation::InsertAtEnd(element) => contents + seq![element],
        Operation::RemoveAtFront => if contents.len() == 0 {
            contents
        } else {
            contents.drop_first()
        },
        Operation::RemoveAtEnd => if contents.len() == 0 {
            contents
        } else {
            contents.drop_last()
        },
    }
}

/// The element the reference double-ended queue hands back when `op` runs on
/// `contents`: the removed element, or nothing for an insert or for a removal
/// from an empty queue.
pub open spec fn deque_output<T>(contents: Seq<T>, op: Operation<T>) -> Option<T> {
    match op {
        Operation::InsertAtFront(_) => None,
        Operation::InsertAtEnd(_) => None,
        Operation::RemoveAtFront => if contents.len() == 0 {
            None
        } else {
            Some(contents.first())
        },
        Operation::RemoveAtEnd => if contents.len() == 0 {
            None
        } else {
            Some(contents.last())
        },
    }
}

/// The contents of a list after pushing each element of `elements` in turn,
/// oldest first, onto the front of a list holding `contents`.
pub open spec fn after_front_inserts<T>(contents: Seq<T>, elements: Seq<T>) -> Seq<T>
    decreases elements.len(),
{
    if elements.len() == 0 {
        contents
    } else {
        after_front_inserts(seq![elements[0]] + contents, elements.drop_first())
    }
}

/// The contents of a list after pushing each element of `elements` in turn,
/// oldest first, onto the back of a list holding `contents`.
pub open spec fn after_end_inserts<T>(contents: Seq<T>, elements: Seq<T>) -> Seq<T>
    decreases elements.len(),
{
    if elements.len() == 0 {
        contents
    } else {
        after_end_inserts(contents + seq![elements[0]], elements.drop_first())
    }
}

/// The elements a run of front removals hands back, removing until the list
/// holding `contents` is empty, in the order they come out.
pub open spec fn front_removal_outputs<T>(contents: Seq<T>) -> Seq<T>
    decreases contents.len(),
{
    if contents.len() == 0 {
        Seq::empty()
    } else {
        seq![contents.first()] + front_removal_outputs(contents.drop_first())
    }
}

/// The elements a run of end removals hands back, removing until the list
/// holding `contents` is empty, in the order they come out.
pub open spec fn end_removal_outputs<T>(contents: Seq<T>) -> Seq<T>
    decreases contents.len(),
{
    if contents.len() == 0 {
        Seq::empty()
    } else {
        seq![contents.last()] + end_removal_outputs(contents.drop_last())
    }
}

/// Pushing a run of elements onto the front reverses it: the list then reads
/// the run newest first, followed by whatever it held before.
pub proof fn lemma_after_front_inserts<T>(contents: Seq<T>, elements: Seq<T>)
    ensures
        after_front_inserts(contents, elements) == elements.reverse() + contents,
    decreases elements.len(),
{
    if elements.len() == 0 {
        assert(elements.reverse() + contents =~= contents);
    } else {
        lemma_after_front_inserts(seq![elements[0]] + contents, elements.drop_first());
        assert(elements.drop_first().reverse() + (seq![elements[0]] + contents)
            =~= elements.reverse() + contents);
    }
}

/// Pushing a run of elements onto the back keeps it in order: the list then
/// reads as before, followed by the run oldest first.
pub proof fn lemma_after_end_inserts<T>(contents: Seq<T>, elements: Seq<T>)
    ensures
        after_end_inserts(contents, elements) == contents + elements,
    decreases elements.len(),
{
    if elements.len() == 0 {
        assert(contents + elements =~= contents);
    } else {
        lemma_after_end_inserts(contents + seq![elements[0]], elements.drop_first());
        assert((contents + seq![elements[0]]) + elements.drop_first() =~= contents + elements);
    }
}

/// A run of front removals hands the contents back exactly as the list read
/// them, front to back; a run of end removals hands them back reversed.
pub proof fn lemma_removal_outputs<T>(contents: Seq<T>)
    ensures
        front_removal_outputs(contents) == contents,
        end_removal_outputs(contents) == contents.reverse(),
    decreases contents.len(),
{
    if contents.len() == 0 {
        assert(end_removal_outputs(contents) =~= contents.reverse());
    } else {
        lemma_removal_outputs(contents.drop_first());
        assert(seq![contents.first()] + contents.drop_first() =~= contents);
        lemma_removal_outputs(contents.drop_last());
        assert(seq![contents.last()] + contents.drop_last().reverse() =~= contents.reverse());
    }
}

/// Round trip. Pushing a run of `elements` onto the front of an empty list
/// and then removing from the front hands the run back in reverse insertion
/// order, while removing from the end hands it back in insertion order; for
/// a run pushed onto the back, removing from the end reverses the run and
/// removing from the front preserves it.
pub proof fn lemma_round_trip<T>(elements: Seq<T>)
    ensures
        after_front_inserts(Seq::<T>::empty(), elements) == elements.reverse(),
        after_end_inserts(Seq::<T>::empty(), elements) == elements,
        front_removal_outputs(after_front_inserts(Seq::<T>::empty(), elements))
            == elements.reverse(),
        end_removal_outputs(after_front_inserts(Seq::<T>::empty(), elements)) == elements,
        front_removal_outputs(after_end_inserts(Seq::<T>::empty(), elements)) == elements,
        end_removal_outputs(after_end_inserts(Seq::<T>::empty(), elements)) == elements.reverse(),
{
    lemma_after_front_inserts(Seq::<T>::empty(), elements);
    assert(elements.reverse() + Seq::<T>::empty() =~= elements.reverse());
    lemma_after_end_inserts(Seq::<T>::empty(), elements);
    assert(Seq::<T>::empty() + elements =~= elements);
    lemma_removal_outputs(elements.reverse());
    lemma_removal_outputs(elements);
    assert(elements.reverse().reverse() =~= elements);
}

/// Inserting at the front and then peeking at the front yields the element
/// just inserted, whatever the list held before; likewise at the end: the
/// insert makes the element the new first (or last) of the contents, and the
/// peek hands back exactly the first (or last) element.
pub proof fn lemma_insert_then_peek<T>(contents: Seq<T>, element: T)
    ensures
        deque_contents_after(contents, Operation::InsertAtFront(element)).first() == element,
        deque_contents_after(contents, Operation::InsertAtEnd(element)).last() == element,
{
}

/// A double-ended list of elements of type `T`.
///
/// The view of a list is the sequence of its elements from front to back.
/// Every operation requires and maintains `wf()`, the structural invariant
/// tying the node links, the anchors and the free list to that sequence.
pub struct DoubleLinkedList<T> {
    /// The slot arena: every node of the chain occupies one slot; a slot
    /// freed by a removal holds `None` until it is reused.
    pub slots: Vec<Option<Node<T>>>,
    /// The indices of the unoccupied slots, each recorded exactly once.
    pub free: Vec<usize>,
    /// The slot of the front node, absent when the list is empty.
    pub head: Option<usize>,
    /// The slot of the back node, absent when the list is empty.
    pub tail: Option<usize>,
    /// The slots of the chain's nodes from front to back.
    pub chain: Ghost<Seq<usize>>,
}

impl<T> View for DoubleLinkedList<T> {
    type V = Seq<T>;

    /// The elements of the list from front to back.
    open spec fn view(&self) -> Seq<T> {
        self.chain@.map(|i: int, s: usize| self.slots@[s as int].unwrap().element)
    }
}

impl<T> DoubleLinkedList<T> {
    /// The free list hands out only valid, unoccupied slots, and records no
    /// slot twice.
    pub open spec fn free_ok(&self) -> bool {
        &&& forall|k: int|
            0 <= k < self.free@.len() ==> (#[trigger] self.free@[k]) < self.slots@.len()
        &&& forall|k: int, l: int|
            0 <= k < l < self.free@.len() ==> self.free@[k] != self.free@[l]
        &&& forall|k: int|
            0 <= k < self.free@.len() ==> self.slots@[#[trigger] self.free@[k] as int] is None
    }

    /// The chain lists occupied slots without repetition, the anchors point at
    /// its two ends, and every neighbour link of every node matches its
    /// position in the chain.
    pub open spec fn chain_ok(&self) -> bool {
        let c = self.chain@;
        &&& forall|i: int| 0 <= i < c.len() ==> (#[trigger] c[i]) < self.slots@.len()
        &&& forall|i: int, j: int| 0 <= i < j < c.len() ==> c[i] != c[j]
        &&& forall|i: int| 0 <= i < c.len() ==> self.slots@[#[trigger] c[i] as int] is Some
        &&& self.head == (if c.len() == 0 { None::<usize> } else { Some(c[0]) })
        &&& self.tail == (if c.len() == 0 { None::<usize> } else { Some(c[c.len() - 1]) })
        &&& forall|i: int|
            0 <= i < c.len() ==> self.slots@[#[trigger] c[i] as int].unwrap().previous == (
            if i == 0 { None::<usize> } else { Some(c[i - 1]) })
        &&& forall|i: int|
            0 <= i < c.len() ==> self.slots@[#[trigger] c[i] as int].unwrap().next == (
            if i == c.len() - 1 { None::<usize> } else { Some(c[i + 1]) })
    }

    /// Well-formed: consistent chain and anchors, a sound free list, and
    /// every slot accounted for exactly once — occupied by the chain or
    /// parked on the free list, never both, never neither.
    pub open spec fn wf(&self) -> bool {
        &&& self.chain_ok()
        &&& self.free_ok()
        &&& self.slots@.len() == self.chain@.len() + self.free@.len()
    }

    /// How many slots the arena holds in all.
    pub open spec fn slot_count(&self) -> nat {
        self.slots@.len()
    }

    /// How many slots are parked on the free list, awaiting reuse.
    pub open spec fn free_count(&self) -> nat {
        self.free@.len()
    }

    /// Replaces the contents of slot `s` and hands back what the slot held,
    /// leaving every other part of the list untouched.
    fn replace_slot(&mut self, s: usize, slot: Option<Node<T>>) -> (prior: Option<Node<T>>)
        requires
            s < old(self).slots@.len(),
        ensures
            final(self).slots@ == old(self).slots@.update(s as int, slot),
            prior == old(self).slots@[s as int],
            final(self).free == old(self).free,
            final(self).head == old(self).head,
            final(self).tail == old(self).tail,
            final(self).chain == old(self).chain,
    {
        let prior = self.slots.remove(s);
        self.slots.insert(s, slot);
        proof {
            assert(self.slots@ =~= old(self).slots@.update(s as int, slot));
        }
        prior
    }

    /// Stores `node` in an unoccupied slot — reusing a parked slot when one
    /// is available, growing the arena otherwise — and returns its index.
    fn allocate_slot(&mut self, node: Node<T>) -> (s: usize)
        requires
            old(self).free_ok(),
        ensures
            final(self).free_ok(),
            s < final(self).slots@.len(),
            final(self).slots@[s as int] == Some(node),
            old(self).slots@.len() <= final(self).slots@.len(),
            forall|k: int|
                0 <= k < old(self).slots@.len() && k != s ==> final(self).slots@[k]
                    == old(self).slots@[k],
            s < old(self).slots@.len() ==> old(self).slots@[s as int] is None,
            final(self).slots@.len() + old(self).free@.len() == old(self).slots@.len()
                + final(self).free@.len() + 1,
            final(self).head == old(self).head,
            final(self).tail == old(self).tail,
            final(self).chain == old(self).chain,
    {
        match self.free.pop() {
            Some(s) => {
                proof {
                    let f = old(self).free@;
                    assert(s == f[f.len() - 1]);
                    assert(s < self.slots@.len());
                    assert forall|k: int| 0 <= k < self.free@.len() implies self.free@[k]
                        != s by {
                        assert(self.free@[k] == f[k]);
                    }
                }
                self.replace_slot(s, Some(node));
                s
            }
            None => {
                let s = self.slots.len();
                self.slots.push(Some(node));
                s
            }
        }
    }

    /// Empties slot `s`, parks it on the free list for reuse, and hands back
    /// the node it held.
    fn release_slot(&mut self, s: usize) -> (node: Node<T>)
        requires
            old(self).free_ok(),
            s < old(self).slots@.len(),
            old(self).slots@[s as int] is Some,
        ensures
            final(self).free_ok(),
            node == old(self).slots@[s as int].unwrap(),
            final(self).slots@ == old(self).slots@.update(s as int, None),
            final(self).free@ == old(self).free@.push(s),
            final(self).head == old(self).head,
            final(self).tail == old(self).tail,
            final(self).chain == old(self).chain,
    {
        let prior = self.replace_slot(s, None);
        proof {
            assert forall|k: int| 0 <= k < self.free@.len() implies self.free@[k] != s by {
                assert(old(self).slots@[#[trigger] self.free@[k] as int] is None);
            }
        }
        self.free.push(s);
        prior.unwrap()
    }

    /// Rewrites the backward link of the node in slot `s`, leaving its
    /// element and forward link as they were.
    fn set_previous(&mut self, s: usize, previous: Option<usize>)
        requires
            s < old(self).slots@.len(),
            old(self).slots@[s as int] is Some,
        ensures
            final(self).slots@ == old(self).slots@.update(
                s as int,
                Some(
                    Node {
                        element: old(self).slots@[s as int].unwrap().element,
                        previous,
                        next: old(self).slots@[s as int].unwrap().next,
                    },
                ),
            ),
            final(self).free == old(self).free,
            final(self).head == old(self).head,
            final(self).tail == old(self).tail,
            final(self).chain == old(self).chain,
    {
        let prior = self.replace_slot(s, None);
        let node = prior.unwrap();
        self.replace_slot(s, Some(Node { element: node.element, previous, next: node.next }));
        proof {
            assert(self.slots@ =~= old(self).slots@.update(
                s as int,
                Some(
                    Node {
                        element: old(self).slots@[s as int].unwrap().element,
                        previous,
                        next: old(self).slots@[s as int].unwrap().next,
                    },
                ),
            ));
        }
    }

    /// Rewrites the forward link of the node in slot `s`, leaving its
    /// element and backward link as they were.
    fn set_next(&mut self, s: usize, next: Option<usize>)
        requires
            s < old(self).slots@.len(),
            old(self).slots@[s as int] is Some,
        ensures
            final(self).slots@ == old(self).slots@.update(
                s as int,
                Some(
                    Node {
                        element: old(self).slots@[s as int].unwrap().element,
                        previous: old(self).slots@[s as int].unwrap().previous,
                        next,
                    },
                ),
            ),
            final(self).free == old(self).free,
            final(self).head == old(self).head,
            final(self).tail == old(self).tail,
            final(self).chain == old(self).chain,
    {
        let prior = self.replace_slot(s, None);
        let node = prior.unwrap();
        self.replace_slot(s, Some(Node { element: node.element, previous: node.previous, next }));
        proof {
            assert(self.slots@ =~= old(self).slots@.update(
                s as int,
                Some(
                    Node {
                        element: old(self).slots@[s as int].unwrap().element,
                        previous: old(self).slots@[s as int].unwrap().previous,
                        next,
                    },
                ),
            ));
        }
    }

    /// An empty list: no nodes, no anchors, no slots.
    pub fn new() -> (list: Self)
        ensures
            list.wf(),
            list@ == Seq::<T>::empty(),
            list.head is None,
            list.tail is None,
    {
        let list = DoubleLinkedList {
            slots: Vec::new(),
            free: Vec::new(),
            head: None,
            tail: None,
            chain: Ghost(Seq::empty()),
        };
        proof {
            assert(list@ =~= Seq::<T>::empty());
        }
        list
    }

    /// Pushes `element` onto the front: the list then reads `element` first,
    /// followed by everything it held before. A non-empty list keeps its back
    /// anchor; never fails.
    pub fn insert_at_front(&mut self, element: T)
        requires
            old(self).wf(),
        ensures
            final(self).wf(),
            final(self)@ == deque_contents_after(old(self)@, Operation::InsertAtFront(element)),
            final(self).head is Some,
            old(self)@.len() > 0 ==> final(self).tail == old(self).tail,
    {
        let old_head = self.head;
        let mut node = Node::create(element);
        node.next = old_head;
        let ghost nodev = node;
        let s = self.allocate_slot(node);
        let ghost mid = *self;
        match old_head {
            None => {
                self.head = Some(s);
                self.tail = Some(s);
            }
            Some(h) => {
                proof {
                    let c0 = old(self).chain@;
                    assert(c0.len() > 0);
                    assert(h == c0[0]);
                    assert(old(self).slots@[h as int] is Some);
                    assert(h != s);
                    assert(mid.slots@[h as int] == old(self).slots@[h as int]);
                }
                self.set_previous(h, Some(s));
                self.head = Some(s);
            }
        }
        self.chain = Ghost(seq![s] + self.chain@);
        proof {
            let pre = *old(self);
            let c0 = pre.chain@;
            let n0 = c0.len() as int;
            let c = self.chain@;
            assert(c.len() == n0 + 1);
            assert(c[0] == s);
            assert forall|i: int| 1 <= i < c.len() implies c[i] == c0[i - 1] by {}
            assert forall|i: int| 0 <= i < n0 implies c0[i] != s by {
                assert(pre.slots@[#[trigger] c0[i] as int] is Some);
            }
            if n0 == 0 {
                assert(self.slots@ == mid.slots@);
                assert(self.wf());
            } else {
                let h = c0[0];
                // After relinking, only slots `s` and `h` differ from the
                // state before the insert.
                assert(self.slots@[s as int] == Some(nodev));
                assert(self.slots@[h as int].unwrap().previous == Some(s));
                assert(self.slots@[h as int].unwrap().next == pre.slots@[h as int].unwrap().next);
                assert(self.slots@[h as int].unwrap().element == pre.slots@[
                    h as int].unwrap().element);
                assert forall|k: int|
                    0 <= k < pre.slots@.len() && k != s && k != h implies self.slots@[k]
                        == pre.slots@[k] by {}
                assert forall|i: int| 0 <= i < c.len() implies self.slots@[
                    #[trigger] c[i] as int] is Some by {
                    if i >= 1 && c0[i - 1] != h {
                        assert(self.slots@[c0[i - 1] as int] == pre.slots@[c0[i - 1] as int]);
                    }
                }
                assert forall|i: int|
                    0 <= i < c.len() implies self.slots@[#[trigger] c[i] as int].unwrap().previous
                        == (if i == 0 {
                        None::<usize>
                    } else {
                        Some(c[i - 1])
                    }) by {
                    if i >= 2 {
                        assert(c0[i - 1] != c0[0]);
                        assert(self.slots@[c0[i - 1] as int] == pre.slots@[c0[i - 1] as int]);
                    }
                }
                assert forall|i: int|
                    0 <= i < c.len() implies self.slots@[#[trigger] c[i] as int].unwrap().next == (
                    if i == c.len() - 1 {
                        None::<usize>
                    } else {
                        Some(c[i + 1])
                    }) by {
                    if i >= 1 {
                        let k = c0[i - 1];
                        if k != h {
                            assert(self.slots@[k as int] == pre.slots@[k as int]);
                        }
                        assert(self.slots@[k as int].unwrap().next == pre.slots@[
                            k as int].unwrap().next);
                    }
                }
                assert(self.tail == Some(c[c.len() - 1]));
                assert forall|k: int| 0 <= k < self.free@.len() implies self.slots@[
                    #[trigger] self.free@[k] as int] is None by {
                    assert(mid.slots@[self.free@[k] as int] is None);
                    assert(self.free@[k] != h);
                }
                assert(self.wf());
            }
            assert forall|i: int| 0 <= i < c.len() implies self@[i] == (seq![element]
                + pre@)[i] by {
                if i >= 1 {
                    let k = c0[i - 1];
                    assert(pre@[i - 1] == pre.slots@[k as int].unwrap().element);
                    assert(self.slots@[k as int].unwrap().element == pre.slots@[
                        k as int].unwrap().element);
                }
            }
            assert(self@ =~= seq![element] + pre@);
        }
    }

    /// Pushes `element` onto the back: the list then reads as before with
    /// `element` appended. A non-empty list keeps its front anchor; never
    /// fails.
    pub fn insert_at_end(&mut self, element: T)
        requires
            old(self).wf(),
        ensures
            final(self).wf(),
            final(self)@ == deque_contents_after(old(self)@, Operation::InsertAtEnd(element)),
            final(self).tail is Some,
            old(self)@.len() > 0 ==> final(self).head == old(self).head,
    {
        let old_tail = self.tail;
        let mut node = Node::create(element);
        node.previous = old_tail;
        let ghost nodev = node;
        let s = self.allocate_slot(node);
        let ghost mid = *self;
        match old_tail {
            None => {
                self.head = Some(s);
                self.tail = Some(s);
            }
            Some(t) => {
                proof {
                    let c0 = old(self).chain@;
                    assert(c0.len() > 0);
                    assert(t == c0[c0.len() - 1]);
                    assert(old(self).slots@[t as int] is Some);
                    assert(t != s);
                    assert(mid.slots@[t as int] == old(self).slots@[t as int]);
                }
                self.set_next(t, Some(s));
                self.tail = Some(s);
            }
        }
        self.chain = Ghost(self.chain@ + seq![s]);
        proof {
            let pre = *old(self);
            let c0 = pre.chain@;
            let n0 = c0.len() as int;
            let c = self.chain@;
            assert(c.len() == n0 + 1);
            assert(c[n0] == s);
            assert forall|i: int| 0 <= i < n0 implies c[i] == c0[i] by {}
            assert forall|i: int| 0 <= i < n0 implies c0[i] != s by {
                assert(pre.slots@[#[trigger] c0[i] as int] is Some);
            }
            if n0 == 0 {
                assert(self.slots@ == mid.slots@);
                assert(self.wf());
            } else {
                let t = c0[n0 - 1];
                // After relinking, only slots `s` and `t` differ from the
                // state before the insert.
                assert(self.slots@[s as int] == Some(nodev));
                assert(self.slots@[t as int].unwrap().next == Some(s));
                assert(self.slots@[t as int].unwrap().previous == pre.slots@[
                    t as int].unwrap().previous);
                assert(self.slots@[t as int].unwrap().element == pre.slots@[
                    t as int].unwrap().element);
                assert forall|k: int|
                    0 <= k < pre.slots@.len() && k != s && k != t implies self.slots@[k]
                        == pre.slots@[k] by {}
                assert forall|i: int| 0 <= i < c.len() implies self.slots@[
                    #[trigger] c[i] as int] is Some by {
                    if i < n0 && c0[i] != t {
                        assert(self.slots@[c0[i] as int] == pre.slots@[c0[i] as int]);
                    }
                }
                assert forall|i: int|
                    0 <= i < c.len() implies self.slots@[#[trigger] c[i] as int].unwrap().next == (
                    if i == c.len() - 1 {
                        None::<usize>
                    } else {
                        Some(c[i + 1])
                    }) by {
                    if i < n0 - 1 {
                        assert(c0[i] != c0[n0 - 1]);
                        assert(self.slots@[c0[i] as int] == pre.slots@[c0[i] as int]);
                    }
                }
                assert forall|i: int|
                    0 <= i < c.len() implies self.slots@[#[trigger] c[i] as int].unwrap().previous
                        == (if i == 0 {
                        None::<usize>
                    } else {
                        Some(c[i - 1])
                    }) by {
                    if i < n0 {
                        let k = c0[i];
                        if k != t {
                            assert(self.slots@[k as int] == pre.slots@[k as int]);
                        }
                        assert(self.slots@[k as int].unwrap().previous == pre.slots@[
                            k as int].unwrap().previous);
                    }
                }
                assert(self.head == Some(c[0]));
                assert forall|k: int| 0 <= k < self.free@.len() implies self.slots@[
                    #[trigger] self.free@[k] as int] is None by {
                    assert(mid.slots@[self.free@[k] as int] is None);
                    assert(self.free@[k] != t);
                }
                assert(self.wf());
            }
            assert forall|i: int| 0 <= i < c.len() implies self@[i] == (pre@ + seq![
                element,
            ])[i] by {
                if i < n0 {
                    let k = c0[i];
                    assert(pre@[i] == pre.slots@[k as int].unwrap().element);
                    assert(self.slots@[k as int].unwrap().element == pre.slots@[
                        k as int].unwrap().element);
                }
            }
            assert(self@ =~= pre@ + seq![element]);
        }
    }

    /// Takes the front element. An empty list is left untouched and yields
    /// nothing — a normal outcome, not an error; otherwise the front node is
    /// detached, its slot reclaimed, and its element handed back by value.
    pub fn remove_at_front(&mut self) -> (removed: Option<T>)
        requires
            old(self).wf(),
        ensures
            final(self).wf(),
            final(self)@ == deque_contents_after(old(self)@, Operation::RemoveAtFront),
            removed == deque_output(old(self)@, Operation::RemoveAtFront),
            old(self)@.len() == 0 ==> *final(self) == *old(self),
    {
        match self.head {
            None => {
                proof {
                    assert(old(self).chain@.len() == 0);
                }
                None
            }
            Some(h) => {
                proof {
                    let c0 = old(self).chain@;
                    assert(c0.len() > 0);
                    assert(h == c0[0]);
                    assert(old(self).slots@[h as int] is Some);
                }
                let node = self.release_slot(h);
                let ghost mid = *self;
                match node.next {
                    Some(new_head) => {
                        proof {
                            let c0 = old(self).chain@;
                            assert(c0.len() >= 2);
                            assert(new_head == c0[1]);
                            assert(new_head != h);
                            assert(mid.slots@[new_head as int] == old(self).slots@[
                                new_head as int]);
                        }
                        self.set_previous(new_head, None);
                        self.head = Some(new_head);
                    }
                    None => {
                        proof {
                            assert(old(self).chain@.len() == 1);
                        }
                        self.head = None;
                        self.tail = None;
                    }
                }
                self.chain = Ghost(self.chain@.drop_first());
                proof {
                    let pre = *old(self);
                    let c0 = pre.chain@;
                    let n0 = c0.len() as int;
                    let c = self.chain@;
                    assert(c.len() == n0 - 1);
                    assert forall|i: int| 0 <= i < c.len() implies c[i] == c0[i + 1] by {}
                    assert(self.slots@.len() == pre.slots@.len());
                    if n0 == 1 {
                        assert(self.wf());
                    } else {
                        let new_head = c0[1];
                        // Only slot `h` (now empty) and slot `new_head` (its
                        // backward link cleared) differ from before.
                        assert(self.slots@[h as int] is None);
                        assert(self.slots@[new_head as int].unwrap().previous is None);
                        assert(self.slots@[new_head as int].unwrap().next == pre.slots@[
                            new_head as int].unwrap().next);
                        assert(self.slots@[new_head as int].unwrap().element == pre.slots@[
                            new_head as int].unwrap().element);
                        assert forall|k: int|
                            0 <= k < pre.slots@.len() && k != h && k != new_head
                                implies self.slots@[k] == pre.slots@[k] by {}
                        assert forall|i: int| 0 <= i < c.len() implies self.slots@[
                            #[trigger] c[i] as int] is Some by {
                            assert(c0[i + 1] != c0[0]);
                            if c0[i + 1] != new_head {
                                assert(self.slots@[c0[i + 1] as int] == pre.slots@[
                                    c0[i + 1] as int]);
                            }
                        }
                        assert forall|i: int|
                            0 <= i < c.len() implies self.slots@[
                            #[trigger] c[i] as int].unwrap().previous == (if i == 0 {
                                None::<usize>
                            } else {
                                Some(c[i - 1])
                            }) by {
                            if i >= 1 {
                                assert(c0[i + 1] != c0[0]);
                                assert(c0[i + 1] != c0[1]);
                                assert(self.slots@[c0[i + 1] as int] == pre.slots@[
                                    c0[i + 1] as int]);
                            }
                        }
                        assert forall|i: int|
                            0 <= i < c.len() implies self.slots@[
                            #[trigger] c[i] as int].unwrap().next == (if i == c.len() - 1 {
                                None::<usize>
                            } else {
                                Some(c[i + 1])
                            }) by {
                            let k = c0[i + 1];
                            assert(k != c0[0]);
                            if k != new_head {
                                assert(self.slots@[k as int] == pre.slots@[k as int]);
                            }
                            assert(self.slots@[k as int].unwrap().next == pre.slots@[
                                k as int].unwrap().next);
                        }
                        assert(self.head == Some(c[0]));
                        assert(self.tail == Some(c[c.len() - 1]));
                        assert forall|k: int| 0 <= k < self.free@.len() implies self.slots@[
                            #[trigger] self.free@[k] as int] is None by {
                            assert(mid.slots@[self.free@[k] as int] is None);
                            assert(self.free@[k] != new_head);
                        }
                        assert(self.wf());
                    }
                    assert forall|i: int| 0 <= i < c.len() implies self@[i] == pre@.drop_first()[
                        i] by {
                        let k = c0[i + 1];
                        assert(pre@[i + 1] == pre.slots@[k as int].unwrap().element);
                        assert(k != c0[0]);
                        assert(self.slots@[k as int].unwrap().element == pre.slots@[
                            k as int].unwrap().element);
                    }
                    assert(self@ =~= pre@.drop_first());
                    assert(node.element == pre@[0]);
                }
                Some(node.element)
            }
        }
    }

    /// Takes the back element. An empty list is left untouched and yields
    /// nothing — a normal outcome, not an error; otherwise the back node is
    /// detached, its slot reclaimed, and its element handed back by value.
    pub fn remove_at_end(&mut self) -> (removed: Option<T>)
        requires
            old(self).wf(),
        ensures
            final(self).wf(),
            final(self)@ == deque_contents_after(old(self)@, Operation::RemoveAtEnd),
            removed == deque_output(old(self)@, Operation::RemoveAtEnd),
            old(self)@.len() == 0 ==> *final(self) == *old(self),
    {
        match self.tail {
            None => {
                proof {
                    assert(old(self).chain@.len() == 0);
                }
                None
            }
            Some(t) => {
                proof {
                    let c0 = old(self).chain@;
                    assert(c0.len() > 0);
                    assert(t == c0[c0.len() - 1]);
                    assert(old(self).slots@[t as int] is Some);
                }
                let node = self.release_slot(t);
                let ghost mid = *self;
                match node.previous {
                    Some(new_tail) => {
                        proof {
                            let c0 = old(self).chain@;
                            assert(c0.len() >= 2);
                            assert(new_tail == c0[c0.len() - 2]);
                            assert(new_tail != t);
                            assert(mid.slots@[new_tail as int] == old(self).slots@[
                                new_tail as int]);
                        }
                        self.set_next(new_tail, None);
                        self.tail = Some(new_tail);
                    }
                    None => {
                        proof {
                            assert(old(self).chain@.len() == 1);
                        }
                        self.head = None;
                        self.tail = None;
                    }
                }
                self.chain = Ghost(self.chain@.drop_last());
                proof {
                    let pre = *old(self);
                    let c0 = pre.chain@;
                    let n0 = c0.len() as int;
                    let c = self.chain@;
                    assert(c.len() == n0 - 1);
                    assert forall|i: int| 0 <= i < c.len() implies c[i] == c0[i] by {}
                    assert(self.slots@.len() == pre.slots@.len());
                    if n0 == 1 {
                        assert(self.wf());
                    } else {
                        let new_tail = c0[n0 - 2];
                        // Only slot `t` (now empty) and slot `new_tail` (its
                        // forward link cleared) differ from before.
                        assert(self.slots@[t as int] is None);
                        assert(self.slots@[new_tail as int].unwrap().next is None);
                        assert(self.slots@[new_tail as int].unwrap().previous == pre.slots@[
                            new_tail as int].unwrap().previous);
                        assert(self.slots@[new_tail as int].unwrap().element == pre.slots@[
                            new_tail as int].unwrap().element);
                        assert forall|k: int|
                            0 <= k < pre.slots@.len() && k != t && k != new_tail
                                implies self.slots@[k] == pre.slots@[k] by {}
                        assert forall|i: int| 0 <= i < c.len() implies self.slots@[
                            #[trigger] c[i] as int] is Some by {
                            assert(c0[i] != c0[n0 - 1]);
                            if c0[i] != new_tail {
                                assert(self.slots@[c0[i] as int] == pre.slots@[c0[i] as int]);
                            }
                        }
                        assert forall|i: int|
                            0 <= i < c.len() implies self.slots@[
                            #[trigger] c[i] as int].unwrap().next == (if i == c.len() - 1 {
                                None::<usize>
                            } else {
                                Some(c[i + 1])
                            }) by {
                            if i < n0 - 2 {
                                assert(c0[i] != c0[n0 - 1]);
                                assert(c0[i] != c0[n0 - 2]);
                                assert(self.slots@[c0[i] as int] == pre.slots@[c0[i] as int]);
                            }
                        }
                        assert forall|i: int|
                            0 <= i < c.len() implies self.slots@[
                            #[trigger] c[i] as int].unwrap().previous == (if i == 0 {
                                None::<usize>
                            } else {
                                Some(c[i - 1])
                            }) by {
                            let k = c0[i];
                            assert(k != c0[n0 - 1]);
                            if k != new_tail {
                                assert(self.slots@[k as int] == pre.slots@[k as int]);
                            }
                            assert(self.slots@[k as int].unwrap().previous == pre.slots@[
                                k as int].unwrap().previous);
                        }
                        assert(self.head == Some(c[0]));
                        assert(self.tail == Some(c[c.len() - 1]));
                        assert forall|k: int| 0 <= k < self.free@.len() implies self.slots@[
                            #[trigger] self.free@[k] as int] is None by {
                            assert(mid.slots@[self.free@[k] as int] is None);
                            assert(self.free@[k] != new_tail);
                        }
                        assert(self.wf());
                    }
                    assert forall|i: int| 0 <= i < c.len() implies self@[i] == pre@.drop_last()[
                        i] by {
                        let k = c0[i];
                        assert(pre@[i] == pre.slots@[k as int].unwrap().element);
                        assert(k != c0[n0 - 1]);
                        assert(self.slots@[k as int].unwrap().element == pre.slots@[
                            k as int].unwrap().element);
                    }
                    assert(self@ =~= pre@.drop_last());
                    assert(node.element == pre@[n0 - 1]);
                }
                Some(node.element)
            }
        }
    }

    /// Borrows the front element without removing it, or yields nothing on an
    /// empty list. The list cannot be mutated while the borrow is live: the
    /// borrow checker rules a conflict out at compile time.
    pub fn peek_at_front(&self) -> (front: Option<&T>)
        requires
            self.wf(),
        ensures
            match front {
                Some(element) => self@.len() > 0 && *element == self@.first(),
                None => self@.len() == 0,
            },
    {
        match self.head {
            None => {
                proof {
                    assert(self.chain@.len() == 0);
                }
                None
            }
            Some(h) => {
                proof {
                    assert(self.chain@.len() > 0);
                    assert(h == self.chain@[0]);
                    assert(h < self.slots@.len());
                    assert(self.slots@[h as int] is Some);
                }
                match &self.slots[h] {
                    Some(node) => Some(&node.element),
                    None => None,
                }
            }
        }
    }

    /// Borrows the back element without removing it, or yields nothing on an
    /// empty list. The list cannot be mutated while the borrow is live: the
    /// borrow checker rules a conflict out at compile time.
    pub fn peek_at_end(&self) -> (end: Option<&T>)
        requires
            self.wf(),
        ensures
            match end {
                Some(element) => self@.len() > 0 && *element == self@.last(),
                None => self@.len() == 0,
            },
    {
        match self.tail {
            None => {
                proof {
                    assert(self.chain@.len() == 0);
                }
                None
            }
            Some(t) => {
                proof {
                    assert(self.chain@.len() > 0);
                    assert(t == self.chain@[self.chain@.len() - 1]);
                    assert(t < self.slots@.len());
                    assert(self.slots@[t as int] is Some);
                }
                match &self.slots[t] {
                    Some(node) => Some(&node.element),
                    None => None,
                }
            }
        }
    }

    /// A well-formed list is empty exactly when its anchors are absent: head
    /// and tail are always both present or both absent, and absent precisely
    /// when the list holds no element.
    pub proof fn lemma_empty_iff_anchors_absent(&self)
        requires
            self.wf(),
        ensures
            self@.len() == 0 <==> self.head is None,
            self@.len() == 0 <==> self.tail is None,
    {
    }

    /// Slot accounting: every arena slot is, at all times, either occupied by
    /// exactly one chain node or parked exactly once on the free list — no
    /// slot is leaked and none is reclaimed twice. In particular, once a
    /// sequence of operations empties the list, every slot stands free for
    /// reuse.
    pub proof fn lemma_no_slot_leaked(&self)
        requires
            self.wf(),
        ensures
            self.slot_count() == self@.len() + self.free_count(),
            self@.len() == 0 ==> self.free_count() == self.slot_count(),
    {
    }

    /// The empty state reached by removing the last element is the state of a
    /// freshly built list: both anchors absent and no slot occupied. Every
    /// operation's contract reads the contents and the anchors alone, so an
    /// emptied list behaves exactly like a fresh one from here on.
    pub proof fn lemma_emptied_like_fresh(&self)
        requires
            self.wf(),
            self@.len() == 0,
        ensures
            self.head is None,
            self.tail is None,
            self.free_count() == self.slot_count(),
            self.chain@ == Seq::<usize>::empty(),
    {
        assert(self.chain@ =~= Seq::<usize>::empty());
    }
}

} // verus!
