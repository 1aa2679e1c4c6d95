//! A list that appends at its tail and deletes by value.
use vstd::prelude::*;
use vstd::std_specs::cmp::PartialEqSpec;

verus! {

/// The neighbours of a node: the arena slots of the nodes before and after it.
#[derive(Clone, Copy)]
pub struct Link {
    pub prev: Option<usize>,
    pub next: Option<usize>,
}

/// An ordered list of values, doubly linked. Nodes live in an arena: slot
/// `i` holds a value and the links of its node to the slots of its
/// neighbours. Values are appended at the tail; `delete` unlinks the node of
/// the first value equal to the one given.
pub struct DoublyLinkedList<T> {
    values: Vec<T>,
    links: Vec<Link>,
    head: Option<usize>,
    tail: Option<usize>,
    length: usize,
    /// The slots of the nodes in the list, from head to tail.
    order: Ghost<Seq<usize>>,
}

/// The index of the first element of `s` equal (by `eq_spec`) to `v`, if any.
pub open spec fn first_match<T: PartialEq>(s: Seq<T>, v: T) -> Option<int>
    decreases s.len(),
{
    if s.len() == 0 {
        None
    } else if s[0].eq_spec(&v) {
        Some(0)
    } else {
        match first_match(s.drop_first(), v) {
            Some(i) => Some(i + 1),
            None => None,
        }
    }
}

/// `first_match` picks the least index whose element equals `v`.
pub proof fn lemma_first_match<T: PartialEq>(s: Seq<T>, v: T)
    ensures
        match first_match(s, v) {
            Some(k) => 0 <= k < s.len() && s[k].eq_spec(&v) && forall|j: int|
                0 <= j < k ==> !(#[trigger] s[j]).eq_spec(&v),
            None => forall|j: int| 0 <= j < s.len() ==> !(#[trigger] s[j]).eq_spec(&v),
        },
    decreases s.len(),
{
    if s.len() > 0 {
        lemma_first_match(s.drop_first(), v);
        if !s[0].eq_spec(&v) {
            assert forall|j: int| 1 <= j < s.len() implies s[j] == s.drop_first()[j - 1] by {}
        }
    }
}

/// Deleting a value just inserted into a list that held no equal value
/// gives back the list as it was.
pub proof fn law_delete_undoes_insert<T: PartialEq>(s: Seq<T>, v: T)
    requires
        v.eq_spec(&v),
        forall|j: int| 0 <= j < s.len() ==> !(#[trigger] s[j]).eq_spec(&v),
    ensures
        first_match(s.push(v), v) == Some(s.len() as int),
        s.push(v).remove(s.len() as int) == s,
{
    let t = s.push(v);
    lemma_first_match(t, v);
    assert(t[s.len() as int] == v);
    match first_match(t, v) {
        Some(k) => {
            if k < s.len() {
                assert(t[k] == s[k]);
            }
        },
        None => {},
    }
    assert(t.remove(s.len() as int) =~= s);
}

impl<T> View for DoublyLinkedList<T> {
    type V = Seq<T>;

    closed spec fn view(&self) -> Seq<T> {
        self.order@.map_values(|i: usize| self.values@[i as int])
    }
}

impl<T> DoublyLinkedList<T> {
    /// The nodes in `order` are distinct slots of the arena, linked to one
    /// another in that order, with `head` and `tail` at its ends.
    pub closed spec fn wf(&self) -> bool {
        let order = self.order@;
        &&& self.values@.len() == self.links@.len()
        &&& order.len() <= self.values@.len()
        &&& self.length == order.len()
        &&& forall|k: int| 0 <= k < order.len() ==> #[trigger] order[k] < self.values@.len()
        &&& forall|a: int, b: int| 0 <= a < b < order.len() ==> order[a] != order[b]
        &&& self.head == if order.len() == 0 { None } else { Some(order[0]) }
        &&& self.tail == if order.len() == 0 { None } else { Some(order.last()) }
        &&& linked_in_order(self.links@, order)
    }

    pub fn new() -> (l: Self)
        ensures
            l.wf(),
            l@ == Seq::<T>::empty(),
    {
        let l = Self {
            values: Vec::new(),
            links: Vec::new(),
            head: None,
            tail: None,
            length: 0,
            order: Ghost(Seq::empty()),
        };
        assert(l@ =~= Seq::<T>::empty());
        l
    }

    /// The number of values in the list.
    pub fn length(&self) -> (n: usize)
        requires
            self.wf(),
        ensures
            n == self@.len(),
    {
        self.length
    }

    /// Appends `value` at the tail.
    pub fn insert(&mut self, value: T)
        requires
            old(self).wf(),
        ensures
            final(self).wf(),
            final(self)@ == old(self)@.push(value),
    {
        let n = self.values.len();
        let ghost order = self.order@;
        self.values.push(value);
        let grown = self.values.len();
        assert(grown == n + 1 && self.length <= n);
        self.links.push(Link { prev: self.tail, next: None });
        match self.tail {
            Some(t) => {
                let link = self.links[t];
                self.links.set(t, Link { prev: link.prev, next: Some(n) });
            },
            None => {
                self.head = Some(n);
            },
        }
        self.tail = Some(n);
        self.length = self.length + 1;
        self.order = Ghost(order.push(n));
        proof {
            let new_order = self.order@;
            assert forall|k: int| 0 <= k < order.len() implies new_order[k] != n by {}
            assert forall|k: int| 0 <= k < new_order.len() implies (#[trigger] self.links@[new_order[k] as int]).next
                == if k + 1 < new_order.len() { Some(new_order[k + 1]) } else { None } by {
                if k + 1 < order.len() {
                    assert(new_order[k] != order.last());
                }
            }
            assert forall|k: int| 0 <= k < new_order.len() implies (#[trigger] self.links@[new_order[k] as int]).prev
                == if k > 0 { Some(new_order[k - 1]) } else { None } by {
                if k < order.len() && k + 1 == order.len() {
                    assert(new_order[k] == order.last());
                }
            }
            assert(self@ =~= old(self)@.push(value));
        }
    }

    /// Unlinks the node of the first value equal to `value`; returns whether
    /// one was found.
    pub fn delete(&mut self, value: &T) -> (found: bool)
        where
            T: PartialEq,
        requires
            old(self).wf(),
            T::obeys_eq_spec(),
        ensures
            final(self).wf(),
            found == first_match(old(self)@, *value).is_some(),
            match first_match(old(self)@, *value) {
                Some(i) => final(self)@ == old(self)@.remove(i),
                None => final(self)@ == old(self)@,
            },
    {
        let ghost order = self.order@;
        let ghost view = self@;
        let mut current = self.head;
        let mut k: usize = 0;
        while k < self.length
            invariant
                self.wf(),
                self.order@ == order,
                self@ == view,
                view.len() == order.len(),
                *self == *old(self),
                T::obeys_eq_spec(),
                k <= order.len(),
                current == if k < order.len() { Some(order[k as int]) } else { None::<usize> },
                forall|j: int| 0 <= j < k ==> !(#[trigger] view[j]).eq_spec(value),
            decreases order.len() - k,
        {
            let i = match current {
                Some(i) => i,
                None => {
                    return false;
                },
            };
            assert(view[k as int] == self.values@[i as int]);
            if self.values[i] == *value {
                proof {
                    lemma_first_match(view, *value);
                }
                let link = self.links[i];
                match link.prev {
                    Some(p) => {
                        let pl = self.links[p];
                        self.links.set(p, Link { prev: pl.prev, next: link.next });
                    },
                    None => {
                        self.head = link.next;
                    },
                }
                match link.next {
                    Some(nx) => {
                        let nl = self.links[nx];
                        self.links.set(nx, Link { prev: link.prev, next: nl.next });
                    },
                    None => {
                        self.tail = link.prev;
                    },
                }
                self.length = self.length - 1;
                self.order = Ghost(order.remove(k as int));
                proof {
                    lemma_unlinked(order, old(self).links@, self.links@, k as int);
                    assert(self@ =~= view.remove(k as int));
                }
                return true;
            }
            current = self.links[i].next;
            k = k + 1;
        }
        proof {
            lemma_first_match(view, *value);
        }
        false
    }
}

/// Each node in `order` is linked to the nodes before and after it there.
pub open spec fn linked_in_order(links: Seq<Link>, order: Seq<usize>) -> bool {
    &&& forall|j: int|
        0 <= j < order.len() ==> (#[trigger] links[order[j] as int]).next == if j + 1 < order.len() {
            Some(order[j + 1])
        } else {
            None
        }
    &&& forall|j: int|
        0 <= j < order.len() ==> (#[trigger] links[order[j] as int]).prev == if j > 0 {
            Some(order[j - 1])
        } else {
            None
        }
}

/// The links after unlinking the node at position `k` of `order`: its
/// neighbours point past it, and no other link changes.
pub open spec fn unlinked(order: Seq<usize>, before: Seq<Link>, after: Seq<Link>, k: int) -> bool {
    &&& after.len() == before.len()
    &&& forall|i: int|
        0 <= i < before.len() && (k == 0 || i != order[k - 1]) && (k + 1 >= order.len() || i != order[k + 1])
            ==> #[trigger] after[i] == before[i]
    &&& k > 0 ==> after[order[k - 1] as int] == (Link {
        prev: before[order[k - 1] as int].prev,
        next: before[order[k] as int].next,
    })
    &&& k + 1 < order.len() ==> after[order[k + 1] as int] == (Link {
        prev: before[order[k] as int].prev,
        next: before[order[k + 1] as int].next,
    })
}

/// Unlinking the node at position `k` of `order` keeps the links of the other
/// nodes consistent with the order without it.
proof fn lemma_unlinked(order: Seq<usize>, before: Seq<Link>, after: Seq<Link>, k: int)
    requires
        0 <= k < order.len(),
        forall|j: int| 0 <= j < order.len() ==> #[trigger] order[j] < before.len(),
        forall|a: int, b: int| 0 <= a < b < order.len() ==> order[a] != order[b],
        linked_in_order(before, order),
        unlinked(order, before, after, k),
    ensures
        linked_in_order(after, order.remove(k)),
{
    let rest = order.remove(k);
    assert forall|j: int| 0 <= j < rest.len() implies (#[trigger] after[rest[j] as int]).next == (if j + 1
        < rest.len() {
        Some(rest[j + 1])
    } else {
        None
    }) by {
        let o = if j < k { j } else { j + 1 };
        assert(rest[j] == order[o]);
        if j + 1 < rest.len() {
            let o2 = if j + 1 < k { j + 1 } else { j + 2 };
            assert(rest[j + 1] == order[o2]);
        }
    }
    assert forall|j: int| 0 <= j < rest.len() implies (#[trigger] after[rest[j] as int]).prev == (if j > 0 {
        Some(rest[j - 1])
    } else {
        None
    }) by {
        let o = if j < k { j } else { j + 1 };
        assert(rest[j] == order[o]);
        if j > 0 {
            let o2 = if j - 1 < k { j - 1 } else { j };
            assert(rest[j - 1] == order[o2]);
        }
    }
}

} // verus!
