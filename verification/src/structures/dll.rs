use std::collections::HashMap;
use vstd::prelude::*;

verus! {

broadcast use vstd::std_specs::hash::group_hash_axioms;

/// Something with an identifier under which a list stores it.
pub trait HasId {
    /// The identifier, as a value.
    spec fn spec_id(&self) -> usize;

    /// The identifier.
    fn id(&self) -> (r: usize)
        ensures
            r == self.spec_id(),
    ;
}

/// A list entry: the value and the identifiers of its neighbours.
pub struct Node<T: HasId> {
    pub value: T,
    pub prev: Option<usize>,
    pub next: Option<usize>,
}

impl<T: HasId> Node<T> {
    /// An entry with no neighbours.
    pub fn new(value: T) -> (r: Self)
        ensures
            r.value == value,
            r.prev is None,
            r.next is None,
    {
        Node { value, prev: None, next: None }
    }
}

/// A doubly linked list whose entries live in a map keyed by their identifiers.
///
/// `order` is the sequence of identifiers from head to tail.
pub struct DoublyLinkedList<T: HasId> {
    pub nodes: HashMap<usize, Node<T>>,
    pub head: Option<usize>,
    pub tail: Option<usize>,
    pub order: Ghost<Seq<usize>>,
}

/// The first element of `s`, if any.
pub open spec fn first_of(s: Seq<usize>) -> Option<usize> {
    if s.len() > 0 {
        Some(s[0])
    } else {
        None
    }
}

/// The last element of `s`, if any.
pub open spec fn last_of(s: Seq<usize>) -> Option<usize> {
    if s.len() > 0 {
        Some(s.last())
    } else {
        None
    }
}

/// The element of `s` before position `i`, if any.
pub open spec fn before(s: Seq<usize>, i: int) -> Option<usize> {
    if i > 0 {
        Some(s[i - 1])
    } else {
        None
    }
}

/// The element of `s` after position `i`, if any.
pub open spec fn after(s: Seq<usize>, i: int) -> Option<usize> {
    if i + 1 < s.len() {
        Some(s[i + 1])
    } else {
        None
    }
}

/// Calls `HashMap::get_mut`: a mutable reference to the value stored at `k`, if there is one,
/// and whatever is written through it becomes the map's value at `k`; without a value at `k`
/// the map is left as it is.
#[verifier::external_body]
fn map_get_mut<'a, V>(m: &'a mut HashMap<usize, V>, k: &usize) -> (r: Option<&'a mut V>)
    ensures
        old(m)@.contains_key(*k) ==> r.is_some() && *r.unwrap() == old(m)@[*k] && final(m)@
            == old(m)@.insert(*k, *final(r.unwrap())),
        !old(m)@.contains_key(*k) ==> r.is_none() && final(m)@ == old(m)@,
{
    m.get_mut(k)
}

impl<T: HasId> DoublyLinkedList<T> {
    /// The identifiers from head to tail.
    pub open spec fn seq(&self) -> Seq<usize> {
        self.order@
    }

    /// The stored values by identifier.
    pub open spec fn values(&self) -> Map<usize, T> {
        self.nodes@.map_values(|n: Node<T>| n.value)
    }

    /// The links agree with `order`: every identifier occurs once, the map holds exactly
    /// those, `head` and `tail` are its ends, and each entry points at its neighbours in it.
    pub open spec fn wf(&self) -> bool {
        let s = self.order@;
        &&& s.no_duplicates()
        &&& forall|k: usize| #[trigger] self.nodes@.contains_key(k) <==> s.contains(k)
        &&& self.head == first_of(s)
        &&& self.tail == last_of(s)
        &&& forall|i: int|
            0 <= i < s.len() ==> (#[trigger] self.nodes@[s[i]]).prev == before(s, i)
                && self.nodes@[s[i]].next == after(s, i)
    }

    /// An empty list.
    pub fn new() -> (r: Self)
        ensures
            r.wf(),
            r.seq() == Seq::<usize>::empty(),
            r.values() == Map::<usize, T>::empty(),
    {
        let r = DoublyLinkedList {
            nodes: HashMap::new(),
            head: None,
            tail: None,
            order: Ghost(Seq::empty()),
        };
        assert(r.values() =~= Map::<usize, T>::empty());
        r
    }

    /// The identifiers from head to tail.
    pub fn ids(&self) -> (r: Vec<usize>)
        requires
            self.wf(),
        ensures
            r@ == self.seq(),
    {
        let ghost s = self.order@;
        let mut ids: Vec<usize> = Vec::new();
        let mut current = self.head;
        while current.is_some()
            invariant
                self.wf(),
                s == self.order@,
                ids@.len() <= s.len(),
                ids@ == s.take(ids@.len() as int),
                current == (if ids@.len() < s.len() {
                    Some(s[ids@.len() as int])
                } else {
                    None::<usize>
                }),
            decreases s.len() - ids@.len(),
        {
            let id = current.unwrap();
            let ghost i = ids@.len() as int;
            assert(self.nodes@.contains_key(id));
            ids.push(id);
            current = match self.nodes.get(&id) {
                Some(node) => node.next,
                None => None,
            };
            assert(ids@ =~= s.take(i + 1));
        }
        assert(ids@ =~= s);
        ids
    }

    /// Whether the list has no entries.
    pub fn _is_empty(&self) -> (r: bool)
        requires
            self.wf(),
        ensures
            r == (self.seq().len() == 0),
    {
        self.head.is_none()
    }

    /// The entry with identifier `id`, if there is one.
    pub fn get_node(&self, id: &usize) -> (r: Option<&Node<T>>)
        ensures
            match r {
                Some(n) => self.nodes@.contains_key(*id) && *n == self.nodes@[*id],
                None => !self.nodes@.contains_key(*id),
            },
    {
        self.nodes.get(id)
    }

    /// The entry with identifier `id`, to change in place, if there is one.
    pub fn get_node_mut(&mut self, id: &usize) -> (r: Option<&mut Node<T>>)
        ensures
            final(self).head == old(self).head,
            final(self).tail == old(self).tail,
            final(self).order == old(self).order,
            old(self).nodes@.contains_key(*id) ==> r.is_some() && *r.unwrap()
                == old(self).nodes@[*id] && final(self).nodes@ == old(self).nodes@.insert(
                *id,
                *final(r.unwrap()),
            ),
            !old(self).nodes@.contains_key(*id) ==> r.is_none() && final(self).nodes@ == old(
                self,
            ).nodes@,
    {
        map_get_mut(&mut self.nodes, id)
    }

    /// Appends `value` at the tail.
    ///
    /// Its identifier must not be in the list yet.
    pub fn push_back(&mut self, value: T)
        requires
            old(self).wf(),
            !old(self).nodes@.contains_key(value.spec_id()),
        ensures
            final(self).wf(),
            final(self).seq() == old(self).seq().push(value.spec_id()),
            final(self).values() == old(self).values().insert(value.spec_id(), value),
    {
        let ghost s = self.order@;
        let ghost old_nodes = self.nodes@;
        let id = value.id();
        let mut new_node = Node::new(value);
        new_node.prev = self.tail;
        self.nodes.insert(id, new_node);
        match self.tail {
            Some(old_tail_id) => {
                assert(s.contains(old_tail_id));
                match map_get_mut(&mut self.nodes, &old_tail_id) {
                    Some(n) => {
                        n.next = Some(id);
                    },
                    None => {},
                }
            },
            None => {
                self.head = Some(id);
            },
        }
        self.tail = Some(id);
        self.order = Ghost(s.push(id));
        proof {
            let t = self.order@;
            assert(!s.contains(id));
            assert forall|k: usize| #[trigger] self.nodes@.contains_key(k) <==> t.contains(k) by {
                if t.contains(k) && k != id {
                    let j = t.index_of(k);
                    assert(s[j] == k);
                }
                if k == id {
                    assert(t[s.len() as int] == id);
                } else if s.contains(k) {
                    let j = s.index_of(k);
                    assert(t[j] == k);
                }
            }
            assert forall|i: int| 0 <= i < t.len() implies (#[trigger] self.nodes@[t[i]]).prev
                == before(t, i) && self.nodes@[t[i]].next == after(t, i) by {
                if i < s.len() {
                    assert(t[i] == s[i]);
                    assert(old_nodes[s[i]].prev == before(s, i));
                }
            }
            assert(self.values() =~= old_nodes.map_values(|n: Node<T>| n.value).insert(id, value));
        }
    }

    /// Inserts `value` at the head.
    ///
    /// Its identifier must not be in the list yet.
    pub fn _push_front(&mut self, value: T)
        requires
            old(self).wf(),
            !old(self).nodes@.contains_key(value.spec_id()),
        ensures
            final(self).wf(),
            final(self).seq() == seq![value.spec_id()] + old(self).seq(),
            final(self).values() == old(self).values().insert(value.spec_id(), value),
    {
        let ghost s = self.order@;
        let ghost old_nodes = self.nodes@;
        let id = value.id();
        let mut new_node = Node::new(value);
        new_node.next = self.head;
        self.nodes.insert(id, new_node);
        match self.head {
            Some(old_head_id) => {
                assert(s.contains(old_head_id));
                match map_get_mut(&mut self.nodes, &old_head_id) {
                    Some(n) => {
                        n.prev = Some(id);
                    },
                    None => {},
                }
            },
            None => {
                self.tail = Some(id);
            },
        }
        self.head = Some(id);
        self.order = Ghost(seq![id] + s);
        proof {
            let t = self.order@;
            assert(!s.contains(id));
            assert forall|k: usize| #[trigger] self.nodes@.contains_key(k) <==> t.contains(k) by {
                if t.contains(k) && k != id {
                    let j = t.index_of(k);
                    assert(s[j - 1] == k);
                }
                if s.contains(k) {
                    let j = s.index_of(k);
                    assert(t[j + 1] == k);
                }
                if k == id {
                    assert(t[0] == id);
                }
            }
            assert forall|i: int| 0 <= i < t.len() implies (#[trigger] self.nodes@[t[i]]).prev
                == before(t, i) && self.nodes@[t[i]].next == after(t, i) by {
                if i > 0 {
                    assert(t[i] == s[i - 1]);
                    assert(old_nodes[s[i - 1]].next == after(s, i - 1));
                }
            }
            assert(t.no_duplicates());
            assert(self.values() =~= old_nodes.map_values(|n: Node<T>| n.value).insert(id, value));
        }
    }

    /// Unlinks the entry with identifier `id` and returns its value; `None` when there is
    /// no such entry.
    pub fn remove(&mut self, id: &usize) -> (r: Option<T>)
        requires
            old(self).wf(),
        ensures
            final(self).wf(),
            match r {
                Some(v) => {
                    &&& old(self).seq().contains(*id)
                    &&& v == old(self).values()[*id]
                    &&& final(self).seq() == old(self).seq().remove(old(self).seq().index_of(*id))
                    &&& final(self).values() == old(self).values().remove(*id)
                },
                None => {
                    &&& !old(self).seq().contains(*id)
                    &&& final(self).seq() == old(self).seq()
                    &&& final(self).values() == old(self).values()
                },
            },
    {
        let ghost s = self.order@;
        let ghost old_nodes = self.nodes@;
        let node = match self.nodes.remove(id) {
            Some(n) => n,
            None => {
                return None;
            },
        };
        let ghost i = s.index_of(*id);
        proof {
            assert(s[i] == *id);
            assert(node == old_nodes[s[i]]);
        }
        let ghost mid_nodes = self.nodes@;
        match node.prev {
            Some(prev_id) => {
                assert(prev_id == s[i - 1]);
                assert(self.nodes@.contains_key(prev_id));
                match map_get_mut(&mut self.nodes, &prev_id) {
                    Some(p) => {
                        p.next = node.next;
                    },
                    None => {},
                }
            },
            None => {
                self.head = node.next;
            },
        }
        let ghost mid2_nodes = self.nodes@;
        match node.next {
            Some(next_id) => {
                assert(next_id == s[i + 1]);
                assert(self.nodes@.contains_key(next_id));
                match map_get_mut(&mut self.nodes, &next_id) {
                    Some(n) => {
                        n.prev = node.prev;
                    },
                    None => {},
                }
            },
            None => {
                self.tail = node.prev;
            },
        }
        self.order = Ghost(s.remove(i));
        proof {
            let t = self.order@;
            assert forall|j: int| 0 <= j < t.len() implies t[j] == (if j < i {
                s[j]
            } else {
                s[j + 1]
            }) by {}
            assert forall|k: usize| #[trigger] self.nodes@.contains_key(k) <==> t.contains(k) by {
                if t.contains(k) {
                    let j = t.index_of(k);
                    if j < i {
                        assert(s[j] == k);
                    } else {
                        assert(s[j + 1] == k);
                    }
                }
                if self.nodes@.contains_key(k) {
                    assert(s.contains(k));
                    let j = s.index_of(k);
                    assert(k != *id);
                    assert(j != i);
                    if j < i {
                        assert(t[j] == k);
                    } else {
                        assert(t[j - 1] == k);
                    }
                }
            }
            assert forall|j: int| 0 <= j < t.len() implies (#[trigger] self.nodes@[t[j]]).prev
                == before(t, j) && self.nodes@[t[j]].next == after(t, j) by {
                if j < i {
                    assert(t[j] == s[j]);
                    assert(old_nodes[s[j]].prev == before(s, j));
                    assert(old_nodes[s[j]].next == after(s, j));
                } else {
                    assert(t[j] == s[j + 1]);
                    assert(old_nodes[s[j + 1]].prev == before(s, j + 1));
                    assert(old_nodes[s[j + 1]].next == after(s, j + 1));
                }
            }
            assert(t.no_duplicates()) by {
                assert forall|a: int, b: int| 0 <= a < b < t.len() implies t[a] != t[b] by {
                    let a2 = if a < i { a } else { a + 1 };
                    let b2 = if b < i { b } else { b + 1 };
                    assert(t[a] == s[a2] && t[b] == s[b2]);
                }
            }
            assert(self.values() =~= old_nodes.map_values(|n: Node<T>| n.value).remove(*id));
        }
        Some(node.value)
    }

    /// The value stored under `id`, if any.
    pub fn _get(&self, id: &usize) -> (r: Option<&T>)
        ensures
            match r {
                Some(v) => self.values().contains_key(*id) && *v == self.values()[*id],
                None => !self.values().contains_key(*id),
            },
    {
        match self.nodes.get(id) {
            Some(node) => Some(&node.value),
            None => None,
        }
    }

    /// The value stored under `id`, to change in place, if any.
    pub fn _get_mut(&mut self, id: &usize) -> (r: Option<&mut T>)
        ensures
            final(self).head == old(self).head,
            final(self).tail == old(self).tail,
            final(self).order == old(self).order,
            old(self).nodes@.contains_key(*id) ==> r.is_some() && *r.unwrap()
                == old(self).nodes@[*id].value && final(self).nodes@ == old(self).nodes@.insert(
                *id,
                Node { value: *final(r.unwrap()), ..old(self).nodes@[*id] },
            ),
            !old(self).nodes@.contains_key(*id) ==> r.is_none() && final(self).nodes@ == old(
                self,
            ).nodes@,
    {
        match map_get_mut(&mut self.nodes, id) {
            Some(node) => Some(&mut node.value),
            None => None,
        }
    }

    /// Removes the head entry and returns its value; `None` on an empty list.
    pub fn _pop_front(&mut self) -> (r: Option<T>)
        requires
            old(self).wf(),
        ensures
            final(self).wf(),
            old(self).seq().len() == 0 ==> r is None && final(self).seq() == old(self).seq(),
            old(self).seq().len() > 0 ==> r == Some(old(self).values()[old(self).seq()[0]])
                && final(self).seq() == old(self).seq().drop_first() && final(self).values()
                == old(self).values().remove(old(self).seq()[0]),
    {
        let id = match self.head {
            Some(id) => id,
            None => {
                return None;
            },
        };
        proof {
            assert(self.order@.index_of(id) == 0) by {
                assert(self.order@[0] == id);
            }
            assert(self.order@.remove(0) =~= self.order@.drop_first());
        }
        self.remove(&id)
    }

    /// Removes the tail entry and returns its value; `None` on an empty list.
    pub fn _pop_back(&mut self) -> (r: Option<T>)
        requires
            old(self).wf(),
        ensures
            final(self).wf(),
            old(self).seq().len() == 0 ==> r is None && final(self).seq() == old(self).seq(),
            old(self).seq().len() > 0 ==> r == Some(old(self).values()[old(self).seq().last()])
                && final(self).seq() == old(self).seq().drop_last() && final(self).values()
                == old(self).values().remove(old(self).seq().last()),
    {
        let id = match self.tail {
            Some(id) => id,
            None => {
                return None;
            },
        };
        proof {
            let s = self.order@;
            assert(s.index_of(id) == s.len() - 1) by {
                assert(s[s.len() - 1] == id);
            }
            assert(s.remove(s.len() - 1) =~= s.drop_last());
        }
        self.remove(&id)
    }
}

} // verus!

verus! {

/// Appending a value and then popping the tail gives back that value and the list as it was.
pub proof fn lemma_push_back_pop_back<T>(s: Seq<usize>, vals: Map<usize, T>, id: usize, v: T)
    requires
        !vals.contains_key(id),
    ensures
        s.push(id).len() > 0,
        s.push(id).drop_last() == s,
        vals.insert(id, v)[s.push(id).last()] == v,
        vals.insert(id, v).remove(s.push(id).last()) == vals,
{
    assert(s.push(id).drop_last() =~= s);
    assert(vals.insert(id, v).remove(id) =~= vals);
}

/// Prepending a value and then popping the head gives back that value and the list as it
/// was.
pub proof fn lemma_push_front_pop_front<T>(s: Seq<usize>, vals: Map<usize, T>, id: usize, v: T)
    requires
        !vals.contains_key(id),
    ensures
        (seq![id] + s).len() > 0,
        (seq![id] + s).drop_first() == s,
        vals.insert(id, v)[(seq![id] + s)[0]] == v,
        vals.insert(id, v).remove((seq![id] + s)[0]) == vals,
{
    assert((seq![id] + s).drop_first() =~= s);
    assert(vals.insert(id, v).remove(id) =~= vals);
}

/// Appending a value and then removing it by its identifier gives back that value and the
/// list as it was.
pub proof fn lemma_push_back_remove<T>(s: Seq<usize>, vals: Map<usize, T>, id: usize, v: T)
    requires
        s.no_duplicates(),
        !s.contains(id),
        !vals.contains_key(id),
    ensures
        s.push(id).contains(id),
        s.push(id).remove(s.push(id).index_of(id)) == s,
        vals.insert(id, v)[id] == v,
        vals.insert(id, v).remove(id) == vals,
{
    let t = s.push(id);
    assert(t[s.len() as int] == id);
    let i = t.index_of(id);
    assert(t[i] == id);
    if i < s.len() {
        assert(s[i] == id);
    }
    assert(i == s.len());
    assert(t.remove(i) =~= s);
    assert(vals.insert(id, v).remove(id) =~= vals);
}

} // verus!
