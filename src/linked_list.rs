//! A doubly-linked list whose nodes live in an arena owned by the list
//! handle. Links are arena slots rather than pointers, so each node is owned
//! by exactly one place (the arena) and `next`/`prev` only navigate.
//!
//! Only head operations are offered, so the head node is always the most
//! recently filled slot: the node at list position `k` sits in slot
//! `len - 1 - k`, `next` points one slot down and `prev` one slot up.
use vstd::prelude::*;

verus! {

/// One unit of storage: a value and the slots of its two neighbours.
struct Node<T> {
    val: T,
    next: Option<usize>,
    prev: Option<usize>,
}

impl<T> Node<T> {
    fn new(t: T) -> (n: Node<T>)
        ensures
            n.val == t,
            n.next is None,
            n.prev is None,
    {
        Node { val: t, prev: None, next: None }
    }
}

/// The list handle: the count of live nodes, the head and tail slots, and
/// the arena that owns every node.
pub struct LinkedList<T> {
    length: usize,
    head: Option<usize>,
    tail: Option<usize>,
    nodes: Vec<Node<T>>,
}

/// Slot of the node at list position `k` in an arena of `n` nodes.
pub open spec fn slot_of(n: int, k: int) -> int {
    n - 1 - k
}

impl<T> View for LinkedList<T> {
    type V = Seq<T>;

    /// The values from head to tail.
    closed spec fn view(&self) -> Seq<T> {
        let n = self.nodes@.len() as int;
        Seq::new(n as nat, |k: int| self.nodes@[slot_of(n, k)].val)
    }
}

impl<T> LinkedList<T> {
    /// The arena layout described at the top of this module, with the
    /// count, head and tail kept in step with it.
    pub closed spec fn well_formed(&self) -> bool {
        let n = self.nodes@.len() as int;
        &&& self.length as int == n
        &&& self.head == (if n == 0 { None } else { Some((n - 1) as usize) })
        &&& self.tail == (if n == 0 { None } else { Some(0usize) })
        &&& forall|i: int|
            0 <= i < n ==> (#[trigger] self.nodes@[i]).next == (if i == 0 {
                None
            } else {
                Some((i - 1) as usize)
            })
        &&& forall|i: int|
            0 <= i < n ==> (#[trigger] self.nodes@[i]).prev == (if i + 1 == n {
                None
            } else {
                Some((i + 1) as usize)
            })
    }

    /// Slot reached from slot `from` after `steps` moves along `next`
    /// (or along `prev` when `forward` is false); `None` once a link is
    /// absent.
    pub closed spec fn walk(&self, from: Option<usize>, steps: nat, forward: bool) -> Option<usize>
        decreases steps,
    {
        if steps == 0 {
            from
        } else {
            match self.walk(from, (steps - 1) as nat, forward) {
                None => None,
                Some(i) => if i < self.nodes@.len() {
                    if forward {
                        self.nodes@[i as int].next
                    } else {
                        self.nodes@[i as int].prev
                    }
                } else {
                    None
                },
            }
        }
    }

    /// Whether `i` is the slot of a live node.
    pub closed spec fn live(&self, i: usize) -> bool {
        i < self.nodes@.len()
    }

    /// The `next` link of the node in slot `i`.
    pub closed spec fn next_of(&self, i: usize) -> Option<usize> {
        self.nodes@[i as int].next
    }

    /// The `prev` link of the node in slot `i`.
    pub closed spec fn prev_of(&self, i: usize) -> Option<usize> {
        self.nodes@[i as int].prev
    }

    /// The value held by the node in slot `i`.
    pub closed spec fn value_of(&self, i: usize) -> T {
        self.nodes@[i as int].val
    }

    /// The count of live nodes the handle records.
    pub closed spec fn count(&self) -> nat {
        self.length as nat
    }

    /// The head slot the handle records.
    pub closed spec fn head_slot(&self) -> Option<usize> {
        self.head
    }

    /// The tail slot the handle records.
    pub closed spec fn tail_slot(&self) -> Option<usize> {
        self.tail
    }

    /// The invariants a doubly-linked list keeps between operations:
    /// head, tail and count agree on emptiness; a single node is both head
    /// and tail with no links; every forward link is mirrored by a backward
    /// link and the other way round; the head has no `prev` and the tail no
    /// `next`; walking `next` from the head visits `count` nodes holding the
    /// list's values in order, and walking `prev` from the tail visits the
    /// same nodes in reverse.
    pub open spec fn links_consistent(&self) -> bool {
        let n = self.count();
        &&& (self.head_slot() is None) == (self.tail_slot() is None)
        &&& (self.head_slot() is None) == (n == 0)
        &&& n == self@.len()
        &&& n == 1 ==> {
            &&& self.head_slot() == self.tail_slot()
            &&& self.prev_of(self.head_slot()->0) is None
            &&& self.next_of(self.head_slot()->0) is None
        }
        &&& forall|i: usize|
            self.live(i) && #[trigger] self.next_of(i) is Some ==> self.live(self.next_of(i)->0)
                && self.prev_of(self.next_of(i)->0) == Some(i)
        &&& forall|i: usize|
            self.live(i) && #[trigger] self.prev_of(i) is Some ==> self.live(self.prev_of(i)->0)
                && self.next_of(self.prev_of(i)->0) == Some(i)
        &&& self.head_slot() matches Some(h) ==> self.live(h) && self.prev_of(h) is None
        &&& self.tail_slot() matches Some(t) ==> self.live(t) && self.next_of(t) is None
        &&& forall|k: nat|
            k < n ==> {
                &&& #[trigger] self.walk(self.head_slot(), k, true) is Some
                &&& self.live(self.walk(self.head_slot(), k, true)->0)
                &&& self.value_of(self.walk(self.head_slot(), k, true)->0) == self@[k as int]
                &&& self.walk(self.tail_slot(), k, false) == self.walk(
                    self.head_slot(),
                    (n - 1 - k) as nat,
                    true,
                )
            }
        &&& self.walk(self.head_slot(), n, true) is None
        &&& self.walk(self.tail_slot(), n, false) is None
    }

    proof fn lemma_walks(&self, k: nat)
        requires
            self.well_formed(),
            k <= self.nodes@.len(),
        ensures
            self.walk(self.head, k, true) == (if k == self.nodes@.len() {
                None
            } else {
                Some((self.nodes@.len() - 1 - k) as usize)
            }),
            self.walk(self.tail, k, false) == (if k == self.nodes@.len() {
                None
            } else {
                Some(k as usize)
            }),
        decreases k,
    {
        if k > 0 {
            self.lemma_walks((k - 1) as nat);
        }
    }

    /// A well-formed list keeps every invariant of a doubly-linked list;
    /// together with `well_formed` in the `ensures` of `new`,
    /// `insert_at_head` and `delete_head`, they hold after any sequence of
    /// those calls.
    pub proof fn lemma_links_consistent(&self)
        requires
            self.well_formed(),
        ensures
            self.links_consistent(),
    {
        let n = self.nodes@.len();
        assert forall|k: nat| k < n implies {
            &&& #[trigger] self.walk(self.head_slot(), k, true) is Some
            &&& self.live(self.walk(self.head_slot(), k, true)->0)
            &&& self.value_of(self.walk(self.head_slot(), k, true)->0) == self@[k as int]
            &&& self.walk(self.tail_slot(), k, false) == self.walk(
                self.head_slot(),
                (n - 1 - k) as nat,
                true,
            )
        } by {
            self.lemma_walks(k);
            self.lemma_walks((n - 1 - k) as nat);
        }
        self.lemma_walks(n);
        assert forall|i: usize|
            self.live(i) && #[trigger] self.next_of(i) is Some implies self.live(self.next_of(i)->0)
                && self.prev_of(self.next_of(i)->0) == Some(i) by {
            let j = self.next_of(i)->0;
            assert(self.nodes@[i as int].next == Some(j));
            assert(self.nodes@[j as int].prev == Some((j + 1) as usize));
        }
        assert forall|i: usize|
            self.live(i) && #[trigger] self.prev_of(i) is Some implies self.live(self.prev_of(i)->0)
                && self.next_of(self.prev_of(i)->0) == Some(i) by {
            let j = self.prev_of(i)->0;
            assert(self.nodes@[i as int].prev == Some(j));
            assert(self.nodes@[j as int].next == Some((j - 1) as usize));
        }
        if n > 0 {
            assert(self.nodes@[n - 1].prev is None);
            assert(self.nodes@[0].next is None);
        }
    }

    /// Creates an empty list.
    pub fn new() -> (l: Self)
        ensures
            l.well_formed(),
            l@ == Seq::<T>::empty(),
    {
        let l = LinkedList { length: 0, head: None, tail: None, nodes: Vec::new() };
        assert(l@ =~= Seq::<T>::empty());
        l
    }

    /// Puts `obj` in front of the first value.
    pub fn insert_at_head(&mut self, obj: T)
        requires
            old(self).well_formed(),
            old(self)@.len() < usize::MAX,
        ensures
            final(self).well_formed(),
            final(self)@ == old(self)@.insert(0, obj),
    {
        let ghost before = self@;
        let n = self.length;
        let mut node = Node::new(obj);
        node.next = self.head;
        node.prev = None;
        match self.head {
            None => {
                self.tail = Some(n);
            },
            Some(h) => {
                // The old head fills the last slot: take it out, link it back
                // to the new node and put it back.
                let mut old_head = self.nodes.pop().unwrap();
                old_head.prev = Some(n);
                self.nodes.push(old_head);
                assert(h == n - 1);
            },
        }
        self.nodes.push(node);
        self.head = Some(n);
        self.length = n + 1;
        assert(self@ =~= before.insert(0, obj));
    }

    /// Removes the first value and hands it back; `None` on an empty list,
    /// which stays as it was.
    pub fn delete_head(&mut self) -> (r: Option<T>)
        requires
            old(self).well_formed(),
        ensures
            final(self).well_formed(),
            old(self)@.len() == 0 ==> r is None && final(self)@ == old(self)@,
            old(self)@.len() > 0 ==> r == Some(old(self)@[0]) && final(self)@
                == old(self)@.drop_first(),
    {
        let ghost before = self@;
        match self.nodes.pop() {
            None => None,
            Some(old_head) => {
                self.length = self.length - 1;
                match old_head.next {
                    Some(next) => {
                        let mut new_head = self.nodes.pop().unwrap();
                        new_head.prev = None;
                        self.nodes.push(new_head);
                        self.head = Some(next);
                    },
                    None => {
                        self.head = None;
                        self.tail = None;
                    },
                }
                assert(self@ =~= before.drop_first());
                Some(old_head.val)
            },
        }
    }

    /// The value at position `index` counted from the head, found by
    /// following `next` links; `None` for an index outside `0..len`.
    pub fn get(&self, index: i32) -> (r: Option<&T>)
        requires
            self.well_formed(),
        ensures
            r == (if 0 <= index < self@.len() {
                Some(&self@[index as int])
            } else {
                None
            }),
    {
        if index < 0 {
            return None;
        }
        let ghost n = self.nodes@.len() as int;
        let mut cur = self.head;
        let mut k: i32 = 0;
        while k < index
            invariant
                self.well_formed(),
                n == self.nodes@.len(),
                0 <= k <= index,
                k <= n ==> cur == (if k == n { None } else { Some(slot_of(n, k as int) as usize) }),
                k > n ==> cur is None,
            decreases index - k,
        {
            match cur {
                None => {
                    return None;
                },
                Some(i) => {
                    cur = self.nodes[i].next;
                },
            }
            k = k + 1;
        }
        match cur {
            None => None,
            Some(i) => Some(&self.nodes[i].val),
        }
    }
}

/// `parts` written one after another with `", "` between neighbours.
pub open spec fn joined(parts: Seq<Seq<char>>) -> Seq<char>
    decreases parts.len(),
{
    if parts.len() == 0 {
        Seq::empty()
    } else if parts.len() == 1 {
        parts[0]
    } else {
        joined(parts.drop_last()) + seq![',', ' '] + parts.last()
    }
}

/// The characters of each string of `parts`.
pub open spec fn texts_of(parts: Seq<String>) -> Seq<Seq<char>> {
    parts.map_values(|p: String| p@)
}

/// Writes `parts` one after another, separated by `", "`.
pub fn join_texts(parts: &Vec<String>) -> (r: String)
    ensures
        r@ == joined(texts_of(parts@)),
{
    let mut out = String::new();
    let mut i: usize = 0;
    while i < parts.len()
        invariant
            0 <= i <= parts@.len(),
            out@ == joined(texts_of(parts@.take(i as int))),
        decreases parts@.len() - i,
    {
        let ghost prev = out@;
        if i > 0 {
            let sep = ", ";
            proof {
                reveal_strlit(", ");
            }
            out.append(sep);
        }
        out.append(parts[i].as_str());
        proof {
            let next = texts_of(parts@.take(i + 1));
            assert(next.drop_last() =~= texts_of(parts@.take(i as int)));
            assert(next.last() == parts@[i as int]@);
            if i == 0 {
                assert(out@ =~= next[0]);
            } else {
                assert(out@ =~= prev + seq![',', ' '] + next.last());
            }
        }
        i = i + 1;
    }
    assert(parts@.take(parts@.len() as int) =~= parts@);
    out
}

impl<T> Default for LinkedList<T> {
    fn default() -> (l: Self)
        ensures
            l.well_formed(),
            l@ == Seq::<T>::empty(),
    {
        Self::new()
    }
}

impl<T: std::fmt::Display> LinkedList<T> {
    /// The values from head to tail, each in its own textual form, separated
    /// by `", "`; empty for an empty list.
    pub fn to_string(&self) -> (r: String)
        requires
            self.well_formed(),
        ensures
            exists|parts: Seq<String>|
                {
                    &&& parts.len() == self@.len()
                    &&& forall|k: int|
                        0 <= k < parts.len()
                            ==> vstd::string::to_string_from_display_ensures::<T>(
                            &self@[k],
                            #[trigger] parts[k],
                        )
                    &&& r@ == joined(texts_of(parts))
                },
    {
        let mut parts: Vec<String> = Vec::new();
        let ghost n = self.nodes@.len() as int;
        let mut cur = self.head;
        let mut k: usize = 0;
        while k < self.length
            invariant
                self.well_formed(),
                n == self.nodes@.len(),
                0 <= k <= n,
                cur == (if k == n { None } else { Some(slot_of(n, k as int) as usize) }),
                parts@.len() == k,
                forall|j: int|
                    0 <= j < k ==> vstd::string::to_string_from_display_ensures::<T>(
                        &self@[j],
                        #[trigger] parts@[j],
                    ),
            decreases n - k,
        {
            let i = cur.unwrap();
            let text = self.nodes[i].val.to_string();
            parts.push(text);
            cur = self.nodes[i].next;
            k = k + 1;
        }
        join_texts(&parts)
    }
}

/// The values of a list that held `start` after each value of `vs` was
/// inserted at the head, in the order of `vs`.
pub open spec fn after_head_inserts<T>(start: Seq<T>, vs: Seq<T>) -> Seq<T>
    decreases vs.len(),
{
    if vs.len() == 0 {
        start
    } else {
        after_head_inserts(start, vs.drop_last()).insert(0, vs.last())
    }
}

/// The values of a list that held `s` after `k` deletions of its head.
pub open spec fn after_head_deletes<T>(s: Seq<T>, k: nat) -> Seq<T>
    decreases k,
{
    if k == 0 {
        s
    } else {
        after_head_deletes(s, (k - 1) as nat).drop_first()
    }
}

/// Values inserted at the head of an empty list one after another come
/// back in reverse: position `i` holds the value inserted `i`-th from last.
pub proof fn lemma_head_inserts_reverse<T>(vs: Seq<T>)
    ensures
        after_head_inserts(Seq::empty(), vs) == vs.reverse(),
        forall|i: int|
            0 <= i < vs.len() ==> #[trigger] after_head_inserts(Seq::empty(), vs)[i] == vs[vs.len()
                - 1 - i],
    decreases vs.len(),
{
    if vs.len() > 0 {
        lemma_head_inserts_reverse(vs.drop_last());
        assert(after_head_inserts(Seq::empty(), vs) =~= vs.reverse());
    } else {
        assert(after_head_inserts(Seq::empty(), vs) =~= vs.reverse());
    }
}

/// Deleting the head of a non-empty list and inserting the removed value
/// at the head again gives back the same values, count, head and tail.
pub proof fn lemma_delete_insert_round_trip<T>(before: &LinkedList<T>, after: &LinkedList<T>)
    requires
        before.well_formed(),
        after.well_formed(),
        before@.len() > 0,
        after@ == before@.drop_first().insert(0, before@[0]),
    ensures
        after@ == before@,
        after.count() == before.count(),
        after.head_slot() == before.head_slot(),
        after.tail_slot() == before.tail_slot(),
{
    assert(after@ =~= before@);
    assert(after.nodes@.len() == after@.len());
}

proof fn lemma_head_deletes_skip<T>(s: Seq<T>, k: nat)
    requires
        k <= s.len(),
    ensures
        after_head_deletes(s, k) == s.skip(k as int),
    decreases k,
{
    if k > 0 {
        lemma_head_deletes_skip(s, (k - 1) as nat);
    }
    assert(after_head_deletes(s, k) =~= s.skip(k as int));
}

/// Deleting the head `n` times from a list built by `n` head insertions
/// hands the values back in reverse order of insertion and leaves the list
/// empty, so one more deletion finds nothing.
pub proof fn lemma_drain<T>(vs: Seq<T>)
    ensures
        forall|k: nat|
            k < vs.len() ==> {
                &&& #[trigger] after_head_deletes(after_head_inserts(Seq::empty(), vs), k).len() > 0
                &&& after_head_deletes(after_head_inserts(Seq::empty(), vs), k)[0] == vs[vs.len()
                    - 1 - k]
            },
        after_head_deletes(after_head_inserts(Seq::empty(), vs), vs.len()).len() == 0,
{
    let s = after_head_inserts(Seq::empty(), vs);
    lemma_head_inserts_reverse(vs);
    assert forall|k: nat| k < vs.len() implies {
        &&& #[trigger] after_head_deletes(s, k).len() > 0
        &&& after_head_deletes(s, k)[0] == vs[vs.len() - 1 - k]
    } by {
        lemma_head_deletes_skip(s, k);
    }
    lemma_head_deletes_skip(s, vs.len());
}

} // verus!
