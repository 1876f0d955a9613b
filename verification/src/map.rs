//! The windowed map itself: a double-ended sequence of slots, one per key in
//! the contiguous window `[head, head + slots - 1]`, together with the anchor
//! `head` (the key of slot 0) and a count of the occupied slots.

use crate::entry::Entry;
use std::collections::VecDeque;
use vstd::prelude::*;

verus! {

broadcast use vstd::std_specs::vecdeque::group_vec_dequeue_axioms;

/// Writing back the element a slot already holds leaves the sequence as it
/// was.
broadcast proof fn lemma_seq_update_same<T>(s: Seq<T>, i: int)
    requires
        0 <= i < s.len(),
    ensures
        #[trigger] s.update(i, s[i]) == s,
{
    assert(s.update(i, s[i]) =~= s);
}

/// Relies on `VecDeque::get_mut` of std: it returns a mutable reference to
/// the element at index `i` (`Some`, since `i` is in bounds), and a write
/// through that reference lands at exactly that index, leaving the rest of
/// the deque unchanged.
#[verifier::external_body]
fn deque_index_mut<T>(d: &mut VecDeque<T>, i: usize) -> (r: &mut T)
    requires
        i < old(d)@.len(),
    ensures
        *r == old(d)@[i as int],
        final(d)@ == old(d)@.update(i as int, *final(r)),
{
    d.get_mut(i).unwrap()
}

/// A map from `isize` keys to values of one type `V`, storing one slot per
/// key in the window spanned by the keys currently present.
#[derive(Debug)]
pub struct ConsecVecMap<V> {
    head: Option<isize>,
    deque: VecDeque<Entry<V>>,
    len: usize,
}

/// The number of `Full` slots in a sequence of slots.
pub(crate) open spec fn count_full<V>(s: Seq<Entry<V>>) -> nat
    decreases s.len(),
{
    if s.len() == 0 {
        0
    } else {
        count_full(s.drop_last()) + if s.last().spec_is_full() {
            1nat
        } else {
            0nat
        }
    }
}

/// The mathematical map represented by a window of slots anchored at `h`:
/// key `h + i` maps to the value of slot `i`, for exactly the `Full` slots.
pub(crate) open spec fn map_of<V>(h: int, s: Seq<Entry<V>>) -> Map<int, V> {
    Map::new(
        |k: int| h <= k < h + s.len() && s[k - h].spec_is_full(),
        |k: int| s[k - h]->Full_0,
    )
}

/// A run of `n` gap slots.
pub(crate) open spec fn empties<V>(n: nat) -> Seq<Entry<V>> {
    Seq::new(n, |i: int| Entry::Empty)
}

proof fn lemma_count_full_le_len<V>(s: Seq<Entry<V>>)
    ensures
        count_full(s) <= s.len(),
    decreases s.len(),
{
    if s.len() > 0 {
        lemma_count_full_le_len(s.drop_last());
    }
}

proof fn lemma_count_full_prepend<V>(e: Entry<V>, s: Seq<Entry<V>>)
    ensures
        count_full(seq![e] + s) == count_full(s) + if e.spec_is_full() {
            1nat
        } else {
            0nat
        },
    decreases s.len(),
{
    let t = seq![e] + s;
    if s.len() == 0 {
        assert(t.drop_last() =~= Seq::<Entry<V>>::empty());
        assert(t.last() == e);
        assert(count_full(Seq::<Entry<V>>::empty()) == 0);
    } else {
        lemma_count_full_prepend(e, s.drop_last());
        assert(t.drop_last() =~= seq![e] + s.drop_last());
        assert(t.last() == s.last());
    }
}

proof fn lemma_count_full_empties_prepend<V>(n: nat, s: Seq<Entry<V>>)
    ensures
        count_full(empties(n) + s) == count_full(s),
    decreases n,
{
    if n == 0 {
        assert(empties::<V>(0) + s =~= s);
    } else {
        lemma_count_full_empties_prepend((n - 1) as nat, s);
        assert(empties::<V>(n) + s =~= seq![Entry::<V>::Empty] + (empties((n - 1) as nat) + s));
        lemma_count_full_prepend(Entry::<V>::Empty, empties((n - 1) as nat) + s);
    }
}

broadcast proof fn lemma_count_full_update<V>(s: Seq<Entry<V>>, i: int, e: Entry<V>)
    requires
        0 <= i < s.len(),
    ensures
        #[trigger] count_full(s.update(i, e)) == count_full(s) - (if s[i].spec_is_full() {
            1int
        } else {
            0int
        }) + (if e.spec_is_full() {
            1int
        } else {
            0int
        }),
    decreases s.len(),
{
    let t = s.update(i, e);
    if i == s.len() - 1 {
        assert(t.drop_last() =~= s.drop_last());
    } else {
        assert(t.drop_last() =~= s.drop_last().update(i, e));
        lemma_count_full_update(s.drop_last(), i, e);
        assert(t.last() == s.last());
    }
}

proof fn lemma_count_full_pop_front<V>(s: Seq<Entry<V>>)
    requires
        s.len() > 0,
    ensures
        count_full(s.subrange(1, s.len() as int)) == count_full(s) - (if s[0].spec_is_full() {
            1int
        } else {
            0int
        }),
{
    assert(s =~= seq![s[0]] + s.subrange(1, s.len() as int));
    lemma_count_full_prepend(s[0], s.subrange(1, s.len() as int));
}

/// The domain of the represented map is finite, with exactly one key per
/// `Full` slot.
proof fn lemma_map_of_dom<V>(h: int, s: Seq<Entry<V>>)
    ensures
        map_of(h, s).dom().finite(),
        map_of(h, s).dom().len() == count_full(s),
    decreases s.len(),
{
    if s.len() == 0 {
        assert(map_of(h, s).dom() =~= Set::<int>::empty());
    } else {
        lemma_map_of_dom(h, s.drop_last());
        let d = map_of(h, s.drop_last()).dom();
        if s.last().spec_is_full() {
            assert(!d.contains(h + s.len() - 1));
            assert(map_of(h, s).dom() =~= d.insert(h + s.len() - 1));
        } else {
            assert(map_of(h, s).dom() =~= d);
        }
    }
}

/// Overwriting slot `i` with a value stores it at key `h + i`.
broadcast proof fn lemma_map_of_update_full<V>(h: int, s: Seq<Entry<V>>, i: int, v: V)
    requires
        0 <= i < s.len(),
    ensures
        #[trigger] map_of(h, s.update(i, Entry::Full(v))) == map_of(h, s).insert(h + i, v),
{
    assert(map_of(h, s.update(i, Entry::Full(v))) =~= map_of(h, s).insert(h + i, v));
}

/// Clearing slot `i` removes the key `h + i`.
broadcast proof fn lemma_map_of_update_empty<V>(h: int, s: Seq<Entry<V>>, i: int)
    requires
        0 <= i < s.len(),
    ensures
        #[trigger] map_of(h, s.update(i, Entry::Empty)) == map_of(h, s).remove(h + i),
{
    assert(map_of(h, s.update(i, Entry::Empty)) =~= map_of(h, s).remove(h + i));
}

/// Extending the window to the left by `n` gaps and a value anchors the new
/// window `n + 1` keys earlier and adds exactly that key.
proof fn lemma_map_of_extend_front<V>(h: int, s: Seq<Entry<V>>, n: nat, v: V)
    ensures
        map_of(h - n - 1, seq![Entry::Full(v)] + empties(n) + s) == map_of(h, s).insert(
            h - n - 1,
            v,
        ),
{
    let b = h - n - 1;
    let t = seq![Entry::Full(v)] + empties::<V>(n) + s;
    assert forall|k: int| h <= k < h + s.len() implies #[trigger] t[k - b] == s[k - h] by {}
    assert(map_of(b, t) =~= map_of(h, s).insert(b, v));
}

/// Extending the window to the right by `n` gaps and a value adds exactly
/// the key just past the gaps.
proof fn lemma_map_of_extend_back<V>(h: int, s: Seq<Entry<V>>, n: nat, v: V)
    ensures
        map_of(h, s + empties(n) + seq![Entry::Full(v)]) == map_of(h, s).insert(
            h + s.len() + n,
            v,
        ),
{
    let t = s + empties::<V>(n) + seq![Entry::Full(v)];
    assert(map_of(h, t) =~= map_of(h, s).insert(h + s.len() + n, v));
}

/// A window of one value represents the singleton map.
proof fn lemma_map_of_singleton<V>(k: int, v: V)
    ensures
        map_of(k, seq![Entry::Full(v)]) == Map::<int, V>::empty().insert(k, v),
        count_full(seq![Entry::Full(v)]) == 1,
{
    assert(seq![Entry::<V>::Full(v)].drop_last() =~= Seq::<Entry<V>>::empty());
    assert(seq![Entry::<V>::Full(v)].last() == Entry::<V>::Full(v));
    assert(count_full(Seq::<Entry<V>>::empty()) == 0);
    assert(map_of(k, seq![Entry::Full(v)]) =~= Map::<int, V>::empty().insert(k, v));
}

/// Trimming a leading gap moves the anchor forward without changing the map.
proof fn lemma_map_of_pop_front_empty<V>(h: int, s: Seq<Entry<V>>)
    requires
        s.len() > 0,
        !s[0].spec_is_full(),
    ensures
        map_of(h + 1, s.subrange(1, s.len() as int)) == map_of(h, s),
{
    assert(map_of(h + 1, s.subrange(1, s.len() as int)) =~= map_of(h, s));
}

proof fn lemma_count_full_append_empties<V>(s: Seq<Entry<V>>, n: nat)
    ensures
        count_full(s + empties(n)) == count_full(s),
    decreases n,
{
    if n == 0 {
        assert(s + empties::<V>(0) =~= s);
    } else {
        lemma_count_full_append_empties(s, (n - 1) as nat);
        let t = s + empties::<V>(n);
        assert(t.drop_last() =~= s + empties::<V>((n - 1) as nat));
        assert(!t.last().spec_is_full());
    }
}

/// Trimming a trailing gap does not change the map.
proof fn lemma_map_of_drop_last_empty<V>(h: int, s: Seq<Entry<V>>)
    requires
        s.len() > 0,
        !s.last().spec_is_full(),
    ensures
        map_of(h, s.drop_last()) == map_of(h, s),
{
    assert(map_of(h, s.drop_last()) =~= map_of(h, s));
}

impl<V> View for ConsecVecMap<V> {
    type V = Map<int, V>;

    /// A `ConsecVecMap` denotes the finite map from each stored key to its value.
    closed spec fn view(&self) -> Map<int, V> {
        match self.head {
            None => Map::empty(),
            Some(h) => map_of(h as int, self.deque@),
        }
    }
}

impl<V> ConsecVecMap<V> {
    /// The representation invariant: the anchor is absent exactly when no
    /// slots exist, the window is trimmed (first and last slots `Full`),
    /// every key of the window fits in `isize`, and `len` counts the `Full`
    /// slots.
    pub closed spec fn well_formed(&self) -> bool {
        match self.head {
            None => self.deque@.len() == 0 && self.len == 0,
            Some(h) => {
                &&& self.deque@.len() > 0
                &&& self.deque@.first().spec_is_full()
                &&& self.deque@.last().spec_is_full()
                &&& h + self.deque@.len() - 1 <= isize::MAX
                &&& self.len == count_full(self.deque@)
            },
        }
    }

    /// Constructs an empty map.
    pub fn new() -> (r: ConsecVecMap<V>)
        ensures
            r.well_formed(),
            r@ == Map::<int, V>::empty(),
    {
        ConsecVecMap { head: None, deque: VecDeque::new(), len: 0 }
    }

    /// Constructs an empty map whose backing sequence has room reserved for
    /// `capacity` slots; the reservation is a hint and never limits growth.
    pub fn with_capacity(capacity: usize) -> (r: ConsecVecMap<V>)
        ensures
            r.well_formed(),
            r@ == Map::<int, V>::empty(),
    {
        ConsecVecMap { head: None, deque: VecDeque::with_capacity(capacity), len: 0 }
    }

    /// True iff the map holds no entries.
    pub fn is_empty(&self) -> (r: bool)
        requires
            self.well_formed(),
        ensures
            r <==> self@ == Map::<int, V>::empty(),
    {
        proof {
            match self.head {
                None => {},
                Some(h) => {
                    assert(self@.dom().contains(h as int));
                    assert(!Map::<int, V>::empty().dom().contains(h as int));
                },
            }
        }
        self.deque.len() == 0
    }

    /// The number of entries stored.
    pub fn len(&self) -> (r: usize)
        requires
            self.well_formed(),
        ensures
            self@.dom().finite(),
            r == self@.dom().len(),
    {
        proof {
            match self.head {
                None => {
                    assert(self@.dom() =~= Set::<int>::empty());
                },
                Some(h) => {
                    lemma_map_of_dom(h as int, self.deque@);
                },
            }
        }
        self.len
    }

    /// The number of slots in the current window, occupied and gaps together;
    /// zero exactly when the map is empty, and otherwise the distance from
    /// the smallest stored key through the largest.
    pub fn window_len(&self) -> (r: usize)
        requires
            self.well_formed(),
        ensures
            r == 0 ==> self@ == Map::<int, V>::empty(),
            r > 0 ==> {
                &&& self@.contains_key(self.anchor())
                &&& self@.contains_key(self.anchor() + r - 1)
                &&& forall|k: int|
                    self@.contains_key(k) ==> self.anchor() <= k <= self.anchor() + r - 1
            },
    {
        self.deque.len()
    }

    /// The key of the window's first slot; meaningful only when the map is
    /// non-empty, in which case it is the smallest stored key.
    pub closed spec fn anchor(&self) -> int {
        match self.head {
            None => 0,
            Some(h) => h as int,
        }
    }

    /// Starts a read-only traversal of the map: its `next` yields the stored
    /// entries in strictly ascending key order, starting from the smallest
    /// key.
    pub fn iter<'a>(&'a self) -> (r: Iter<'a, V>)
        requires
            self.well_formed(),
        ensures
            r.inv(),
            r.map_view() == self@,
            forall|k: int| r.map_view().contains_key(k) ==> r.cursor() <= k,
    {
        Iter { map: self, idx: 0 }
    }

    /// The stored keys, in strictly ascending order with no repeats:
    /// exactly the keys `contains_key` holds for. A traversal by `iter`
    /// yields its entries in this order.
    pub fn keys(&self) -> (ks: Vec<isize>)
        requires
            self.well_formed(),
        ensures
            forall|i: int, j: int| 0 <= i < j < ks@.len() ==> ks@[i] < ks@[j],
            forall|i: int| 0 <= i < ks@.len() ==> self@.contains_key(#[trigger] (ks@[i] as int)),
            forall|k: int|
                self@.contains_key(k) ==> exists|i: int|
                    0 <= i < ks@.len() && #[trigger] ks@[i] as int == k,
    {
        let mut ks: Vec<isize> = Vec::new();
        let mut it = self.iter();
        loop
            invariant
                it.inv(),
                it.map_view() == self@,
                forall|i: int|
                    0 <= i < ks@.len() ==> self@.contains_key(#[trigger] (ks@[i] as int)),
                forall|i: int| 0 <= i < ks@.len() ==> #[trigger] (ks@[i] as int) < it.cursor(),
                forall|i: int, j: int| 0 <= i < j < ks@.len() ==> ks@[i] < ks@[j],
                forall|k: int|
                    k < it.cursor() && self@.contains_key(k) ==> exists|i: int|
                        0 <= i < ks@.len() && #[trigger] ks@[i] as int == k,
            ensures
                forall|k: int| k >= it.cursor() ==> !self@.contains_key(k),
            decreases it.slots_left(),
        {
            let ghost prev_cursor = it.cursor();
            match it.next() {
                Some(p) => {
                    let ghost old_ks = ks@;
                    ks.push(p.0);
                    proof {
                        let k = p.0 as int;
                        assert forall|j: int|
                            j < it.cursor() && self@.contains_key(j) implies exists|i: int|
                            0 <= i < ks@.len() && #[trigger] ks@[i] as int == j by {
                            if j == k {
                                assert(ks@[ks@.len() - 1] as int == j);
                            } else if j < prev_cursor {
                                let i = choose|i: int|
                                    0 <= i < old_ks.len() && #[trigger] old_ks[i] as int == j;
                                assert(ks@[i] as int == j);
                            }
                        }
                    }
                },
                None => {
                    break ;
                },
            }
        }
        ks
    }

    /// Looks up `key`, returning a reference to its value if one is stored.
    pub fn get(&self, key: isize) -> (r: Option<&V>)
        requires
            self.well_formed(),
        ensures
            match r {
                Some(v) => self@.contains_key(key as int) && *v == self@[key as int],
                None => !self@.contains_key(key as int),
            },
    {
        match self.head {
            None => None,
            Some(h) => {
                let ki: i128 = key as i128;
                let hi: i128 = h as i128;
                if ki < hi || ki - hi >= self.deque.len() as i128 {
                    None
                } else {
                    let idx: usize = (ki - hi) as usize;
                    self.deque[idx].as_ref()
                }
            },
        }
    }

    /// Inserts `value` at `key` and returns the value previously stored
    /// there, if any. A key outside the current window extends the window to
    /// reach it, filling the skipped keys with gaps; the first insertion
    /// anchors the window at `key`.
    pub fn insert(&mut self, key: isize, value: V) -> (r: Option<V>)
        requires
            old(self).well_formed(),
        ensures
            final(self).well_formed(),
            final(self)@ == old(self)@.insert(key as int, value),
            old(self)@.contains_key(key as int) ==> r == Some(old(self)@[key as int]),
            !old(self)@.contains_key(key as int) ==> r is None,
    {
        match self.head {
            None => {
                self.deque.push_back(Entry::Full(value));
                self.len = 1;
                self.head = Some(key);
                proof {
                    assert(self.deque@ =~= seq![Entry::Full(value)]);
                    lemma_map_of_singleton(key as int, value);
                }
                None
            },
            Some(h) => {
                let ghost s0 = self.deque@;
                let ki: i128 = key as i128;
                let hi: i128 = h as i128;
                if ki < hi {
                    let diff: i128 = hi - ki;
                    let ghost n = (diff - 1) as nat;
                    let mut j: i128 = 0;
                    while j < diff - 1
                        invariant
                            0 <= j <= diff - 1,
                            self.deque@ == empties(j as nat) + s0,
                            self.head == Some(h),
                            self.len == count_full(s0),
                        decreases diff - 1 - j,
                    {
                        self.deque.push_front(Entry::Empty);
                        j = j + 1;
                        proof {
                            assert(self.deque@ =~= empties(j as nat) + s0);
                        }
                    }
                    self.deque.push_front(Entry::Full(value));
                    self.head = Some(key);
                    proof {
                        assert(self.deque@ =~= seq![Entry::Full(value)] + empties(n) + s0);
                        lemma_map_of_extend_front(h as int, s0, n, value);
                        lemma_count_full_empties_prepend(n, s0);
                        lemma_count_full_prepend(Entry::Full(value), empties(n) + s0);
                        lemma_count_full_le_len(self.deque@);
                        vstd::std_specs::vecdeque::axiom_spec_len(&self.deque);
                    }
                    self.len = self.len + 1;
                    None
                } else if ki - hi < self.deque.len() as i128 {
                    let idx: usize = (ki - hi) as usize;
                    let mut filled = Entry::Full(value);
                    let slot = deque_index_mut(&mut self.deque, idx);
                    core::mem::swap(&mut filled, slot);
                    proof {
                        lemma_map_of_update_full(h as int, s0, idx as int, value);
                        lemma_count_full_update(s0, idx as int, Entry::Full(value));
                        lemma_count_full_le_len(self.deque@);
                    }
                    if filled.is_empty() {
                        self.len = self.len + 1;
                    }
                    filled.to_option()
                } else {
                    let dlen = self.deque.len();
                    let diff: i128 = ki - (hi + dlen as i128);
                    let ghost n = diff as nat;
                    let mut j: i128 = 0;
                    while j < diff
                        invariant
                            0 <= j <= diff,
                            self.deque@ == s0 + empties(j as nat),
                            self.head == Some(h),
                            self.len == count_full(s0),
                        decreases diff - j,
                    {
                        self.deque.push_back(Entry::Empty);
                        j = j + 1;
                        proof {
                            assert(self.deque@ =~= s0 + empties(j as nat));
                        }
                    }
                    self.deque.push_back(Entry::Full(value));
                    proof {
                        assert(self.deque@ =~= s0 + empties(n) + seq![Entry::Full(value)]);
                        lemma_map_of_extend_back(h as int, s0, n, value);
                        lemma_count_full_append_empties(s0, n);
                        assert((s0 + empties::<V>(n) + seq![Entry::Full(value)]).drop_last() =~= s0
                            + empties(n));
                        lemma_count_full_le_len(self.deque@);
                        vstd::std_specs::vecdeque::axiom_spec_len(&self.deque);
                    }
                    self.len = self.len + 1;
                    None
                }
            },
        }
    }

    /// Looks up `key` and returns a mutable reference to its value if one is
    /// stored; a write through the reference replaces the value stored at
    /// `key` and nothing else.
    pub fn get_mut(&mut self, key: isize) -> (r: Option<&mut V>)
        requires
            old(self).well_formed(),
        ensures
            match r {
                Some(v) => {
                    &&& old(self)@.contains_key(key as int)
                    &&& *v == old(self)@[key as int]
                    &&& final(self).well_formed()
                    &&& final(self)@ == old(self)@.insert(key as int, *final(r.unwrap()))
                },
                None => {
                    &&& !old(self)@.contains_key(key as int)
                    &&& final(self).well_formed()
                    &&& final(self)@ == old(self)@
                },
            },
    {
        broadcast use {lemma_count_full_update, lemma_map_of_update_full, lemma_seq_update_same};

        match self.head {
            None => None,
            Some(h) => {
                let ki: i128 = key as i128;
                let hi: i128 = h as i128;
                if ki < hi || ki - hi >= self.deque.len() as i128 {
                    None
                } else {
                    let idx: usize = (ki - hi) as usize;
                    let slot = deque_index_mut(&mut self.deque, idx);
                    slot.as_mut()
                }
            },
        }
    }

    /// Finds the smallest stored key at or after `from` and returns it
    /// together with a mutable reference to its value; a write through the
    /// reference replaces the value stored at that key and nothing else.
    /// Calling again with a key one past the returned one visits every entry
    /// in strictly ascending key order while mutating values in place: the
    /// one-slot-at-a-time mutable counterpart of `iter`, since a traversal
    /// view cannot soundly hand out references that all outlive it.
    #[verifier::loop_isolation(false)]
    pub fn next_mut(&mut self, from: isize) -> (r: Option<(isize, &mut V)>)
        requires
            old(self).well_formed(),
        ensures
            match r {
                None => {
                    &&& forall|k: int| k >= from as int ==> !old(self)@.contains_key(k)
                    &&& final(self).well_formed()
                    &&& final(self)@ == old(self)@
                },
                Some((k, v)) => {
                    &&& k as int >= from as int
                    &&& old(self)@.contains_key(k as int)
                    &&& *v == old(self)@[k as int]
                    &&& forall|j: int| from as int <= j < k as int ==> !old(self)@.contains_key(j)
                    &&& final(self).well_formed()
                    &&& final(self)@ == old(self)@.insert(k as int, *final(r.unwrap().1))
                },
            },
    {
        broadcast use {lemma_count_full_update, lemma_map_of_update_full};

        match self.head {
            None => None,
            Some(h) => {
                let fi: i128 = from as i128;
                let hi: i128 = h as i128;
                let dlen = self.deque.len();
                if fi - hi >= dlen as i128 {
                    return None;
                }
                let mut idx: usize = if fi < hi {
                    0
                } else {
                    (fi - hi) as usize
                };
                let ghost start = idx as int;
                while idx < dlen
                    invariant
                        self.head == Some(h),
                        old(self).head == Some(h),
                        self.deque@ == old(self).deque@,
                        self.len == old(self).len,
                        old(self).well_formed(),
                        dlen == self.deque@.len(),
                        hi == h as i128,
                        fi == from as i128,
                        start == if fi < hi {
                            0int
                        } else {
                            fi as int - hi as int
                        },
                        start <= idx as int <= dlen as int,
                        forall|j: int| start <= j < idx as int ==> !self.deque@[j].spec_is_full(),
                    decreases dlen - idx,
                {
                    if self.deque[idx].is_full() {
                        let k: isize = (hi + idx as i128) as isize;
                        let slot = deque_index_mut(&mut self.deque, idx);
                        match slot.as_mut() {
                            Some(v) => {
                                return Some((k, v));
                            },
                            None => {
                                return None;
                            },
                        }
                    }
                    idx = idx + 1;
                }
                None
            },
        }
    }

    /// Removes the entry at `key` and returns its value, if one was stored.
    /// Afterwards the window is trimmed again: gaps left at either end are
    /// dropped, and removing the last entry returns the map to the empty
    /// state, anchor included.
    pub fn remove(&mut self, key: isize) -> (r: Option<V>)
        requires
            old(self).well_formed(),
        ensures
            final(self).well_formed(),
            final(self)@ == old(self)@.remove(key as int),
            old(self)@.contains_key(key as int) ==> r == Some(old(self)@[key as int]),
            !old(self)@.contains_key(key as int) ==> r is None,
    {
        match self.head {
            None => {
                proof {
                    assert(old(self)@.remove(key as int) =~= old(self)@);
                }
                None
            },
            Some(h) => {
                let ghost s0 = self.deque@;
                let ki: i128 = key as i128;
                let hi: i128 = h as i128;
                if ki < hi || ki - hi >= self.deque.len() as i128 {
                    proof {
                        assert(old(self)@.remove(key as int) =~= old(self)@);
                    }
                    None
                } else {
                    let idx: usize = (ki - hi) as usize;
                    let mut slot = Entry::Empty;
                    let slot_ref = deque_index_mut(&mut self.deque, idx);
                    core::mem::swap(&mut slot, slot_ref);
                    proof {
                        lemma_count_full_update(s0, idx as int, Entry::<V>::Empty);
                        lemma_map_of_update_empty(h as int, s0, idx as int);
                    }
                    if slot.is_full() {
                        self.len = self.len - 1;
                    }
                    self.maintain();
                    slot.to_option()
                }
            },
        }
    }

    /// Trims the window after a removal: pops gap slots from the front while
    /// advancing the anchor, pops gap slots from the back, and resets the
    /// anchor to absent if no slots remain.
    fn maintain(&mut self)
        requires
            old(self).head is Some,
            old(self).len == count_full(old(self).deque@),
            old(self).deque@.len() > 0 ==> old(self).head.unwrap() + old(self).deque@.len() - 1
                <= isize::MAX,
        ensures
            final(self).well_formed(),
            final(self)@ == map_of(old(self).head.unwrap() as int, old(self).deque@),
            final(self).len == old(self).len,
    {
        let ghost m0 = map_of(old(self).head.unwrap() as int, old(self).deque@);
        while self.deque.len() > 0 && self.deque[0].is_empty()
            invariant
                self.head is Some,
                map_of(self.head.unwrap() as int, self.deque@) == m0,
                count_full(self.deque@) == old(self).len,
                self.len == old(self).len,
                self.deque@.len() > 0 ==> self.head.unwrap() + self.deque@.len() - 1
                    <= isize::MAX,
            decreases self.deque@.len(),
        {
            let ghost s = self.deque@;
            let ghost h = self.head.unwrap() as int;
            let _popped = self.deque.pop_front();
            proof {
                lemma_map_of_pop_front_empty(h, s);
                lemma_count_full_pop_front(s);
            }
            if self.deque.len() > 0 {
                let hd = self.head.unwrap();
                self.head = Some(hd + 1);
            } else {
                proof {
                    assert(map_of(h + 1, self.deque@) =~= map_of(
                        self.head.unwrap() as int,
                        self.deque@,
                    ));
                }
            }
        }
        while self.deque.len() > 0 && self.deque[self.deque.len() - 1].is_empty()
            invariant
                self.head is Some,
                map_of(self.head.unwrap() as int, self.deque@) == m0,
                count_full(self.deque@) == old(self).len,
                self.len == old(self).len,
                self.deque@.len() > 0 ==> self.head.unwrap() + self.deque@.len() - 1
                    <= isize::MAX,
                self.deque@.len() > 0 ==> self.deque@.first().spec_is_full(),
            decreases self.deque@.len(),
        {
            let ghost s = self.deque@;
            let ghost h = self.head.unwrap() as int;
            let _popped = self.deque.pop_back();
            proof {
                assert(self.deque@ =~= s.drop_last());
                lemma_map_of_drop_last_empty(h, s);
            }
        }
        if self.deque.len() == 0 {
            self.head = None;
            proof {
                assert(m0 =~= Map::<int, V>::empty());
            }
        }
    }

    /// True iff `key` is stored: it lies inside the window and its slot is
    /// occupied.
    pub fn contains_key(&self, key: isize) -> (r: bool)
        requires
            self.well_formed(),
        ensures
            r == self@.contains_key(key as int),
    {
        match self.head {
            None => false,
            Some(h) => {
                let ki: i128 = key as i128;
                let hi: i128 = h as i128;
                if ki < hi || ki - hi >= self.deque.len() as i128 {
                    false
                } else {
                    let idx: usize = (ki - hi) as usize;
                    self.deque[idx].is_full()
                }
            },
        }
    }
}

/// A read-only traversal over a `ConsecVecMap`, yielding `(key, value)`
/// pairs in strictly ascending key order and skipping gaps. It borrows the
/// map for its whole lifetime and is exhausted once `next` returns `None`;
/// traversing again takes a fresh call to `iter`.
pub struct Iter<'a, V> {
    map: &'a ConsecVecMap<V>,
    idx: usize,
}

impl<'a, V> Iter<'a, V> {
    /// The traversal's invariant: the borrowed map is well formed and the
    /// cursor lies within its window, one slot past the end at most.
    pub closed spec fn inv(&self) -> bool {
        self.map.well_formed() && self.idx <= self.map.deque@.len()
    }

    /// The map being traversed.
    pub closed spec fn map_view(&self) -> Map<int, V> {
        self.map@
    }

    /// The key the cursor stands on: exactly the keys at least this large
    /// remain to be yielded.
    pub closed spec fn cursor(&self) -> int {
        match self.map.head {
            None => self.idx as int,
            Some(h) => h + self.idx,
        }
    }

    /// How many slots the cursor has not passed yet: a measure that each
    /// yielding step strictly decreases.
    pub closed spec fn slots_left(&self) -> nat {
        if self.idx <= self.map.deque@.len() {
            (self.map.deque@.len() - self.idx) as nat
        } else {
            0
        }
    }

    /// Yields the entry with the smallest key not yet passed, or `None` if
    /// none remains.
    pub fn next(&mut self) -> (r: Option<(isize, &'a V)>)
        requires
            old(self).inv(),
        ensures
            final(self).inv(),
            final(self).map_view() == old(self).map_view(),
            match r {
                None => {
                    &&& forall|k: int|
                        k >= old(self).cursor() ==> !old(self).map_view().contains_key(k)
                    &&& final(self).cursor() >= old(self).cursor()
                },
                Some((k, v)) => {
                    &&& old(self).map_view().contains_key(k as int)
                    &&& *v == old(self).map_view()[k as int]
                    &&& k as int >= old(self).cursor()
                    &&& forall|j: int|
                        old(self).cursor() <= j < k as int ==> !old(self).map_view().contains_key(
                            j,
                        )
                    &&& final(self).cursor() == k as int + 1
                    &&& final(self).slots_left() < old(self).slots_left()
                },
            },
    {
        let m: &'a ConsecVecMap<V> = self.map;
        match m.head {
            None => None,
            Some(h) => {
                while self.idx < m.deque.len()
                    invariant
                        self.map == m,
                        m == old(self).map,
                        m.well_formed(),
                        m.head == Some(h),
                        old(self).idx <= self.idx <= m.deque@.len(),
                        forall|j: int|
                            old(self).idx <= j < self.idx ==> !m.deque@[j].spec_is_full(),
                    decreases m.deque@.len() - self.idx,
                {
                    match m.deque[self.idx].as_ref() {
                        Some(v) => {
                            let k: isize = ((h as i128) + (self.idx as i128)) as isize;
                            self.idx = self.idx + 1;
                            return Some((k, v));
                        },
                        None => {
                            self.idx = self.idx + 1;
                        },
                    }
                }
                None
            },
        }
    }
}

} // verus!
