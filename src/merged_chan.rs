//! Merging of several sorted channels into one sorted stream.
use crate::order::le;
use crate::order::lemma_total_order;
use crate::order::slot_before;
use crate::order::sorted;
use crossbeam::channel::Receiver;
use core::cmp::Ordering;
use vstd::laws_cmp::obeys_cmp;
use vstd::multiset::Multiset;
use vstd::prelude::*;
use vstd::std_specs::cmp::OrdSpec;

verus! {

broadcast use vstd::seq_lib::group_to_multiset_ensures;

#[verifier::external_type_specification]
#[verifier::external_body]
#[verifier::reject_recursive_types(T)]
pub struct ExReceiver<T>(Receiver<T>);

/// Relies on crossbeam's `Receiver::recv`: it blocks until a message comes (`Some`) or
/// the channel is empty and every sender is gone, or fails (`None`). What comes back
/// depends on the senders alone, so nothing is stated of it.
#[verifier::external_body]
fn recv_from<T>(chan: &Receiver<T>) -> (r: Option<T>) {
    chan.recv().ok()
}

/// The head slots are kept with the slot that leaves first at the end.
pub open spec fn descending<T: Ord>(h: Seq<(T, usize)>) -> bool {
    forall|i: int, j: int| 0 <= i < j < h.len() ==> slot_before(#[trigger] h[j], #[trigger] h[i])
}

/// Some head slot is tagged with producer identifier `id`.
pub open spec fn has_head<T>(h: Seq<(T, usize)>, id: int) -> bool {
    exists|i: int| 0 <= i < h.len() && #[trigger] h[i].1 == id
}

/// The values held in the head slots.
pub open spec fn head_values<T>(h: Seq<(T, usize)>) -> Seq<T> {
    h.map_values(|e: (T, usize)| e.0)
}

/// All the values that the producers have delivered, counted with multiplicity.
pub open spec fn total<T>(streams: Seq<Seq<T>>) -> Multiset<T>
    decreases streams.len(),
{
    if streams.len() == 0 {
        Multiset::empty()
    } else {
        total(streams.drop_last()).add(streams.last().to_multiset())
    }
}

/// Some identifier stands for the channel at position `p` at construction.
pub open spec fn live(origin: Seq<int>, p: int) -> bool {
    exists|i: int| 0 <= i < origin.len() && #[trigger] origin[i] == p
}

/// Every producer has delivered its values in order.
pub open spec fn all_sorted<T: Ord>(streams: Seq<Seq<T>>) -> bool {
    forall|p: int| 0 <= p < streams.len() ==> sorted(#[trigger] streams[p])
}

proof fn lemma_has_head_insert<T>(h: Seq<(T, usize)>, pos: int, item: (T, usize))
    requires
        0 <= pos <= h.len(),
    ensures
        forall|id: int| #[trigger] has_head(h.insert(pos, item), id) <==> (has_head(h, id) || id == item.1),
{
    let g = h.insert(pos, item);
    assert forall|id: int| #[trigger] has_head(g, id) <==> (has_head(h, id) || id == item.1) by {
        if has_head(g, id) {
            let i = choose|i: int| 0 <= i < g.len() && #[trigger] g[i].1 == id;
            if i < pos {
                assert(h[i].1 == id);
            } else if i > pos {
                assert(h[i - 1].1 == id);
            }
        }
        if has_head(h, id) {
            let i = choose|i: int| 0 <= i < h.len() && #[trigger] h[i].1 == id;
            if i < pos {
                assert(g[i].1 == id);
            } else {
                assert(g[i + 1].1 == id);
            }
        }
        if id == item.1 {
            assert(g[pos].1 == id);
        }
    }
}

proof fn lemma_has_head_remove<T>(h: Seq<(T, usize)>, k: int)
    requires
        0 <= k < h.len(),
        forall|i: int, j: int| 0 <= i < j < h.len() ==> #[trigger] h[i].1 != #[trigger] h[j].1,
    ensures
        forall|id: int| #[trigger] has_head(h.remove(k), id) <==> (has_head(h, id) && id != h[k].1),
{
    let g = h.remove(k);
    assert forall|id: int| #[trigger] has_head(g, id) <==> (has_head(h, id) && id != h[k].1) by {
        if has_head(g, id) {
            let i = choose|i: int| 0 <= i < g.len() && #[trigger] g[i].1 == id;
            if i < k {
                assert(h[i].1 == id);
            } else {
                assert(h[i + 1].1 == id);
            }
        }
        if has_head(h, id) && id != h[k].1 {
            let i = choose|i: int| 0 <= i < h.len() && #[trigger] h[i].1 == id;
            if i < k {
                assert(g[i].1 == id);
            } else {
                assert(g[i - 1].1 == id);
            }
        }
    }
}

/// Inserts `item` into the head slots `h`, kept in `descending` order, by binary search.
fn sorted_insert<T: Ord>(h: &mut Vec<(T, usize)>, item: (T, usize)) -> (pos: usize)
    requires
        obeys_cmp::<T>(),
        descending(old(h)@),
        !has_head(old(h)@, item.1 as int),
    ensures
        pos <= old(h)@.len(),
        final(h)@ == old(h)@.insert(pos as int, item),
        descending(final(h)@),
{
    proof {
        lemma_total_order::<T>();
    }
    let mut lo: usize = 0;
    let mut hi: usize = h.len();
    while lo < hi
        invariant
            obeys_cmp::<T>(),
            T::obeys_cmp_spec(),
            forall|a: T, b: T| #[trigger] le(a, b) || le(b, a),
            forall|a: T, b: T, c: T| #[trigger] le(a, b) && #[trigger] le(b, c) ==> le(a, c),
            forall|a: T, b: T| #[trigger] a.cmp_spec(&b) == Ordering::Less <==> b.cmp_spec(&a) == Ordering::Greater,
            descending(h@),
            !has_head(h@, item.1 as int),
            0 <= lo <= hi <= h@.len(),
            forall|i: int| 0 <= i < lo ==> slot_before(item, #[trigger] h@[i]),
            forall|i: int| hi <= i < h@.len() ==> slot_before(#[trigger] h@[i], item),
        decreases hi - lo,
    {
        let mid: usize = lo + (hi - lo) / 2;
        let c = item.0.cmp(&h[mid].0);
        assert(c == item.0.cmp_spec(&h@[mid as int].0));
        let goes_after = match c {
            Ordering::Less => true,
            Ordering::Greater => false,
            Ordering::Equal => item.1 < h[mid].1,
        };
        if goes_after {
            assert(slot_before(item, h@[mid as int])) by {
                if item.1 != h@[mid as int].1 {
                } else {
                    assert(has_head(h@, item.1 as int));
                }
            }
            assert forall|i: int| 0 <= i < mid + 1 implies slot_before(item, #[trigger] h@[i]) by {
                if i < mid {
                    assert(slot_before(h@[mid as int], h@[i]));
                }
            }
            lo = mid + 1;
        } else {
            assert(slot_before(h@[mid as int], item)) by {
                if item.1 == h@[mid as int].1 {
                    assert(has_head(h@, item.1 as int));
                }
            }
            assert forall|i: int| mid <= i < h@.len() implies slot_before(#[trigger] h@[i], item) by {
                if i > mid {
                    assert(slot_before(h@[i], h@[mid as int]));
                }
            }
            hi = mid;
        }
    }
    h.insert(lo, item);
    lo
}

proof fn lemma_total_push<T>(streams: Seq<Seq<T>>, q: int, v: T)
    requires
        0 <= q < streams.len(),
    ensures
        total(streams.update(q, streams[q].push(v))) == total(streams).insert(v),
    decreases streams.len(),
{
    let t = streams.update(q, streams[q].push(v));
    if q == streams.len() - 1 {
        assert(t.drop_last() == streams.drop_last());
        assert(t.last() == streams.last().push(v));
        assert(total(t) =~= total(streams).insert(v));
    } else {
        lemma_total_push(streams.drop_last(), q, v);
        assert(t.drop_last() == streams.drop_last().update(q, streams[q].push(v)));
        assert(t.last() == streams.last());
        assert(total(t) =~= total(streams).insert(v));
    }
}

proof fn lemma_total_empty<T>(streams: Seq<Seq<T>>)
    requires
        forall|p: int| 0 <= p < streams.len() ==> #[trigger] streams[p].len() == 0,
    ensures
        total(streams) == Multiset::<T>::empty(),
    decreases streams.len(),
{
    if streams.len() > 0 {
        lemma_total_empty(streams.drop_last());
        assert(streams.last() == Seq::<T>::empty());
        assert(total(streams) =~= Multiset::<T>::empty());
    }
}

proof fn lemma_total_none<T>(streams: Seq<Seq<T>>)
    requires
        total(streams).len() == 0,
    ensures
        forall|p: int| 0 <= p < streams.len() ==> #[trigger] streams[p].len() == 0,
    decreases streams.len(),
{
    if streams.len() > 0 {
        let d = streams.drop_last();
        assert(total(streams).len() == total(d).len() + streams.last().to_multiset().len());
        lemma_total_none(d);
        assert forall|p: int| 0 <= p < streams.len() implies #[trigger] streams[p].len() == 0 by {
            if p < streams.len() - 1 {
                assert(streams[p] == d[p]);
            }
        }
    }
}

proof fn lemma_values_insert<T>(h: Seq<(T, usize)>, pos: int, item: (T, usize))
    requires
        0 <= pos <= h.len(),
    ensures
        head_values(h.insert(pos, item)) == head_values(h).insert(pos, item.0),
        head_values(h.insert(pos, item)).to_multiset() == head_values(h).to_multiset().insert(item.0),
{
    let a = head_values(h.insert(pos, item));
    assert(a =~= head_values(h).insert(pos, item.0));
    assert(a.remove(pos) =~= head_values(h));
    assert(a.to_multiset().remove(item.0) == head_values(h).to_multiset());
    assert(a.to_multiset().count(item.0) > 0);
}

proof fn lemma_values_remove<T>(h: Seq<(T, usize)>, k: int)
    requires
        0 <= k < h.len(),
    ensures
        head_values(h.remove(k)) == head_values(h).remove(k),
        head_values(h.remove(k)).to_multiset() == head_values(h).to_multiset().remove(h[k].0),
{
    assert(head_values(h.remove(k)) =~= head_values(h).remove(k));
}

/// Several channels, each carrying its values in order, read as one ordered stream.
///
/// A head slot pairs the last value taken from a channel with that channel's position in
/// `chans`. The slots are kept in `descending` order, so the next value to hand out sits
/// at the end. When a channel runs dry it is swapped out for the last one, and the slot of
/// the channel that moved is tagged with its new position.
#[verifier::reject_recursive_types(T)]
pub struct MergedChannels<T> {
    /// The channels still open; a channel's position is its identifier.
    chans: Vec<Receiver<T>>,
    /// One slot for each open channel whose value has not been handed out.
    head_items: Vec<(T, usize)>,
    /// Identifier of the channel whose value was handed out last.
    last_picked: Option<usize>,
    /// What each channel has delivered, by its position at construction.
    streams: Ghost<Seq<Seq<T>>>,
    /// For each identifier, the position at construction of that channel.
    origin: Ghost<Seq<int>>,
    /// The values handed out so far.
    yielded: Ghost<Seq<T>>,
    /// Positions at construction of the channels that have reported their end.
    ended: Ghost<Set<int>>,
}

impl<T: Ord> MergedChannels<T> {
    /// The number of channels still open.
    pub closed spec fn active(&self) -> nat {
        self.chans@.len()
    }

    /// What each channel has delivered so far, by its position at construction.
    pub closed spec fn streams(&self) -> Seq<Seq<T>> {
        self.streams@
    }

    /// For each current identifier, the position at construction of its channel.
    pub closed spec fn origin(&self) -> Seq<int> {
        self.origin@
    }

    /// The values handed out so far, in order.
    pub closed spec fn yielded(&self) -> Seq<T> {
        self.yielded@
    }

    /// The positions at construction of the channels that have reported their end; nothing
    /// is taken from them again.
    pub closed spec fn ended(&self) -> Set<int> {
        self.ended@
    }

    /// The head slots, the next one to leave at the end.
    pub closed spec fn heads(&self) -> Seq<(T, usize)> {
        self.head_items@
    }

    /// The identifier of the channel whose value was handed out last.
    pub closed spec fn last_picked(&self) -> Option<usize> {
        self.last_picked
    }

    /// What holds between calls and within them.
    closed spec fn core_wf(&self) -> bool {
        let h = self.head_items@;
        let n = self.chans@.len();
        let s = self.streams@;
        let o = self.origin@;
        let y = self.yielded@;
        &&& o.len() == n
        &&& forall|i: int| 0 <= i < n ==> 0 <= #[trigger] o[i] < s.len()
        &&& forall|i: int| 0 <= i < n ==> !self.ended@.contains(#[trigger] o[i])
        &&& forall|p: int| #[trigger] self.ended@.contains(p) ==> 0 <= p < s.len()
        &&& forall|p: int| 0 <= p < s.len() ==> live(o, p) || #[trigger] self.ended@.contains(p)
        &&& forall|i: int, j: int| 0 <= i < j < n ==> #[trigger] o[i] != #[trigger] o[j]
        &&& descending(h)
        &&& forall|i: int| 0 <= i < h.len() ==> (#[trigger] h[i]).1 < n
        &&& forall|i: int, j: int| 0 <= i < j < h.len() ==> #[trigger] h[i].1 != #[trigger] h[j].1
        &&& forall|i: int|
            0 <= i < h.len() ==> s[o[(#[trigger] h[i]).1 as int]].len() > 0
                && s[o[h[i].1 as int]].last() == h[i].0
        &&& y.to_multiset().add(head_values(h).to_multiset()) == total(s)
        &&& all_sorted(s) ==> sorted(y) && (y.len() > 0 ==> forall|i: int|
            0 <= i < h.len() ==> le(y.last(), (#[trigger] h[i]).0))
        &&& s.len() == 1 ==> y + head_values(h) == s[0]
    }

    /// The merger is well formed: besides `core_wf`, before the first call nothing has
    /// been taken, and after it every open channel but the last picked has a head slot.
    pub closed spec fn wf(&self) -> bool {
        let h = self.head_items@;
        let n = self.chans@.len();
        let s = self.streams@;
        let o = self.origin@;
        let y = self.yielded@;
        &&& self.core_wf()
        &&& match self.last_picked {
            None => h.len() == 0 && y.len() == 0 && (n > 0 ==> self.ended@ == Set::<int>::empty()) && forall|p: int|
                0 <= p < s.len() ==> (#[trigger] s[p]).len() == 0,
            Some(p) => n > 0 ==> {
                &&& p < n
                &&& y.len() > 0
                &&& s[o[p as int]].len() > 0
                &&& s[o[p as int]].last() == y.last()
                &&& !has_head(h, p as int)
                &&& forall|x: int| 0 <= x < n && x != p ==> #[trigger] has_head(h, x)
            },
        }
    }
}

impl<T: Ord> MergedChannels<T> {
    /// A merger over `chans`; nothing is taken from them yet.
    pub fn new(chans: Vec<Receiver<T>>) -> (r: Self)
        ensures
            r.wf(),
            r.active() == chans@.len(),
            r.streams() == Seq::new(chans@.len(), |p: int| Seq::<T>::empty()),
            r.origin() == Seq::new(chans@.len(), |i: int| i),
            r.yielded() == Seq::<T>::empty(),
            r.heads() == Seq::<(T, usize)>::empty(),
            r.last_picked() is None,
            r.ended() == Set::<int>::empty(),
    {
        let ghost n = chans@.len();
        let ghost s = Seq::new(n, |p: int| Seq::<T>::empty());
        let ghost o = Seq::new(n, |i: int| i);
        proof {
            assert forall|p: int| 0 <= p < s.len() implies live(o, p) by {
                assert(o[p] == p);
            }
            lemma_total_empty(s);
            assert(head_values(Seq::<(T, usize)>::empty()) =~= Seq::<T>::empty());
            assert(Seq::<T>::empty() + Seq::<T>::empty() =~= Seq::<T>::empty());
            assert(Seq::<T>::empty().to_multiset().len() == 0);
            assert(Seq::<T>::empty().to_multiset() =~= Multiset::<T>::empty());
            assert(Seq::<T>::empty().to_multiset().add(Seq::<T>::empty().to_multiset()) =~= total(s));
        }
        MergedChannels {
            chans,
            head_items: Vec::new(),
            last_picked: None,
            streams: Ghost(s),
            origin: Ghost(Seq::new(n, |i: int| i)),
            yielded: Ghost(Seq::empty()),
            ended: Ghost(Set::empty()),
        }
    }

    /// Hands out the value of the last head slot, the smallest, and records its channel.
    fn get_next_head_item(&mut self) -> (r: Option<T>)
        requires
            obeys_cmp::<T>(),
            old(self).core_wf(),
            old(self).last_picked is None ==> old(self).yielded().len() == 0,
            forall|x: int| 0 <= x < old(self).active() ==> #[trigger] has_head(old(self).heads(), x),
        ensures
            final(self).wf(),
            final(self).active() == old(self).active(),
            final(self).streams() == old(self).streams(),
            final(self).origin() == old(self).origin(),
            final(self).ended() == old(self).ended(),
            r is None <==> old(self).active() == 0,
            r is None ==> final(self).yielded() == old(self).yielded() && final(self).heads() == old(self).heads()
                && final(self).last_picked() == old(self).last_picked(),
            r matches Some(v) ==> {
                &&& old(self).heads().len() > 0
                &&& v == old(self).heads().last().0
                &&& final(self).heads() == old(self).heads().drop_last()
                &&& final(self).yielded() == old(self).yielded().push(v)
                &&& final(self).last_picked() == Some(old(self).heads().last().1)
            },
    {
        let ghost h = self.head_items@;
        let ghost y = self.yielded@;
        proof {
            lemma_total_order::<T>();
            if self.chans.len() > 0 {
                assert(has_head(old(self).heads(), 0));
            }
        }
        match self.head_items.pop() {
            None => {
                proof {
                    if self.last_picked is None {
                        assert(head_values(h).to_multiset().len() == 0);
                        assert(y.to_multiset().len() == 0);
                        lemma_total_none(self.streams@);
                    }
                }
                None
            },
            Some((item, id)) => {
                let ghost k = h.len() - 1;
                proof {
                    let s = self.streams@;
                    let o = self.origin@;
                    let g = h.drop_last();
                    assert(g == h.remove(k));
                    lemma_has_head_remove(h, k);
                    lemma_values_remove(h, k);
                    assert(head_values(h).remove(k) =~= head_values(g));
                    assert(y.push(item).to_multiset() == y.to_multiset().insert(item));
                    assert(head_values(h)[k] == item);
                    assert(y.push(item).to_multiset().add(head_values(g).to_multiset()) =~= total(s));
                    if all_sorted(s) {
                        assert forall|i: int, j: int| 0 <= i < j < y.len() + 1 implies le(
                            #[trigger] y.push(item)[i],
                            #[trigger] y.push(item)[j],
                        ) by {
                            if j == y.len() && i < y.len() - 1 {
                                assert(le(y[i], y.last()));
                            }
                        }
                        assert forall|i: int| 0 <= i < g.len() implies le(
                            y.push(item).last(),
                            (#[trigger] g[i]).0,
                        ) by {
                            assert(slot_before(h[k], h[i]));
                        }
                    }
                    if s.len() == 1 {
                        assert(y.push(item) + head_values(g) =~= y + head_values(h));
                    }
                    assert(h[k].1 == id && h[k].0 == item);
                    assert(s[o[id as int]].last() == item);
                    assert forall|j: int| 0 <= j < g.len() implies #[trigger] g[j].1 != id by {
                        assert(h[j].1 != h[k].1);
                    }
                    assert(!has_head(g, id as int));
                    assert forall|x: int| 0 <= x < self.chans@.len() && x != id implies #[trigger] has_head(
                        g,
                        x,
                    ) by {
                        assert(has_head(old(self).heads(), x));
                    }
                }
                self.yielded = Ghost(self.yielded@.push(item));
                self.last_picked = Some(id);
                Some(item)
            },
        }
    }

    /// Drops the channel `id`, which has run dry, by moving the last channel into its
    /// place, and tags that channel's head slot, if any, with `id`.
    fn remove_channel(&mut self, id: usize)
        requires
            obeys_cmp::<T>(),
            old(self).core_wf(),
            id < old(self).active(),
            !has_head(old(self).heads(), id as int),
        ensures
            final(self).core_wf(),
            final(self).active() == old(self).active() - 1,
            final(self).streams() == old(self).streams(),
            final(self).yielded() == old(self).yielded(),
            final(self).last_picked() == old(self).last_picked(),
            final(self).origin() == old(self).origin().update(id as int, old(self).origin().last()).drop_last(),
            final(self).ended() == old(self).ended().insert(old(self).origin()[id as int]),
            forall|x: int|
                0 <= x < final(self).active() ==> (#[trigger] has_head(final(self).heads(), x) <==> if x
                    == id {
                    has_head(old(self).heads(), old(self).active() - 1)
                } else {
                    has_head(old(self).heads(), x)
                }),
    {
        let ghost h = self.head_items@;
        let ghost n = self.chans@.len();
        let ghost o = self.origin@;
        let _ = self.chans.swap_remove(id);
        self.origin = Ghost(o.update(id as int, o.last()).drop_last());
        self.ended = Ghost(self.ended@.insert(o[id as int]));
        proof {
            let o2 = self.origin@;
            assert forall|p: int| 0 <= p < self.streams@.len() implies live(o2, p)
                || #[trigger] self.ended@.contains(p) by {
                if p != o[id as int] && !old(self).ended@.contains(p) {
                    assert(live(o, p));
                    let i = choose|i: int| 0 <= i < o.len() && #[trigger] o[i] == p;
                    if i == n - 1 {
                        assert(o2[id as int] == p);
                    } else {
                        assert(o2[i] == p);
                    }
                }
            }
            assert forall|i: int| 0 <= i < n - 1 implies !self.ended@.contains(#[trigger] o2[i]) by {
                if i == id {
                    assert(o[n - 1] != o[id as int]);
                } else {
                    assert(o[i] != o[id as int]);
                }
            }
        }
        let old_id = self.chans.len();
        let mut i: usize = 0;
        while i < self.head_items.len() && self.head_items[i].1 != old_id
            invariant
                self.head_items@ == h,
                0 <= i <= h.len(),
                forall|k: int| 0 <= k < i ==> (#[trigger] h[k]).1 != old_id,
            decreases h.len() - i,
        {
            i = i + 1;
        }
        proof {
            lemma_total_order::<T>();
        }
        let ghost s = self.streams@;
        let ghost y = self.yielded@;
        let ghost o2 = self.origin@;
        if i < self.head_items.len() {
            let (v, _) = self.head_items.remove(i);
            let ghost r = h.remove(i as int);
            proof {
                lemma_has_head_remove(h, i as int);
                lemma_values_remove(h, i as int);
                assert forall|a: int, b: int| 0 <= a < b < r.len() implies slot_before(
                    #[trigger] r[b],
                    #[trigger] r[a],
                ) by {
                    let a0 = if a < i { a } else { a + 1 };
                    let b0 = if b < i { b } else { b + 1 };
                    assert(slot_before(h[b0], h[a0]));
                }
                assert(!has_head(r, id as int));
            }
            let pos = sorted_insert(&mut self.head_items, (v, id));
            proof {
                let g = self.head_items@;
                lemma_has_head_insert(r, pos as int, (v, id));
                lemma_values_insert(r, pos as int, (v, id));
                assert(id != old_id);
                assert forall|x: int| 0 <= x < g.len() implies {
                    &&& (#[trigger] g[x]).1 < old_id
                    &&& s[o2[g[x].1 as int]].len() > 0
                    &&& s[o2[g[x].1 as int]].last() == g[x].0
                    &&& (all_sorted(s) && y.len() > 0 ==> le(y.last(), g[x].0))
                } by {
                    if x != pos {
                        let k = if x < pos { x } else { x - 1 };
                        let j = if k < i { k } else { k + 1 };
                        assert(g[x] == h[j]);
                        assert(h[j].1 != old_id);
                        if h[j].1 == id {
                            assert(has_head(h, id as int));
                        }
                    } else {
                        assert(h[i as int].0 == v);
                    }
                }
                assert forall|a: int, b: int| 0 <= a < b < g.len() implies #[trigger] g[a].1
                    != #[trigger] g[b].1 by {
                    if a == pos {
                        assert(g[b] == r[b - 1]);
                        if g[b].1 == id {
                            assert(has_head(r, id as int));
                        }
                    } else if b == pos {
                        assert(g[a] == r[a]);
                        if g[a].1 == id {
                            assert(has_head(r, id as int));
                        }
                    } else {
                        let ka = if a < pos { a } else { a - 1 };
                        let kb = if b < pos { b } else { b - 1 };
                        assert(g[a] == r[ka]);
                        assert(g[b] == r[kb]);
                    }
                }
                assert(head_values(g).to_multiset() == head_values(h).to_multiset()) by {
                    assert(h[i as int].0 == v);
                    assert(head_values(h).to_multiset().remove(v).insert(v) =~= head_values(
                        h,
                    ).to_multiset());
                }
                assert forall|x: int|
                    0 <= x < n - 1 implies (#[trigger] has_head(g, x) <==> if x == id {
                    has_head(h, n - 1)
                } else {
                    has_head(h, x)
                }) by {
                    if x == id {
                        assert(has_head(h, n - 1));
                    }
                }
                if s.len() == 1 {
                    if n >= 2 {
                        assert(o[0] != o[1]);
                    }
                    if h.len() > 0 {
                        assert(h[0].1 < 1);
                        assert(has_head(h, 0));
                    }
                }
            }
        } else {
            proof {
                assert(!has_head(h, old_id as int));
                assert forall|x: int| 0 <= x < h.len() implies (#[trigger] h[x]).1 < old_id by {
                    if h[x].1 == id {
                        assert(has_head(h, id as int));
                    }
                }
                if s.len() == 1 {
                    if n >= 2 {
                        assert(o[0] != o[1]);
                    }
                    if h.len() > 0 {
                        assert(h[0].1 < 1);
                        assert(has_head(h, 0));
                    }
                }
            }
        }
    }

    /// Acts on what a pull from channel `id` gave: a value goes into a head slot; the end
    /// of the channel, or a failure, drops the channel.
    fn receive(&mut self, id: usize, got: Option<T>)
        requires
            obeys_cmp::<T>(),
            old(self).core_wf(),
            id < old(self).active(),
            !has_head(old(self).heads(), id as int),
            old(self).yielded().len() > 0 ==> {
                let q = old(self).origin()[id as int];
                &&& old(self).streams()[q].len() > 0
                &&& old(self).streams()[q].last() == old(self).yielded().last()
            },
        ensures
            final(self).core_wf(),
            final(self).yielded() == old(self).yielded(),
            final(self).last_picked() == old(self).last_picked(),
            final(self).streams().len() == old(self).streams().len(),
            got matches Some(v) ==> {
                let q = old(self).origin()[id as int];
                &&& final(self).active() == old(self).active()
                &&& final(self).origin() == old(self).origin()
                &&& final(self).ended() == old(self).ended()
                &&& final(self).streams() == old(self).streams().update(q, old(self).streams()[q].push(v))
                &&& exists|pos: int|
                    0 <= pos <= old(self).heads().len() && final(self).heads() == old(self).heads().insert(
                        pos,
                        (v, id),
                    )
                &&& forall|x: int| #[trigger]
                    has_head(final(self).heads(), x) <==> (has_head(old(self).heads(), x) || x == id)
            },
            got is None ==> {
                &&& final(self).active() == old(self).active() - 1
                &&& final(self).streams() == old(self).streams()
                &&& final(self).origin() == old(self).origin().update(
                    id as int,
                    old(self).origin().last(),
                ).drop_last()
                &&& final(self).ended() == old(self).ended().insert(old(self).origin()[id as int])
                &&& forall|x: int|
                    0 <= x < final(self).active() ==> (#[trigger] has_head(final(self).heads(), x) <==> if x
                        == id {
                        has_head(old(self).heads(), old(self).active() - 1)
                    } else {
                        has_head(old(self).heads(), x)
                    })
            },
    {
        match got {
            Some(item) => {
                let ghost h = self.head_items@;
                let ghost s = self.streams@;
                let ghost o = self.origin@;
                let ghost y = self.yielded@;
                let ghost n = self.chans@.len();
                let ghost q = o[id as int];
                let ghost s2 = s.update(q, s[q].push(item));
                proof {
                    lemma_total_order::<T>();
                    lemma_total_push(s, q, item);
                }
                let pos = sorted_insert(&mut self.head_items, (item, id));
                self.streams = Ghost(s2);
                proof {
                    let g = self.head_items@;
                    lemma_has_head_insert(h, pos as int, (item, id));
                    lemma_values_insert(h, pos as int, (item, id));
                    assert(y.to_multiset().add(head_values(g).to_multiset()) =~= total(s2));
                    assert forall|x: int| 0 <= x < g.len() implies {
                        &&& (#[trigger] g[x]).1 < n
                        &&& s2[o[g[x].1 as int]].len() > 0
                        &&& s2[o[g[x].1 as int]].last() == g[x].0
                    } by {
                        if x != pos {
                            let k = if x < pos { x } else { x - 1 };
                            assert(g[x] == h[k]);
                            if h[k].1 == id {
                                assert(has_head(h, id as int));
                            }
                            assert(o[h[k].1 as int] != q);
                        }
                    }
                    assert forall|a: int, b: int| 0 <= a < b < g.len() implies #[trigger] g[a].1
                        != #[trigger] g[b].1 by {
                        if a == pos {
                            assert(g[b] == h[b - 1]);
                            if g[b].1 == id {
                                assert(has_head(h, id as int));
                            }
                        } else if b == pos {
                            assert(g[a] == h[a]);
                            if g[a].1 == id {
                                assert(has_head(h, id as int));
                            }
                        } else {
                            let ka = if a < pos { a } else { a - 1 };
                            let kb = if b < pos { b } else { b - 1 };
                            assert(g[a] == h[ka]);
                            assert(g[b] == h[kb]);
                        }
                    }
                    if all_sorted(s2) {
                        assert forall|p: int| 0 <= p < s.len() implies sorted(#[trigger] s[p]) by {
                            assert(sorted(s2[p]));
                            if p == q {
                                assert forall|i: int, j: int| 0 <= i < j < s[p].len() implies le(
                                    #[trigger] s[p][i],
                                    #[trigger] s[p][j],
                                ) by {
                                    assert(s2[p][i] == s[p][i]);
                                    assert(s2[p][j] == s[p][j]);
                                }
                            }
                        }
                        if y.len() > 0 {
                            assert(sorted(s2[q]));
                            assert(s2[q][s[q].len() - 1] == s[q].last());
                            assert(s2[q][s[q].len() as int] == item);
                            assert(le(y.last(), item));
                            assert forall|x: int| 0 <= x < g.len() implies le(
                                y.last(),
                                (#[trigger] g[x]).0,
                            ) by {
                                if x != pos {
                                    let k = if x < pos { x } else { x - 1 };
                                    assert(g[x] == h[k]);
                                }
                            }
                        }
                    }
                    if s.len() == 1 {
                        if n >= 2 {
                            assert(o[0] != o[1]);
                        }
                        if h.len() > 0 {
                            assert(h[0].1 < 1);
                            assert(has_head(h, 0));
                        }
                        assert(q == 0);
                        assert(head_values(g) =~= seq![item]);
                        assert(y + head_values(g) =~= s2[0]);
                    }
                    assert(self.heads() == old(self).heads().insert(pos as int, (item, id)));
                    assert(self.streams() == old(self).streams().update(
                        old(self).origin()[id as int],
                        old(self).streams()[old(self).origin()[id as int]].push(item),
                    ));
                }
            },
            None => {
                self.remove_channel(id);
            },
        }
    }

    /// Takes one value from channel `id` into a head slot, or drops the channel when it
    /// has no more.
    fn receive_from(&mut self, id: usize)
        requires
            obeys_cmp::<T>(),
            old(self).core_wf(),
            id < old(self).active(),
            !has_head(old(self).heads(), id as int),
            old(self).yielded().len() > 0 ==> {
                let q = old(self).origin()[id as int];
                &&& old(self).streams()[q].len() > 0
                &&& old(self).streams()[q].last() == old(self).yielded().last()
            },
        ensures
            final(self).core_wf(),
            final(self).yielded() == old(self).yielded(),
            final(self).last_picked() == old(self).last_picked(),
            final(self).streams().len() == old(self).streams().len(),
            final(self).active() == old(self).active() ==> {
                &&& final(self).origin() == old(self).origin()
                &&& final(self).ended() == old(self).ended()
                &&& exists|v: T|
                    final(self).streams() == old(self).streams().update(
                        old(self).origin()[id as int],
                        old(self).streams()[old(self).origin()[id as int]].push(v),
                    )
                &&& forall|x: int| #[trigger]
                    has_head(final(self).heads(), x) <==> (has_head(old(self).heads(), x) || x == id)
            },
            final(self).active() != old(self).active() ==> {
                &&& final(self).active() == old(self).active() - 1
                &&& final(self).streams() == old(self).streams()
                &&& final(self).origin() == old(self).origin().update(
                    id as int,
                    old(self).origin().last(),
                ).drop_last()
                &&& final(self).ended() == old(self).ended().insert(old(self).origin()[id as int])
                &&& forall|x: int|
                    0 <= x < final(self).active() ==> (#[trigger] has_head(final(self).heads(), x) <==> if x
                        == id {
                        has_head(old(self).heads(), old(self).active() - 1)
                    } else {
                        has_head(old(self).heads(), x)
                    })
            },
    {
        let got = recv_from(&self.chans[id]);
        let ghost g = got;
        self.receive(id, got);
        proof {
            if g is Some {
                let q = old(self).origin()[id as int];
                assert(self.streams() == old(self).streams().update(q, old(self).streams()[q].push(g->0)));
            }
        }
    }

    /// Takes one value from every channel, dropping those that have none.
    fn receive_from_all(&mut self)
        requires
            obeys_cmp::<T>(),
            old(self).wf(),
            old(self).last_picked() is None,
            old(self).active() > 0,
        ensures
            final(self).core_wf(),
            final(self).yielded() == old(self).yielded(),
            final(self).last_picked() is None,
            final(self).active() <= old(self).active(),
            final(self).streams().len() == old(self).streams().len(),
            forall|p: int|
                0 <= p < final(self).streams().len() ==> if #[trigger] final(self).ended().contains(p) {
                    final(self).streams()[p].len() == 0
                } else {
                    final(self).streams()[p].len() == 1
                },
            forall|x: int| 0 <= x < final(self).active() ==> #[trigger] has_head(final(self).heads(), x),
    {
        let ghost m = old(self).streams().len();
        let mut id: usize = 0;
        while id < self.chans.len()
            invariant
                obeys_cmp::<T>(),
                self.core_wf(),
                self.yielded() == old(self).yielded(),
                self.yielded().len() == 0,
                self.last_picked() is None,
                self.active() <= old(self).active(),
                self.streams().len() == m,
                id <= self.active(),
                forall|x: int| 0 <= x < self.active() ==> (#[trigger] has_head(self.heads(), x) <==> x < id),
                forall|x: int| id <= x < self.active() ==> #[trigger] self.streams()[self.origin()[x]].len() == 0,
                forall|p: int| 0 <= p < m ==> #[trigger] self.streams()[p].len() <= 1,
                forall|x: int| 0 <= x < id ==> #[trigger] self.streams()[self.origin()[x]].len() == 1,
                forall|p: int| #[trigger] self.ended().contains(p) ==> self.streams()[p].len() == 0,
            decreases self.active() - id,
        {
            let before = self.chans.len();
            let ghost s = self.streams();
            let ghost o = self.origin();
            self.receive_from(id);
            if self.chans.len() == before {
                proof {
                    let q = o[id as int];
                    let v = choose|v: T| self.streams() == s.update(q, s[q].push(v));
                    assert forall|p: int| 0 <= p < m implies #[trigger] self.streams()[p].len() <= 1 by {
                        if p == q {
                            assert(s[q].len() == 0);
                        }
                    }
                    assert forall|x: int| 0 <= x < id + 1 implies #[trigger] self.streams()[self.origin()[x]].len() == 1 by {
                        if x != id {
                            assert(o[x] != o[id as int]);
                        }
                    }
                    assert forall|p: int| #[trigger] self.ended().contains(p) implies self.streams()[p].len() == 0 by {
                        assert(p != q);
                    }
                    assert forall|x: int| id + 1 <= x < self.active() implies #[trigger] self.streams()[self.origin()[x]].len() == 0 by {
                        assert(o[x] != o[id as int]);
                        assert(s[o[x]].len() == 0);
                    }
                }
                id = id + 1;
            } else {
                proof {
                    assert forall|x: int| 0 <= x < id implies #[trigger] self.streams()[self.origin()[x]].len() == 1 by {
                        assert(self.origin()[x] == o[x]);
                    }
                    assert forall|x: int| 0 <= x < self.active() implies (#[trigger] has_head(self.heads(), x) <==> x < id) by {
                        if x == id {
                            assert(!(before - 1 < id));
                        }
                    }
                    assert forall|x: int| id <= x < self.active() implies #[trigger] self.streams()[self.origin()[x]].len() == 0 by {
                        if x == id {
                            assert(s[o[before - 1]].len() == 0);
                        } else {
                            assert(s[o[x]].len() == 0);
                        }
                    }
                }
            }
        }
        proof {
            assert forall|p: int| 0 <= p < m && !self.ended().contains(p) implies #[trigger] self.streams()[p].len() == 1 by {
                assert(live(self.origin(), p));
                let i = choose|i: int| 0 <= i < self.origin().len() && #[trigger] self.origin()[i] == p;
                assert(self.streams()[self.origin()[i]].len() == 1);
            }
        }
    }

    /// The next value of the merged stream: the smallest of the values taken from the
    /// channels and not yet handed out, or `None` once every channel has run dry.
    ///
    /// The first call takes one value from every channel; each later call takes one from
    /// the channel whose value was handed out last.
    pub fn next(&mut self) -> (r: Option<T>)
        requires
            obeys_cmp::<T>(),
            old(self).wf(),
        ensures
            final(self).wf(),
            final(self).streams().len() == old(self).streams().len(),
            final(self).active() <= old(self).active(),
            old(self).ended().subset_of(final(self).ended()),
            forall|p: int| #[trigger] old(self).ended().contains(p) ==> final(self).streams()[p] == old(self).streams()[p],
            old(self).active() == 0 ==> r is None && final(self).yielded() == old(self).yielded()
                && final(self).streams() == old(self).streams() && final(self).heads() == old(self).heads()
                && final(self).active() == 0 && final(self).last_picked() == old(self).last_picked()
                && final(self).origin() == old(self).origin() && final(self).ended() == old(self).ended(),
            old(self).last_picked() is Some && old(self).active() >= 2 ==> r is Some,
            r is None <==> final(self).active() == 0,
            r is None ==> final(self).yielded() == old(self).yielded(),
            r is None ==> forall|p: int| 0 <= p < final(self).streams().len() ==> #[trigger] final(self).ended().contains(p),
            r matches Some(v) ==> {
                &&& final(self).yielded() == old(self).yielded().push(v)
                &&& forall|i: int| 0 <= i < final(self).heads().len() ==> le(v, #[trigger] final(self).heads()[i].0)
            },
            old(self).last_picked() is None && old(self).active() > 0 ==> forall|p: int|
                0 <= p < final(self).streams().len() ==> if #[trigger] final(self).ended().contains(p) {
                    final(self).streams()[p].len() == 0
                } else {
                    final(self).streams()[p].len() == 1
                },
            old(self).last_picked() is Some && old(self).active() > 0 ==> {
                let q = old(self).origin()[old(self).last_picked()->0 as int];
                ||| final(self).ended() == old(self).ended() && exists|v: T|
                    final(self).streams() == old(self).streams().update(q, old(self).streams()[q].push(v))
                ||| final(self).ended() == old(self).ended().insert(q) && final(self).streams()
                    == old(self).streams()
            },
    {
        if self.chans.len() == 0 {
            return None;
        }
        proof {
            lemma_total_order::<T>();
        }
        match self.last_picked {
            Some(id) => {
                let ghost n = self.chans@.len();
                self.receive_from(id);
                proof {
                    if self.active() == n {
                        assert forall|x: int| 0 <= x < self.active() implies #[trigger] has_head(self.heads(), x) by {
                            if x != id {
                                assert(has_head(old(self).heads(), x));
                            }
                        }
                    } else {
                        assert forall|x: int| 0 <= x < self.active() implies #[trigger] has_head(self.heads(), x) by {
                            if x == id {
                                assert(has_head(old(self).heads(), n - 1));
                            } else {
                                assert(has_head(old(self).heads(), x));
                            }
                        }
                    }
                }
            },
            None => {
                self.receive_from_all();
            },
        }
        let ghost pre = self.heads();
        let r = self.get_next_head_item();
        proof {
            if r is None {
                assert forall|p: int| 0 <= p < self.streams().len() implies #[trigger] self.ended().contains(p) by {
                    assert(!live(self.origin(), p));
                }
            }
            if r is Some {
                let v = r->0;
                let h = self.heads();
                assert forall|i: int| 0 <= i < h.len() implies le(v, #[trigger] h[i].0) by {
                    assert(h[i] == pre[i]);
                    assert(slot_before(pre[pre.len() - 1], pre[i]));
                }
            }
        }
        r
    }
}

/// When every channel has delivered its values in order, the values handed out are in
/// order too.
pub proof fn lemma_output_sorted<T: Ord>(m: &MergedChannels<T>)
    requires
        obeys_cmp::<T>(),
        m.wf(),
        all_sorted(m.streams()),
    ensures
        sorted(m.yielded()),
{
}

/// Nothing is lost or repeated: the values handed out and those waiting in head slots are,
/// counted with multiplicity, the values that the channels delivered. Once no channel is
/// open, every channel has reported its end, no slot is left, and the values handed out
/// are exactly all the values that the channels delivered.
pub proof fn lemma_output_complete<T: Ord>(m: &MergedChannels<T>)
    requires
        m.wf(),
    ensures
        m.yielded().to_multiset().add(head_values(m.heads()).to_multiset()) == total(m.streams()),
        m.active() == 0 ==> m.heads().len() == 0,
        m.active() == 0 ==> forall|p: int| 0 <= p < m.streams().len() ==> #[trigger] m.ended().contains(p),
        m.active() == 0 ==> m.yielded().to_multiset() == total(m.streams()),
{
    if m.active() == 0 {
        assert forall|p: int| 0 <= p < m.streams().len() implies #[trigger] m.ended().contains(p) by {
            assert(!live(m.origin(), p));
        }
    }
    if m.active() == 0 && m.heads().len() > 0 {
        assert(m.heads()[0].1 < 0);
    }
    if m.active() == 0 {
        assert(head_values(m.heads()).to_multiset().len() == 0);
        assert(m.yielded().to_multiset().add(head_values(m.heads()).to_multiset()) =~= m.yielded().to_multiset());
    }
}

/// With a single channel the merger hands out that channel's values as they came: the
/// values handed out, then the one waiting, are what the channel delivered; once it is
/// closed, it has reported its end and the values handed out are exactly all it delivered,
/// in order.
pub proof fn lemma_single_channel<T: Ord>(m: &MergedChannels<T>)
    requires
        m.wf(),
        m.streams().len() == 1,
    ensures
        m.yielded() + head_values(m.heads()) == m.streams()[0],
        m.active() == 0 ==> m.ended().contains(0),
        m.active() == 0 ==> m.yielded() == m.streams()[0],
{
    lemma_output_complete(m);
    if m.active() == 0 {
        assert(m.yielded() + head_values(m.heads()) =~= m.yielded());
    }
}

} // verus!
