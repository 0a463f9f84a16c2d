//! Properties of the runtime: values that other properties can be bound to.
//! A bound property holds a transform of its parents' values, which it
//! keeps in a cache; a change is pushed to the children of a property when
//! the factory commits its changes.
//!
//! Properties live in their factory and are named by their index there. A
//! transform is named by a number; the factory holds the function that
//! computes transforms from their numbers and their parents' values.

use vstd::prelude::*;

verus! {

/// A value that a property can hold.
pub trait ValueItem: Sized {
    /// The value of a property that is not set.
    spec fn initial_spec() -> Self;

    /// The value of a property that is not set.
    fn initial() -> (r: Self)
        ensures
            r == Self::initial_spec(),
    ;

    /// Whether the two values are the same.
    fn same(&self, other: &Self) -> (r: bool)
        ensures
            r == (*self == *other),
    ;

    /// A copy of the value.
    fn copy_of(&self) -> (r: Self)
        ensures
            r == *self,
    ;
}

impl ValueItem for i32 {
    open spec fn initial_spec() -> Self {
        0
    }

    fn initial() -> (r: Self) {
        0
    }

    fn same(&self, other: &Self) -> (r: bool) {
        *self == *other
    }

    fn copy_of(&self) -> (r: Self) {
        *self
    }
}

impl ValueItem for bool {
    open spec fn initial_spec() -> Self {
        false
    }

    fn initial() -> (r: Self) {
        false
    }

    fn same(&self, other: &Self) -> (r: bool) {
        *self == *other
    }

    fn copy_of(&self) -> (r: Self) {
        *self
    }
}

/// What makes a property bound: the transform that computes its value, the
/// parents' values it was last given, and the binding's own number, by which
/// its parents find it again.
pub struct Binding<V> {
    pub transform: usize,
    pub values: Vec<V>,
    pub instance: usize,
}

/// A link from a parent to the binding of a child: the child, the place of
/// the parent among the child's parents, and the binding's number.
pub struct ChildLink {
    pub child: usize,
    pub index: usize,
    pub instance: usize,
}

/// One property: its value, whether it is frozen, its binding, the
/// bindings that read it, and the listener told of its changes.
pub struct PropertyImpl<V> {
    pub value: V,
    pub readonly: bool,
    pub binding: Option<Binding<V>>,
    pub children: Vec<ChildLink>,
    pub listener: Option<usize>,
    pub id: usize,
}

/// The properties, and the set of those changed since the last commit.
pub struct PropertyFactory<V, F> {
    props: Vec<PropertyImpl<V>>,
    transform: F,
    change_set: Vec<usize>,
    count: usize,
    count_all: usize,
    /// The properties not dropped.
    live: Ghost<Set<int>>,
    bindings: usize,
}

/// The links that binding `instance` of property `p` adds to property `q`:
/// one for each place among `parents` that `q` holds, in order.
pub open spec fn links_to(parents: Seq<usize>, q: int, p: usize, instance: usize) -> Seq<ChildLink>
    decreases parents.len(),
{
    if parents.len() == 0 {
        Seq::empty()
    } else {
        let rest = links_to(parents.drop_last(), q, p, instance);
        if parents.last() == q {
            rest.push(ChildLink { child: p, index: (parents.len() - 1) as usize, instance })
        } else {
            rest
        }
    }
}

/// A property that is not among `parents` gets no links from them.
pub proof fn lemma_links_to_absent(parents: Seq<usize>, q: int, p: usize, instance: usize)
    requires
        forall|i: int| 0 <= i < parents.len() ==> parents[i] != q,
    ensures
        links_to(parents, q, p, instance).len() == 0,
    decreases parents.len(),
{
    if parents.len() > 0 {
        lemma_links_to_absent(parents.drop_last(), q, p, instance);
    }
}

impl<V, F: Fn(usize, &Vec<V>) -> V> PropertyFactory<V, F> {
    /// The function that computes transforms: it is given the transform's
    /// number and the values of the parents.
    pub closed spec fn transforms(&self) -> F {
        self.transform
    }

    /// The number of properties.
    pub closed spec fn size(&self) -> nat {
        self.props@.len()
    }

    /// The property `p`.
    pub closed spec fn prop(&self, p: int) -> PropertyImpl<V> {
        self.props@[p]
    }

    /// Whether property `p` has not been dropped.
    pub closed spec fn is_live(&self, p: int) -> bool {
        self.live@.contains(p)
    }

    /// The number of properties not dropped.
    pub closed spec fn live_count(&self) -> nat {
        self.live@.len()
    }

    /// No more properties are live than there are.
    proof fn lemma_count_bound(&self)
        requires
            self.structure_ok(),
        ensures
            self.live@.len() <= self.props@.len(),
    {
        vstd::set_lib::lemma_int_range(0, self.props@.len() as int);
        assert(self.live@.subset_of(vstd::set_lib::set_int_range(0, self.props@.len() as int)));
        vstd::set_lib::lemma_len_subset(self.live@, vstd::set_lib::set_int_range(0, self.props@.len() as int));
    }

    /// The number of bindings made so far.
    pub closed spec fn bindings_made(&self) -> nat {
        self.bindings as nat
    }

    /// The properties changed and not committed yet.
    pub closed spec fn pending(&self) -> Seq<usize> {
        self.change_set@
    }

    /// The link `l` still leads to the binding it was made for.
    pub open spec fn live(&self, l: ChildLink) -> bool {
        &&& l.child < self.size()
        &&& self.prop(l.child as int).binding matches Some(b)
        &&& b.instance == l.instance
        &&& l.index < b.values@.len()
    }

    /// Every binding that reads `p` holds `p`'s value, unless `p` is pending
    /// or among `extra`.
    pub open spec fn links_fresh(&self, extra: Seq<usize>) -> bool {
        forall|p: int, k: int|
            #![trigger self.prop(p).children@[k]]
            0 <= p < self.size() && 0 <= k < self.prop(p).children@.len() && self.live(self.prop(p).children@[k])
                && !self.pending().contains(p as usize) && !extra.contains(p as usize)
                ==> self.prop(self.prop(p).children@[k].child as int).binding->0.values@[self.prop(p).children@[k].index as int]
                    == self.prop(p).value
    }

    /// Every binding still in place holds the current values of its parents.
    pub open spec fn bindings_current(&self) -> bool {
        forall|p: int, k: int|
            #![trigger self.prop(p).children@[k]]
            0 <= p < self.size() && 0 <= k < self.prop(p).children@.len() && self.live(self.prop(p).children@[k])
                ==> self.prop(self.prop(p).children@[k].child as int).binding->0.values@[self.prop(p).children@[k].index as int]
                    == self.prop(p).value
    }

    /// Once nothing is pending, every binding holds its parents' current
    /// values.
    pub proof fn lemma_settled(&self)
        requires
            self.wf(),
            self.pending().len() == 0,
        ensures
            self.bindings_current(),
    {
        assert forall|p: int, k: int|
            #![trigger self.prop(p).children@[k]]
            0 <= p < self.size() && 0 <= k < self.prop(p).children@.len() && self.live(self.prop(p).children@[k])
            implies self.prop(self.prop(p).children@[k].child as int).binding->0.values@[self.prop(p).children@[k].index as int]
                == self.prop(p).value by {
            assert(!self.pending().contains(p as usize));
            assert(!Seq::<usize>::empty().contains(p as usize));
        }
    }

    /// A binding still in place that a link of property `p` leads to belongs
    /// to property `q`.
    pub open spec fn reads(&self, p: int, q: usize) -> bool {
        exists|k: int| 0 <= k < self.prop(p).children@.len() && self.live(#[trigger] self.prop(p).children@[k])
            && self.prop(p).children@[k].child == q
    }

    /// Every bound property holds what its transform gives for the values its
    /// binding holds, unless it is pending or among `extra`.
    pub open spec fn values_fresh(&self, extra: Seq<usize>) -> bool {
        forall|q: int| 0 <= q < self.size() && !self.pending().contains(q as usize) && !extra.contains(q as usize)
            ==> #[trigger] self.computed(q)
    }

    /// `rank` puts every property below the bindings still in place that read
    /// it: the bindings hold no cycle.
    pub open spec fn ranked(&self, rank: spec_fn(int) -> int) -> bool {
        &&& forall|q: int| 0 <= q < self.size() ==> 0 <= #[trigger] rank(q) < self.size()
        &&& forall|q: int, k: int|
            #![trigger self.prop(q).children@[k]]
            0 <= q < self.size() && 0 <= k < self.prop(q).children@.len() && self.live(self.prop(q).children@[k])
                ==> rank(q) < rank(self.prop(q).children@[k].child as int)
    }

    /// Bound properties keep holding their transforms when only property `p`
    /// changes, and it holds its transform or is pending.
    proof fn lemma_values_kept(&self, before: &Self, p: int)
        requires
            before.values_fresh(Seq::empty()),
            self.transforms() == before.transforms(),
            forall|q: int| 0 <= q < self.size() && q != p ==> q < before.size() && #[trigger] self.prop(q) == before.prop(q),
            0 <= p < self.size() ==> self.computed(p) || self.pending().contains(p as usize),
            forall|q: usize| #[trigger] before.pending().contains(q) ==> self.pending().contains(q),
        ensures
            self.values_fresh(Seq::empty()),
    {
        assert forall|q: int| 0 <= q < self.size() && !self.pending().contains(q as usize) && !Seq::<usize>::empty().contains(q as usize)
            implies #[trigger] self.computed(q) by {
            if q != p {
                assert(self.prop(q) == before.prop(q));
                assert(!before.pending().contains(q as usize));
                assert(!Seq::<usize>::empty().contains(q as usize));
                assert(before.computed(q));
            }
        }
    }

    /// Listener `l` listens to some property.
    pub open spec fn listens(&self, l: usize) -> bool {
        exists|q: int| 0 <= q < self.size() && #[trigger] self.prop(q).listener == Some(l)
    }

    /// No link is held by two parents.
    pub open spec fn links_unique(&self) -> bool {
        forall|q1: int, k1: int, q2: int, k2: int|
            #![trigger self.prop(q1).children@[k1], self.prop(q2).children@[k2]]
            0 <= q1 < self.size() && 0 <= k1 < self.prop(q1).children@.len()
                && 0 <= q2 < self.size() && 0 <= k2 < self.prop(q2).children@.len()
                && self.prop(q1).children@[k1] == self.prop(q2).children@[k2]
                ==> q1 == q2
    }

    /// Every link of `self` is a link that the same parent holds in `before`.
    pub open spec fn links_within(&self, before: &Self) -> bool {
        forall|q: int, k: int| #![trigger self.prop(q).children@[k]]
            0 <= q < self.size() && 0 <= k < self.prop(q).children@.len()
            ==> q < before.size() && before.prop(q).children@.contains(self.prop(q).children@[k])
    }

    /// Links that parents kept as they were, or that new properties do not
    /// have, are links they held before.
    proof fn lemma_same_links(&self, before: &Self)
        requires
            before.links_unique(),
            forall|q: int| 0 <= q < self.size() ==> (q < before.size() && (#[trigger] self.prop(q)).children@ == before.prop(q).children@)
                || self.prop(q).children@.len() == 0,
        ensures
            self.links_unique(),
    {
        assert forall|q: int, k: int| #![trigger self.prop(q).children@[k]]
            0 <= q < self.size() && 0 <= k < self.prop(q).children@.len()
            implies q < before.size() && before.prop(q).children@.contains(self.prop(q).children@[k]) by {
            assert(self.prop(q).children@[k] == before.prop(q).children@[k]);
        }
        self.lemma_links_within(before);
    }

    /// Links that parents held once each are still held once each by the
    /// same parents.
    proof fn lemma_links_within(&self, before: &Self)
        requires
            before.links_unique(),
            self.links_within(before),
        ensures
            self.links_unique(),
    {
        assert forall|q1: int, k1: int, q2: int, k2: int|
            #![trigger self.prop(q1).children@[k1], self.prop(q2).children@[k2]]
            0 <= q1 < self.size() && 0 <= k1 < self.prop(q1).children@.len()
                && 0 <= q2 < self.size() && 0 <= k2 < self.prop(q2).children@.len()
                && self.prop(q1).children@[k1] == self.prop(q2).children@[k2]
            implies q1 == q2 by {
            assert(before.prop(q1).children@.contains(self.prop(q1).children@[k1]));
            assert(before.prop(q2).children@.contains(self.prop(q2).children@[k2]));
            let j1 = choose|j: int| 0 <= j < before.prop(q1).children@.len() && before.prop(q1).children@[j] == self.prop(q1).children@[k1];
            let j2 = choose|j: int| 0 <= j < before.prop(q2).children@.len() && before.prop(q2).children@[j] == self.prop(q2).children@[k2];
            assert(before.prop(q1).children@[j1] == before.prop(q2).children@[j2]);
        }
    }

    /// Property `q` holds what its transform gives for the
    /// values its binding holds, if it is bound.
    pub open spec fn computed(&self, q: int) -> bool {
        self.prop(q).binding is Some ==> self.transforms().ensures((self.prop(q).binding->0.transform,
            &self.prop(q).binding->0.values), self.prop(q).value)
    }

    /// `self` has the properties of `old`, frozen or not and with the same
    /// listeners, bound by the same transforms to as many parents; their
    /// values, the values their bindings hold, and their links may differ.
    pub open spec fn same_shape(&self, old: &Self) -> bool {
        &&& self.size() == old.size()
        &&& forall|q: int| 0 <= q < self.size() ==> {
            &&& (#[trigger] self.prop(q)).readonly == old.prop(q).readonly
            &&& self.prop(q).listener == old.prop(q).listener
            &&& self.prop(q).id == old.prop(q).id
            &&& (self.prop(q).binding is Some <==> old.prop(q).binding is Some)
            &&& self.prop(q).binding is Some ==> self.prop(q).binding->0.transform == old.prop(q).binding->0.transform
                && self.prop(q).binding->0.instance == old.prop(q).binding->0.instance
                && self.prop(q).binding->0.values@.len() == old.prop(q).binding->0.values@.len()
        }
    }

    /// The factory's consistency: properties are numbered in order of
    /// creation, links lead to properties, the change set holds properties
    /// once each, bindings read their parents' values unless a parent is
    /// pending, and bound properties hold their transforms unless pending.
    pub closed spec fn wf(&self) -> bool {
        &&& self.structure_ok()
        &&& self.links_fresh(Seq::empty())
        &&& self.values_fresh(Seq::empty())
    }

    /// The factory's consistency apart from what bindings hold.
    pub closed spec fn structure_ok(&self) -> bool {
        &&& forall|t: usize, vs: &Vec<V>| #[trigger] self.transform.requires((t, vs))
        &&& self.count_all == self.props@.len()
        &&& self.live@.finite()
        &&& self.count == self.live@.len()
        &&& forall|q: int| #[trigger] self.live@.contains(q) ==> 0 <= q < self.props@.len()
        &&& forall|q: int| 0 <= q < self.props@.len() && !self.live@.contains(q) ==> (#[trigger] self.props@[q]).binding is None
            && self.props@[q].children@.len() == 0 && self.props@[q].listener is None
        &&& forall|p: int| 0 <= p < self.props@.len() ==> (#[trigger] self.props@[p]).id == p + 1
        &&& forall|p: int, k: int| 0 <= p < self.props@.len() && 0 <= k < self.props@[p].children@.len()
            ==> (#[trigger] self.props@[p].children@[k]).child < self.props@.len() && self.props@[p].children@[k].instance < self.bindings
        &&& forall|p: int| 0 <= p < self.props@.len() && (#[trigger] self.props@[p]).binding is Some
            ==> self.props@[p].binding->0.instance < self.bindings
        &&& forall|i: int| 0 <= i < self.change_set@.len() ==> (#[trigger] self.change_set@[i]) < self.props@.len()
        &&& self.change_set@.no_duplicates()
        &&& self.links_unique()
    }

    /// A factory without properties, whose transforms `transform` computes.
    pub fn new_factory(transform: F) -> (r: Self)
        requires
            forall|t: usize, vs: &Vec<V>| #[trigger] transform.requires((t, vs)),
        ensures
            r.wf(),
            r.size() == 0,
            r.pending().len() == 0,
            r.transforms() == transform,
    {
        PropertyFactory {
            props: Vec::new(),
            transform,
            change_set: Vec::new(),
            count: 0,
            count_all: 0,
            live: Ghost(Set::empty()),
            bindings: 0,
        }
    }

    /// The number of properties of the factory not dropped.
    pub fn count(&self) -> (r: usize)
        requires
            self.wf(),
        ensures
            r == self.live_count(),
    {
        self.count
    }
}

impl<V: ValueItem, F: Fn(usize, &Vec<V>) -> V> PropertyFactory<V, F> {
    /// A new property holding `value`, with `listener` told of its changes.
    pub fn new(&mut self, value: V, listener: Option<usize>) -> (r: usize)
        requires
            old(self).wf(),
            old(self).size() + 1 < usize::MAX,
        ensures
            final(self).wf(),
            final(self).transforms() == old(self).transforms(),
            r == old(self).size(),
            final(self).size() == old(self).size() + 1,
            final(self).prop(r as int).value == value,
            !final(self).prop(r as int).readonly,
            final(self).prop(r as int).binding is None,
            final(self).prop(r as int).children@.len() == 0,
            final(self).prop(r as int).listener == listener,
            final(self).prop(r as int).id == r + 1,
            forall|q: int| 0 <= q < old(self).size() ==> #[trigger] final(self).prop(q) == old(self).prop(q),
            final(self).pending() == old(self).pending(),
            final(self).bindings_made() == old(self).bindings_made(),
            final(self).is_live(r as int),
            final(self).live_count() == old(self).live_count() + 1,
            forall|q: int| #[trigger] final(self).is_live(q) == (old(self).is_live(q) || q == r),
    {
        proof {
            self.lemma_count_bound();
        }
        self.count = self.count + 1;
        self.count_all = self.count_all + 1;
        let r = self.props.len();
        self.props.push(PropertyImpl { value, readonly: false, binding: None, children: Vec::new(), listener, id: self.count_all });
        proof {
            assert(!old(self).live@.contains(r as int));
            self.live = Ghost(self.live@.insert(r as int));
            assert forall|q: int| 0 <= q < self.size() implies (q < old(self).size() && (#[trigger] self.prop(q)).children@ == old(self).prop(q).children@)
                || self.prop(q).children@.len() == 0 by {
                if q < r {
                    assert(self.prop(q) == old(self).prop(q));
                }
            }
            self.lemma_same_links(&*old(self));
            assert forall|q: int| 0 <= q < self.size() && q != r implies q < old(self).size()
                && #[trigger] self.prop(q) == old(self).prop(q) by {}
            self.lemma_values_kept(&*old(self), r as int);
            assert forall|q: int, k: int|
                #![trigger self.prop(q).children@[k]]
                0 <= q < self.size() && 0 <= k < self.prop(q).children@.len() && self.live(self.prop(q).children@[k])
                    && !self.pending().contains(q as usize) && !Seq::<usize>::empty().contains(q as usize)
                implies self.prop(self.prop(q).children@[k].child as int).binding->0.values@[self.prop(q).children@[k].index as int]
                    == self.prop(q).value by {
                assert(q < r);
                assert(self.prop(q) == old(self).prop(q));
                assert(old(self).live(old(self).prop(q).children@[k]));
            }
        }
        r
    }

    /// The value of property `p`.
    pub fn get(&self, p: usize) -> (r: V)
        requires
            self.wf(),
            p < self.size(),
        ensures
            r == self.prop(p as int).value,
    {
        self.props[p].value.copy_of()
    }

    /// Whether property `p` cannot be set or bound: it is bound already
    /// (unless it is to be unbound), or frozen.
    pub fn check_is_settable(&self, p: usize, unbind: bool) -> (r: Result<(), String>)
        requires
            self.wf(),
            p < self.size(),
        ensures
            !unbind && self.prop(p as int).binding is Some ==> (r matches Err(m)
                && m@ == "cannot rebind child binding without unbinding it first"@),
            (unbind || self.prop(p as int).binding is None) && self.prop(p as int).readonly ==> (r matches Err(m)
                && m@ == "cannot rebind readonly binding"@),
            (unbind || self.prop(p as int).binding is None) && !self.prop(p as int).readonly ==> r is Ok,
    {
        if !unbind && self.props[p].binding.is_some() {
            Err("cannot rebind child binding without unbinding it first".to_owned())
        } else if self.props[p].readonly {
            Err("cannot rebind readonly binding".to_owned())
        } else {
            Ok(())
        }
    }

    /// Puts property `p` in the change set, unless it is there already.
    fn add_to_change_set(&mut self, p: usize)
        requires
            p < old(self).props@.len(),
            old(self).change_set@.no_duplicates(),
        ensures
            final(self).props == old(self).props,
            final(self).transform == old(self).transform,
            final(self).count == old(self).count,
            final(self).count_all == old(self).count_all,
            final(self).bindings == old(self).bindings,
            final(self).live == old(self).live,
            final(self).change_set@.no_duplicates(),
            final(self).change_set@.contains(p),
            forall|q: usize| #[trigger] final(self).change_set@.contains(q) <==> (old(self).change_set@.contains(q) || q == p),
            forall|i: int| 0 <= i < final(self).change_set@.len() ==> (#[trigger] final(self).change_set@[i] == p
                || old(self).change_set@.contains(final(self).change_set@[i])),
    {
        let mut i: usize = 0;
        while i < self.change_set.len()
            invariant
                self.props == old(self).props,
                self.transform == old(self).transform,
                self.change_set == old(self).change_set,
                self.count == old(self).count,
                self.count_all == old(self).count_all,
                self.bindings == old(self).bindings,
                self.live == old(self).live,
                i <= self.change_set@.len(),
                self.change_set@.no_duplicates(),
                forall|j: int| 0 <= j < i ==> self.change_set@[j] != p,
            decreases self.change_set@.len() - i,
        {
            if self.change_set[i] == p {
                assert(self.change_set@[i as int] == p);
                return;
            }
            i = i + 1;
        }
        self.change_set.push(p);
        proof {
            assert forall|q: usize| #[trigger] self.change_set@.contains(q) implies (old(self).change_set@.contains(q) || q == p) by {
                let j = choose|j: int| 0 <= j < self.change_set@.len() && self.change_set@[j] == q;
                if j < old(self).change_set@.len() {
                    assert(old(self).change_set@[j] == q);
                }
            }
            assert(self.change_set@[old(self).change_set@.len() as int] == p);
            assert forall|q: usize| old(self).change_set@.contains(q) implies #[trigger] self.change_set@.contains(q) by {
                let j = choose|j: int| 0 <= j < old(self).change_set@.len() && old(self).change_set@[j] == q;
                assert(self.change_set@[j] == q);
            }
        }
    }

    /// Sets property `p` to `value`, which puts it in the change set if its
    /// value changes. A bound or frozen property cannot be set.
    pub fn try_set(&mut self, p: usize, value: V) -> (r: Result<(), String>)
        requires
            old(self).wf(),
            p < old(self).size(),
        ensures
            final(self).wf(),
            final(self).transforms() == old(self).transforms(),
            final(self).size() == old(self).size(),
            old(self).prop(p as int).binding is Some ==> (r matches Err(m)
                && m@ == "cannot rebind child binding without unbinding it first"@),
            old(self).prop(p as int).binding is None && old(self).prop(p as int).readonly ==> (r matches Err(m)
                && m@ == "cannot rebind readonly binding"@),
            r is Err ==> *final(self) == *old(self),
            r is Ok <==> old(self).prop(p as int).binding is None && !old(self).prop(p as int).readonly,
            r is Ok ==> final(self).prop(p as int) == (PropertyImpl { value, ..old(self).prop(p as int) }),
            forall|q: int| 0 <= q < old(self).size() && q != p ==> #[trigger] final(self).prop(q) == old(self).prop(q),
            r is Ok && value != old(self).prop(p as int).value ==> forall|q: usize| #[trigger] final(self).pending().contains(q)
                <==> (old(self).pending().contains(q) || q == p),
            r is Ok && value == old(self).prop(p as int).value ==> final(self).pending() == old(self).pending(),
    {
        self.check_is_settable(p, false)?;
        if !self.props[p].value.same(&value) {
            let mut e = self.props.remove(p);
            e.value = value;
            self.props.insert(p, e);
            assert(self.props@ =~= old(self).props@.update(p as int, PropertyImpl { value, ..old(self).props@[p as int] }));
            self.add_to_change_set(p);
            proof {
                self.lemma_links_after_change(&*old(self), p);
            }
        }
        Ok(())
    }

    /// Links stay fresh when property `p`, now pending, changes its value
    /// alone.
    proof fn lemma_links_after_change(&self, old: &Self, p: usize)
        requires
            old.wf(),
            p < old.props@.len(),
            self.props@.len() == old.props@.len(),
            self.transform == old.transform,
            self.count == old.count,
            self.count_all == old.count_all,
            self.bindings == old.bindings,
            self.change_set@.no_duplicates(),
            self.change_set@.contains(p),
            forall|q: usize| #[trigger] self.change_set@.contains(q) <==> (old.change_set@.contains(q) || q == p),
            forall|q: int| 0 <= q < self.props@.len() && q != p ==> #[trigger] self.props@[q] == old.props@[q],
            self.props@[p as int].binding == old.props@[p as int].binding || self.props@[p as int].binding is None,
            self.props@[p as int].children == old.props@[p as int].children,
            self.props@[p as int].id == old.props@[p as int].id,
            self.props@[p as int].listener == old.props@[p as int].listener,
            self.live == old.live,
        ensures
            self.wf(),
    {
        assert forall|q: int| 0 <= q < self.props@.len() && !self.live@.contains(q) implies (#[trigger] self.props@[q]).binding is None
            && self.props@[q].children@.len() == 0 && self.props@[q].listener is None by {
            assert(old.props@[q].binding is None);
        }
        assert forall|q: int| 0 <= q < self.size() implies (q < old.size() && (#[trigger] self.prop(q)).children@ == old.prop(q).children@)
            || self.prop(q).children@.len() == 0 by {
            if q != p {
                assert(self.props@[q] == old.props@[q]);
            }
        }
        self.lemma_same_links(old);
        assert forall|q: int| 0 <= q < self.size() && q != p implies q < old.size()
            && #[trigger] self.prop(q) == old.prop(q) by {}
        self.lemma_values_kept(old, p as int);
        assert forall|i: int| 0 <= i < self.change_set@.len() implies (#[trigger] self.change_set@[i]) < self.props@.len() by {
            assert(self.change_set@.contains(self.change_set@[i]));
            if self.change_set@[i] != p {
                let j = choose|j: int| 0 <= j < old.change_set@.len() && old.change_set@[j] == self.change_set@[i];
            }
        }
        assert forall|q: int, k: int|
            #![trigger self.prop(q).children@[k]]
            0 <= q < self.size() && 0 <= k < self.prop(q).children@.len() && self.live(self.prop(q).children@[k])
                && !self.pending().contains(q as usize) && !Seq::<usize>::empty().contains(q as usize)
            implies self.prop(self.prop(q).children@[k].child as int).binding->0.values@[self.prop(q).children@[k].index as int]
                == self.prop(q).value by {
            assert(q != p);
            let l = self.prop(q).children@[k];
            assert(old.prop(q).children@[k] == l);
            assert(!old.pending().contains(q as usize));
            if l.child != p {
                assert(self.props@[l.child as int] == old.props@[l.child as int]);
                assert(old.live(l));
            } else {
                assert(old.live(l));
            }
        }
    }

    /// Unbinds property `p`, which then holds the initial value; it is put in
    /// the change set if its value changes. A frozen property cannot be
    /// unbound.
    pub fn try_unbind(&mut self, p: usize) -> (r: Result<(), String>)
        requires
            old(self).wf(),
            p < old(self).size(),
        ensures
            final(self).wf(),
            final(self).transforms() == old(self).transforms(),
            final(self).size() == old(self).size(),
            old(self).prop(p as int).readonly ==> (r matches Err(m) && m@ == "cannot rebind readonly binding"@),
            r is Err ==> *final(self) == *old(self),
            r is Ok <==> !old(self).prop(p as int).readonly,
            r is Ok ==> final(self).prop(p as int) == (PropertyImpl { value: V::initial_spec(), binding: None, ..old(self).prop(p as int) }),
            forall|q: int| 0 <= q < old(self).size() && q != p ==> #[trigger] final(self).prop(q) == old(self).prop(q),
            r is Ok && V::initial_spec() != old(self).prop(p as int).value ==> forall|q: usize| #[trigger] final(self).pending().contains(q)
                <==> (old(self).pending().contains(q) || q == p),
            r is Ok && V::initial_spec() == old(self).prop(p as int).value ==> final(self).pending() == old(self).pending(),
    {
        self.check_is_settable(p, true)?;
        let value = V::initial();
        let changed = !self.props[p].value.same(&value);
        let mut e = self.props.remove(p);
        e.value = value;
        e.binding = None;
        self.props.insert(p, e);
        assert(self.props@ =~= old(self).props@.update(p as int,
            PropertyImpl { value: V::initial_spec(), binding: None, ..old(self).props@[p as int] }));
        if changed {
            self.add_to_change_set(p);
            proof {
                self.lemma_links_after_change(&*old(self), p);
            }
        } else {
            proof {
                assert forall|q: int| 0 <= q < self.size() implies (q < old(self).size()
                    && (#[trigger] self.prop(q)).children@ == old(self).prop(q).children@)
                    || self.prop(q).children@.len() == 0 by {
                    if q != p {
                        assert(self.props@[q] == old(self).props@[q]);
                    }
                }
                self.lemma_same_links(&*old(self));
                assert forall|q: int| 0 <= q < self.size() && q != p implies q < old(self).size()
                    && #[trigger] self.prop(q) == old(self).prop(q) by {}
                self.lemma_values_kept(&*old(self), p as int);
                assert forall|q: int, k: int|
                    #![trigger self.prop(q).children@[k]]
                    0 <= q < self.size() && 0 <= k < self.prop(q).children@.len() && self.live(self.prop(q).children@[k])
                        && !self.pending().contains(q as usize) && !Seq::<usize>::empty().contains(q as usize)
                    implies self.prop(self.prop(q).children@[k].child as int).binding->0.values@[self.prop(q).children@[k].index as int]
                        == self.prop(q).value by {
                    let l = self.prop(q).children@[k];
                    assert(old(self).prop(q).children@[k] == l);
                    assert(l.child != p);
                    assert(old(self).live(l));
                }
            }
        }
        Ok(())
    }

    /// Binds property `p` to `parents` through `transform`: the binding keeps
    /// the parents' values, the property takes the transform of them
    /// (computed by the factory's transforms), each parent gets a link to the binding, and the
    /// property is put in the change set. A bound or frozen property cannot be
    /// bound.
    pub fn try_bind(&mut self, p: usize, parents: &Vec<usize>, transform: usize) -> (r: Result<(), String>)
        requires
            old(self).wf(),
            p < old(self).size(),
            old(self).is_live(p as int),
            forall|i: int| 0 <= i < parents@.len() ==> old(self).is_live(#[trigger] parents@[i] as int),
            forall|i: int| 0 <= i < parents@.len() ==> #[trigger] parents@[i] < old(self).size(),
            old(self).bindings_made() + 1 < usize::MAX,
        ensures
            final(self).wf(),
            final(self).transforms() == old(self).transforms(),
            final(self).size() == old(self).size(),
            final(self).live_count() == old(self).live_count(),
            forall|q: int| #[trigger] final(self).is_live(q) == old(self).is_live(q),
            old(self).prop(p as int).binding is Some ==> (r matches Err(m)
                && m@ == "cannot rebind child binding without unbinding it first"@),
            old(self).prop(p as int).binding is None && old(self).prop(p as int).readonly ==> (r matches Err(m)
                && m@ == "cannot rebind readonly binding"@),
            r is Err ==> *final(self) == *old(self),
            r is Ok <==> old(self).prop(p as int).binding is None && !old(self).prop(p as int).readonly,
            r is Ok ==> {
                &&& final(self).prop(p as int).binding matches Some(b) && {
                    &&& b.transform == transform
                    &&& b.values@.len() == parents@.len()
                    &&& forall|i: int| 0 <= i < parents@.len() ==> #[trigger] b.values@[i] == old(self).prop(parents@[i] as int).value
                    &&& final(self).transforms().ensures((transform, &b.values), final(self).prop(p as int).value)
                    &&& forall|q: int| 0 <= q < old(self).size() ==> #[trigger] final(self).prop(q).children@
                        == old(self).prop(q).children@ + links_to(parents@, q, p, b.instance)
                }
                &&& forall|q: int| 0 <= q < old(self).size() && q != p ==> (#[trigger] final(self).prop(q)).value == old(self).prop(q).value
                    && final(self).prop(q).binding == old(self).prop(q).binding && final(self).prop(q).readonly == old(self).prop(q).readonly
                    && final(self).prop(q).listener == old(self).prop(q).listener
                &&& final(self).prop(p as int).readonly == old(self).prop(p as int).readonly
                &&& final(self).prop(p as int).listener == old(self).prop(p as int).listener
                &&& forall|q: usize| #[trigger] final(self).pending().contains(q) <==> (old(self).pending().contains(q) || q == p)
            },
    {
        self.check_is_settable(p, false)?;
        let mut values: Vec<V> = Vec::new();
        let mut i: usize = 0;
        while i < parents.len()
            invariant
                self.wf(),
                *self == *old(self),
                i <= parents@.len(),
                values@.len() == i,
                forall|j: int| 0 <= j < parents@.len() ==> #[trigger] parents@[j] < self.size(),
                forall|j: int| 0 <= j < i ==> #[trigger] values@[j] == self.prop(parents@[j] as int).value,
            decreases parents@.len() - i,
        {
            values.push(self.props[parents[i]].value.copy_of());
            i = i + 1;
        }
        let ghost vs = values;
        let value = (self.transform)(transform, &values);
        assert(self.transform.ensures((transform, &vs), value));
        let instance = self.bindings;
        self.bindings = self.bindings + 1;
        let mut e = self.props.remove(p);
        e.value = value;
        e.binding = Some(Binding { transform, values, instance });
        let ghost ge = e;
        self.props.insert(p, e);
        proof {
            assert(self.props@ =~= old(self).props@.update(p as int, ge));
            assert forall|q: int| 0 <= q < self.size() implies #[trigger] self.prop(q).children@
                == old(self).prop(q).children@ + links_to(parents@.take(0), q, p, instance) by {
                assert(parents@.take(0) =~= Seq::<usize>::empty());
                assert(old(self).prop(q).children@ + Seq::<ChildLink>::empty() =~= old(self).prop(q).children@);
            }
            assert forall|q: int| 0 <= q < self.size() implies (q < old(self).size()
                && (#[trigger] self.prop(q)).children@ == old(self).prop(q).children@)
                || self.prop(q).children@.len() == 0 by {
                assert(self.props@[q].children == old(self).props@[q].children);
            }
            self.lemma_same_links(&*old(self));
            assert forall|q: int, k: int| 0 <= q < self.size() && 0 <= k < self.prop(q).children@.len()
                implies (#[trigger] self.prop(q).children@[k]).instance < instance by {
                assert(old(self).props@[q].children@[k] == self.prop(q).children@[k]);
            }
            assert forall|q: int, k: int|
                #![trigger self.prop(q).children@[k]]
                0 <= q < self.size() && 0 <= k < self.prop(q).children@.len() && self.live(self.prop(q).children@[k])
                    && !self.pending().contains(q as usize) && !seq![p].contains(q as usize)
                implies self.prop(self.prop(q).children@[k].child as int).binding->0.values@[self.prop(q).children@[k].index as int]
                    == self.prop(q).value by {
                let l = self.prop(q).children@[k];
                assert(seq![p][0] == p);
                assert(q != p);
                assert(old(self).prop(q).children@[k] == l);
                if l.child == p {
                    assert(false);
                } else {
                    assert(old(self).live(l));
                }
            }
        }
        let mut j: usize = 0;
        while j < parents.len()
            invariant
                self.props@.len() == old(self).props@.len(),
                self.transform == old(self).transform,
                self.change_set == old(self).change_set,
                self.count == old(self).count,
                self.count_all == old(self).count_all,
                self.bindings == instance + 1,
                self.live == old(self).live,
                instance == old(self).bindings,
                j <= parents@.len(),
                p < self.props@.len(),
                forall|k: int| 0 <= k < parents@.len() ==> #[trigger] parents@[k] < self.size(),
                self.prop(p as int).binding == Some(Binding { transform, values: vs, instance }),
                vs@.len() == parents@.len(),
                forall|k: int| 0 <= k < parents@.len() ==> #[trigger] vs@[k] == old(self).prop(parents@[k] as int).value,
                forall|q: int| 0 <= q < self.size() ==> #[trigger] self.prop(q).children@
                    == old(self).prop(q).children@ + links_to(parents@.take(j as int), q, p, instance),
                forall|q: int| 0 <= q < self.size() ==> (#[trigger] self.prop(q)).id == old(self).prop(q).id
                    && self.prop(q).readonly == old(self).prop(q).readonly && self.prop(q).listener == old(self).prop(q).listener,
                forall|q: int| 0 <= q < self.size() && q != p ==> (#[trigger] self.prop(q)).value == old(self).prop(q).value
                    && self.prop(q).binding == old(self).prop(q).binding,
                self.prop(p as int).value == value,
                forall|q: int, k: int| 0 <= q < self.size() && 0 <= k < self.prop(q).children@.len()
                    ==> (#[trigger] self.prop(q).children@[k]).child < self.size() && self.prop(q).children@[k].instance < self.bindings,
                self.links_fresh(seq![p]),
                self.links_unique(),
                forall|q: int, k: int| 0 <= q < self.size() && 0 <= k < self.prop(q).children@.len()
                    ==> (#[trigger] self.prop(q).children@[k]).instance < instance
                        || (self.prop(q).children@[k].instance == instance && self.prop(q).children@[k].index < j),
            decreases parents@.len() - j,
        {
            let q = parents[j];
            let ghost before = *self;
            let mut e = self.props.remove(q);
            e.children.push(ChildLink { child: p, index: j, instance });
            let ghost ge = e;
            self.props.insert(q, e);
            proof {
                assert(self.props@ =~= before.props@.update(q as int, ge));
                assert(parents@.take(j + 1).drop_last() =~= parents@.take(j as int));
                assert(parents@.take(j + 1).last() == q);
                assert forall|q2: int| 0 <= q2 < self.size() && q2 != q implies #[trigger] self.props@[q2] == before.props@[q2] by {}
                assert(ge.id == before.props@[q as int].id && ge.readonly == before.props@[q as int].readonly
                    && ge.listener == before.props@[q as int].listener && ge.value == before.props@[q as int].value
                    && ge.binding == before.props@[q as int].binding);
                assert forall|q2: int| 0 <= q2 < self.size() implies (#[trigger] self.prop(q2)).id == old(self).prop(q2).id
                    && self.prop(q2).readonly == old(self).prop(q2).readonly && self.prop(q2).listener == old(self).prop(q2).listener by {
                    assert(before.prop(q2).id == old(self).prop(q2).id);
                    assert(self.props@[q2] == before.props@[q2] || q2 == q);
                }
                assert forall|q2: int| 0 <= q2 < self.size() && q2 != p implies (#[trigger] self.prop(q2)).value == old(self).prop(q2).value
                    && self.prop(q2).binding == old(self).prop(q2).binding by {
                    assert(before.prop(q2).value == old(self).prop(q2).value);
                    assert(self.props@[q2] == before.props@[q2] || q2 == q);
                }
                assert(self.prop(p as int).value == value) by {
                    assert(self.props@[p as int] == before.props@[p as int] || p == q);
                }
                assert forall|q2: int| 0 <= q2 < self.size() implies #[trigger] self.prop(q2).children@
                    == old(self).prop(q2).children@ + links_to(parents@.take(j + 1), q2, p, instance) by {
                    let prev = links_to(parents@.take(j as int), q2, p, instance);
                    if q2 == q {
                        assert(links_to(parents@.take(j + 1), q2, p, instance) == prev.push(ChildLink { child: p, index: j, instance }));
                        assert(self.prop(q2).children@ =~= before.prop(q2).children@.push(ChildLink { child: p, index: j, instance }));
                        assert(old(self).prop(q2).children@ + prev.push(ChildLink { child: p, index: j, instance })
                            =~= (old(self).prop(q2).children@ + prev).push(ChildLink { child: p, index: j, instance }));
                    } else {
                        assert(links_to(parents@.take(j + 1), q2, p, instance) == prev);
                        assert(self.props@[q2] == before.props@[q2]);
                    }
                }
                assert forall|q2: int, k: int|
                    #![trigger self.prop(q2).children@[k]]
                    0 <= q2 < self.size() && 0 <= k < self.prop(q2).children@.len() && self.live(self.prop(q2).children@[k])
                        && !self.pending().contains(q2 as usize) && !seq![p].contains(q2 as usize)
                    implies self.prop(self.prop(q2).children@[k].child as int).binding->0.values@[self.prop(q2).children@[k].index as int]
                        == self.prop(q2).value by {
                    assert(seq![p][0] == p);
                    let l = self.prop(q2).children@[k];
                    if q2 == q && k == before.prop(q2).children@.len() {
                        assert(l == ChildLink { child: p, index: j, instance });
                    } else {
                        assert(before.prop(q2).children@[k] == l);
                        assert(before.live(l));
                    }
                }
                let new_link = ChildLink { child: p, index: j, instance };
                let n_q = before.prop(q as int).children@.len();
                assert forall|q2: int, k: int| 0 <= q2 < self.size() && 0 <= k < self.prop(q2).children@.len()
                    implies (#[trigger] self.prop(q2).children@[k]).instance < instance
                        || (self.prop(q2).children@[k].instance == instance && self.prop(q2).children@[k].index < j + 1) by {
                    if !(q2 == q && k == n_q) {
                        assert(before.prop(q2).children@[k] == self.prop(q2).children@[k]);
                    }
                }
                assert forall|q1: int, k1: int, q2: int, k2: int|
                    #![trigger self.prop(q1).children@[k1], self.prop(q2).children@[k2]]
                    0 <= q1 < self.size() && 0 <= k1 < self.prop(q1).children@.len()
                        && 0 <= q2 < self.size() && 0 <= k2 < self.prop(q2).children@.len()
                        && self.prop(q1).children@[k1] == self.prop(q2).children@[k2]
                    implies q1 == q2 by {
                    let a = q1 == q && k1 == n_q;
                    let b = q2 == q && k2 == n_q;
                    if !a {
                        assert(before.prop(q1).children@[k1] == self.prop(q1).children@[k1]);
                    }
                    if !b {
                        assert(before.prop(q2).children@[k2] == self.prop(q2).children@[k2]);
                    }
                }
                assert forall|q2: int, k: int| 0 <= q2 < self.size() && 0 <= k < self.prop(q2).children@.len()
                    implies (#[trigger] self.prop(q2).children@[k]).child < self.size() && self.prop(q2).children@[k].instance < self.bindings by {
                    if !(q2 == q && k == before.prop(q2).children@.len()) {
                        assert(before.prop(q2).children@[k] == self.prop(q2).children@[k]);
                    }
                }
            }
            j = j + 1;
        }
        let ghost after_loop = *self;
        self.add_to_change_set(p);
        proof {
            assert(parents@.take(parents@.len() as int) =~= parents@);
            assert(self.props@ == after_loop.props@);
            assert forall|q: int| 0 <= q < self.size() implies (q < after_loop.size()
                && (#[trigger] self.prop(q)).children@ == after_loop.prop(q).children@)
                || self.prop(q).children@.len() == 0 by {
            }
            self.lemma_same_links(&after_loop);
            assert forall|q: int| 0 <= q < self.size() implies #[trigger] self.prop(q).children@
                == old(self).prop(q).children@ + links_to(parents@, q, p, instance) by {
                assert(after_loop.prop(q).children@ == old(self).prop(q).children@ + links_to(parents@.take(parents@.len() as int), q, p, instance));
            }
            assert forall|q: int| 0 <= q < old(self).size() && q != p implies (#[trigger] self.prop(q)).value == old(self).prop(q).value
                && self.prop(q).binding == old(self).prop(q).binding && self.prop(q).readonly == old(self).prop(q).readonly
                && self.prop(q).listener == old(self).prop(q).listener by {
                assert(after_loop.prop(q).value == old(self).prop(q).value);
                assert(after_loop.prop(q).id == old(self).prop(q).id);
            }
            assert(after_loop.prop(p as int).id == old(self).prop(p as int).id);
            assert forall|q: int| 0 <= q < self.props@.len() && !self.live@.contains(q) implies (#[trigger] self.props@[q]).binding is None
                && self.props@[q].children@.len() == 0 && self.props@[q].listener is None by {
                assert(q != p);
                assert forall|i: int| 0 <= i < parents@.len() implies parents@[i] != q by {
                    assert(old(self).is_live(parents@[i] as int));
                }
                lemma_links_to_absent(parents@, q, p, instance);
                assert(old(self).props@[q].binding is None);
                assert(self.prop(q).children@ == old(self).prop(q).children@ + links_to(parents@, q, p, instance));
                assert(after_loop.prop(q).binding == old(self).prop(q).binding);
                assert(after_loop.prop(q).listener == old(self).prop(q).listener);
            }
            assert forall|q: int| 0 <= q < self.size() && !self.pending().contains(q as usize) && !Seq::<usize>::empty().contains(q as usize)
                implies #[trigger] self.computed(q) by {
                if q != p {
                    assert(after_loop.prop(q).value == old(self).prop(q).value);
                    assert(!old(self).pending().contains(q as usize));
                    assert(!Seq::<usize>::empty().contains(q as usize));
                    assert(old(self).computed(q));
                }
            }
            assert forall|q: int, k: int| 0 <= q < self.props@.len() && 0 <= k < self.props@[q].children@.len()
                implies (#[trigger] self.props@[q].children@[k]).child < self.props@.len() && self.props@[q].children@[k].instance < self.bindings by {
                assert(after_loop.prop(q).children@[k] == self.props@[q].children@[k]);
            }
            assert forall|i2: int| 0 <= i2 < self.change_set@.len() implies (#[trigger] self.change_set@[i2]) < self.props@.len() by {
                if self.change_set@[i2] != p {
                    let k = choose|k: int| 0 <= k < old(self).change_set@.len() && old(self).change_set@[k] == self.change_set@[i2];
                }
            }
            assert forall|q: int| 0 <= q < self.props@.len() implies (#[trigger] self.props@[q]).id == q + 1 by {
                assert(after_loop.prop(q).id == old(self).prop(q).id);
                assert(old(self).props@[q].id == q + 1);
            }
            assert forall|q: int| 0 <= q < self.props@.len() && (#[trigger] self.props@[q]).binding is Some
                implies self.props@[q].binding->0.instance < self.bindings by {
                if q != p {
                    assert(after_loop.prop(q).binding == old(self).prop(q).binding);
                    assert(old(self).props@[q].binding->0.instance < old(self).bindings);
                }
            }
            assert forall|q: int, k: int|
                #![trigger self.prop(q).children@[k]]
                0 <= q < self.size() && 0 <= k < self.prop(q).children@.len() && self.live(self.prop(q).children@[k])
                    && !self.pending().contains(q as usize) && !Seq::<usize>::empty().contains(q as usize)
                implies self.prop(self.prop(q).children@[k].child as int).binding->0.values@[self.prop(q).children@[k].index as int]
                    == self.prop(q).value by {
                assert(q != p);
                assert(seq![p][0] == p);
                assert(!seq![p].contains(q as usize));
                let l = self.prop(q).children@[k];
                assert(after_loop.prop(q).children@[k] == l);
                assert(self.prop(l.child as int) == after_loop.prop(l.child as int));
                assert(after_loop.live(l));
                assert(!after_loop.pending().contains(q as usize));
            }
        }
        Ok(())
    }

    /// Commits property `p`: a bound property takes the transform of the
    /// values its binding holds, then every binding that reads it, still in
    /// place, is given its value and put in the change set; links to
    /// bindings no longer in place are dropped.
    fn commit_one(&mut self, p: usize, Ghost(extra): Ghost<Seq<usize>>)
        requires
            old(self).structure_ok(),
            old(self).links_fresh(extra),
            p < old(self).size(),
            extra.len() > 0,
            extra[0] == p,
        ensures
            final(self).structure_ok(),
            final(self).transforms() == old(self).transforms(),
            final(self).live == old(self).live,
            final(self).links_fresh(extra.drop_first()),
            final(self).same_shape(&*old(self)),
            final(self).bindings_made() == old(self).bindings_made(),
            forall|q: int| 0 <= q < old(self).size() && q != p ==> #[trigger] final(self).prop(q).value == old(self).prop(q).value,
            final(self).prop(p as int).value == old(self).prop(p as int).value
                || (old(self).prop(p as int).binding is Some && old(self).transforms().ensures((old(self).prop(p as int).binding->0.transform,
                    &old(self).prop(p as int).binding->0.values), final(self).prop(p as int).value)),
            forall|q: usize| #[trigger] old(self).pending().contains(q) ==> final(self).pending().contains(q),
            forall|q: int| 0 <= q < old(self).size() && q != p && old(self).computed(q)
                ==> (#[trigger] final(self).computed(q)) || final(self).pending().contains(q as usize),
            final(self).computed(p as int) || final(self).pending().contains(p),
            final(self).links_within(&*old(self)),
            forall|q: usize| #[trigger] final(self).pending().contains(q) ==> old(self).pending().contains(q)
                || old(self).reads(p as int, q),
    {
        let recomputed: Option<V> = match &self.props[p].binding {
            Some(b) => Some((self.transform)(b.transform, &b.values)),
            None => None,
        };
        let mut e = self.props.remove(p);
        if let Some(value) = recomputed {
            e.value = value;
        }
        let mut children: Vec<ChildLink> = Vec::new();
        std::mem::swap(&mut children, &mut e.children);
        let v = e.value.copy_of();
        let ghost ge = e;
        self.props.insert(p, e);
        let ghost start = *self;
        let ghost orig = children@;
        proof {
            assert(self.props@ =~= old(self).props@.update(p as int, ge));
            assert(orig.take(orig.len() as int) =~= orig);
            assert forall|q: int, k: int|
                #![trigger self.prop(q).children@[k]]
                0 <= q < self.size() && 0 <= k < self.prop(q).children@.len() && self.live(self.prop(q).children@[k])
                    && !self.pending().contains(q as usize) && !extra.contains(q as usize)
                implies self.prop(self.prop(q).children@[k].child as int).binding->0.values@[self.prop(q).children@[k].index as int]
                    == self.prop(q).value by {
                assert(q != p);
                let l = self.prop(q).children@[k];
                assert(old(self).prop(q).children@[k] == l);
                assert(self.prop(l.child as int).binding == old(self).prop(l.child as int).binding);
                assert(old(self).live(l));
            }
            if recomputed is Some {
                assert(self.transform.ensures((old(self).prop(p as int).binding->0.transform, &old(self).prop(p as int).binding->0.values), v));
            }
        }
        let mut new_children: Vec<ChildLink> = Vec::new();
        while children.len() > 0
            invariant
                self.props@.len() == old(self).props@.len(),
                self.transform == old(self).transform,
                self.count == old(self).count,
                self.count_all == old(self).count_all,
                self.bindings == old(self).bindings,
                self.live == old(self).live,
                p < self.props@.len(),
                self.change_set@.no_duplicates(),
                forall|i: int| 0 <= i < self.change_set@.len() ==> (#[trigger] self.change_set@[i]) < self.props@.len(),
                forall|q: usize| #[trigger] old(self).pending().contains(q) ==> self.pending().contains(q),
                forall|q: usize| #[trigger] self.pending().contains(q) ==> old(self).pending().contains(q)
                    || old(self).reads(p as int, q),
                self.same_shape(&*old(self)),
                self.prop(p as int).children@.len() == 0,
                self.prop(p as int).value == v,
                v == ge.value,
                forall|q: int| 0 <= q < self.size() && q != p ==> (#[trigger] self.prop(q)).children == old(self).prop(q).children
                    && self.prop(q).value == old(self).prop(q).value,
                children@ == orig.take(children@.len() as int),
                children@.len() <= orig.len(),
                orig == old(self).prop(p as int).children@,
                forall|k: int| 0 <= k < new_children@.len() ==> orig.contains(#[trigger] new_children@[k]),
                forall|k: int| 0 <= k < new_children@.len() && self.live(#[trigger] new_children@[k]) ==>
                    self.prop(new_children@[k].child as int).binding->0.values@[new_children@[k].index as int] == v,
                forall|k: int| 0 <= k < new_children@.len() && self.live(#[trigger] new_children@[k]) ==>
                    self.pending().contains(new_children@[k].child),
                forall|q: int, k: int|
                    #![trigger self.prop(q).children@[k]]
                    0 <= q < self.size() && 0 <= k < self.prop(q).children@.len() && self.live(self.prop(q).children@[k])
                        && !self.pending().contains(q as usize) && !extra.contains(q as usize)
                        ==> self.prop(self.prop(q).children@[k].child as int).binding->0.values@[self.prop(q).children@[k].index as int]
                            == self.prop(q).value,
                forall|q: int| 0 <= q < self.size() && q != p && old(self).computed(q)
                    ==> (#[trigger] self.computed(q)) || self.pending().contains(q as usize),
                start.computed(p as int) ==> self.computed(p as int) || self.pending().contains(p),
                start.prop(p as int).binding == self.prop(p as int).binding || self.pending().contains(p),
                old(self).links_unique(),
                old(self).structure_ok(),
            decreases children@.len(),
        {
            let ghost cb = children@;
            let l = children.pop().unwrap();
            let c = l.child;
            let ghost before = *self;
            let ghost rank = children@.len() as int;
            proof {
                assert(l == cb[rank]);
                assert(cb[rank] == orig.take(cb.len() as int)[rank]);
                assert(children@ == cb.drop_last());
                assert(cb.drop_last() =~= orig.take(rank));
                assert(l == orig[rank]);
                assert(orig.contains(l));
                assert(old(self).structure_ok());
                assert(old(self).prop(p as int).children@[rank] == l);
                assert(c < self.size());
            }
            let live = match &self.props[c].binding {
                Some(b) => b.instance == l.instance && l.index < b.values.len(),
                None => false,
            };
            if live {
                let mut ce = self.props.remove(c);
                let b = ce.binding.unwrap();
                let mut vals = b.values;
                vals[l.index] = v.copy_of();
                ce.binding = Some(Binding { transform: b.transform, values: vals, instance: b.instance });
                let ghost gce = ce;
                self.props.insert(c, ce);
                proof {
                    assert(self.props@ =~= before.props@.update(c as int, gce));
                }
                let ghost nc_before = new_children@;
                new_children.push(l);
                self.add_to_change_set(c);
                proof {
                    assert(self.props@ == before.props@.update(c as int, gce));
                    assert forall|q: int| 0 <= q < self.size() && q != c implies #[trigger] self.props@[q] == before.props@[q] by {}
                    assert(gce.children == before.prop(c as int).children && gce.value == before.prop(c as int).value);
                    assert forall|q: int| 0 <= q < self.size() && q != p implies (#[trigger] self.prop(q)).children == old(self).prop(q).children
                        && self.prop(q).value == old(self).prop(q).value by {
                        assert(before.prop(q).children == old(self).prop(q).children);
                    }
                    assert(self.prop(c as int).binding->0.values@ == before.prop(c as int).binding->0.values@.update(l.index as int, v));
                    assert forall|k: int| 0 <= k < new_children@.len() && self.live(#[trigger] new_children@[k]) implies
                        self.prop(new_children@[k].child as int).binding->0.values@[new_children@[k].index as int] == v by {
                        if k < nc_before.len() {
                            assert(new_children@[k] == nc_before[k]);
                            assert(before.live(nc_before[k]));
                        }
                    }
                    assert forall|k: int| 0 <= k < new_children@.len() && self.live(#[trigger] new_children@[k]) implies
                        self.pending().contains(new_children@[k].child) by {
                        if k < nc_before.len() {
                            assert(new_children@[k] == nc_before[k]);
                            assert(before.live(nc_before[k]));
                            assert(before.pending().contains(nc_before[k].child));
                        }
                    }
                    assert forall|k: int| 0 <= k < new_children@.len() implies orig.contains(#[trigger] new_children@[k]) by {
                        if k < nc_before.len() {
                            assert(new_children@[k] == nc_before[k]);
                        }
                    }
                    assert forall|q: int, k: int|
                        #![trigger self.prop(q).children@[k]]
                        0 <= q < self.size() && 0 <= k < self.prop(q).children@.len() && self.live(self.prop(q).children@[k])
                            && !self.pending().contains(q as usize) && !extra.contains(q as usize)
                        implies self.prop(self.prop(q).children@[k].child as int).binding->0.values@[self.prop(q).children@[k].index as int]
                            == self.prop(q).value by {
                        let m = self.prop(q).children@[k];
                        assert(q != p);
                        assert(before.prop(q).children@[k] == m);
                        assert(old(self).prop(q).children@[k] == m);
                        assert(before.pending().contains(q as usize) ==> self.pending().contains(q as usize));
                        if m.child == c {
                            assert(before.live(m));
                            if m.index == l.index {
                                assert(m == l);
                                assert(old(self).prop(p as int).children@[rank] == l);
                                assert(false);
                            }
                        } else {
                            assert(before.live(m));
                        }
                    }
                    assert forall|q: int| 0 <= q < self.size() && q != p && old(self).computed(q)
                        implies (#[trigger] self.computed(q)) || self.pending().contains(q as usize) by {
                        if q != c {
                            assert(before.computed(q) || before.pending().contains(q as usize));
                            assert(before.pending().contains(q as usize) ==> self.pending().contains(q as usize));
                        }
                    }
                    assert(before.pending().contains(p) ==> self.pending().contains(p));
                    assert(old(self).live(l)) by {
                        assert(before.prop(c as int).binding is Some);
                        assert(old(self).prop(c as int).binding->0.instance == before.prop(c as int).binding->0.instance);
                    }
                    assert forall|q: usize| #[trigger] self.pending().contains(q) implies old(self).pending().contains(q)
                        || old(self).reads(p as int, q) by {
                        if q == c {
                            assert(old(self).prop(p as int).children@[rank] == l);
                        } else {
                            assert(before.pending().contains(q));
                        }
                    }
                    assert(self.same_shape(&*old(self))) by {
                        assert forall|q: int| 0 <= q < self.size() implies {
                            &&& (#[trigger] self.prop(q)).readonly == old(self).prop(q).readonly
                            &&& self.prop(q).listener == old(self).prop(q).listener
                            &&& self.prop(q).id == old(self).prop(q).id
                            &&& (self.prop(q).binding is Some <==> old(self).prop(q).binding is Some)
                            &&& self.prop(q).binding is Some ==> self.prop(q).binding->0.transform == old(self).prop(q).binding->0.transform
                                && self.prop(q).binding->0.instance == old(self).prop(q).binding->0.instance
                                && self.prop(q).binding->0.values@.len() == old(self).prop(q).binding->0.values@.len()
                        } by {
                            assert(before.prop(q).id == old(self).prop(q).id);
                        }
                    }
                }
            } else {
                proof {
                    assert forall|k: int| 0 <= k < new_children@.len() && self.live(#[trigger] new_children@[k]) implies
                        self.prop(new_children@[k].child as int).binding->0.values@[new_children@[k].index as int] == v by {}
                }
            }
        }
        let ghost after_loop = *self;
        let mut e = self.props.remove(p);
        e.children = new_children;
        let ghost ge2 = e;
        self.props.insert(p, e);
        proof {
            assert(self.props@ =~= after_loop.props@.update(p as int, ge2));
            assert forall|q: int| 0 <= q < self.size() && q != p implies #[trigger] self.props@[q] == after_loop.props@[q] by {}
            assert forall|q: int, k: int| #![trigger self.prop(q).children@[k]]
                0 <= q < self.size() && 0 <= k < self.prop(q).children@.len()
                implies q < old(self).size() && old(self).prop(q).children@.contains(self.prop(q).children@[k]) by {
                if q != p {
                    assert(after_loop.prop(q).children == old(self).prop(q).children);
                    assert(self.prop(q).children@[k] == old(self).prop(q).children@[k]);
                } else {
                    assert(orig.contains(new_children@[k]));
                }
            }
            self.lemma_links_within(&*old(self));
            assert forall|q: int| 0 <= q < self.props@.len() && !self.live@.contains(q) implies (#[trigger] self.props@[q]).binding is None
                && self.props@[q].children@.len() == 0 && self.props@[q].listener is None by {
                assert(old(self).props@[q].binding is None);
                assert(after_loop.prop(q).binding is Some <==> old(self).prop(q).binding is Some);
                if q == p {
                    if new_children@.len() > 0 {
                        assert(orig.contains(new_children@[0]));
                    }
                } else {
                    assert(after_loop.prop(q).children == old(self).prop(q).children);
                    assert(after_loop.prop(q).listener == old(self).prop(q).listener);
                }
            }
            assert forall|q: int, k: int| 0 <= q < self.props@.len() && 0 <= k < self.props@[q].children@.len()
                implies (#[trigger] self.props@[q].children@[k]).child < self.props@.len() && self.props@[q].children@[k].instance < self.bindings by {
                let m = self.props@[q].children@[k];
                if q != p {
                    assert(after_loop.prop(q).children == old(self).prop(q).children);
                    assert(old(self).props@[q].children@[k] == m);
                } else {
                    assert(orig.contains(m));
                    let j = choose|j: int| 0 <= j < orig.len() && orig[j] == m;
                    assert(old(self).props@[p as int].children@[j] == m);
                }
            }
            assert forall|q: int| 0 <= q < self.props@.len() implies (#[trigger] self.props@[q]).id == q + 1 by {
                assert(after_loop.prop(q).id == old(self).prop(q).id);
            }
            assert forall|q: int| 0 <= q < self.props@.len() && (#[trigger] self.props@[q]).binding is Some
                implies self.props@[q].binding->0.instance < self.bindings by {
                assert(after_loop.prop(q).binding is Some);
                assert(old(self).props@[q].binding is Some);
            }
            assert forall|q: int, k: int|
                #![trigger self.prop(q).children@[k]]
                0 <= q < self.size() && 0 <= k < self.prop(q).children@.len() && self.live(self.prop(q).children@[k])
                    && !self.pending().contains(q as usize) && !extra.drop_first().contains(q as usize)
                implies self.prop(self.prop(q).children@[k].child as int).binding->0.values@[self.prop(q).children@[k].index as int]
                    == self.prop(q).value by {
                let m = self.prop(q).children@[k];
                if q != p {
                    assert(after_loop.prop(q).children@[k] == m);
                    assert(self.prop(m.child as int).binding == after_loop.prop(m.child as int).binding);
                    assert(after_loop.live(m));
                    if extra.contains(q as usize) {
                        let j = choose|j: int| 0 <= j < extra.len() && extra[j] == q as usize;
                        assert(j != 0);
                        assert(extra.drop_first()[j - 1] == q as usize);
                    }
                } else {
                    assert(m == new_children@[k]);
                    assert(self.prop(m.child as int).binding == after_loop.prop(m.child as int).binding);
                    assert(after_loop.live(m));
                }
            }
            assert forall|q: int| 0 <= q < old(self).size() && q != p && old(self).computed(q)
                implies (#[trigger] self.computed(q)) || self.pending().contains(q as usize) by {
                assert(after_loop.computed(q) || after_loop.pending().contains(q as usize));
            }
            assert forall|q: int| 0 <= q < old(self).size() && q != p implies #[trigger] self.prop(q).value == old(self).prop(q).value by {
                assert(after_loop.prop(q).value == old(self).prop(q).value);
            }
            assert(self.prop(p as int).binding == after_loop.prop(p as int).binding);
            assert(self.prop(p as int).value == after_loop.prop(p as int).value);
            assert forall|q: usize| #[trigger] self.pending().contains(q) implies old(self).pending().contains(q)
                || old(self).reads(p as int, q) by {
                assert(after_loop.pending().contains(q));
            }
            assert(self.same_shape(&*old(self))) by {
                assert forall|q: int| 0 <= q < self.size() implies {
                    &&& (#[trigger] self.prop(q)).readonly == old(self).prop(q).readonly
                    &&& self.prop(q).listener == old(self).prop(q).listener
                    &&& self.prop(q).id == old(self).prop(q).id
                    &&& (self.prop(q).binding is Some <==> old(self).prop(q).binding is Some)
                    &&& self.prop(q).binding is Some ==> self.prop(q).binding->0.transform == old(self).prop(q).binding->0.transform
                        && self.prop(q).binding->0.instance == old(self).prop(q).binding->0.instance
                        && self.prop(q).binding->0.values@.len() == old(self).prop(q).binding->0.values@.len()
                } by {
                    assert(after_loop.prop(q).id == old(self).prop(q).id);
                }
            }
        }
    }

    /// Commits the changes: each property in the change set is committed (see
    /// `commit_one`), which fills the change set anew with the bindings that
    /// read it, round after round, until the change set is empty; gives the
    /// listeners of the committed properties, to be told in order. The
    /// bindings must hold no cycle (`rank` shows it); the change set then
    /// empties within one round more than there are properties.
    pub fn commit_changes(&mut self) -> (listeners: Vec<usize>)
        requires
            old(self).wf(),
            exists|rank: spec_fn(int) -> int| old(self).ranked(rank),
        ensures
            final(self).wf(),
            final(self).transforms() == old(self).transforms(),
            final(self).same_shape(&*old(self)),
            final(self).bindings_made() == old(self).bindings_made(),
            final(self).pending().len() == 0,
            final(self).bindings_current(),
            forall|q: int| 0 <= q < final(self).size() ==> #[trigger] final(self).computed(q),
            forall|q: int| 0 <= q < final(self).size() && final(self).prop(q).binding is None
                ==> #[trigger] final(self).prop(q).value == old(self).prop(q).value,
            forall|k: int| 0 <= k < listeners@.len() ==> final(self).listens(#[trigger] listeners@[k]),
            forall|q: usize| #[trigger] old(self).pending().contains(q) && old(self).prop(q as int).listener is Some
                ==> listeners@.contains(old(self).prop(q as int).listener->0),
    {
        let ghost rank = choose|rank: spec_fn(int) -> int| old(self).ranked(rank);
        let mut listeners: Vec<usize> = Vec::new();
        let n = self.props.len();
        let mut rounds_left: u128 = n as u128 + 1;
        while self.change_set.len() > 0 && rounds_left > 0
            invariant
                self.wf(),
                self.transform == old(self).transform,
                self.same_shape(&*old(self)),
                self.bindings == old(self).bindings,
                self.live == old(self).live,
                n == self.props@.len(),
                rounds_left <= n + 1,
                self.ranked(rank),
                forall|q: usize| #[trigger] self.pending().contains(q) ==> rank(q as int) >= n + 1 - rounds_left,
                forall|q: int| 0 <= q < self.size() && self.prop(q).binding is None
                    ==> #[trigger] self.prop(q).value == old(self).prop(q).value,
                forall|k: int| 0 <= k < listeners@.len() ==> self.listens(#[trigger] listeners@[k]),
                forall|q: usize| #[trigger] old(self).pending().contains(q) && old(self).prop(q as int).listener is Some
                    ==> listeners@.contains(old(self).prop(q as int).listener->0) || self.pending().contains(q),
            decreases rounds_left,
        {
            let ghost done = n + 1 - rounds_left;
            let mut set: Vec<usize> = Vec::new();
            let ghost pre = *self;
            std::mem::swap(&mut set, &mut self.change_set);
            proof {
                assert(self.props == pre.props);
                assert(set@ == pre.change_set@);
                assert(self.pending() =~= Seq::<usize>::empty());
                assert(self.count == pre.count && self.count_all == pre.count_all && self.bindings == pre.bindings);
                assert(self.change_set@.no_duplicates());
                assert forall|q: int| 0 <= q < self.size() implies #[trigger] self.prop(q) == pre.prop(q) by {}
                assert(self.links_unique());
                assert(self.structure_ok());
                assert(self.same_shape(&*old(self)));
                assert forall|k: int| 0 <= k < listeners@.len() implies self.listens(#[trigger] listeners@[k]) by {
                    assert(pre.listens(listeners@[k]));
                    let q = choose|q: int| 0 <= q < pre.size() && #[trigger] pre.prop(q).listener == Some(listeners@[k]);
                    assert(self.prop(q) == pre.prop(q));
                }
                assert forall|q: int, k: int|
                    #![trigger self.prop(q).children@[k]]
                    0 <= q < self.size() && 0 <= k < self.prop(q).children@.len() && self.live(self.prop(q).children@[k])
                        && !self.pending().contains(q as usize) && !set@.contains(q as usize)
                    implies self.prop(self.prop(q).children@[k].child as int).binding->0.values@[self.prop(q).children@[k].index as int]
                        == self.prop(q).value by {
                    assert(pre.prop(q).children@[k] == self.prop(q).children@[k]);
                    assert(!pre.pending().contains(q as usize));
                    assert(!Seq::<usize>::empty().contains(q as usize));
                }
                assert forall|q: int| 0 <= q < self.size() && !self.pending().contains(q as usize) && !set@.contains(q as usize)
                    implies #[trigger] self.computed(q) by {
                    assert(!pre.pending().contains(q as usize));
                    assert(!Seq::<usize>::empty().contains(q as usize));
                    assert(pre.computed(q));
                }
                assert(self.ranked(rank)) by {
                    assert forall|q: int, k: int|
                        #![trigger self.prop(q).children@[k]]
                        0 <= q < self.size() && 0 <= k < self.prop(q).children@.len() && self.live(self.prop(q).children@[k])
                        implies rank(q) < rank(self.prop(q).children@[k].child as int) by {
                        assert(pre.prop(q).children@[k] == self.prop(q).children@[k]);
                    }
                }
                assert forall|j: int| 0 <= j < set@.len() implies rank(#[trigger] set@[j] as int) >= done by {
                    assert(pre.pending().contains(set@[j]));
                }
                assert(set@.subrange(0, set@.len() as int) =~= set@);
            }
            proof {
                assert(set@.subrange(0, set@.len() as int) =~= set@);
                assert forall|q: usize| #[trigger] old(self).pending().contains(q) && old(self).prop(q as int).listener is Some
                    implies listeners@.contains(old(self).prop(q as int).listener->0) || self.pending().contains(q)
                        || set@.subrange(0, set@.len() as int).contains(q) by {
                    if !listeners@.contains(old(self).prop(q as int).listener->0) {
                        assert(pre.pending().contains(q));
                    }
                }
            }
            let mut i: usize = 0;
            while i < set.len()
                invariant
                    self.structure_ok(),
                    self.transform == old(self).transform,
                    self.links_fresh(set@.subrange(i as int, set@.len() as int)),
                    self.values_fresh(set@.subrange(i as int, set@.len() as int)),
                    self.same_shape(&*old(self)),
                    self.bindings == old(self).bindings,
                    self.live == old(self).live,
                    n == self.props@.len(),
                    i <= set@.len(),
                    set@.no_duplicates(),
                    forall|j: int| 0 <= j < set@.len() ==> (#[trigger] set@[j]) < n,
                    self.ranked(rank),
                    forall|j: int| 0 <= j < set@.len() ==> rank(#[trigger] set@[j] as int) >= done,
                    forall|q: usize| #[trigger] self.pending().contains(q) ==> rank(q as int) >= done + 1,
                    forall|q: int| 0 <= q < self.size() && self.prop(q).binding is None
                        ==> #[trigger] self.prop(q).value == old(self).prop(q).value,
                    forall|k: int| 0 <= k < listeners@.len() ==> self.listens(#[trigger] listeners@[k]),
                    forall|q: usize| #[trigger] old(self).pending().contains(q) && old(self).prop(q as int).listener is Some
                        ==> listeners@.contains(old(self).prop(q as int).listener->0) || self.pending().contains(q)
                            || set@.subrange(i as int, set@.len() as int).contains(q),
                decreases set@.len() - i,
            {
                let p = set[i];
                let ghost rest = set@.subrange(i as int, set@.len() as int);
                let ghost listeners0 = listeners@;
                let ghost before = *self;
                proof {
                    assert(rest[0] == p);
                    assert(rest.drop_first() =~= set@.subrange(i + 1, set@.len() as int));
                }
                self.commit_one(p, Ghost(rest));
                proof {
                    assert forall|q: int| 0 <= q < self.size() && !self.pending().contains(q as usize)
                        && !set@.subrange(i + 1, set@.len() as int).contains(q as usize)
                        implies #[trigger] self.computed(q) by {
                        if q != p {
                            if rest.contains(q as usize) {
                                let j = choose|j: int| 0 <= j < rest.len() && rest[j] == q as usize;
                                assert(j != 0);
                                assert(rest.drop_first()[j - 1] == q as usize);
                            }
                            assert(!before.pending().contains(q as usize));
                            assert(before.computed(q));
                        }
                    }
                    assert forall|q: int| 0 <= q < self.size() && self.prop(q).binding is None
                        implies #[trigger] self.prop(q).value == old(self).prop(q).value by {
                        assert(before.prop(q).binding is None);
                        assert(before.prop(q).value == old(self).prop(q).value);
                    }
                    assert forall|q: usize| #[trigger] self.pending().contains(q) implies rank(q as int) >= done + 1 by {
                        if !before.pending().contains(q) {
                            assert(before.reads(p as int, q));
                            let k = choose|k: int| 0 <= k < before.prop(p as int).children@.len()
                                && before.live(#[trigger] before.prop(p as int).children@[k])
                                && before.prop(p as int).children@[k].child == q;
                            assert(rank(p as int) < rank(q as int));
                        }
                    }
                    assert(self.ranked(rank)) by {
                        assert forall|q: int, k: int|
                            #![trigger self.prop(q).children@[k]]
                            0 <= q < self.size() && 0 <= k < self.prop(q).children@.len() && self.live(self.prop(q).children@[k])
                            implies rank(q) < rank(self.prop(q).children@[k].child as int) by {
                            let m = self.prop(q).children@[k];
                            assert(before.prop(q).children@.contains(m));
                            let j = choose|j: int| 0 <= j < before.prop(q).children@.len() && before.prop(q).children@[j] == m;
                            assert(before.prop(m.child as int).binding is Some);
                            assert(before.live(before.prop(q).children@[j]));
                        }
                    }
                    assert forall|k: int| 0 <= k < listeners@.len() implies self.listens(#[trigger] listeners@[k]) by {
                        assert(before.listens(listeners@[k]));
                        let q = choose|q: int| 0 <= q < before.size() && #[trigger] before.prop(q).listener == Some(listeners@[k]);
                        assert(self.prop(q).listener == before.prop(q).listener);
                    }
                }
                if let Some(l) = self.props[p].listener {
                    let ghost old_listeners = listeners@;
                    listeners.push(l);
                    proof {
                        assert forall|k: int| 0 <= k < listeners@.len() implies self.listens(#[trigger] listeners@[k]) by {
                            if k < old_listeners.len() {
                                assert(listeners@[k] == old_listeners[k]);
                            } else {
                                assert(self.prop(p as int).listener == Some(listeners@[k]));
                            }
                        }
                    }
                }
                proof {
                    assert forall|q: usize| #[trigger] old(self).pending().contains(q) && old(self).prop(q as int).listener is Some
                        implies listeners@.contains(old(self).prop(q as int).listener->0) || self.pending().contains(q)
                            || set@.subrange(i + 1, set@.len() as int).contains(q) by {
                        let l = old(self).prop(q as int).listener->0;
                        if listeners0.contains(l) {
                            let k = choose|k: int| 0 <= k < listeners0.len() && listeners0[k] == l;
                            assert(listeners@[k] == l);
                        } else if before.pending().contains(q) {
                            assert(self.pending().contains(q));
                        } else if q == p {
                            assert(self.prop(p as int).listener == old(self).prop(p as int).listener);
                            assert(listeners@[listeners@.len() - 1] == l);
                        } else {
                            assert(rest.contains(q));
                            let j = choose|j: int| 0 <= j < rest.len() && rest[j] == q;
                            assert(j != 0);
                            assert(set@.subrange(i + 1, set@.len() as int)[j - 1] == q);
                        }
                    }
                }
                i = i + 1;
            }
            proof {
                assert(set@.subrange(set@.len() as int, set@.len() as int) =~= Seq::<usize>::empty());
            }
            rounds_left = rounds_left - 1;
        }
        proof {
            if self.change_set@.len() > 0 {
                let q = self.change_set@[0];
                assert(self.pending().contains(q));
                assert(rank(q as int) < n);
            }
            assert(self.pending().len() == 0);
            self.lemma_settled();
            assert forall|q: int| 0 <= q < self.size() implies #[trigger] self.computed(q) by {
                assert(!self.pending().contains(q as usize));
                assert(!Seq::<usize>::empty().contains(q as usize));
            }
        }
        listeners
    }

    /// A new property bound to `parents` through `transform`, with
    /// `listener` told of its changes.
    pub fn bind(&mut self, parents: &Vec<usize>, transform: usize, listener: Option<usize>) -> (r: usize)
        requires
            old(self).wf(),
            old(self).size() + 1 < usize::MAX,
            forall|i: int| 0 <= i < parents@.len() ==> #[trigger] parents@[i] < old(self).size(),
            forall|i: int| 0 <= i < parents@.len() ==> old(self).is_live(#[trigger] parents@[i] as int),
            old(self).bindings_made() + 1 < usize::MAX,
        ensures
            final(self).wf(),
            final(self).transforms() == old(self).transforms(),
            r == old(self).size(),
            final(self).is_live(r as int),
            final(self).live_count() == old(self).live_count() + 1,
            final(self).size() == old(self).size() + 1,
            final(self).prop(r as int).binding matches Some(b) && {
                &&& b.transform == transform
                &&& b.values@.len() == parents@.len()
                &&& forall|i: int| 0 <= i < parents@.len() ==> #[trigger] b.values@[i] == old(self).prop(parents@[i] as int).value
                &&& final(self).transforms().ensures((transform, &b.values), final(self).prop(r as int).value)
                &&& forall|q: int| 0 <= q < old(self).size() ==> #[trigger] final(self).prop(q).children@
                    == old(self).prop(q).children@ + links_to(parents@, q, r, b.instance)
            },
            !final(self).prop(r as int).readonly,
            final(self).prop(r as int).listener == listener,
            final(self).prop(r as int).children@.len() == 0,
            forall|q: int| 0 <= q < old(self).size() ==> (#[trigger] final(self).prop(q)).value == old(self).prop(q).value
                && final(self).prop(q).binding == old(self).prop(q).binding && final(self).prop(q).readonly == old(self).prop(q).readonly
                && final(self).prop(q).listener == old(self).prop(q).listener,
            forall|q: usize| #[trigger] final(self).pending().contains(q) <==> (old(self).pending().contains(q) || q == r),
    {
        let r = self.new(V::initial(), listener);
        let ghost mid = *self;
        let res = self.try_bind(r, parents, transform);
        proof {
            assert(res is Ok);
            assert(mid.prop(r as int).children@.len() == 0);
            assert(links_to(parents@, r as int, r, self.prop(r as int).binding->0.instance).len() == 0) by {
                lemma_links_to_absent(parents@, r as int, r, self.prop(r as int).binding->0.instance);
            }
            assert(self.prop(r as int).children@ =~= mid.prop(r as int).children@ + links_to(parents@, r as int, r, self.prop(r as int).binding->0.instance));
            assert forall|q: int| 0 <= q < old(self).size() implies #[trigger] self.prop(q).children@
                == old(self).prop(q).children@ + links_to(parents@, q, r, self.prop(r as int).binding->0.instance) by {
                assert(mid.prop(q) == old(self).prop(q));
            }
            assert forall|q: int| 0 <= q < old(self).size() implies (#[trigger] self.prop(q)).value == old(self).prop(q).value
                && self.prop(q).binding == old(self).prop(q).binding && self.prop(q).readonly == old(self).prop(q).readonly
                && self.prop(q).listener == old(self).prop(q).listener by {
                assert(mid.prop(q) == old(self).prop(q));
            }
            assert forall|i: int| 0 <= i < parents@.len() implies #[trigger] self.prop(r as int).binding->0.values@[i]
                == old(self).prop(parents@[i] as int).value by {
                assert(mid.prop(parents@[i] as int) == old(self).prop(parents@[i] as int));
            }
        }
        r
    }

    /// Sets property `p`, which must be neither bound nor frozen, to `value`.
    pub fn set(&mut self, p: usize, value: V)
        requires
            old(self).wf(),
            p < old(self).size(),
            old(self).prop(p as int).binding is None,
            !old(self).prop(p as int).readonly,
        ensures
            final(self).wf(),
            final(self).transforms() == old(self).transforms(),
            final(self).size() == old(self).size(),
            final(self).prop(p as int) == (PropertyImpl { value, ..old(self).prop(p as int) }),
            forall|q: int| 0 <= q < old(self).size() && q != p ==> #[trigger] final(self).prop(q) == old(self).prop(q),
            value != old(self).prop(p as int).value ==> forall|q: usize| #[trigger] final(self).pending().contains(q)
                <==> (old(self).pending().contains(q) || q == p),
            value == old(self).prop(p as int).value ==> final(self).pending() == old(self).pending(),
    {
        let _ = self.try_set(p, value);
    }

    /// Unbinds property `p`, which must not be frozen.
    pub fn unbind(&mut self, p: usize)
        requires
            old(self).wf(),
            p < old(self).size(),
            !old(self).prop(p as int).readonly,
        ensures
            final(self).wf(),
            final(self).transforms() == old(self).transforms(),
            final(self).size() == old(self).size(),
            final(self).prop(p as int) == (PropertyImpl { value: V::initial_spec(), binding: None, ..old(self).prop(p as int) }),
            forall|q: int| 0 <= q < old(self).size() && q != p ==> #[trigger] final(self).prop(q) == old(self).prop(q),
    {
        let _ = self.try_unbind(p);
    }

    /// Drops property `p`: it leaves the count, each binding of another
    /// property still in place that reads it is given the initial value in its
    /// place and put in the change set, and `p` holds no binding, links or
    /// listener any more.
    pub fn drop_property(&mut self, p: usize)
        requires
            old(self).wf(),
            p < old(self).size(),
            old(self).is_live(p as int),
        ensures
            final(self).wf(),
            final(self).transforms() == old(self).transforms(),
            final(self).size() == old(self).size(),
            final(self).bindings_made() == old(self).bindings_made(),
            !final(self).is_live(p as int),
            forall|q: int| q != p ==> #[trigger] final(self).is_live(q) == old(self).is_live(q),
            final(self).live_count() + 1 == old(self).live_count(),
            final(self).prop(p as int).binding is None,
            final(self).prop(p as int).children@.len() == 0,
            final(self).prop(p as int).listener is None,
            forall|q: int| 0 <= q < old(self).size() && q != p ==> {
                &&& (#[trigger] final(self).prop(q)).value == old(self).prop(q).value
                &&& final(self).prop(q).children == old(self).prop(q).children
                &&& final(self).prop(q).readonly == old(self).prop(q).readonly
                &&& final(self).prop(q).listener == old(self).prop(q).listener
                &&& (final(self).prop(q).binding is Some <==> old(self).prop(q).binding is Some)
                &&& final(self).prop(q).binding is Some ==> final(self).prop(q).binding->0.transform == old(self).prop(q).binding->0.transform
            },
            forall|k: int| 0 <= k < old(self).prop(p as int).children@.len() && old(self).live(#[trigger] old(self).prop(p as int).children@[k])
                && old(self).prop(p as int).children@[k].child != p ==> ({
                    let l = old(self).prop(p as int).children@[k];
                    &&& final(self).prop(l.child as int).binding->0.values@[l.index as int] == V::initial_spec()
                    &&& final(self).pending().contains(l.child)
                }),
            forall|q: usize| #[trigger] final(self).pending().contains(q) ==> old(self).pending().contains(q) || old(self).reads(p as int, q),
            forall|q: usize| #[trigger] old(self).pending().contains(q) ==> final(self).pending().contains(q),
    {
        proof {
            self.lemma_count_bound();
            assert(self.live@.remove(p as int).len() == self.live@.len() - 1);
        }
        self.count = self.count - 1;
        let mut e = self.props.remove(p);
        let mut children: Vec<ChildLink> = Vec::new();
        std::mem::swap(&mut children, &mut e.children);
        e.binding = None;
        e.listener = None;
        let ghost ge = e;
        self.props.insert(p, e);
        let ghost orig = children@;
        proof {
            self.live = Ghost(self.live@.remove(p as int));
            assert(self.props@ =~= old(self).props@.update(p as int, ge));
            assert(orig.take(orig.len() as int) =~= orig);
            assert forall|q: int| 0 <= q < self.size() && q != p implies #[trigger] self.prop(q) == old(self).prop(q) by {}
            assert forall|q: int| #[trigger] self.live@.contains(q) implies 0 <= q < self.props@.len() by {
                assert(old(self).live@.contains(q));
            }
            assert forall|q: int| 0 <= q < self.props@.len() && !self.live@.contains(q) implies (#[trigger] self.props@[q]).binding is None
                && self.props@[q].children@.len() == 0 && self.props@[q].listener is None by {
                if q != p {
                    assert(!old(self).live@.contains(q));
                    assert(old(self).props@[q].binding is None);
                }
            }
            assert forall|q: int| 0 <= q < self.size() implies (q < old(self).size() && (#[trigger] self.prop(q)).children@ == old(self).prop(q).children@)
                || self.prop(q).children@.len() == 0 by {}
            self.lemma_same_links(&*old(self));
            assert forall|q: int, k: int| 0 <= q < self.props@.len() && 0 <= k < self.props@[q].children@.len()
                implies (#[trigger] self.props@[q].children@[k]).child < self.props@.len() && self.props@[q].children@[k].instance < self.bindings by {
                assert(old(self).props@[q].children@[k] == self.props@[q].children@[k]);
            }
            assert forall|q: int| 0 <= q < self.props@.len() implies (#[trigger] self.props@[q]).id == q + 1 by {
                assert(old(self).props@[q].id == q + 1);
            }
            assert forall|q: int| 0 <= q < self.props@.len() && (#[trigger] self.props@[q]).binding is Some
                implies self.props@[q].binding->0.instance < self.bindings by {
                assert(old(self).props@[q].binding is Some);
            }
            assert forall|q: int, k: int|
                #![trigger self.prop(q).children@[k]]
                0 <= q < self.size() && 0 <= k < self.prop(q).children@.len() && self.live(self.prop(q).children@[k])
                    && !self.pending().contains(q as usize) && !Seq::<usize>::empty().contains(q as usize)
                implies self.prop(self.prop(q).children@[k].child as int).binding->0.values@[self.prop(q).children@[k].index as int]
                    == self.prop(q).value by {
                let l = self.prop(q).children@[k];
                assert(q != p);
                assert(old(self).prop(q).children@[k] == l);
                assert(l.child != p);
                assert(old(self).live(l));
            }
            assert forall|q: int| 0 <= q < self.size() && !self.pending().contains(q as usize) && !Seq::<usize>::empty().contains(q as usize)
                implies #[trigger] self.computed(q) by {
                if q != p {
                    assert(old(self).computed(q));
                }
            }
        }
        let ghost start = *self;
        proof {
            assert forall|k: int| 0 <= k < orig.len() implies (#[trigger] orig[k]).child < start.props@.len() by {
                assert(orig[k] == old(self).props@[p as int].children@[k]);
            }
            assert forall|q: int, k: int, j: int|
                #![trigger old(self).prop(q).children@[k], orig[j]]
                0 <= q < old(self).size() && 0 <= k < old(self).prop(q).children@.len() && 0 <= j < orig.len()
                    && old(self).prop(q).children@[k] == orig[j] implies q == p by {
                assert(old(self).prop(p as int).children@[j] == orig[j]);
            }
        }
        let v0 = V::initial();
        while children.len() > 0
            invariant
                self.wf(),
                self.transform == old(self).transform,
                self.count == start.count,
                self.count_all == start.count_all,
                self.bindings == start.bindings,
                self.live == start.live,
                p < self.props@.len(),
                self.props@.len() == start.props@.len(),
                start.props@.len() == old(self).props@.len(),
                v0 == V::initial_spec(),
                forall|q: usize| #[trigger] old(self).pending().contains(q) ==> self.pending().contains(q),
                forall|q: usize| #[trigger] self.pending().contains(q) ==> old(self).pending().contains(q)
                    || old(self).reads(p as int, q),
                forall|q: int| 0 <= q < self.size() ==> {
                    &&& (#[trigger] self.prop(q)).value == start.prop(q).value
                    &&& self.prop(q).children == start.prop(q).children
                    &&& self.prop(q).readonly == start.prop(q).readonly
                    &&& self.prop(q).listener == start.prop(q).listener
                    &&& self.prop(q).id == start.prop(q).id
                    &&& (self.prop(q).binding is Some <==> start.prop(q).binding is Some)
                    &&& self.prop(q).binding is Some ==> self.prop(q).binding->0.transform == start.prop(q).binding->0.transform
                        && self.prop(q).binding->0.instance == start.prop(q).binding->0.instance
                        && self.prop(q).binding->0.values@.len() == start.prop(q).binding->0.values@.len()
                },
                forall|q: int| 0 <= q < self.size() && q != p ==> #[trigger] start.prop(q) == old(self).prop(q),
                start.prop(p as int).binding is None,
                start.prop(p as int).children@.len() == 0,
                children@ == orig.take(children@.len() as int),
                children@.len() <= orig.len(),
                orig == old(self).prop(p as int).children@,
                forall|k: int| children@.len() <= k < orig.len() && old(self).live(#[trigger] orig[k]) && orig[k].child != p ==> ({
                    &&& self.prop(orig[k].child as int).binding->0.values@[orig[k].index as int] == V::initial_spec()
                    &&& self.pending().contains(orig[k].child)
                }),
                forall|k: int| 0 <= k < orig.len() ==> (#[trigger] orig[k]).child < start.props@.len(),
                forall|q: int, k: int, j: int|
                    #![trigger old(self).prop(q).children@[k], orig[j]]
                    0 <= q < old(self).size() && 0 <= k < old(self).prop(q).children@.len() && 0 <= j < orig.len()
                        && old(self).prop(q).children@[k] == orig[j] ==> q == p,
            decreases children@.len(),
        {
            let ghost cb = children@;
            let l = children.pop().unwrap();
            let c = l.child;
            let ghost before = *self;
            let ghost rank = children@.len() as int;
            proof {
                assert(l == cb[rank]);
                assert(cb[rank] == orig.take(cb.len() as int)[rank]);
                assert(children@ == cb.drop_last());
                assert(cb.drop_last() =~= orig.take(rank));
                assert(l == orig[rank]);
                assert(old(self).prop(p as int).children@[rank] == l);
                assert(orig[rank].child < start.props@.len());
                assert(c < self.size());
            }
            let live = match &self.props[c].binding {
                Some(b) => b.instance == l.instance && l.index < b.values.len(),
                None => false,
            };
            if live {
                proof {
                    assert(before.prop(c as int).binding is Some);
                    assert(start.prop(c as int).binding is Some);
                    assert(c != p);
                    assert(start.prop(c as int) == old(self).prop(c as int));
                    assert(before.prop(c as int).binding->0.instance == start.prop(c as int).binding->0.instance);
                    assert(before.prop(c as int).binding->0.values@.len() == start.prop(c as int).binding->0.values@.len());
                    assert(old(self).live(l));
                }
                let mut ce = self.props.remove(c);
                let b = ce.binding.unwrap();
                let mut vals = b.values;
                vals[l.index] = v0.copy_of();
                ce.binding = Some(Binding { transform: b.transform, values: vals, instance: b.instance });
                let ghost gce = ce;
                self.props.insert(c, ce);
                proof {
                    assert(self.props@ =~= before.props@.update(c as int, gce));
                }
                self.add_to_change_set(c);
                proof {
                    assert forall|q: int| 0 <= q < self.size() && q != c implies #[trigger] self.props@[q] == before.props@[q] by {}
                    assert(self.prop(c as int).binding->0.values@ == before.prop(c as int).binding->0.values@.update(l.index as int, v0));
                    assert forall|q: int| 0 <= q < self.size() implies {
                        &&& (#[trigger] self.prop(q)).value == start.prop(q).value
                        &&& self.prop(q).children == start.prop(q).children
                        &&& self.prop(q).readonly == start.prop(q).readonly
                        &&& self.prop(q).listener == start.prop(q).listener
                        &&& self.prop(q).id == start.prop(q).id
                        &&& (self.prop(q).binding is Some <==> start.prop(q).binding is Some)
                        &&& self.prop(q).binding is Some ==> self.prop(q).binding->0.transform == start.prop(q).binding->0.transform
                            && self.prop(q).binding->0.instance == start.prop(q).binding->0.instance
                            && self.prop(q).binding->0.values@.len() == start.prop(q).binding->0.values@.len()
                    } by {
                        assert(before.prop(q).id == start.prop(q).id);
                    }
                    assert forall|k: int| children@.len() <= k < orig.len() && old(self).live(#[trigger] orig[k]) && orig[k].child != p implies ({
                        &&& self.prop(orig[k].child as int).binding->0.values@[orig[k].index as int] == V::initial_spec()
                        &&& self.pending().contains(orig[k].child)
                    }) by {
                        if k != rank {
                            assert(before.pending().contains(orig[k].child));
                        }
                    }
                    assert forall|q: usize| #[trigger] self.pending().contains(q) implies old(self).pending().contains(q)
                        || old(self).reads(p as int, q) by {
                        if q != c {
                            assert(before.pending().contains(q));
                        }
                    }
                    // consistency
                    assert forall|q: int| 0 <= q < self.props@.len() && !self.live@.contains(q) implies (#[trigger] self.props@[q]).binding is None
                        && self.props@[q].children@.len() == 0 && self.props@[q].listener is None by {
                        assert(before.props@[q].binding is None);
                    }
                    assert forall|q: int| 0 <= q < self.size() implies (q < before.size() && (#[trigger] self.prop(q)).children@ == before.prop(q).children@)
                        || self.prop(q).children@.len() == 0 by {}
                    self.lemma_same_links(&before);
                    assert forall|q: int, k: int| 0 <= q < self.props@.len() && 0 <= k < self.props@[q].children@.len()
                        implies (#[trigger] self.props@[q].children@[k]).child < self.props@.len() && self.props@[q].children@[k].instance < self.bindings by {
                        assert(before.props@[q].children@[k] == self.props@[q].children@[k]);
                    }
                    assert forall|q: int| 0 <= q < self.props@.len() implies (#[trigger] self.props@[q]).id == q + 1 by {
                        assert(before.props@[q].id == q + 1);
                    }
                    assert forall|q: int| 0 <= q < self.props@.len() && (#[trigger] self.props@[q]).binding is Some
                        implies self.props@[q].binding->0.instance < self.bindings by {
                        assert(before.props@[q].binding is Some);
                    }
                    assert forall|i: int| 0 <= i < self.change_set@.len() implies (#[trigger] self.change_set@[i]) < self.props@.len() by {
                        assert(self.change_set@.contains(self.change_set@[i]));
                        if self.change_set@[i] != c {
                            let j = choose|j: int| 0 <= j < before.change_set@.len() && before.change_set@[j] == self.change_set@[i];
                        }
                    }
                    assert forall|q: int, k: int|
                        #![trigger self.prop(q).children@[k]]
                        0 <= q < self.size() && 0 <= k < self.prop(q).children@.len() && self.live(self.prop(q).children@[k])
                            && !self.pending().contains(q as usize) && !Seq::<usize>::empty().contains(q as usize)
                        implies self.prop(self.prop(q).children@[k].child as int).binding->0.values@[self.prop(q).children@[k].index as int]
                            == self.prop(q).value by {
                        let m = self.prop(q).children@[k];
                        assert(q != p) by {
                            if q == p {
                                assert(before.prop(p as int).children == start.prop(p as int).children);
                            }
                        }
                        assert(before.prop(q).children@[k] == m);
                        assert(start.prop(q) == old(self).prop(q));
                        assert(old(self).prop(q).children@[k] == m);
                        assert(!before.pending().contains(q as usize));
                        assert(before.live(m));
                        if m.child == c && m.index == l.index {
                            assert(before.prop(c as int).binding->0.instance == l.instance);
                            assert(m == l);
                            assert(old(self).prop(q).children@[k] == orig[rank]);
                            assert(0 <= rank < orig.len());
                            assert(0 <= q < old(self).size());
                            assert(0 <= k < old(self).prop(q).children@.len());
                            assert(false);
                        }
                    }
                    assert forall|q: int| 0 <= q < self.size() && !self.pending().contains(q as usize) && !Seq::<usize>::empty().contains(q as usize)
                        implies #[trigger] self.computed(q) by {
                        assert(q != c);
                        assert(!before.pending().contains(q as usize));
                        assert(before.computed(q));
                    }
                    self.lemma_count_bound();
                }
            } else {
                proof {
                    assert forall|k: int| children@.len() <= k < orig.len() && old(self).live(#[trigger] orig[k]) && orig[k].child != p implies ({
                        &&& self.prop(orig[k].child as int).binding->0.values@[orig[k].index as int] == V::initial_spec()
                        &&& self.pending().contains(orig[k].child)
                    }) by {
                        if k == rank {
                            assert(start.prop(c as int) == old(self).prop(c as int));
                            assert(before.prop(c as int).binding is Some <==> start.prop(c as int).binding is Some);
                            assert(false);
                        }
                    }
                }
            }
        }
        proof {
            assert forall|k: int| 0 <= k < old(self).prop(p as int).children@.len()
                && old(self).live(#[trigger] old(self).prop(p as int).children@[k])
                && old(self).prop(p as int).children@[k].child != p implies ({
                let l = old(self).prop(p as int).children@[k];
                &&& self.prop(l.child as int).binding->0.values@[l.index as int] == V::initial_spec()
                &&& self.pending().contains(l.child)
            }) by {
                assert(orig[k] == old(self).prop(p as int).children@[k]);
            }
            assert forall|q: int| 0 <= q < old(self).size() && q != p implies {
                &&& (#[trigger] self.prop(q)).value == old(self).prop(q).value
                &&& self.prop(q).children == old(self).prop(q).children
                &&& self.prop(q).readonly == old(self).prop(q).readonly
                &&& self.prop(q).listener == old(self).prop(q).listener
                &&& (self.prop(q).binding is Some <==> old(self).prop(q).binding is Some)
                &&& self.prop(q).binding is Some ==> self.prop(q).binding->0.transform == old(self).prop(q).binding->0.transform
            } by {
                assert(start.prop(q) == old(self).prop(q));
            }
        }
    }

    /// Freezes property `p`: it can no longer be set, bound or unbound.
    pub fn freeze(&mut self, p: usize)
        requires
            old(self).wf(),
            p < old(self).size(),
        ensures
            final(self).wf(),
            final(self).transforms() == old(self).transforms(),
            final(self).size() == old(self).size(),
            final(self).prop(p as int) == (PropertyImpl { readonly: true, ..old(self).prop(p as int) }),
            forall|q: int| 0 <= q < old(self).size() && q != p ==> #[trigger] final(self).prop(q) == old(self).prop(q),
            final(self).pending() == old(self).pending(),
    {
        let mut e = self.props.remove(p);
        e.readonly = true;
        let ghost ge = e;
        self.props.insert(p, e);
        proof {
            assert(self.props@ =~= old(self).props@.update(p as int, ge));
            assert forall|q: int| 0 <= q < self.size() implies (q < old(self).size()
                && (#[trigger] self.prop(q)).children@ == old(self).prop(q).children@)
                || self.prop(q).children@.len() == 0 by {
                if q != p {
                    assert(self.props@[q] == old(self).props@[q]);
                }
            }
            self.lemma_same_links(&*old(self));
            assert forall|q: int| 0 <= q < self.size() && q != p implies q < old(self).size()
                && #[trigger] self.prop(q) == old(self).prop(q) by {}
            assert(old(self).computed(p as int) || old(self).pending().contains(p)) by {
                assert(!Seq::<usize>::empty().contains(p));
            }
            self.lemma_values_kept(&*old(self), p as int);
            assert forall|q: int, k: int|
                #![trigger self.prop(q).children@[k]]
                0 <= q < self.size() && 0 <= k < self.prop(q).children@.len() && self.live(self.prop(q).children@[k])
                    && !self.pending().contains(q as usize) && !Seq::<usize>::empty().contains(q as usize)
                implies self.prop(self.prop(q).children@[k].child as int).binding->0.values@[self.prop(q).children@[k].index as int]
                    == self.prop(q).value by {
                assert(old(self).prop(q).children@[k] == self.prop(q).children@[k]);
                assert(old(self).live(old(self).prop(q).children@[k]));
            }
        }
    }
}

} // verus!
