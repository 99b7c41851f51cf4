use vstd::prelude::*;
use vstd::std_specs::cmp::PartialEqSpec;

verus! {

/// `i` is the first position in `s` whose key equals `key`.
pub open spec fn is_first<K: PartialEq, V>(s: Seq<(K, V)>, key: K, i: int) -> bool {
    &&& 0 <= i < s.len()
    &&& s[i].0.eq_spec(&key)
    &&& forall|j: int| 0 <= j < i ==> !(#[trigger] s[j]).0.eq_spec(&key)
}

/// The value paired with the first key in `s` that equals `key`, if any.
pub open spec fn assoc<K: PartialEq, V>(s: Seq<(K, V)>, key: K) -> Option<V> {
    if exists|i: int| is_first(s, key, i) {
        Some(s[choose|i: int| is_first(s, key, i)].1)
    } else {
        None
    }
}

/// The target registered for `(from, event)` in a table model: the first node
/// whose state equals `from`, then the first entry of it whose event equals `event`.
pub open spec fn lookup<S: PartialEq, E: PartialEq, T>(
    m: Seq<(S, Seq<(E, T)>)>,
    event: E,
    from: S,
) -> Option<T> {
    match assoc(m, from) {
        Some(entries) => assoc(entries, event),
        None => None,
    }
}

/// The table model after registering `(from, event) -> to`: appended to the node of
/// `from` when there is one, else in a new node at the end.
pub open spec fn insert_spec<S: PartialEq, E, T>(
    m: Seq<(S, Seq<(E, T)>)>,
    event: E,
    from: S,
    to: T,
) -> Seq<(S, Seq<(E, T)>)> {
    if exists|i: int| is_first(m, from, i) {
        let i = choose|i: int| is_first(m, from, i);
        m.update(i, (m[i].0, m[i].1.push((event, to))))
    } else {
        m.push((from, seq![(event, to)]))
    }
}

/// The table model with the target registered for `(from, event)` replaced by `to`.
pub open spec fn replace_spec<S: PartialEq, E: PartialEq, T>(
    m: Seq<(S, Seq<(E, T)>)>,
    event: E,
    from: S,
    to: T,
) -> Seq<(S, Seq<(E, T)>)> {
    let i = choose|i: int| is_first(m, from, i);
    let j = choose|j: int| is_first(m[i].1, event, j);
    m.update(i, (m[i].0, m[i].1.update(j, (m[i].1[j].0, to))))
}

/// The source states of a table model, in table order.
pub open spec fn states_of<S, E, T>(m: Seq<(S, Seq<(E, T)>)>) -> Seq<S> {
    m.map_values(|n: (S, Seq<(E, T)>)| n.0)
}

/// The events of one node's entries, in order.
pub open spec fn entry_events<E, T>(entries: Seq<(E, T)>) -> Seq<E> {
    entries.map_values(|p: (E, T)| p.0)
}

/// All events of a table model, node by node, each node's entries in order.
pub open spec fn events_of<S, E, T>(m: Seq<(S, Seq<(E, T)>)>) -> Seq<E>
    decreases m.len(),
{
    if m.len() == 0 {
        Seq::empty()
    } else {
        entry_events(m[0].1) + events_of(m.drop_first())
    }
}

/// A key has at most one first position.
pub proof fn lemma_first_unique<K: PartialEq, V>(s: Seq<(K, V)>, key: K, i: int, j: int)
    requires
        is_first(s, key, i),
        is_first(s, key, j),
    ensures
        i == j,
{
    if i < j {
        assert(!s[i].0.eq_spec(&key));
    } else if j < i {
        assert(!s[j].0.eq_spec(&key));
    }
}

/// The value at the first position of a key is the one `assoc` gives.
pub proof fn lemma_assoc_at<K: PartialEq, V>(s: Seq<(K, V)>, key: K, i: int)
    requires
        is_first(s, key, i),
    ensures
        assoc(s, key) == Some(s[i].1),
{
    let c = choose|c: int| is_first(s, key, c);
    lemma_first_unique(s, key, i, c);
}

/// A key that matches no position has no value.
pub proof fn lemma_assoc_none<K: PartialEq, V>(s: Seq<(K, V)>, key: K)
    requires
        forall|j: int| 0 <= j < s.len() ==> !(#[trigger] s[j]).0.eq_spec(&key),
    ensures
        assoc(s, key) is None,
{
}

/// Two association sequences with the same keys at the same positions agree on
/// where the first match of any key is.
pub proof fn lemma_first_same_keys<K: PartialEq, V1, V2>(
    s1: Seq<(K, V1)>,
    s2: Seq<(K, V2)>,
    key: K,
)
    requires
        s1.len() == s2.len(),
        forall|k: int| 0 <= k < s1.len() ==> (#[trigger] s1[k]).0 == s2[k].0,
    ensures
        forall|i: int| is_first(s1, key, i) <==> is_first(s2, key, i),
        (assoc(s1, key) is Some) <==> (assoc(s2, key) is Some),
        assoc(s1, key) is Some ==> exists|i: int|
            is_first(s1, key, i) && assoc(s1, key) == Some(s1[i].1) && assoc(s2, key) == Some(
                s2[i].1,
            ),
{
    assert forall|i: int| is_first(s1, key, i) <==> is_first(s2, key, i) by {
        if is_first(s1, key, i) {
            assert forall|j: int| 0 <= j < i implies !(#[trigger] s2[j]).0.eq_spec(&key) by {
                assert(s1[j].0 == s2[j].0);
            }
        }
        if is_first(s2, key, i) {
            assert forall|j: int| 0 <= j < i implies !(#[trigger] s1[j]).0.eq_spec(&key) by {
                assert(s1[j].0 == s2[j].0);
            }
        }
    }
    if exists|i: int| is_first(s1, key, i) {
        let i = choose|i: int| is_first(s1, key, i);
        lemma_assoc_at(s1, key, i);
        lemma_assoc_at(s2, key, i);
    }
}

/// Equality on `T` is an equivalence, and `==` in executable code decides it.
pub open spec fn lawful_eq<T: PartialEq>() -> bool {
    &&& T::obeys_eq_spec()
    &&& forall|x: T| #[trigger] x.eq_spec(&x)
    &&& forall|x: T, y: T| #[trigger] x.eq_spec(&y) ==> y.eq_spec(&x)
    &&& forall|x: T, y: T, z: T| #[trigger] x.eq_spec(&y) && #[trigger] y.eq_spec(&z) ==> x.eq_spec(&z)
}

/// Two `(event, from)` keys denote the same table entry.
pub open spec fn same_key<S: PartialEq, E: PartialEq>(e1: E, f1: S, e2: E, f2: S) -> bool {
    f1.eq_spec(&f2) && e1.eq_spec(&e2)
}

/// The table model after registering each `(event, from, to)` of `ds`, in order,
/// into an empty table.
pub open spec fn built<S: PartialEq, E, T>(ds: Seq<(E, S, T)>) -> Seq<(S, Seq<(E, T)>)>
    decreases ds.len(),
{
    if ds.len() == 0 {
        Seq::empty()
    } else {
        let d = ds.last();
        insert_spec(built(ds.drop_last()), d.0, d.1, d.2)
    }
}

/// No two descriptors of `ds` share a `(from, event)` key.
pub open spec fn distinct_keys<S: PartialEq, E: PartialEq, T>(ds: Seq<(E, S, T)>) -> bool {
    forall|i: int, j: int|
        0 <= i < j < ds.len() ==> !same_key(#[trigger] ds[i].0, ds[i].1, #[trigger] ds[j].0, ds[j].1)
}

proof fn lemma_match_has_first<K: PartialEq, V>(s: Seq<(K, V)>, key: K, j: int)
    requires
        0 <= j < s.len(),
        s[j].0.eq_spec(&key),
    ensures
        assoc(s, key) is Some,
    decreases j,
{
    if exists|k: int| 0 <= k < j && (#[trigger] s[k]).0.eq_spec(&key) {
        let k = choose|k: int| 0 <= k < j && (#[trigger] s[k]).0.eq_spec(&key);
        lemma_match_has_first(s, key, k);
    } else {
        assert(is_first(s, key, j));
    }
}

proof fn lemma_assoc_push<K: PartialEq, V>(s: Seq<(K, V)>, k: K, v: V, key: K)
    ensures
        assoc(s.push((k, v)), key) == (if assoc(s, key) is Some {
            assoc(s, key)
        } else if k.eq_spec(&key) {
            Some(v)
        } else {
            None
        }),
{
    let s2 = s.push((k, v));
    if exists|i: int| is_first(s, key, i) {
        let i = choose|i: int| is_first(s, key, i);
        assert(is_first(s2, key, i));
        lemma_assoc_at(s, key, i);
        lemma_assoc_at(s2, key, i);
    } else {
        assert forall|j: int| 0 <= j < s.len() implies !(#[trigger] s[j]).0.eq_spec(&key) by {
            if s[j].0.eq_spec(&key) {
                lemma_match_has_first(s, key, j);
            }
        }
        if k.eq_spec(&key) {
            assert(is_first(s2, key, s.len() as int));
            lemma_assoc_at(s2, key, s.len() as int);
        } else {
            assert forall|j: int| 0 <= j < s2.len() implies !(#[trigger] s2[j]).0.eq_spec(&key) by {
                if j < s.len() {
                    assert(s2[j] == s[j]);
                }
            }
            lemma_assoc_none(s2, key);
        }
    }
}

proof fn lemma_assoc_update<K: PartialEq, V>(s: Seq<(K, V)>, i: int, v: V, key: K)
    requires
        0 <= i < s.len(),
    ensures
        assoc(s.update(i, (s[i].0, v)), key) == (if is_first(s, key, i) {
            Some(v)
        } else {
            assoc(s, key)
        }),
{
    let s2 = s.update(i, (s[i].0, v));
    lemma_first_same_keys(s, s2, key);
    if is_first(s, key, i) {
        lemma_assoc_at(s2, key, i);
    } else if assoc(s, key) is Some {
        let c = choose|c: int|
            is_first(s, key, c) && assoc(s, key) == Some(s[c].1) && assoc(s2, key) == Some(s2[c].1);
        assert(c != i);
    }
}

/// Lookup in a table model after one registration whose key was free.
pub proof fn lemma_lookup_insert<S: PartialEq, E: PartialEq, T>(
    m: Seq<(S, Seq<(E, T)>)>,
    event: E,
    from: S,
    to: T,
    e2: E,
    f2: S,
)
    requires
        lawful_eq::<S>(),
        lawful_eq::<E>(),
        lookup(m, event, from) is None,
    ensures
        lookup(insert_spec(m, event, from, to), e2, f2) == (if same_key(event, from, e2, f2) {
            Some(to)
        } else {
            lookup(m, e2, f2)
        }),
{
    let m2 = insert_spec(m, event, from, to);
    if exists|i: int| is_first(m, from, i) {
        let i = choose|i: int| is_first(m, from, i);
        lemma_assoc_at(m, from, i);
        let entries = m[i].1;
        lemma_assoc_update(m, i, entries.push((event, to)), f2);
        if is_first(m, f2, i) {
            assert(from.eq_spec(&m[i].0));
            assert(from.eq_spec(&f2));
            lemma_assoc_at(m, f2, i);
            lemma_assoc_push(entries, event, to, e2);
            if assoc(entries, e2) is Some && event.eq_spec(&e2) {
                let j = choose|j: int| is_first(entries, e2, j);
                assert(e2.eq_spec(&event));
                assert(entries[j].0.eq_spec(&event));
                lemma_match_has_first(entries, event, j);
            }
        } else if from.eq_spec(&f2) {
            assert(m[i].0.eq_spec(&f2));
            assert forall|j: int| 0 <= j < i implies !(#[trigger] m[j]).0.eq_spec(&f2) by {
                if m[j].0.eq_spec(&f2) {
                    assert(f2.eq_spec(&from));
                    assert(m[j].0.eq_spec(&from));
                }
            }
            assert(is_first(m, f2, i));
        }
    } else {
        lemma_assoc_push(m, from, seq![(event, to)], f2);
        if assoc(m, f2) is Some {
            if from.eq_spec(&f2) {
                let j = choose|j: int| is_first(m, f2, j);
                assert(f2.eq_spec(&from));
                assert(m[j].0.eq_spec(&from));
                lemma_match_has_first(m, from, j);
            }
        } else if from.eq_spec(&f2) {
            lemma_assoc_push(Seq::<(E, T)>::empty(), event, to, e2);
            assert(Seq::<(E, T)>::empty().push((event, to)) =~= seq![(event, to)]);
        }
    }
}

/// Once `(from, event)` is registered, that pair and every pair equal to it is
/// taken: a second registration of it does not meet the precondition of
/// `insert`, so it can never overwrite the first.
pub proof fn lemma_registered_pair_is_taken<S: PartialEq, E: PartialEq, T>(
    m: Seq<(S, Seq<(E, T)>)>,
    event: E,
    from: S,
    to: T,
    e2: E,
    f2: S,
)
    requires
        lawful_eq::<S>(),
        lawful_eq::<E>(),
        lookup(m, event, from) is None,
        same_key(event, from, e2, f2),
    ensures
        lookup(insert_spec(m, event, from, to), e2, f2) == Some(to),
{
    lemma_lookup_insert(m, event, from, to, e2, f2);
}

/// Replacing the target of a registered pair leaves that pair registered, with
/// the new target.
pub proof fn lemma_lookup_replace_same<S: PartialEq, E: PartialEq, T>(
    m: Seq<(S, Seq<(E, T)>)>,
    event: E,
    from: S,
    to: T,
)
    requires
        lookup(m, event, from) is Some,
    ensures
        lookup(replace_spec(m, event, from, to), event, from) == Some(to),
{
    let i = choose|i: int| is_first(m, from, i);
    lemma_assoc_at(m, from, i);
    let j = choose|j: int| is_first(m[i].1, event, j);
    lemma_assoc_at(m[i].1, event, j);
    let e2 = m[i].1.update(j, (m[i].1[j].0, to));
    lemma_assoc_update(m[i].1, j, to, event);
    lemma_assoc_update(m, i, e2, from);
}

/// Lookup in a table model after the target of a registered pair is replaced:
/// that pair, and every pair equal to it, finds the new target; every other
/// pair finds what it found before.
pub proof fn lemma_lookup_replace<S: PartialEq, E: PartialEq, T>(
    m: Seq<(S, Seq<(E, T)>)>,
    event: E,
    from: S,
    to: T,
    e2: E,
    f2: S,
)
    requires
        lawful_eq::<S>(),
        lawful_eq::<E>(),
        lookup(m, event, from) is Some,
    ensures
        lookup(replace_spec(m, event, from, to), e2, f2) == (if same_key(event, from, e2, f2) {
            Some(to)
        } else {
            lookup(m, e2, f2)
        }),
{
    let i = choose|i: int| is_first(m, from, i);
    lemma_assoc_at(m, from, i);
    let entries = m[i].1;
    let j = choose|j: int| is_first(entries, event, j);
    lemma_assoc_at(entries, event, j);
    let upd = entries.update(j, (entries[j].0, to));
    lemma_assoc_update(m, i, upd, f2);
    if is_first(m, f2, i) {
        assert(from.eq_spec(&m[i].0));
        assert(from.eq_spec(&f2));
        lemma_assoc_at(m, f2, i);
        lemma_assoc_update(entries, j, to, e2);
        if !is_first(entries, e2, j) && event.eq_spec(&e2) {
            assert(entries[j].0.eq_spec(&e2));
            assert forall|k: int| 0 <= k < j implies !(#[trigger] entries[k]).0.eq_spec(&e2) by {
                if entries[k].0.eq_spec(&e2) {
                    assert(e2.eq_spec(&event));
                    assert(entries[k].0.eq_spec(&event));
                }
            }
        }
    } else if from.eq_spec(&f2) {
        assert(m[i].0.eq_spec(&f2));
        assert forall|k: int| 0 <= k < i implies !(#[trigger] m[k]).0.eq_spec(&f2) by {
            if m[k].0.eq_spec(&f2) {
                assert(f2.eq_spec(&from));
                assert(m[k].0.eq_spec(&from));
            }
        }
        assert(is_first(m, f2, i));
    }
}

/// Registering descriptors with pairwise-distinct `(from, event)` keys accepts
/// every one of them (its key is still free when it comes), and afterwards each
/// registered pair looks up exactly its own target while every other pair looks
/// up nothing.
pub proof fn lemma_lookup_built<S: PartialEq, E: PartialEq, T>(ds: Seq<(E, S, T)>, event: E, from: S)
    requires
        lawful_eq::<S>(),
        lawful_eq::<E>(),
        distinct_keys(ds),
    ensures
        forall|i: int| 0 <= i < ds.len() ==> lookup(#[trigger] built(ds.take(i)), ds[i].0, ds[i].1) is None,
        forall|i: int| 0 <= i < ds.len() ==> lookup(built(ds), #[trigger] ds[i].0, ds[i].1) == Some(ds[i].2),
        (forall|i: int| 0 <= i < ds.len() ==> !same_key(#[trigger] ds[i].0, ds[i].1, event, from))
            ==> lookup(built(ds), event, from) is None,
    decreases ds.len(),
{
    if ds.len() > 0 {
        let n = ds.len() - 1;
        let pre = ds.drop_last();
        let d = ds.last();
        assert(distinct_keys(pre)) by {
            assert forall|i: int, j: int| 0 <= i < j < pre.len() implies !same_key(
                #[trigger] pre[i].0,
                pre[i].1,
                #[trigger] pre[j].0,
                pre[j].1,
            ) by {
                assert(pre[i] == ds[i] && pre[j] == ds[j]);
            }
        }
        lemma_lookup_built(pre, d.0, d.1);
        assert forall|i: int| 0 <= i < pre.len() implies !same_key(
            #[trigger] pre[i].0,
            pre[i].1,
            d.0,
            d.1,
        ) by {
            assert(pre[i] == ds[i] && ds[n] == d);
        }
        assert(lookup(built(pre), d.0, d.1) is None);
        assert forall|i: int| 0 <= i < ds.len() implies lookup(
            #[trigger] built(ds.take(i)),
            ds[i].0,
            ds[i].1,
        ) is None by {
            if i < n {
                assert(ds.take(i) =~= pre.take(i));
                assert(pre[i] == ds[i]);
            } else {
                assert(ds.take(i) =~= pre);
            }
        }
        assert forall|i: int| 0 <= i < ds.len() implies lookup(
            built(ds),
            #[trigger] ds[i].0,
            ds[i].1,
        ) == Some(ds[i].2) by {
            lemma_lookup_insert(built(pre), d.0, d.1, d.2, ds[i].0, ds[i].1);
            if i < n {
                assert(pre[i] == ds[i]);
                if same_key(d.0, d.1, ds[i].0, ds[i].1) {
                    assert(!same_key(ds[i].0, ds[i].1, ds[n].0, ds[n].1));
                    assert(ds[i].1.eq_spec(&d.1));
                }
            } else {
                assert(d.1.eq_spec(&d.1) && d.0.eq_spec(&d.0));
            }
        }
        lemma_lookup_insert(built(pre), d.0, d.1, d.2, event, from);
        lemma_lookup_built(pre, event, from);
        if forall|i: int| 0 <= i < ds.len() ==> !same_key(#[trigger] ds[i].0, ds[i].1, event, from) {
            assert forall|i: int| 0 <= i < pre.len() implies !same_key(
                #[trigger] pre[i].0,
                pre[i].1,
                event,
                from,
            ) by {
                assert(pre[i] == ds[i]);
            }
            assert(!same_key(ds[n].0, ds[n].1, event, from));
        }
    }
}

proof fn lemma_events_of_skip<S, E, T>(m: Seq<(S, Seq<(E, T)>)>, k: int)
    requires
        0 <= k < m.len(),
    ensures
        events_of(m.skip(k)) == entry_events(m[k].1) + events_of(m.skip(k + 1)),
{
    assert(m.skip(k).drop_first() =~= m.skip(k + 1));
}

#[derive(Debug, Clone)]
struct To<E, T> {
    event: E,
    to: T,
}

#[derive(Debug, Clone)]
struct Node<S, E, T> {
    from: S,
    next: Vec<To<E, T>>,
}

spec fn entry_view<E, T>(t: To<E, T>) -> (E, T) {
    (t.event, t.to)
}

spec fn node_view<S, E, T>(n: Node<S, E, T>) -> (S, Seq<(E, T)>) {
    (n.from, n.next@.map_values(|t: To<E, T>| entry_view(t)))
}

spec fn nodes_view<S, E, T>(nodes: Seq<Node<S, E, T>>) -> Seq<(S, Seq<(E, T)>)> {
    nodes.map_values(|n: Node<S, E, T>| node_view(n))
}

/// A table from source states to their transitions: for each state, the events
/// that leave it and the value registered for each.
///
/// Its model is a sequence of nodes `(state, [(event, value)])`. Lookup is by
/// equality alone: the first node whose state equals the key, then the first
/// entry of that node whose event equals the key.
#[derive(Debug, Clone)]
pub struct TransitionMap<S, E, T> {
    nodes: Vec<Node<S, E, T>>,
}

impl<S, E, T> View for TransitionMap<S, E, T> {
    type V = Seq<(S, Seq<(E, T)>)>;

    closed spec fn view(&self) -> Self::V {
        nodes_view(self.nodes@)
    }
}

impl<S, E, T> TransitionMap<S, E, T> {
    /// An empty table.
    pub fn new() -> (r: Self)
        ensures
            r@ == Seq::<(S, Seq<(E, T)>)>::empty(),
    {
        let r = TransitionMap { nodes: Vec::new() };
        assert(r@ =~= Seq::<(S, Seq<(E, T)>)>::empty());
        r
    }

    /// A fresh traversal over every registered event, node by node.
    pub fn events(&self) -> (r: Events<'_, S, E, T>)
        ensures
            r.remaining() == events_of(self@),
    {
        let r = Events { nodes: &self.nodes, node: 0, entry: 0 };
        proof {
            let m = self@;
            if m.len() > 0 {
                lemma_events_of_skip(m, 0);
                assert(m.skip(0) =~= m);
                assert(entry_events(m[0].1).skip(0) =~= entry_events(m[0].1));
            }
        }
        r
    }

    /// A fresh traversal over every registered source state, in table order.
    pub fn states(&self) -> (r: States<'_, S, E, T>)
        ensures
            r.remaining() == states_of(self@),
    {
        let r = States { nodes: &self.nodes, index: 0 };
        assert(r.remaining() =~= states_of(self@));
        r
    }
}

impl<S: PartialEq, E: PartialEq, T> TransitionMap<S, E, T> {
    /// Registers `to` as the target of `from` on `event`.
    ///
    /// A state has at most one target per event: the pair must not be registered yet.
    pub fn insert(&mut self, event: E, from: S, to: T)
        requires
            S::obeys_eq_spec(),
            E::obeys_eq_spec(),
            lookup(old(self)@, event, from) is None,
        ensures
            final(self)@ == insert_spec(old(self)@, event, from, to),
    {
        let ghost m = self@;
        let mut i: usize = 0;
        while i < self.nodes.len()
            invariant
                S::obeys_eq_spec(),
                E::obeys_eq_spec(),
                lookup(m, event, from) is None,
                m == old(self)@,
                self@ == m,
                0 <= i <= self.nodes.len(),
                forall|j: int| 0 <= j < i ==> !(#[trigger] m[j]).0.eq_spec(&from),
            decreases self.nodes.len() - i,
        {
            if self.nodes[i].from == from {
                // Callers outside verified code may not have met the precondition:
                // a pair that is already registered keeps its first target.
                if let Some(j) = self.entry_of(i, &event) {
                    proof {
                        assert(is_first(m, from, i as int));
                        lemma_assoc_at(m, from, i as int);
                        lemma_assoc_at(m[i as int].1, event, j as int);
                    }
                    return;
                }
                proof {
                    assert(is_first(m, from, i as int));
                    lemma_assoc_at(m, from, i as int);
                    let c = choose|c: int| is_first(m, from, c);
                    lemma_first_unique(m, from, i as int, c);
                }
                let ghost before = self.nodes@;
                let ghost pair = (event, to);
                self.nodes[i].next.push(To { event, to });
                proof {
                    let n = self.nodes@[i as int];
                    assert(n.next@ == before[i as int].next@.push(n.next@.last()));
                    assert(entry_view(n.next@.last()) == pair);
                    assert(node_view(n).1 =~= m[i as int].1.push(pair));
                    assert(self@ =~= insert_spec(m, pair.0, from, pair.1));
                }
                return;
            }
            i += 1;
        }
        assert(!exists|c: int| is_first(m, from, c));
        let ghost pair = (event, to);
        let ghost key = from;
        self.nodes.push(Node { from, next: vec![To { event, to }] });
        proof {
            let n = self.nodes@.last();
            assert(n.next@.len() == 1);
            assert(entry_view(n.next@[0]) == pair);
            assert(node_view(n) == (key, seq![pair])) by {
                assert(node_view(n).1 =~= seq![pair]);
            }
            assert(self@ =~= insert_spec(m, pair.0, key, pair.1));
        }
    }

    /// The position of the first node whose state equals `from`.
    fn node_of(&self, from: &S) -> (r: Option<usize>)
        requires
            S::obeys_eq_spec(),
        ensures
            match r {
                Some(i) => is_first(self@, *from, i as int),
                None => assoc(self@, *from) is None,
            },
    {
        let mut i: usize = 0;
        while i < self.nodes.len()
            invariant
                S::obeys_eq_spec(),
                0 <= i <= self.nodes.len(),
                forall|j: int| 0 <= j < i ==> !(#[trigger] self@[j]).0.eq_spec(from),
            decreases self.nodes.len() - i,
        {
            if &self.nodes[i].from == from {
                return Some(i);
            }
            i += 1;
        }
        None
    }

    /// The position of the first entry of node `i` whose event equals `event`.
    fn entry_of(&self, i: usize, event: &E) -> (r: Option<usize>)
        requires
            E::obeys_eq_spec(),
            i < self@.len(),
        ensures
            match r {
                Some(j) => is_first(self@[i as int].1, *event, j as int),
                None => assoc(self@[i as int].1, *event) is None,
            },
    {
        let next = &self.nodes[i].next;
        let mut j: usize = 0;
        while j < next.len()
            invariant
                E::obeys_eq_spec(),
                next@.map_values(|t: To<E, T>| entry_view(t)) == self@[i as int].1,
                0 <= j <= next.len(),
                forall|k: int| 0 <= k < j ==> !(#[trigger] self@[i as int].1[k]).0.eq_spec(event),
            decreases next.len() - j,
        {
            if &next[j].event == event {
                return Some(j);
            }
            j += 1;
        }
        None
    }

    /// The value registered for `from` on `event`, if any.
    pub fn get(&self, event: &E, from: &S) -> (r: Option<&T>)
        requires
            S::obeys_eq_spec(),
            E::obeys_eq_spec(),
        ensures
            match r {
                Some(t) => lookup(self@, *event, *from) == Some(*t),
                None => lookup(self@, *event, *from) is None,
            },
    {
        match self.node_of(from) {
            Some(i) => {
                proof {
                    lemma_assoc_at(self@, *from, i as int);
                }
                match self.entry_of(i, event) {
                    Some(j) => {
                        proof {
                            lemma_assoc_at(self@[i as int].1, *event, j as int);
                        }
                        Some(&self.nodes[i].next[j].to)
                    },
                    None => None,
                }
            },
            None => None,
        }
    }
    /// Mutable access to the value registered for `from` on `event`, if any.
    pub fn get_mut(&mut self, event: &E, from: &S) -> (r: Option<&mut T>)
        requires
            S::obeys_eq_spec(),
            E::obeys_eq_spec(),
        ensures
            lookup(old(self)@, *event, *from) is None ==> r is None && *final(self) == *old(self),
            lookup(old(self)@, *event, *from) is Some ==> (r matches Some(t) && *t == lookup(
                old(self)@,
                *event,
                *from,
            )->0 && final(self)@ == replace_spec(old(self)@, *event, *from, *final(t))),
    {
        match self.node_of(from) {
            Some(i) => {
                proof {
                    lemma_assoc_at(self@, *from, i as int);
                }
                match self.entry_of(i, event) {
                    Some(j) => {
                        proof {
                            lemma_assoc_at(self@[i as int].1, *event, j as int);
                            let nodes = self.nodes@;
                            let m = self@;
                            assert forall|n2: Node<S, E, T>|
                                #![trigger nodes.update(i as int, n2)]
                                n2.from == nodes[i as int].from && n2.next@.len()
                                    == nodes[i as int].next@.len() && n2.next@[j as int].event
                                    == nodes[i as int].next@[j as int].event && (forall|k: int|
                                    0 <= k < n2.next@.len() && k != j ==> n2.next@[k]
                                        == nodes[i as int].next@[k]) implies nodes_view(
                                nodes.update(i as int, n2),
                            ) == replace_spec(m, *event, *from, n2.next@[j as int].to) by {
                                let ci = choose|c: int| is_first(m, *from, c);
                                lemma_first_unique(m, *from, i as int, ci);
                                let cj = choose|c: int| is_first(m[i as int].1, *event, c);
                                lemma_first_unique(m[i as int].1, *event, j as int, cj);
                                assert(node_view(n2).1 =~= m[i as int].1.update(
                                    j as int,
                                    (m[i as int].1[j as int].0, n2.next@[j as int].to),
                                ));
                                assert(nodes_view(nodes.update(i as int, n2)) =~= replace_spec(
                                    m,
                                    *event,
                                    *from,
                                    n2.next@[j as int].to,
                                ));
                            }
                        }
                        Some(&mut self.nodes[i].next[j].to)
                    },
                    None => None,
                }
            },
            None => None,
        }
    }
}

/// A traversal over the source states of a table, in table order.
#[derive(Debug, Clone)]
pub struct States<'a, S, E, T> {
    nodes: &'a Vec<Node<S, E, T>>,
    index: usize,
}

impl<'a, S, E, T> States<'a, S, E, T> {
    /// The states that this traversal has still to yield.
    pub closed spec fn remaining(&self) -> Seq<S> {
        let m = nodes_view(self.nodes@);
        if self.index < m.len() {
            states_of(m).skip(self.index as int)
        } else {
            Seq::empty()
        }
    }

    /// Yields the next state, or `None` when every state has been yielded.
    pub fn next(&mut self) -> (r: Option<&'a S>)
        ensures
            old(self).remaining().len() == 0 ==> r is None && final(self).remaining() == old(
                self,
            ).remaining(),
            old(self).remaining().len() > 0 ==> (r matches Some(s) && *s == old(self).remaining()[0]
                && final(self).remaining() == old(self).remaining().drop_first()),
    {
        if self.index < self.nodes.len() {
            let s = &self.nodes[self.index].from;
            let ghost before = self.remaining();
            self.index += 1;
            proof {
                let m = nodes_view(self.nodes@);
                assert(before[0] == *s);
                assert(self.remaining() =~= before.drop_first());
            }
            Some(s)
        } else {
            None
        }
    }
}

/// A traversal over the events of a table, node by node, each node's entries in order.
#[derive(Debug, Clone)]
pub struct Events<'a, S, E, T> {
    nodes: &'a Vec<Node<S, E, T>>,
    node: usize,
    entry: usize,
}

impl<'a, S, E, T> Events<'a, S, E, T> {
    /// The events that this traversal has still to yield.
    pub closed spec fn remaining(&self) -> Seq<E> {
        let m = nodes_view(self.nodes@);
        if self.node < m.len() {
            let es = entry_events(m[self.node as int].1);
            let head = if self.entry <= es.len() {
                es.skip(self.entry as int)
            } else {
                Seq::empty()
            };
            head + events_of(m.skip(self.node + 1))
        } else {
            Seq::empty()
        }
    }

    /// Yields the next event, or `None` when every event has been yielded.
    pub fn next(&mut self) -> (r: Option<&'a E>)
        ensures
            old(self).remaining().len() == 0 ==> r is None && final(self).remaining() == old(
                self,
            ).remaining(),
            old(self).remaining().len() > 0 ==> (r matches Some(e) && *e == old(self).remaining()[0]
                && final(self).remaining() == old(self).remaining().drop_first()),
    {
        let ghost rem = self.remaining();
        while self.node < self.nodes.len()
            invariant
                self.nodes == old(self).nodes,
                self.remaining() == rem,
                rem == old(self).remaining(),
            decreases self.nodes.len() - self.node,
        {
            let n = &self.nodes[self.node];
            if self.entry < n.next.len() {
                let e = &n.next[self.entry].event;
                proof {
                    let m = nodes_view(self.nodes@);
                    let es = entry_events(m[self.node as int].1);
                    assert(es[self.entry as int] == *e);
                    assert(es.skip(self.entry as int) =~= seq![*e] + es.skip(self.entry + 1));
                }
                self.entry += 1;
                proof {
                    assert(rem[0] == *e);
                    assert(self.remaining() =~= rem.drop_first());
                }
                return Some(e);
            }
            proof {
                let m = nodes_view(self.nodes@);
                let es = entry_events(m[self.node as int].1);
                if self.entry <= es.len() {
                    assert(es.skip(self.entry as int) =~= Seq::<E>::empty());
                }
                if self.node + 1 < m.len() {
                    lemma_events_of_skip(m, self.node + 1);
                    assert(entry_events(m[self.node + 1].1).skip(0) =~= entry_events(
                        m[self.node + 1].1,
                    ));
                } else {
                    assert(m.skip(self.node + 1) =~= Seq::<(S, Seq<(E, T)>)>::empty());
                }
                assert(Seq::<E>::empty() + events_of(m.skip(self.node + 1)) =~= events_of(
                    m.skip(self.node + 1),
                ));
            }
            self.node += 1;
            self.entry = 0;
        }
        None
    }
}

} // verus!
