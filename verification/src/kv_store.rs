use vstd::hash_map::StringHashMap;
use vstd::prelude::*;

use crate::schedular::key_views;

verus! {

/// A key-value store of resources by name.
///
/// Serves as the local cache (informer store) for resources, minimizing
/// direct API/DB hits during the reconciliation loop. Beside the map the
/// store keeps each stored name once, in the order in which it was first
/// put, so that it can list its keys.
#[verifier::reject_recursive_types(T)]
pub struct KVStore<T> {
    inner: StringHashMap<T>,
    names: Vec<String>,
}

impl<T> View for KVStore<T> {
    type V = Map<Seq<char>, T>;

    /// The stored resources by name.
    closed spec fn view(&self) -> Map<Seq<char>, T> {
        self.inner@
    }
}

/// The store after `put(name, t)`: `t` is stored under `name`, replacing
/// whatever was stored there, and nothing else changes.
pub open spec fn store_after_put<T>(m: Map<Seq<char>, T>, name: Seq<char>, t: T) -> Map<
    Seq<char>,
    T,
> {
    m.insert(name, t)
}

/// A read after a write gives back what the write stored.
pub proof fn lemma_get_after_put<T>(m: Map<Seq<char>, T>, name: Seq<char>, t: T)
    ensures
        store_after_put(m, name, t).contains_key(name),
        store_after_put(m, name, t)[name] == t,
        store_after_put(m, name, t).dom() == m.dom().insert(name),
{
}

/// A write under one name leaves every other name as it was.
pub proof fn lemma_put_leaves_others<T>(m: Map<Seq<char>, T>, name: Seq<char>, t: T, other: Seq<char>)
    requires
        other != name,
    ensures
        store_after_put(m, name, t).contains_key(other) == m.contains_key(other),
        m.contains_key(other) ==> store_after_put(m, name, t)[other] == m[other],
{
}

/// Of two writes under one name the later wins.
pub proof fn lemma_put_last_wins<T>(m: Map<Seq<char>, T>, name: Seq<char>, t1: T, t2: T)
    ensures
        store_after_put(store_after_put(m, name, t1), name, t2) == store_after_put(m, name, t2),
{
    assert(store_after_put(store_after_put(m, name, t1), name, t2) =~= store_after_put(m, name, t2));
}

impl<T> KVStore<T> {
    /// Each stored name is listed once, and the list names exactly the
    /// stored resources.
    #[verifier::type_invariant]
    closed spec fn wf(&self) -> bool {
        &&& key_views(self.names@).no_duplicates()
        &&& key_views(self.names@).to_set() == self.inner@.dom()
    }
}

impl<T: Clone> KVStore<T> {
    /// Initializes an empty store.
    pub fn new() -> (store: Self)
        ensures
            store@ == Map::<Seq<char>, T>::empty(),
    {
        let inner = StringHashMap::new();
        let names: Vec<String> = Vec::new();
        assert(key_views(names@) =~= Seq::<Seq<char>>::empty());
        assert(key_views(names@).to_set() =~= inner@.dom());
        KVStore { inner, names }
    }

    /// Inserts or updates a resource.
    pub fn put(&mut self, name: String, t: T)
        ensures
            final(self)@ == store_after_put(old(self)@, name@, t),
            final(self)@ == old(self)@.insert(name@, t),
            final(self)@.contains_key(name@) && final(self)@[name@] == t,
            forall|other: Seq<char>|
                other != name@ ==> (#[trigger] final(self)@.contains_key(other) == old(self)@.contains_key(other)
                    && (old(self)@.contains_key(other) ==> final(self)@[other] == old(self)@[other])),
    {
        let mut taken = KVStore::new();
        std::mem::swap(self, &mut taken);
        proof {
            use_type_invariant(&taken);
        }
        let KVStore { mut inner, mut names } = taken;
        let ghost n0 = names@;
        if !inner.contains_key(name.as_str()) {
            names.push(name.clone());
            proof {
                assert(key_views(names@) =~= key_views(n0).push(name@));
                broadcast use vstd::seq_lib::group_seq_properties;

            }
        }
        inner.insert(name, t);
        assert(key_views(names@).to_set() =~= inner@.dom()) by {
            broadcast use vstd::seq_lib::group_seq_properties;

        }
        *self = KVStore { inner, names };
    }

    /// Retrieves a copy of a resource by name, or `None` when no resource
    /// is stored under that name.
    pub fn get(&self, name: String) -> (found: Option<T>)
        ensures
            found is Some <==> self@.contains_key(name@),
            found matches Some(t) ==> cloned(self@[name@], t),
    {
        match self.inner.get(name.as_str()) {
            Some(t) => Some(t.clone()),
            None => None,
        }
    }

    /// Returns a snapshot of all keys currently in the store, each once.
    /// Useful for the "list" part of the list-watch pattern.
    pub fn list_keys(&self) -> (keys: Vec<String>)
        ensures
            key_views(keys@).no_duplicates(),
            key_views(keys@).to_set() == self@.dom(),
    {
        proof {
            use_type_invariant(self);
        }
        let mut keys: Vec<String> = Vec::new();
        let mut i: usize = 0;
        while i < self.names.len()
            invariant
                i <= self.names.len(),
                keys@ == self.names@.subrange(0, i as int),
            decreases self.names.len() - i,
        {
            keys.push(self.names[i].clone());
            i = i + 1;
            assert(keys@ =~= self.names@.subrange(0, i as int));
        }
        assert(keys@ =~= self.names@);
        keys
    }
}

} // verus!
