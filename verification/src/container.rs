//! The hierarchical container: a keyed tree node holding named, colored,
//! timestamped children and a "currently selected child" reference.
//!
//! Children are stored as key/value pairs with unique keys; storage order
//! carries no meaning, listings are ordered by creation instant through
//! [`crate::sort::sort_items`]. The selection, if present, must reference a
//! live key; a lookup that finds the selection dangling (a child removed
//! out of band) clears it instead of failing.

use vstd::prelude::*;

use crate::ids::PreferVariant;
use crate::ids::random_color;
use crate::sort::SortKeyed;
use crate::sort::sort_items;
use crate::sort::sorted_by_key;
use crate::sort::views_of;

verus! {

/// The mathematical model of a container: the same fields, with the
/// children as a sequence of key/value pairs of views.
#[verifier::ext_equal]
pub ghost struct ContainerV<V> {
    pub id: u64,
    pub name: Seq<char>,
    pub created_at: u64,
    pub is_deleted: bool,
    pub color: (u8, u8, u8),
    pub children: Seq<(u64, V)>,
    pub current: Option<u64>,
}

impl<V> ContainerV<V> {
    /// The keys of the children, in storage order.
    pub open spec fn keys(self) -> Seq<u64> {
        self.children.map_values(|p: (u64, V)| p.0)
    }

    /// Whether a key is present among the children.
    pub open spec fn has_key(self, k: u64) -> bool {
        self.keys().contains(k)
    }

    /// The storage position of a key (meaningful under [`Self::wf_keys`]).
    pub open spec fn key_index(self, k: u64) -> int {
        choose|i: int| 0 <= i < self.children.len() && self.children[i].0 == k
    }

    /// The child stored under a key, if any.
    pub open spec fn lookup(self, k: u64) -> Option<V> {
        if self.has_key(k) {
            Some(self.children[self.key_index(k)].1)
        } else {
            None
        }
    }

    /// Keys are unique.
    pub open spec fn wf_keys(self) -> bool {
        forall|i: int, j: int|
            0 <= i < j < self.children.len() ==> (#[trigger] self.children[i]).0 != (
            #[trigger] self.children[j]).0
    }

    /// Keys are unique and the selection, if present, references a live key.
    pub open spec fn wf(self) -> bool {
        &&& self.wf_keys()
        &&& match self.current {
            Some(k) => self.has_key(k),
            None => true,
        }
    }

    /// The currently selected child, if the selection resolves.
    pub open spec fn current_child(self) -> Option<V> {
        match self.current {
            Some(k) => self.lookup(k),
            None => None,
        }
    }

    /// The container after storing a child under a key: an existing entry
    /// is overwritten in place, a new one is appended.
    pub open spec fn insert_model(self, k: u64, v: V) -> Self {
        if self.has_key(k) {
            ContainerV { children: self.children.update(self.key_index(k), (k, v)), ..self }
        } else {
            ContainerV { children: self.children.push((k, v)), ..self }
        }
    }

    /// The container after a selection request: an absent key leaves the
    /// selection unchanged, `None` clears it.
    pub open spec fn set_current_model(self, key: Option<u64>) -> Self {
        match key {
            Some(k) => if self.has_key(k) {
                ContainerV { current: key, ..self }
            } else {
                self
            },
            None => ContainerV { current: None, ..self },
        }
    }

    /// The container after structurally removing a key: the selection is
    /// cleared if it referenced that key.
    pub open spec fn remove_model(self, k: u64) -> Self {
        if self.has_key(k) {
            ContainerV {
                children: self.children.remove(self.key_index(k)),
                current: if self.current == Some(k) {
                    None
                } else {
                    self.current
                },
                ..self
            }
        } else {
            self
        }
    }

    /// The container after a self-healing lookup: a dangling selection is
    /// cleared, anything else is left alone.
    pub open spec fn heal_model(self) -> Self {
        match self.current {
            Some(k) => if self.has_key(k) {
                self
            } else {
                ContainerV { current: None, ..self }
            },
            None => self,
        }
    }
}

/// Under unique keys, a position holding a key is the position of that key.
pub proof fn lemma_key_index<V>(c: ContainerV<V>, i: int, k: u64)
    requires
        c.wf_keys(),
        0 <= i < c.children.len(),
        c.children[i].0 == k,
    ensures
        c.has_key(k),
        c.key_index(k) == i,
        c.lookup(k) == Some(c.children[i].1),
{
    assert(c.keys()[i] == k);
    assert(c.has_key(k));
    let j = c.key_index(k);
    assert(0 <= j < c.children.len() && c.children[j].0 == k);
    if i != j {
        assert(c.children[i].0 != c.children[j].0);
    }
}

/// A key that no position holds is absent.
pub proof fn lemma_no_key<V>(c: ContainerV<V>, k: u64)
    requires
        forall|i: int| 0 <= i < c.children.len() ==> (#[trigger] c.children[i]).0 != k,
    ensures
        !c.has_key(k),
{
    if c.has_key(k) {
        let i = choose|i: int| 0 <= i < c.keys().len() && c.keys()[i] == k;
        assert(c.children[i].0 == k);
    }
}

/// *Selection self-healing*: selecting a live child and then structurally
/// removing it leaves the container with no selection, so a subsequent
/// lookup of the current child yields nothing.
pub proof fn lemma_selection_self_healing<V>(c: ContainerV<V>, k: u64)
    requires
        c.wf(),
        c.has_key(k),
    ensures
        c.set_current_model(Some(k)).remove_model(k).current is None,
        c.set_current_model(Some(k)).remove_model(k).current_child() is None,
        c.set_current_model(Some(k)).remove_model(k).heal_model() == c.set_current_model(
            Some(k),
        ).remove_model(k),
{
}

/// A generic tree node: identity, user-editable name, creation instant,
/// soft-delete flag, display color, keyed children and the key of the
/// currently selected child.
pub struct PContainer<T> {
    pub id: u64,
    pub name: String,
    pub created_at: u64,
    pub is_deleted: bool,
    pub color: (u8, u8, u8),
    pub inner: Vec<(u64, T)>,
    pub current_inner_id: Option<u64>,
}

impl<T: View> View for PContainer<T> {
    type V = ContainerV<T::V>;

    open spec fn view(&self) -> ContainerV<T::V> {
        ContainerV {
            id: self.id,
            name: self.name@,
            created_at: self.created_at,
            is_deleted: self.is_deleted,
            color: self.color,
            children: self.inner@.map_values(|p: (u64, T)| (p.0, p.1@)),
            current: self.current_inner_id,
        }
    }
}

impl<T: SortKeyed> SortKeyed for PContainer<T> {
    open spec fn view_key(v: ContainerV<T::V>) -> u64 {
        v.created_at
    }

    fn sort_key(&self) -> u64 {
        self.created_at
    }

    fn duplicate(&self) -> (r: Self) {
        let mut inner: Vec<(u64, T)> = Vec::new();
        let mut i: usize = 0;
        while i < self.inner.len()
            invariant
                i <= self.inner@.len(),
                inner@.len() == i,
                forall|j: int|
                    0 <= j < i ==> (#[trigger] inner@[j]).0 == self.inner@[j].0 && inner@[j].1@
                        == self.inner@[j].1@,
            decreases self.inner@.len() - i,
        {
            let key = self.inner[i].0;
            let child = self.inner[i].1.duplicate();
            inner.push((key, child));
            i += 1;
        }
        let r = PContainer {
            id: self.id,
            name: self.name.clone(),
            created_at: self.created_at,
            is_deleted: self.is_deleted,
            color: self.color,
            inner,
            current_inner_id: self.current_inner_id,
        };
        proof {
            assert(r@.children =~= self@.children);
            assert(r@ =~= self@);
        }
        r
    }
}

impl<T: SortKeyed> PContainer<T> {
    /// A freshly created node: a random identity and display color, the
    /// given name and creation instant, no children, no selection.
    pub fn new(name: &str, now: u64) -> (r: Self)
        ensures
            r@.name == name@,
            r@.created_at == now,
            !r@.is_deleted,
            r@.children == Seq::<(u64, T::V)>::empty(),
            r@.current is None,
            r@.wf(),
    {
        let r = PContainer {
            id: u64::get_prefer(),
            name: name.to_owned(),
            created_at: now,
            is_deleted: false,
            color: random_color(),
            inner: Vec::new(),
            current_inner_id: None,
        };
        proof {
            assert(r@.children =~= Seq::<(u64, T::V)>::empty());
        }
        r
    }

    /// The storage position of a key, if present.
    pub fn find_index(&self, key: u64) -> (r: Option<usize>)
        ensures
            match r {
                Some(i) => i < self.inner@.len() && self@.children[i as int].0 == key
                    && self@.has_key(key),
                None => !self@.has_key(key),
            },
    {
        let mut i: usize = 0;
        while i < self.inner.len()
            invariant
                i <= self.inner@.len(),
                forall|j: int| 0 <= j < i ==> (#[trigger] self.inner@[j]).0 != key,
            decreases self.inner@.len() - i,
        {
            if self.inner[i].0 == key {
                proof {
                    assert(self@.keys()[i as int] == key);
                }
                return Some(i);
            }
            i += 1;
        }
        proof {
            lemma_no_key(self@, key);
        }
        None
    }

    /// Stores a child under a key: an existing entry is silently
    /// overwritten, a new one appended.
    pub fn insert_child(&mut self, key: u64, child: T)
        requires
            old(self)@.wf_keys(),
        ensures
            final(self)@ == old(self)@.insert_model(key, child@),
            final(self)@.wf_keys(),
            old(self)@.wf() ==> final(self)@.wf(),
    {
        let ghost pre = self@;
        match self.find_index(key) {
            Some(i) => {
                self.inner[i] = (key, child);
                proof {
                    lemma_key_index(pre, i as int, key);
                    assert(final(self)@.children =~= pre.insert_model(key, child@).children);
                    assert(final(self)@ =~= pre.insert_model(key, child@));
                }
            },
            None => {
                self.inner.push((key, child));
                proof {
                    assert(final(self)@.children =~= pre.insert_model(key, child@).children);
                    assert(final(self)@ =~= pre.insert_model(key, child@));
                }
            },
        }
        proof {
            let post = final(self)@;
            if !pre.has_key(key) {
                assert forall|n: int| 0 <= n < pre.children.len() implies (
                #[trigger] pre.children[n]).0 != key by {
                    assert(pre.keys()[n] == pre.children[n].0);
                }
            }
            assert forall|i: int, j: int| 0 <= i < j < post.children.len() implies (
            #[trigger] post.children[i]).0 != (#[trigger] post.children[j]).0 by {}
            if pre.wf() {
                match pre.current {
                    Some(cu) => {
                        let i = choose|i: int|
                            0 <= i < pre.keys().len() && pre.keys()[i] == cu;
                        assert(pre.children[i].0 == cu);
                        assert(post.children[i].0 == cu);
                        assert(post.keys()[i] == cu);
                        assert(post.has_key(cu));
                    },
                    None => {},
                }
            }
        }
    }

    /// A selection request: an absent key is a no-op, `None` clears the
    /// selection, a live key becomes the selection.
    pub fn set_current(&mut self, key: Option<u64>)
        ensures
            final(self)@ == old(self)@.set_current_model(key),
    {
        let ghost pre = self@;
        if let Some(k) = key {
            if self.find_index(k).is_none() {
                proof {
                    assert(final(self)@ =~= pre.set_current_model(key));
                }
                return ;
            }
        }
        self.current_inner_id = key;
        proof {
            assert(final(self)@ =~= pre.set_current_model(key));
        }
    }

    /// Self-healing lookup of the selection, for mutation: the storage
    /// position of the currently selected child. A dangling selection is
    /// cleared and nothing is returned. (A mutable borrow of the child
    /// cannot be handed out of a verified function, so the position is.)
    pub fn get_current_mut(&mut self) -> (r: Option<usize>)
        requires
            old(self)@.wf_keys(),
        ensures
            match r {
                Some(i) => {
                    &&& *final(self) == *old(self)
                    &&& old(self)@.current is Some
                    &&& i < old(self)@.children.len()
                    &&& old(self)@.children[i as int].0 == old(self)@.current->0
                    &&& old(self)@.current_child() == Some(old(self)@.children[i as int].1)
                },
                None => {
                    &&& final(self)@ == old(self)@.heal_model()
                    &&& old(self)@.current_child() is None
                },
            },
    {
        let ghost pre = self@;
        match self.current_inner_id {
            Some(id) => match self.find_index(id) {
                Some(i) => {
                    proof {
                        lemma_key_index(pre, i as int, id);
                    }
                    Some(i)
                },
                None => {
                    self.current_inner_id = None;
                    proof {
                        assert(final(self)@ =~= pre.heal_model());
                    }
                    None
                },
            },
            None => {
                proof {
                    assert(final(self)@ =~= pre.heal_model());
                }
                None
            },
        }
    }

    /// The storage position of the child stored under a key, for mutation.
    pub fn get_child_mut(&mut self, key: u64) -> (r: Option<usize>)
        requires
            old(self)@.wf_keys(),
        ensures
            *final(self) == *old(self),
            match r {
                Some(i) => {
                    &&& i < old(self)@.children.len()
                    &&& old(self)@.children[i as int].0 == key
                    &&& old(self)@.lookup(key) == Some(old(self)@.children[i as int].1)
                },
                None => !old(self)@.has_key(key),
            },
    {
        let r = self.find_index(key);
        proof {
            if let Some(i) = r {
                lemma_key_index(self@, i as int, key);
            }
        }
        r
    }

    /// The child stored under a key, if any.
    pub fn get_child(&self, key: u64) -> (r: Option<&T>)
        requires
            self@.wf_keys(),
        ensures
            match r {
                Some(t) => self@.lookup(key) == Some(t@),
                None => !self@.has_key(key),
            },
    {
        match self.find_index(key) {
            Some(i) => {
                proof {
                    lemma_key_index(self@, i as int, key);
                }
                Some(&self.inner[i].1)
            },
            None => None,
        }
    }

    /// Structurally removes the child stored under a key, clearing the
    /// selection if it referenced that key.
    pub fn remove_child(&mut self, key: u64) -> (r: Option<T>)
        requires
            old(self)@.wf_keys(),
        ensures
            final(self)@ == old(self)@.remove_model(key),
            final(self)@.wf_keys(),
            old(self)@.wf() ==> final(self)@.wf(),
            r is Some <==> old(self)@.has_key(key),
            r matches Some(t) ==> old(self)@.lookup(key) == Some(t@),
    {
        let ghost pre = self@;
        match self.find_index(key) {
            Some(i) => {
                proof {
                    lemma_key_index(pre, i as int, key);
                }
                let pair = self.inner.remove(i);
                if self.current_inner_id == Some(key) {
                    self.current_inner_id = None;
                }
                proof {
                    assert(self@.children =~= pre.remove_model(key).children) by {
                        pre.children.remove_ensures(i as int);
                    }
                    assert(self@ =~= pre.remove_model(key));
                    let post = self@;
                    assert forall|a: int, b: int| 0 <= a < b < post.children.len() implies (
                    #[trigger] post.children[a]).0 != (#[trigger] post.children[b]).0 by {
                        pre.children.remove_ensures(i as int);
                    }
                    if pre.wf() {
                        match post.current {
                            Some(cu) => {
                                assert(pre.current == Some(cu) && cu != key);
                                let n = choose|n: int|
                                    0 <= n < pre.keys().len() && pre.keys()[n] == cu;
                                assert(pre.children[n].0 == cu);
                                assert(n != i);
                                let n2 = if n < i {
                                    n
                                } else {
                                    n - 1
                                };
                                assert(post.children[n2].0 == cu);
                                assert(post.keys()[n2] == cu);
                            },
                            None => {},
                        }
                    }
                }
                Some(pair.1)
            },
            None => {
                proof {
                    assert(final(self)@ =~= pre.remove_model(key));
                }
                None
            },
        }
    }

    /// A snapshot of the children, ordered ascending by creation instant.
    /// Soft-deleted children are included; display filtering is the
    /// caller's convention.
    pub fn get_inner_sorted(&self) -> (r: Vec<T>)
        ensures
            r@.len() == self@.children.len(),
            views_of(r@).to_multiset() == self@.children.map_values(
                |p: (u64, T::V)| p.1,
            ).to_multiset(),
            sorted_by_key::<T>(views_of(r@)),
    {
        let mut items: Vec<T> = Vec::new();
        let mut i: usize = 0;
        while i < self.inner.len()
            invariant
                i <= self.inner@.len(),
                items@.len() == i,
                forall|j: int| 0 <= j < i ==> (#[trigger] items@[j])@ == self.inner@[j].1@,
            decreases self.inner@.len() - i,
        {
            items.push(self.inner[i].1.duplicate());
            i += 1;
        }
        proof {
            assert(views_of(items@) =~= self@.children.map_values(|p: (u64, T::V)| p.1));
        }
        sort_items(items)
    }

    /// Whether the stored representation satisfies the container
    /// invariant: unique keys and a live selection.
    pub fn check_wf(&self) -> (r: bool)
        ensures
            r == self@.wf(),
    {
        let mut i: usize = 0;
        while i < self.inner.len()
            invariant
                i <= self.inner@.len(),
                forall|a: int, b: int|
                    0 <= a < b < self.inner@.len() && a < i ==> (#[trigger] self.inner@[a]).0
                        != (#[trigger] self.inner@[b]).0,
            decreases self.inner@.len() - i,
        {
            let mut j: usize = i + 1;
            while j < self.inner.len()
                invariant
                    i < j,
                    j <= self.inner@.len(),
                    forall|b: int| i < b < j ==> (#[trigger] self.inner@[b]).0
                        != self.inner@[i as int].0,
                decreases self.inner@.len() - j,
            {
                if self.inner[j].0 == self.inner[i].0 {
                    proof {
                        assert(self@.children[i as int].0 == self@.children[j as int].0);
                        assert(!self@.wf_keys());
                    }
                    return false;
                }
                j += 1;
            }
            i += 1;
        }
        proof {
            assert(self@.wf_keys());
        }
        match self.current_inner_id {
            Some(k) => {
                let r = self.find_index(k).is_some();
                proof {
                    assert(r == self@.wf());
                }
                r
            },
            None => true,
        }
    }

    /// The currently selected child, if the selection resolves; a dangling
    /// selection yields nothing (and is cleared by the `mut` variant).
    pub fn get_current(&self) -> (r: Option<&T>)
        requires
            self@.wf_keys(),
        ensures
            match r {
                Some(t) => self@.current_child() == Some(t@),
                None => self@.current_child() is None,
            },
    {
        match self.current_inner_id {
            Some(id) => match self.find_index(id) {
                Some(i) => {
                    proof {
                        lemma_key_index(self@, i as int, id);
                    }
                    Some(&self.inner[i].1)
                },
                None => None,
            },
            None => None,
        }
    }
}

} // verus!
