//! The backend: the persisted aggregate of the two work-item trees, the
//! session tracker and the history ledger, together with the dirty /
//! last-save bookkeeping that decides when the state must be written out.
//!
//! Every command is a synchronous call on `Backend`; the caller reads the
//! wall clock and passes the instant in. Reading or writing the state file
//! is the caller's job: [`Backend::update_time`] says when a flush is due,
//! [`Backend::assemble`] rebuilds a backend from loaded parts and rejects
//! anything that breaks the invariants, and a caller whose write failed
//! calls [`Backend::dirty`] again so the next tick retries.

use vstd::prelude::*;

use crate::container::ContainerV;
use crate::container::PContainer;
use crate::container::lemma_key_index;
use crate::history::History;
use crate::history::HistoryRecord;
use crate::history::put_record;
use crate::history::touch_model;
use crate::ids::fresh_id;
use crate::sat_add;
use crate::sat_add_spec;
use crate::sort::SortKeyed;

verus! {

/// How long pure time accrual may stay unpersisted, in seconds.
pub const SAVE_THRESHOLD_SECS: u64 = 10;

/// A subject: the leaf of the work-item tree that time is tracked
/// against.
pub struct Subject {
    pub id: u64,
    pub name: String,
    pub created_at: u64,
    pub duration: u64,
    pub is_deleted: bool,
}

/// The mathematical model of a [`Subject`].
#[verifier::ext_equal]
pub ghost struct SubjectV {
    pub id: u64,
    pub name: Seq<char>,
    pub created_at: u64,
    pub duration: u64,
    pub is_deleted: bool,
}

impl View for Subject {
    type V = SubjectV;

    open spec fn view(&self) -> SubjectV {
        SubjectV {
            id: self.id,
            name: self.name@,
            created_at: self.created_at,
            duration: self.duration,
            is_deleted: self.is_deleted,
        }
    }
}

impl SortKeyed for Subject {
    open spec fn view_key(v: SubjectV) -> u64 {
        v.created_at
    }

    fn sort_key(&self) -> u64 {
        self.created_at
    }

    fn duplicate(&self) -> (r: Self) {
        let r = Subject {
            id: self.id,
            name: self.name.clone(),
            created_at: self.created_at,
            duration: self.duration,
            is_deleted: self.is_deleted,
        };
        proof {
            assert(r@ =~= self@);
        }
        r
    }
}

impl Subject {
    /// A fresh subject: a random identity, the given name and creation
    /// instant, no accumulated time, not deleted.
    pub fn create(name: &str, now: u64) -> (r: Self)
        ensures
            r@.name == name@,
            r@.created_at == now,
            r@.duration == 0,
            !r@.is_deleted,
    {
        Subject {
            id: fresh_id(),
            name: name.to_owned(),
            created_at: now,
            duration: 0,
            is_deleted: false,
        }
    }

    /// Adds elapsed time to the accumulated duration, saturating.
    pub fn accrue(&mut self, elapsed: u64)
        ensures
            final(self)@ == (SubjectV {
                duration: sat_add_spec(old(self)@.duration, elapsed),
                ..old(self)@
            }),
    {
        self.duration = sat_add(self.duration, elapsed);
    }
}

/// A todo subject: the leaf of the todo tree, carrying a done flag and no
/// time.
pub struct TodoSubject {
    pub id: u64,
    pub name: String,
    pub created_at: u64,
    pub is_deleted: bool,
    pub is_done: bool,
}

/// The mathematical model of a [`TodoSubject`].
#[verifier::ext_equal]
pub ghost struct TodoSubjectV {
    pub id: u64,
    pub name: Seq<char>,
    pub created_at: u64,
    pub is_deleted: bool,
    pub is_done: bool,
}

impl View for TodoSubject {
    type V = TodoSubjectV;

    open spec fn view(&self) -> TodoSubjectV {
        TodoSubjectV {
            id: self.id,
            name: self.name@,
            created_at: self.created_at,
            is_deleted: self.is_deleted,
            is_done: self.is_done,
        }
    }
}

impl SortKeyed for TodoSubject {
    open spec fn view_key(v: TodoSubjectV) -> u64 {
        v.created_at
    }

    fn sort_key(&self) -> u64 {
        self.created_at
    }

    fn duplicate(&self) -> (r: Self) {
        let r = TodoSubject {
            id: self.id,
            name: self.name.clone(),
            created_at: self.created_at,
            is_deleted: self.is_deleted,
            is_done: self.is_done,
        };
        proof {
            assert(r@ =~= self@);
        }
        r
    }
}

/// A todo subject with its done flag flipped.
pub open spec fn flip_done(v: TodoSubjectV) -> TodoSubjectV {
    TodoSubjectV { is_done: !v.is_done, ..v }
}

impl TodoSubject {
    /// A fresh todo subject: a random identity, the given name and
    /// creation instant, not deleted, not done.
    pub fn create(name: &str, now: u64) -> (r: Self)
        ensures
            r@.name == name@,
            r@.created_at == now,
            !r@.is_deleted,
            !r@.is_done,
    {
        TodoSubject {
            id: fresh_id(),
            name: name.to_owned(),
            created_at: now,
            is_deleted: false,
            is_done: false,
        }
    }

    /// Flips the done flag; nothing else ever writes it.
    pub fn toggle(&mut self)
        ensures
            final(self)@ == flip_done(old(self)@),
    {
        self.is_done = !self.is_done;
        proof {
            assert(self@ =~= flip_done(old(self)@));
        }
    }
}

/// The live data of an active session: where the time goes (by id), which
/// history record is open, and when the last tick happened.
#[derive(Clone, Copy, PartialEq, Eq, Structural, Debug)]
pub struct WorkingProgress {
    pub project_id: u64,
    pub sub_project_id: u64,
    pub subject_id: u64,
    pub session_id: u64,
    pub previous_tick: u64,
}

impl WorkingProgress {
    /// A session starting now against the given chain and open record.
    pub fn start(
        project_id: u64,
        sub_project_id: u64,
        subject_id: u64,
        session_id: u64,
        now: u64,
    ) -> (r: Self)
        ensures
            r == (WorkingProgress {
                project_id,
                sub_project_id,
                subject_id,
                session_id,
                previous_tick: now,
            }),
    {
        WorkingProgress { project_id, sub_project_id, subject_id, session_id, previous_tick: now }
    }
}

/// The session state machine: session data exists exactly while a session
/// is in progress.
#[derive(Clone, Copy, PartialEq, Eq, Structural, Debug)]
pub enum WorkingMode {
    Idle,
    InProgress(WorkingProgress),
}

/// The model of a three-level tree: a root container of containers of
/// containers of leaves.
pub type TreeV<V> = ContainerV<ContainerV<ContainerV<V>>>;

/// Well-formedness of a middle-level node and its children.
pub open spec fn mid_wf<V>(p: ContainerV<ContainerV<V>>) -> bool {
    &&& p.wf()
    &&& forall|j: int| 0 <= j < p.children.len() ==> (#[trigger] p.children[j]).1.wf()
}

/// Well-formedness of a whole tree: every node has unique child keys and
/// a live selection.
pub open spec fn tree_wf<V>(root: TreeV<V>) -> bool {
    &&& root.wf()
    &&& forall|i: int| 0 <= i < root.children.len() ==> mid_wf((#[trigger] root.children[i]).1)
}

/// The currently selected project, if any.
pub open spec fn chain_project<V>(root: TreeV<V>) -> Option<ContainerV<ContainerV<V>>> {
    root.current_child()
}

/// The currently selected sub-project under the selected project, if the
/// chain resolves that far.
pub open spec fn chain_sub<V>(root: TreeV<V>) -> Option<ContainerV<V>> {
    match chain_project(root) {
        Some(p) => p.current_child(),
        None => None,
    }
}

/// The currently selected leaf at the end of a fully resolved chain.
pub open spec fn chain_leaf<V>(root: TreeV<V>) -> Option<V> {
    match chain_sub(root) {
        Some(s) => s.current_child(),
        None => None,
    }
}

/// A container with the value of its current selection replaced.
pub open spec fn update_current<V>(c: ContainerV<V>, v: V) -> ContainerV<V>
    recommends
        c.current is Some,
{
    c.insert_model(c.current->Some_0, v)
}

/// A tree with the selected project's selected sub-project replaced.
pub open spec fn with_cur_sub<V>(root: TreeV<V>, s2: ContainerV<V>) -> TreeV<V>
    recommends
        chain_sub(root) is Some,
{
    update_current(root, update_current(chain_project(root)->Some_0, s2))
}

/// What a freshly created tree node looks like.
pub open spec fn fresh_node<V>(p: ContainerV<V>, name: Seq<char>, created: u64) -> bool {
    &&& p.name == name
    &&& p.created_at == created
    &&& !p.is_deleted
    &&& p.children == Seq::<(u64, V)>::empty()
    &&& p.current is None
}

/// What a freshly created subject looks like.
pub open spec fn fresh_subject(v: SubjectV, name: Seq<char>, created: u64) -> bool {
    &&& v.name == name
    &&& v.created_at == created
    &&& v.duration == 0
    &&& !v.is_deleted
}

/// What a freshly created todo subject looks like.
pub open spec fn fresh_todo(v: TodoSubjectV, name: Seq<char>, created: u64) -> bool {
    &&& v.name == name
    &&& v.created_at == created
    &&& !v.is_deleted
    &&& !v.is_done
}

/// Whether a toggle request addressed to the given key finds its target
/// below the current todo chain.
pub open spec fn toggles(root: TreeV<TodoSubjectV>, key: u64) -> bool {
    match chain_sub(root) {
        Some(s) => s.has_key(key),
        None => false,
    }
}

/// The todo tree after a toggle request: the done flag of the addressed
/// leaf flipped, everything else untouched.
pub open spec fn toggle_model(root: TreeV<TodoSubjectV>, key: u64) -> TreeV<TodoSubjectV> {
    match chain_sub(root) {
        Some(s) => if s.has_key(key) {
            with_cur_sub(root, s.insert_model(key, flip_done(s.lookup(key)->Some_0)))
        } else {
            root
        },
        None => root,
    }
}

/// The current selection of a well-formed container resolves.
pub proof fn lemma_current_resolves<V>(c: ContainerV<V>)
    requires
        c.wf(),
        c.current is Some,
    ensures
        c.current_child() is Some,
        c.current_child()->Some_0 == c.children[c.key_index(c.current->Some_0)].1,
        0 <= c.key_index(c.current->Some_0) < c.children.len(),
        c.children[c.key_index(c.current->Some_0)].0 == c.current->Some_0,
{
    let k = c.current->Some_0;
    assert(c.has_key(k));
    let i = choose|i: int| 0 <= i < c.keys().len() && c.keys()[i] == k;
    assert(c.children[i].0 == k);
    lemma_key_index(c, i, k);
}

/// The selected project of a well-formed tree is itself well-formed.
pub proof fn lemma_chain_project_wf<V>(root: TreeV<V>)
    requires
        tree_wf(root),
        chain_project(root) is Some,
    ensures
        mid_wf(chain_project(root)->Some_0),
{
    lemma_current_resolves(root);
}

/// The selected sub-project of a well-formed tree is itself well-formed.
pub proof fn lemma_chain_sub_wf<V>(root: TreeV<V>)
    requires
        tree_wf(root),
        chain_sub(root) is Some,
    ensures
        mid_wf(chain_project(root)->Some_0),
        (chain_sub(root)->Some_0).wf(),
{
    lemma_chain_project_wf(root);
    lemma_current_resolves(chain_project(root)->Some_0);
}

/// Replacing a child of a well-formed container under an existing or a
/// fresh key keeps the keys unique and the selection live.
pub proof fn lemma_wf_insert<V>(c: ContainerV<V>, k: u64, v: V)
    requires
        c.wf(),
    ensures
        c.insert_model(k, v).wf(),
        c.insert_model(k, v).current == c.current,
        c.insert_model(k, v).lookup(k) == Some(v),
        c.insert_model(k, v).has_key(k),
        forall|n: int| 0 <= n < c.children.len() ==> (#[trigger] c.insert_model(
            k,
            v,
        ).children[n]).0 == c.children[n].0,
{
    let c2 = c.insert_model(k, v);
    if c.has_key(k) {
        let i = choose|i: int| 0 <= i < c.keys().len() && c.keys()[i] == k;
        assert(c.children[i].0 == k);
        lemma_key_index(c, i, k);
        assert forall|a: int, b: int| 0 <= a < b < c2.children.len() implies (
        #[trigger] c2.children[a]).0 != (#[trigger] c2.children[b]).0 by {
            assert(c.children[a].0 != c.children[b].0);
        }
        lemma_key_index(c2, i, k);
    } else {
        assert forall|n: int| 0 <= n < c.children.len() implies (#[trigger] c.children[n]).0
            != k by {
            assert(c.keys()[n] == c.children[n].0);
            if c.children[n].0 == k {
                assert(c.keys().contains(k));
            }
        }
        assert forall|a: int, b: int| 0 <= a < b < c2.children.len() implies (
        #[trigger] c2.children[a]).0 != (#[trigger] c2.children[b]).0 by {
            if b < c2.children.len() - 1 {
                assert(c.children[a].0 != c.children[b].0);
            }
        }
        lemma_key_index(c2, c.children.len() as int, k);
    }
    match c2.current {
        Some(cu) => {
            let i = choose|i: int| 0 <= i < c.keys().len() && c.keys()[i] == cu;
            assert(c2.children[i].0 == cu);
            assert(c2.keys()[i] == cu);
        },
        None => {},
    }
}

/// Replacing a project of a well-formed tree with a well-formed project
/// keeps the whole tree well-formed.
pub proof fn lemma_tree_wf_insert<V>(root: TreeV<V>, k: u64, p2: ContainerV<ContainerV<V>>)
    requires
        tree_wf(root),
        mid_wf(p2),
    ensures
        tree_wf(root.insert_model(k, p2)),
{
    lemma_wf_insert(root, k, p2);
    let r2 = root.insert_model(k, p2);
    assert forall|i: int| 0 <= i < r2.children.len() implies mid_wf(
        (#[trigger] r2.children[i]).1,
    ) by {
        if root.has_key(k) && i == root.key_index(k) {
        } else if i < root.children.len() {
            assert(mid_wf(root.children[i].1));
        }
    }
}

/// Replacing a sub-project of a well-formed project with a well-formed
/// sub-project keeps the project well-formed.
pub proof fn lemma_mid_wf_insert<V>(p: ContainerV<ContainerV<V>>, k: u64, s2: ContainerV<V>)
    requires
        mid_wf(p),
        s2.wf(),
    ensures
        mid_wf(p.insert_model(k, s2)),
{
    lemma_wf_insert(p, k, s2);
    let p2 = p.insert_model(k, s2);
    assert forall|j: int| 0 <= j < p2.children.len() implies (
    #[trigger] p2.children[j]).1.wf() by {
        if p.has_key(k) && j == p.key_index(k) {
        } else if j < p.children.len() {
            assert(p.children[j].1.wf());
        }
    }
}

/// Selecting never breaks well-formedness: the children are untouched and
/// only a live key can become the selection.
pub proof fn lemma_wf_set_current<V>(c: ContainerV<V>, key: Option<u64>)
    requires
        c.wf(),
    ensures
        c.set_current_model(key).wf(),
        c.set_current_model(key).children == c.children,
{
}

/// A tree after a selection request addressed to the selected project.
pub open spec fn set_cur_sub_model<V>(root: TreeV<V>, key: Option<u64>) -> TreeV<V> {
    match chain_project(root) {
        Some(p) => update_current(root, p.set_current_model(key)),
        None => root,
    }
}

/// A tree after a selection request addressed to the selected
/// sub-project.
pub open spec fn set_cur_leaf_model<V>(root: TreeV<V>, key: Option<u64>) -> TreeV<V> {
    match chain_sub(root) {
        Some(s) => with_cur_sub(root, s.set_current_model(key)),
        None => root,
    }
}

/// The sub-project a (project id, sub-project id) pair resolves to.
pub open spec fn ids_resolve<V>(root: TreeV<V>, pid: u64, sid: u64) -> Option<ContainerV<V>> {
    match root.lookup(pid) {
        Some(p) => p.lookup(sid),
        None => None,
    }
}

/// A tree with a leaf stored under the given id path (meaningful when the
/// path resolves).
pub open spec fn put_at_ids<V>(root: TreeV<V>, pid: u64, sid: u64, key: u64, v: V) -> TreeV<V>
    recommends
        ids_resolve(root, pid, sid) is Some,
{
    let p = root.lookup(pid)->Some_0;
    let s = p.lookup(sid)->Some_0;
    root.insert_model(pid, p.insert_model(sid, s.insert_model(key, v)))
}

/// Selection request addressed to the selected project of a tree.
fn tree_set_cur_sub<T: SortKeyed>(root: &mut PContainer<PContainer<PContainer<T>>>, key: Option<
    u64,
>)
    requires
        tree_wf(old(root)@),
    ensures
        final(root)@ == set_cur_sub_model(old(root)@, key),
        tree_wf(final(root)@),
{
    let ghost pre = root@;
    match root.get_current_mut() {
        Some(pi) => {
            let ghost p_pre = pre.children[pi as int].1;
            proof {
                assert(mid_wf(p_pre));
            }
            root.inner[pi].1.set_current(key);
            proof {
                lemma_key_index(pre, pi as int, pre.current->Some_0);
                let p2 = p_pre.set_current_model(key);
                assert(root@.children =~= update_current(pre, p2).children);
                assert(root@ =~= update_current(pre, p2));
                lemma_wf_set_current(p_pre, key);
                assert(mid_wf(p2));
                lemma_tree_wf_insert(pre, pre.current->Some_0, p2);
            }
        },
        None => {
            proof {
                assert(root@ =~= set_cur_sub_model(pre, key));
            }
        },
    }
}

/// Selection request addressed to the selected sub-project of a tree.
fn tree_set_cur_leaf<T: SortKeyed>(root: &mut PContainer<PContainer<PContainer<T>>>, key: Option<
    u64,
>)
    requires
        tree_wf(old(root)@),
    ensures
        final(root)@ == set_cur_leaf_model(old(root)@, key),
        tree_wf(final(root)@),
{
    let ghost pre = root@;
    match root.get_current_mut() {
        Some(pi) => {
            let ghost p_pre = pre.children[pi as int].1;
            proof {
                assert(mid_wf(p_pre));
            }
            match root.inner[pi].1.get_current_mut() {
                Some(si) => {
                    let ghost s_pre = p_pre.children[si as int].1;
                    proof {
                        assert(s_pre.wf());
                    }
                    root.inner[pi].1.inner[si].1.set_current(key);
                    proof {
                        lemma_key_index(pre, pi as int, pre.current->Some_0);
                        lemma_key_index(p_pre, si as int, p_pre.current->Some_0);
                        let s2 = s_pre.set_current_model(key);
                        let p2 = update_current(p_pre, s2);
                        assert(root@.children[pi as int].1.children =~= p2.children);
                        assert(root@.children[pi as int].1 =~= p2);
                        assert(root@.children =~= update_current(pre, p2).children);
                        assert(root@ =~= update_current(pre, p2));
                        lemma_wf_set_current(s_pre, key);
                        lemma_mid_wf_insert(p_pre, p_pre.current->Some_0, s2);
                        lemma_tree_wf_insert(pre, pre.current->Some_0, p2);
                    }
                },
                None => {
                    proof {
                        assert(root@.children =~= pre.children);
                        assert(root@ =~= pre);
                        assert(root@ =~= set_cur_leaf_model(pre, key));
                    }
                },
            }
        },
        None => {
            proof {
                assert(root@ =~= set_cur_leaf_model(pre, key));
            }
        },
    }
}

/// Stores a fresh middle-level node under the selected project of a tree.
/// Returns whether a project was selected (and the node stored).
fn tree_add_sub<T: SortKeyed>(
    root: &mut PContainer<PContainer<PContainer<T>>>,
    child: PContainer<T>,
    key: u64,
) -> (r: bool)
    requires
        tree_wf(old(root)@),
        child@.wf(),
    ensures
        tree_wf(final(root)@),
        match chain_project(old(root)@) {
            Some(p) => r && final(root)@ == update_current(
                old(root)@,
                p.insert_model(key, child@),
            ),
            None => !r && final(root)@ == old(root)@,
        },
{
    let ghost pre = root@;
    let ghost cv = child@;
    match root.get_current_mut() {
        Some(pi) => {
            let ghost p_pre = pre.children[pi as int].1;
            proof {
                assert(mid_wf(p_pre));
            }
            root.inner[pi].1.insert_child(key, child);
            proof {
                lemma_key_index(pre, pi as int, pre.current->Some_0);
                let p2 = p_pre.insert_model(key, cv);
                assert(root@.children =~= update_current(pre, p2).children);
                assert(root@ =~= update_current(pre, p2));
                lemma_mid_wf_insert(p_pre, key, cv);
                lemma_tree_wf_insert(pre, pre.current->Some_0, p2);
            }
            true
        },
        None => {
            proof {
                assert(root@ =~= pre);
            }
            false
        },
    }
}

/// Stores a leaf under the selected sub-project of a tree. Returns
/// whether the chain resolved (and the leaf was stored).
fn tree_add_leaf<T: SortKeyed>(
    root: &mut PContainer<PContainer<PContainer<T>>>,
    key: u64,
    leaf: T,
) -> (r: bool)
    requires
        tree_wf(old(root)@),
    ensures
        tree_wf(final(root)@),
        match chain_sub(old(root)@) {
            Some(s) => r && final(root)@ == with_cur_sub(
                old(root)@,
                s.insert_model(key, leaf@),
            ),
            None => !r && final(root)@ == old(root)@,
        },
{
    let ghost pre = root@;
    let ghost lv = leaf@;
    match root.get_current_mut() {
        Some(pi) => {
            let ghost p_pre = pre.children[pi as int].1;
            proof {
                assert(mid_wf(p_pre));
            }
            match root.inner[pi].1.get_current_mut() {
                Some(si) => {
                    let ghost s_pre = p_pre.children[si as int].1;
                    proof {
                        assert(s_pre.wf());
                    }
                    root.inner[pi].1.inner[si].1.insert_child(key, leaf);
                    proof {
                        lemma_key_index(pre, pi as int, pre.current->Some_0);
                        lemma_key_index(p_pre, si as int, p_pre.current->Some_0);
                        let s2 = s_pre.insert_model(key, lv);
                        let p2 = update_current(p_pre, s2);
                        assert(root@.children[pi as int].1.children =~= p2.children);
                        assert(root@.children[pi as int].1 =~= p2);
                        assert(root@.children =~= update_current(pre, p2).children);
                        assert(root@ =~= update_current(pre, p2));
                        lemma_wf_insert(s_pre, key, lv);
                        lemma_mid_wf_insert(p_pre, p_pre.current->Some_0, s2);
                        lemma_tree_wf_insert(pre, pre.current->Some_0, p2);
                    }
                    true
                },
                None => {
                    proof {
                        assert(root@.children =~= pre.children);
                        assert(root@ =~= pre);
                    }
                    false
                },
            }
        },
        None => {
            proof {
                assert(root@ =~= pre);
            }
            false
        },
    }
}

/// Stores a leaf under an explicit (project id, sub-project id) path.
/// Returns whether the path resolved (and the leaf was stored).
fn tree_put_at_ids<T: SortKeyed>(
    root: &mut PContainer<PContainer<PContainer<T>>>,
    pid: u64,
    sid: u64,
    key: u64,
    leaf: T,
) -> (r: bool)
    requires
        tree_wf(old(root)@),
    ensures
        tree_wf(final(root)@),
        match ids_resolve(old(root)@, pid, sid) {
            Some(_s) => r && final(root)@ == put_at_ids(old(root)@, pid, sid, key, leaf@),
            None => !r && final(root)@ == old(root)@,
        },
{
    let ghost pre = root@;
    let ghost lv = leaf@;
    match root.get_child_mut(pid) {
        Some(pi) => {
            let ghost p_pre = pre.children[pi as int].1;
            proof {
                lemma_key_index(pre, pi as int, pid);
                assert(mid_wf(p_pre));
            }
            match root.inner[pi].1.get_child_mut(sid) {
                Some(si) => {
                    let ghost s_pre = p_pre.children[si as int].1;
                    proof {
                        lemma_key_index(p_pre, si as int, sid);
                        assert(s_pre.wf());
                    }
                    root.inner[pi].1.inner[si].1.insert_child(key, leaf);
                    proof {
                        let s2 = s_pre.insert_model(key, lv);
                        let p2 = p_pre.insert_model(sid, s2);
                        assert(root@.children[pi as int].1.children =~= p2.children);
                        assert(root@.children[pi as int].1 =~= p2);
                        assert(root@.children =~= pre.insert_model(pid, p2).children);
                        assert(root@ =~= pre.insert_model(pid, p2));
                        lemma_wf_insert(s_pre, key, lv);
                        lemma_mid_wf_insert(p_pre, sid, s2);
                        lemma_tree_wf_insert(pre, pid, p2);
                    }
                    true
                },
                None => {
                    proof {
                        assert(root@ =~= pre);
                    }
                    false
                },
            }
        },
        None => {
            proof {
                assert(root@ =~= pre);
            }
            false
        },
    }
}

/// The project stored under a key of a well-formed tree is well-formed.
pub proof fn lemma_lookup_mid_wf<V>(root: TreeV<V>, k: u64)
    requires
        tree_wf(root),
        root.lookup(k) is Some,
    ensures
        mid_wf(root.lookup(k)->Some_0),
{
    let i = choose|i: int| 0 <= i < root.keys().len() && root.keys()[i] == k;
    assert(root.children[i].0 == k);
    lemma_key_index(root, i, k);
}

/// The sub-project stored under a key of a well-formed project is
/// well-formed.
pub proof fn lemma_lookup_sub_wf<V>(p: ContainerV<ContainerV<V>>, k: u64)
    requires
        mid_wf(p),
        p.lookup(k) is Some,
    ensures
        (p.lookup(k)->Some_0).wf(),
{
    let i = choose|i: int| 0 <= i < p.keys().len() && p.keys()[i] == k;
    assert(p.children[i].0 == k);
    lemma_key_index(p, i, k);
}

/// The leaf a (project id, sub-project id, leaf id) path resolves to.
pub open spec fn leaf_at_ids<V>(root: TreeV<V>, pid: u64, sid: u64, key: u64) -> Option<V> {
    match ids_resolve(root, pid, sid) {
        Some(s) => s.lookup(key),
        None => None,
    }
}

/// A subject with elapsed time added to its accumulated duration.
pub open spec fn accrued(v: SubjectV, elapsed: u64) -> SubjectV {
    SubjectV { duration: sat_add_spec(v.duration, elapsed), ..v }
}

/// The work-item tree after a tick accrues elapsed time into the active
/// subject, addressed by the ids the session pinned at start; a path that
/// no longer resolves accrues nothing.
pub open spec fn accrue_model(
    root: TreeV<SubjectV>,
    pid: u64,
    sid: u64,
    key: u64,
    elapsed: u64,
) -> TreeV<SubjectV> {
    match leaf_at_ids(root, pid, sid, key) {
        Some(v) => put_at_ids(root, pid, sid, key, accrued(v, elapsed)),
        None => root,
    }
}

/// The saturating sum of the durations of a sub-project's subjects;
/// soft-deleted subjects are excluded from all aggregation.
pub open spec fn sum_leaf_durs(s: Seq<(u64, SubjectV)>) -> u64
    decreases s.len(),
{
    if s.len() == 0 {
        0
    } else if s.last().1.is_deleted {
        sum_leaf_durs(s.drop_last())
    } else {
        sat_add_spec(sum_leaf_durs(s.drop_last()), s.last().1.duration)
    }
}

/// The saturating sum of all live subject durations under a project's
/// sub-projects.
pub open spec fn sum_sub_times(s: Seq<(u64, ContainerV<SubjectV>)>) -> u64
    decreases s.len(),
{
    if s.len() == 0 {
        0
    } else {
        sat_add_spec(sum_sub_times(s.drop_last()), sum_leaf_durs(s.last().1.children))
    }
}

/// The total time accumulated under a project.
pub open spec fn project_time(p: ContainerV<ContainerV<SubjectV>>) -> u64 {
    sum_sub_times(p.children)
}

/// The id of the currently selected subject, if the chain resolves.
pub open spec fn leaf_id(root: TreeV<SubjectV>) -> Option<u64> {
    match chain_leaf(root) {
        Some(v) => Some(v.id),
        None => None,
    }
}

/// The session-clock rule on (re)start: switching subjects resets the
/// visible session clock, restarting the same subject keeps it.
pub open spec fn csd_after_start(csd: u64, last_subject: u64, subject: u64) -> u64 {
    if last_subject != subject {
        0
    } else {
        csd
    }
}

/// The session-clock rule on stop: a forced stop always resets; an
/// ordinary stop resets only if the selection moved off the last-worked
/// subject.
pub open spec fn csd_after_stop(
    csd: u64,
    last_subject: u64,
    force: bool,
    current: Option<u64>,
) -> u64 {
    if force {
        0
    } else {
        match current {
            Some(id) => if id != last_subject {
                0
            } else {
                csd
            },
            None => csd,
        }
    }
}

/// The session clock and tick anchor after one tick at the given
/// instant; what [`Backend::update_time`] ensures of an in-progress
/// session.
pub open spec fn session_tick(csd: u64, prev: u64, now: u64) -> (u64, u64) {
    (sat_add_spec(csd, elapsed_spec(now, prev)), now)
}

/// The session clock and tick anchor after a whole run of ticks,
/// earliest last-instant first.
pub open spec fn session_after_ticks(csd: u64, prev: u64, times: Seq<u64>) -> (u64, u64)
    decreases times.len(),
{
    if times.len() == 0 {
        (csd, prev)
    } else {
        let s = session_after_ticks(csd, prev, times.drop_last());
        session_tick(s.0, s.1, times.last())
    }
}

/// *Session continuity*: whatever the session clock accumulated over any
/// run of ticks, restarting the subject last worked on keeps it (ticks
/// never change which subject that is, see [`Backend::update_time`]);
/// starting a different subject resets it to zero.
pub proof fn lemma_session_continuity(csd: u64, prev: u64, times: Seq<u64>, a: u64, b: u64)
    ensures
        csd_after_start(session_after_ticks(csd, prev, times).0, a, a) == session_after_ticks(
            csd,
            prev,
            times,
        ).0,
        a != b ==> csd_after_start(session_after_ticks(csd, prev, times).0, a, b) == 0,
{
}

/// Elapsed wall-clock time between two instants; a clock that stepped
/// backwards yields nothing rather than failing.
pub open spec fn elapsed_spec(now: u64, before: u64) -> u64 {
    if now >= before {
        (now - before) as u64
    } else {
        0
    }
}

/// Whether pure time accrual has been unpersisted for longer than the
/// save threshold.
pub open spec fn save_due(now: u64, last_save: u64) -> bool {
    elapsed_spec(now, last_save) > SAVE_THRESHOLD_SECS
}

/// Whether a stored tree satisfies the whole-tree invariant; the entry
/// check when state loaded from disk is assembled into a backend.
pub fn check_tree_wf<T: SortKeyed>(root: &PContainer<PContainer<PContainer<T>>>) -> (r: bool)
    ensures
        r == tree_wf(root@),
{
    if !root.check_wf() {
        return false;
    }
    let mut i: usize = 0;
    while i < root.inner.len()
        invariant
            i <= root.inner@.len(),
            root@.wf(),
            forall|n: int| 0 <= n < i ==> mid_wf((#[trigger] root@.children[n]).1),
        decreases root.inner@.len() - i,
    {
        let p = &root.inner[i].1;
        proof {
            assert(p@ == root@.children[i as int].1);
        }
        if !p.check_wf() {
            proof {
                assert(!mid_wf(root@.children[i as int].1));
            }
            return false;
        }
        let mut j: usize = 0;
        while j < p.inner.len()
            invariant
                j <= p.inner@.len(),
                i < root.inner@.len(),
                p@ == root@.children[i as int].1,
                forall|m: int| 0 <= m < j ==> (#[trigger] p@.children[m]).1.wf(),
            decreases p.inner@.len() - j,
        {
            if !p.inner[j].1.check_wf() {
                proof {
                    assert(!(p@.children[j as int]).1.wf());
                    assert(!mid_wf(root@.children[i as int].1));
                }
                return false;
            }
            j += 1;
        }
        proof {
            assert(mid_wf(root@.children[i as int].1));
        }
        i += 1;
    }
    true
}

/// *Idempotent toggle*: toggling the same todo key twice restores the
/// tree exactly; in particular the addressed leaf's done flag reads as it
/// did before.
pub proof fn lemma_toggle_idempotent(root: TreeV<TodoSubjectV>, key: u64)
    requires
        tree_wf(root),
    ensures
        toggle_model(toggle_model(root, key), key) == root,
{
    if toggles(root, key) {
        lemma_chain_sub_wf(root);
        lemma_current_resolves(root);
        let p = chain_project(root)->Some_0;
        lemma_current_resolves(p);
        let s = chain_sub(root)->Some_0;
        let v = s.lookup(key)->Some_0;
        let ki = s.key_index(key);
        assert(s.children[ki].0 == key && s.children[ki].1 == v);
        let pk = root.current->Some_0;
        let sk = p.current->Some_0;
        let s1 = s.insert_model(key, flip_done(v));
        let p1 = update_current(p, s1);
        let t1 = update_current(root, p1);
        assert(toggle_model(root, key) == t1);
        lemma_wf_insert(s, key, flip_done(v));
        lemma_wf_insert(p, sk, s1);
        lemma_wf_insert(root, pk, p1);
        assert(chain_project(t1) == Some(p1));
        assert(chain_sub(t1) == Some(s1));
        assert(s1.lookup(key) == Some(flip_done(v)));
        assert(toggles(t1, key));
        assert(flip_done(flip_done(v)) == v);
        let s2 = s1.insert_model(key, v);
        assert(s2.children =~= s.children) by {
            lemma_key_index(s1, ki, key);
        }
        assert(s2 =~= s);
        let p2 = update_current(p1, s2);
        assert(p2.children =~= p.children) by {
            let pi = p.key_index(sk);
            assert(p.children[pi].0 == sk);
            lemma_key_index(p1, pi, sk);
            assert(p2.children =~= p.children.update(pi, (sk, s2)));
            assert(p.children[pi] == (sk, s));
        }
        assert(p2 =~= p);
        let t2 = update_current(t1, p2);
        assert(toggle_model(t1, key) == t2);
        assert(t2.children =~= root.children) by {
            let ri = root.key_index(pk);
            assert(root.children[ri].0 == pk);
            lemma_key_index(t1, ri, pk);
            assert(t2.children =~= root.children.update(ri, (pk, p2)));
            assert(root.children[ri] == (pk, p));
        }
        assert(t2 =~= root);
    }
}

/// The backend root state: the persisted aggregate plus the ephemeral
/// session state machine and dirty flag.
pub struct Backend {
    pub projects: PContainer<PContainer<PContainer<Subject>>>,
    pub todos: PContainer<PContainer<PContainer<TodoSubject>>>,
    pub working_mode: WorkingMode,
    pub dirty: bool,
    pub current_session_duration: u64,
    pub last_session_subject_id: u64,
    pub last_save: u64,
    pub history: History,
}

impl Backend {
    /// Both trees and the ledger satisfy their invariants.
    pub open spec fn wf(&self) -> bool {
        &&& tree_wf(self.projects@)
        &&& tree_wf(self.todos@)
        &&& self.history.wf()
    }

    /// A fresh default state: empty root containers, an idle session, a
    /// clean slate saved at the given instant, and a random last-subject
    /// id (so the first real subject started counts as a switch with
    /// overwhelming probability; the contract leaves the id open).
    pub fn fresh(now: u64) -> (r: Backend)
        ensures
            r.wf(),
            fresh_node(r.projects@, "root"@, now),
            fresh_node(r.todos@, "root"@, now),
            r.working_mode == WorkingMode::Idle,
            !r.dirty,
            r.current_session_duration == 0,
            r.last_save == now,
            r.history.records@ == Seq::<HistoryRecord>::empty(),
    {
        Backend {
            projects: PContainer::new("root", now),
            todos: PContainer::new("root", now),
            working_mode: WorkingMode::Idle,
            dirty: false,
            current_session_duration: 0,
            last_session_subject_id: fresh_id(),
            last_save: now,
            history: History::new(),
        }
    }

    /// Rebuilds a backend from loaded parts: both trees, the session
    /// bookkeeping and the ledger. Parts that violate an invariant
    /// (duplicate keys, a dangling selection, a backwards interval) are
    /// rejected as a whole, so a caller falls back to [`Backend::fresh`]
    /// exactly as for an unreadable file. The session starts idle and
    /// clean.
    pub fn assemble(
        projects: PContainer<PContainer<PContainer<Subject>>>,
        todos: PContainer<PContainer<PContainer<TodoSubject>>>,
        current_session_duration: u64,
        last_session_subject_id: u64,
        last_save: u64,
        history: History,
    ) -> (r: Option<Backend>)
        ensures
            r is Some <==> tree_wf(projects@) && tree_wf(todos@) && history.wf(),
            match r {
                Some(b) => {
                    &&& b.wf()
                    &&& b.projects == projects
                    &&& b.todos == todos
                    &&& b.working_mode == WorkingMode::Idle
                    &&& !b.dirty
                    &&& b.current_session_duration == current_session_duration
                    &&& b.last_session_subject_id == last_session_subject_id
                    &&& b.last_save == last_save
                    &&& b.history == history
                },
                None => true,
            },
    {
        if !check_tree_wf(&projects) {
            return None;
        }
        if !check_tree_wf(&todos) {
            return None;
        }
        if !history.check_wf() {
            return None;
        }
        Some(
            Backend {
                projects,
                todos,
                working_mode: WorkingMode::Idle,
                dirty: false,
                current_session_duration,
                last_session_subject_id,
                last_save,
                history,
            },
        )
    }

    /// Marks the in-memory state as diverged from the persisted file; the
    /// next tick will ask for a flush. Also the retry hook for a caller
    /// whose write failed.
    pub fn dirty(&mut self)
        ensures
            *final(self) == (Backend { dirty: true, ..*old(self) }),
    {
        self.dirty = true;
    }

    /// The currently selected project, if any.
    pub fn get_current_project(&self) -> (r: Option<&PContainer<PContainer<Subject>>>)
        requires
            self.wf(),
        ensures
            match r {
                Some(p) => chain_project(self.projects@) == Some(p@),
                None => chain_project(self.projects@) is None,
            },
    {
        self.projects.get_current()
    }

    /// The currently selected sub-project, if the chain resolves that far.
    pub fn get_current_sub_project(&self) -> (r: Option<&PContainer<Subject>>)
        requires
            self.wf(),
        ensures
            match r {
                Some(s) => chain_sub(self.projects@) == Some(s@),
                None => chain_sub(self.projects@) is None,
            },
    {
        match self.projects.get_current() {
            Some(p) => {
                proof {
                    lemma_chain_project_wf(self.projects@);
                }
                p.get_current()
            },
            None => None,
        }
    }

    /// The currently selected subject, if the whole chain resolves.
    pub fn get_current_subject(&self) -> (r: Option<&Subject>)
        requires
            self.wf(),
        ensures
            match r {
                Some(s) => chain_leaf(self.projects@) == Some(s@),
                None => chain_leaf(self.projects@) is None,
            },
    {
        match self.projects.get_current() {
            Some(p) => {
                proof {
                    lemma_chain_project_wf(self.projects@);
                }
                match p.get_current() {
                    Some(s) => {
                        proof {
                            lemma_chain_sub_wf(self.projects@);
                        }
                        s.get_current()
                    },
                    None => None,
                }
            },
            None => None,
        }
    }

    /// The currently selected todo project, if any.
    pub fn get_current_todo_project(&self) -> (r: Option<&PContainer<PContainer<TodoSubject>>>)
        requires
            self.wf(),
        ensures
            match r {
                Some(p) => chain_project(self.todos@) == Some(p@),
                None => chain_project(self.todos@) is None,
            },
    {
        self.todos.get_current()
    }

    /// The currently selected todo sub-project, if the chain resolves.
    pub fn get_current_todo_sub_project(&self) -> (r: Option<&PContainer<TodoSubject>>)
        requires
            self.wf(),
        ensures
            match r {
                Some(s) => chain_sub(self.todos@) == Some(s@),
                None => chain_sub(self.todos@) is None,
            },
    {
        match self.todos.get_current() {
            Some(p) => {
                proof {
                    lemma_chain_project_wf(self.todos@);
                }
                p.get_current()
            },
            None => None,
        }
    }

    /// The currently selected todo subject, if the whole chain resolves.
    pub fn get_current_todo_subject(&self) -> (r: Option<&TodoSubject>)
        requires
            self.wf(),
        ensures
            match r {
                Some(s) => chain_leaf(self.todos@) == Some(s@),
                None => chain_leaf(self.todos@) is None,
            },
    {
        match self.todos.get_current() {
            Some(p) => {
                proof {
                    lemma_chain_project_wf(self.todos@);
                }
                match p.get_current() {
                    Some(s) => {
                        proof {
                            lemma_chain_sub_wf(self.todos@);
                        }
                        s.get_current()
                    },
                    None => None,
                }
            },
            None => None,
        }
    }

    /// Selects a project (or clears the selection); an unknown key is a
    /// no-op.
    pub fn set_current_project(&mut self, project_key: Option<u64>)
        requires
            old(self).wf(),
        ensures
            final(self).projects@ == old(self).projects@.set_current_model(project_key),
            *final(self) == (Backend { projects: final(self).projects, ..*old(self) }),
            final(self).wf(),
    {
        let ghost pre = self.projects@;
        self.projects.set_current(project_key);
        proof {
            lemma_wf_set_current(pre, project_key);
        }
    }

    /// Selects a sub-project under the current project; without a current
    /// project, or with an unknown key, this is a no-op.
    pub fn set_current_sub_project(&mut self, sub_project_key: Option<u64>)
        requires
            old(self).wf(),
        ensures
            final(self).projects@ == set_cur_sub_model(old(self).projects@, sub_project_key),
            *final(self) == (Backend { projects: final(self).projects, ..*old(self) }),
            final(self).wf(),
    {
        tree_set_cur_sub(&mut self.projects, sub_project_key);
    }

    /// Selects a subject under the current sub-project; an unresolved
    /// chain or an unknown key is a no-op.
    pub fn set_current_subject(&mut self, subject_key: Option<u64>)
        requires
            old(self).wf(),
        ensures
            final(self).projects@ == set_cur_leaf_model(old(self).projects@, subject_key),
            *final(self) == (Backend { projects: final(self).projects, ..*old(self) }),
            final(self).wf(),
    {
        tree_set_cur_leaf(&mut self.projects, subject_key);
    }

    /// Selects a todo sub-project under the current todo project; without
    /// one, or with an unknown key, this is a no-op.
    pub fn set_current_todo_sub_project(&mut self, sub_project_key: Option<u64>)
        requires
            old(self).wf(),
        ensures
            final(self).todos@ == set_cur_sub_model(old(self).todos@, sub_project_key),
            *final(self) == (Backend { todos: final(self).todos, ..*old(self) }),
            final(self).wf(),
    {
        tree_set_cur_sub(&mut self.todos, sub_project_key);
    }

    /// Adds a project under the tree root and marks the state dirty.
    pub fn add_project(&mut self, name: &str, now: u64)
        requires
            old(self).wf(),
        ensures
            exists|p: ContainerV<ContainerV<SubjectV>>|
                #[trigger] fresh_node(p, name@, now) && final(self).projects@ == old(
                    self,
                ).projects@.insert_model(p.id, p),
            *final(self) == (Backend {
                projects: final(self).projects,
                dirty: true,
                ..*old(self)
            }),
            final(self).wf(),
    {
        let ghost pre = self.projects@;
        let project: PContainer<PContainer<Subject>> = PContainer::new(name, now);
        let ghost pv = project@;
        let key = project.id;
        self.projects.insert_child(key, project);
        self.dirty = true;
        proof {
            assert(fresh_node(pv, name@, now));
            assert(mid_wf(pv));
            lemma_tree_wf_insert(pre, key, pv);
        }
    }

    /// Adds a sub-project under the current project and marks the state
    /// dirty; without a current project this is a no-op.
    pub fn add_sub_project(&mut self, name: &str, now: u64)
        requires
            old(self).wf(),
        ensures
            match chain_project(old(self).projects@) {
                Some(p) => {
                    &&& exists|s: ContainerV<SubjectV>|
                        #[trigger] fresh_node(s, name@, now) && final(self).projects@
                            == update_current(old(self).projects@, p.insert_model(s.id, s))
                    &&& final(self).dirty
                },
                None => {
                    &&& final(self).projects@ == old(self).projects@
                    &&& final(self).dirty == old(self).dirty
                },
            },
            *final(self) == (Backend {
                projects: final(self).projects,
                dirty: final(self).dirty,
                ..*old(self)
            }),
            final(self).wf(),
    {
        let sub: PContainer<Subject> = PContainer::new(name, now);
        let ghost sv = sub@;
        let key = sub.id;
        let added = tree_add_sub(&mut self.projects, sub, key);
        if added {
            self.dirty = true;
        }
        proof {
            if chain_project(old(self).projects@) is Some {
                assert(fresh_node(sv, name@, now));
            }
        }
    }

    /// Adds a subject under the current sub-project and marks the state
    /// dirty; an unresolved chain is a no-op.
    pub fn add_subject(&mut self, name: &str, now: u64)
        requires
            old(self).wf(),
        ensures
            match chain_sub(old(self).projects@) {
                Some(s) => {
                    &&& exists|v: SubjectV|
                        #[trigger] fresh_subject(v, name@, now) && final(self).projects@
                            == with_cur_sub(old(self).projects@, s.insert_model(v.id, v))
                    &&& final(self).dirty
                },
                None => {
                    &&& final(self).projects@ == old(self).projects@
                    &&& final(self).dirty == old(self).dirty
                },
            },
            *final(self) == (Backend {
                projects: final(self).projects,
                dirty: final(self).dirty,
                ..*old(self)
            }),
            final(self).wf(),
    {
        let subject = Subject::create(name, now);
        let ghost sv = subject@;
        let key = subject.id;
        let added = tree_add_leaf(&mut self.projects, key, subject);
        if added {
            self.dirty = true;
        }
        proof {
            if chain_sub(old(self).projects@) is Some {
                assert(fresh_subject(sv, name@, now));
            }
        }
    }

    /// Adds a todo project under the todo tree root and marks the state
    /// dirty.
    pub fn add_todo_project(&mut self, name: &str, now: u64)
        requires
            old(self).wf(),
        ensures
            exists|p: ContainerV<ContainerV<TodoSubjectV>>|
                #[trigger] fresh_node(p, name@, now) && final(self).todos@ == old(
                    self,
                ).todos@.insert_model(p.id, p),
            *final(self) == (Backend { todos: final(self).todos, dirty: true, ..*old(self) }),
            final(self).wf(),
    {
        let ghost pre = self.todos@;
        let project: PContainer<PContainer<TodoSubject>> = PContainer::new(name, now);
        let ghost pv = project@;
        let key = project.id;
        self.todos.insert_child(key, project);
        self.dirty = true;
        proof {
            assert(fresh_node(pv, name@, now));
            assert(mid_wf(pv));
            lemma_tree_wf_insert(pre, key, pv);
        }
    }

    /// Adds a todo sub-project under the current todo project and marks
    /// the state dirty; without a current todo project this is a no-op.
    pub fn add_todo_sub_project(&mut self, name: &str, now: u64)
        requires
            old(self).wf(),
        ensures
            match chain_project(old(self).todos@) {
                Some(p) => {
                    &&& exists|s: ContainerV<TodoSubjectV>|
                        #[trigger] fresh_node(s, name@, now) && final(self).todos@
                            == update_current(old(self).todos@, p.insert_model(s.id, s))
                    &&& final(self).dirty
                },
                None => {
                    &&& final(self).todos@ == old(self).todos@
                    &&& final(self).dirty == old(self).dirty
                },
            },
            *final(self) == (Backend {
                todos: final(self).todos,
                dirty: final(self).dirty,
                ..*old(self)
            }),
            final(self).wf(),
    {
        let sub: PContainer<TodoSubject> = PContainer::new(name, now);
        let ghost sv = sub@;
        let key = sub.id;
        let added = tree_add_sub(&mut self.todos, sub, key);
        if added {
            self.dirty = true;
        }
        proof {
            if chain_project(old(self).todos@) is Some {
                assert(fresh_node(sv, name@, now));
            }
        }
    }

    /// Adds a todo subject under the current todo sub-project and marks
    /// the state dirty; an unresolved chain is a no-op.
    pub fn add_todo_subject(&mut self, name: &str, now: u64)
        requires
            old(self).wf(),
        ensures
            match chain_sub(old(self).todos@) {
                Some(s) => {
                    &&& exists|v: TodoSubjectV|
                        #[trigger] fresh_todo(v, name@, now) && final(self).todos@
                            == with_cur_sub(old(self).todos@, s.insert_model(v.id, v))
                    &&& final(self).dirty
                },
                None => {
                    &&& final(self).todos@ == old(self).todos@
                    &&& final(self).dirty == old(self).dirty
                },
            },
            *final(self) == (Backend {
                todos: final(self).todos,
                dirty: final(self).dirty,
                ..*old(self)
            }),
            final(self).wf(),
    {
        let subject = TodoSubject::create(name, now);
        let ghost sv = subject@;
        let key = subject.id;
        let added = tree_add_leaf(&mut self.todos, key, subject);
        if added {
            self.dirty = true;
        }
        proof {
            if chain_sub(old(self).todos@) is Some {
                assert(fresh_todo(sv, name@, now));
            }
        }
    }

    /// Flips the done flag of the todo subject stored under the given key
    /// below the current todo chain, and marks the state dirty; an
    /// unresolved chain or an unknown key is a no-op.
    pub fn toggle_todo(&mut self, key: u64)
        requires
            old(self).wf(),
        ensures
            final(self).todos@ == toggle_model(old(self).todos@, key),
            final(self).dirty == (old(self).dirty || toggles(old(self).todos@, key)),
            *final(self) == (Backend {
                todos: final(self).todos,
                dirty: final(self).dirty,
                ..*old(self)
            }),
            final(self).wf(),
    {
        let ghost pre = self.todos@;
        let found: Option<TodoSubject> = match self.get_current_todo_sub_project() {
            Some(sub) => {
                proof {
                    lemma_chain_sub_wf(pre);
                }
                match sub.get_child(key) {
                    Some(t) => Some(t.duplicate()),
                    None => None,
                }
            },
            None => None,
        };
        match found {
            Some(mut t2) => {
                t2.toggle();
                let put = tree_add_leaf(&mut self.todos, key, t2);
                self.dirty = true;
                proof {
                    assert(put);
                    assert(self.todos@ =~= toggle_model(pre, key));
                }
            },
            None => {
                proof {
                    assert(self.todos@ =~= toggle_model(pre, key));
                }
            },
        }
    }

    /// Starts a session against the currently selected subject. With an
    /// unresolved chain this is a silent no-op. Starting a different
    /// subject than the last one worked on resets the session clock;
    /// restarting the same subject keeps it. A new history record is
    /// opened either way.
    pub fn start_subject(&mut self, now: u64)
        requires
            old(self).wf(),
        ensures
            final(self).wf(),
            match chain_leaf(old(self).projects@) {
                Some(subj) => {
                    &&& final(self).last_session_subject_id == subj.id
                    &&& final(self).current_session_duration == csd_after_start(
                        old(self).current_session_duration,
                        old(self).last_session_subject_id,
                        subj.id,
                    )
                    &&& exists|rid: u64|
                        {
                            &&& final(self).history.records@ == #[trigger] put_record(
                                old(self).history.records@,
                                (HistoryRecord {
                                    id: rid,
                                    start_date: now,
                                    end_date: now,
                                    project_id: chain_project(old(self).projects@)->Some_0.id,
                                    sub_project_id: chain_sub(old(self).projects@)->Some_0.id,
                                    subject_id: subj.id,
                                }),
                            )
                            &&& final(self).working_mode == WorkingMode::InProgress(
                                (WorkingProgress {
                                    project_id: chain_project(old(self).projects@)->Some_0.id,
                                    sub_project_id: chain_sub(old(self).projects@)->Some_0.id,
                                    subject_id: subj.id,
                                    session_id: rid,
                                    previous_tick: now,
                                }),
                            )
                        }
                    &&& final(self).projects == old(self).projects
                    &&& final(self).todos == old(self).todos
                    &&& final(self).dirty == old(self).dirty
                    &&& final(self).last_save == old(self).last_save
                },
                None => *final(self) == *old(self),
            },
    {
        let ids: Option<(u64, u64, u64)> = match self.projects.get_current() {
            Some(p) => {
                proof {
                    lemma_chain_project_wf(self.projects@);
                }
                let pid = p.id;
                match p.get_current() {
                    Some(s) => {
                        proof {
                            lemma_chain_sub_wf(self.projects@);
                        }
                        let sid = s.id;
                        match s.get_current() {
                            Some(subj) => Some((pid, sid, subj.id)),
                            None => None,
                        }
                    },
                    None => None,
                }
            },
            None => None,
        };
        match ids {
            Some((pid, sid, subj_id)) => {
                if self.last_session_subject_id != subj_id {
                    self.current_session_duration = 0;
                }
                self.last_session_subject_id = subj_id;
                let rid = self.history.add_record(pid, sid, subj_id, now);
                self.working_mode = WorkingMode::InProgress(
                    WorkingProgress::start(pid, sid, subj_id, rid, now),
                );
                proof {
                    assert(pid == chain_project(old(self).projects@)->Some_0.id);
                    assert(sid == chain_sub(old(self).projects@)->Some_0.id);
                    assert(subj_id == chain_leaf(old(self).projects@)->Some_0.id);
                    assert(self.history.records@ == put_record(
                        old(self).history.records@,
                        (HistoryRecord {
                            id: rid,
                            start_date: now,
                            end_date: now,
                            project_id: chain_project(old(self).projects@)->Some_0.id,
                            sub_project_id: chain_sub(old(self).projects@)->Some_0.id,
                            subject_id: chain_leaf(old(self).projects@)->Some_0.id,
                        }),
                    ));
                }
            },
            None => {},
        }
    }

    /// Stops any session. A forced stop always resets the session clock;
    /// an ordinary stop resets it only if the selection moved off the
    /// subject last worked on.
    pub fn stop_subject(&mut self, force: bool)
        requires
            old(self).wf(),
        ensures
            final(self).working_mode == WorkingMode::Idle,
            final(self).current_session_duration == csd_after_stop(
                old(self).current_session_duration,
                old(self).last_session_subject_id,
                force,
                leaf_id(old(self).projects@),
            ),
            *final(self) == (Backend {
                working_mode: WorkingMode::Idle,
                current_session_duration: final(self).current_session_duration,
                ..*old(self)
            }),
            final(self).wf(),
    {
        self.working_mode = WorkingMode::Idle;
        if force {
            self.current_session_duration = 0;
        } else {
            let sid: Option<u64> = match self.get_current_subject() {
                Some(s) => Some(s.id),
                None => None,
            };
            match sid {
                Some(id) => {
                    if self.last_session_subject_id != id {
                        self.current_session_duration = 0;
                    }
                },
                None => {},
            }
        }
    }

    /// The per-frame tick. While a session is in progress, the elapsed
    /// time since the previous tick is added to the session clock and the
    /// active subject, and the open history record is extended to now.
    /// Returns whether the caller must persist the state now: always after
    /// a structural edit (the dirty flag), and on the slower
    /// [`SAVE_THRESHOLD_SECS`] cadence for pure time accrual; the flag is
    /// cleared on the expectation that the caller does so (a caller whose
    /// write fails calls [`Backend::dirty`] to retry on the next tick).
    pub fn update_time(&mut self, now: u64) -> (flush: bool)
        requires
            old(self).wf(),
        ensures
            final(self).wf(),
            final(self).todos == old(self).todos,
            final(self).last_session_subject_id == old(self).last_session_subject_id,
            !final(self).dirty,
            final(self).last_save == if flush {
                now
            } else {
                old(self).last_save
            },
            match old(self).working_mode {
                WorkingMode::Idle => {
                    &&& flush == old(self).dirty
                    &&& final(self).working_mode == WorkingMode::Idle
                    &&& final(self).current_session_duration == old(
                        self,
                    ).current_session_duration
                    &&& final(self).projects == old(self).projects
                    &&& final(self).history.records@ == old(self).history.records@
                },
                WorkingMode::InProgress(p) => {
                    &&& flush == (old(self).dirty || save_due(now, old(self).last_save))
                    &&& final(self).working_mode == WorkingMode::InProgress(
                        (WorkingProgress { previous_tick: now, ..p }),
                    )
                    &&& final(self).current_session_duration == sat_add_spec(
                        old(self).current_session_duration,
                        elapsed_spec(now, p.previous_tick),
                    )
                    &&& (final(self).current_session_duration, now) == session_tick(
                        old(self).current_session_duration,
                        p.previous_tick,
                        now,
                    )
                    &&& final(self).projects@ == accrue_model(
                        old(self).projects@,
                        p.project_id,
                        p.sub_project_id,
                        p.subject_id,
                        elapsed_spec(now, p.previous_tick),
                    )
                    &&& final(self).history.records@ == touch_model(
                        old(self).history.records@,
                        p.session_id,
                        now,
                    )
                },
            },
    {
        let mode = self.working_mode;
        let mut flush = false;
        match mode {
            WorkingMode::InProgress(progress) => {
                let elapsed = if now >= progress.previous_tick {
                    now - progress.previous_tick
                } else {
                    0
                };
                self.working_mode = WorkingMode::InProgress(
                    WorkingProgress { previous_tick: now, ..progress },
                );
                self.current_session_duration = sat_add(self.current_session_duration, elapsed);
                let ghost pre_tree = self.projects@;
                let leaf: Option<Subject> = match self.projects.get_child(progress.project_id) {
                    Some(p) => {
                        proof {
                            lemma_lookup_mid_wf(self.projects@, progress.project_id);
                        }
                        match p.get_child(progress.sub_project_id) {
                            Some(s) => {
                                proof {
                                    lemma_lookup_sub_wf(p@, progress.sub_project_id);
                                }
                                match s.get_child(progress.subject_id) {
                                    Some(t) => Some(t.duplicate()),
                                    None => None,
                                }
                            },
                            None => None,
                        }
                    },
                    None => None,
                };
                match leaf {
                    Some(mut t2) => {
                        t2.accrue(elapsed);
                        let put = tree_put_at_ids(
                            &mut self.projects,
                            progress.project_id,
                            progress.sub_project_id,
                            progress.subject_id,
                            t2,
                        );
                        proof {
                            assert(put);
                            assert(self.projects@ == accrue_model(
                                pre_tree,
                                progress.project_id,
                                progress.sub_project_id,
                                progress.subject_id,
                                elapsed,
                            ));
                        }
                    },
                    None => {
                        proof {
                            assert(self.projects@ == accrue_model(
                                pre_tree,
                                progress.project_id,
                                progress.sub_project_id,
                                progress.subject_id,
                                elapsed,
                            ));
                        }
                    },
                }
                self.history.update(progress.session_id, now);
                if self.dirty {
                    flush = true;
                } else {
                    let since_save = if now >= self.last_save {
                        now - self.last_save
                    } else {
                        0
                    };
                    if since_save > SAVE_THRESHOLD_SECS {
                        flush = true;
                    }
                }
            },
            WorkingMode::Idle => {
                if self.dirty {
                    flush = true;
                }
            },
        }
        if flush {
            self.last_save = now;
            self.dirty = false;
        }
        flush
    }

    /// The total time accumulated under the project stored at the given
    /// key: the saturating sum of every live subject duration below it,
    /// soft-deleted subjects excluded from the aggregation. Nothing for
    /// an unknown key.
    pub fn get_project_time(&self, key: u64) -> (r: Option<u64>)
        requires
            self.wf(),
        ensures
            r == match self.projects@.lookup(key) {
                Some(p) => Some(project_time(p)),
                None => None::<u64>,
            },
    {
        match self.projects.get_child(key) {
            Some(p) => {
                let ghost pv = self.projects@.lookup(key)->Some_0;
                let mut total: u64 = 0;
                let mut i: usize = 0;
                proof {
                    assert(pv.children.take(0) =~= Seq::<
                        (u64, ContainerV<SubjectV>),
                    >::empty());
                }
                while i < p.inner.len()
                    invariant
                        i <= p.inner@.len(),
                        p@ == pv,
                        total == sum_sub_times(pv.children.take(i as int)),
                    decreases p.inner@.len() - i,
                {
                    let sub = &p.inner[i].1;
                    let mut st: u64 = 0;
                    let mut j: usize = 0;
                    proof {
                        assert(sub@.children.take(0) =~= Seq::<(u64, SubjectV)>::empty());
                    }
                    while j < sub.inner.len()
                        invariant
                            j <= sub.inner@.len(),
                            st == sum_leaf_durs(sub@.children.take(j as int)),
                        decreases sub.inner@.len() - j,
                    {
                        if !sub.inner[j].1.is_deleted {
                            st = sat_add(st, sub.inner[j].1.duration);
                        }
                        proof {
                            assert(sub@.children.take(j + 1).drop_last() =~= sub@.children.take(
                                j as int,
                            ));
                        }
                        j += 1;
                    }
                    proof {
                        assert(sub@.children.take(sub@.children.len() as int) =~= sub@.children);
                    }
                    total = sat_add(total, st);
                    proof {
                        assert(pv.children.take(i + 1).drop_last() =~= pv.children.take(i as int));
                        assert(pv.children.take(i + 1).last() == pv.children[i as int]);
                    }
                    i += 1;
                }
                proof {
                    assert(pv.children.take(pv.children.len() as int) =~= pv.children);
                }
                Some(total)
            },
            None => None,
        }
    }

    /// The total time accumulated under the sub-project stored at the
    /// given key of the current project, soft-deleted subjects excluded
    /// from the aggregation. Nothing without a current project or for an
    /// unknown key.
    pub fn get_sub_project_time(&self, key: u64) -> (r: Option<u64>)
        requires
            self.wf(),
        ensures
            r == match chain_project(self.projects@) {
                Some(p) => match p.lookup(key) {
                    Some(s) => Some(sum_leaf_durs(s.children)),
                    None => None::<u64>,
                },
                None => None::<u64>,
            },
    {
        match self.projects.get_current() {
            Some(p) => {
                proof {
                    lemma_chain_project_wf(self.projects@);
                }
                match p.get_child(key) {
                    Some(sub) => {
                        let ghost sv = p@.lookup(key)->Some_0;
                        let mut st: u64 = 0;
                        let mut j: usize = 0;
                        proof {
                            assert(sv.children.take(0) =~= Seq::<(u64, SubjectV)>::empty());
                        }
                        while j < sub.inner.len()
                            invariant
                                j <= sub.inner@.len(),
                                sub@ == sv,
                                st == sum_leaf_durs(sv.children.take(j as int)),
                            decreases sub.inner@.len() - j,
                        {
                            if !sub.inner[j].1.is_deleted {
                                st = sat_add(st, sub.inner[j].1.duration);
                            }
                            proof {
                                assert(sv.children.take(j + 1).drop_last() =~= sv.children.take(
                                    j as int,
                                ));
                            }
                            j += 1;
                        }
                        proof {
                            assert(sv.children.take(sv.children.len() as int) =~= sv.children);
                        }
                        Some(st)
                    },
                    None => None,
                }
            },
            None => None,
        }
    }

    /// The fully resolved current chain as ` Project/SubProject/Subject`
    /// text, or `None` when any link is unresolved.
    pub fn get_current_work_name(&self) -> (r: String)
        requires
            self.wf(),
        ensures
            match chain_leaf(self.projects@) {
                Some(subj) => r@ == seq![' '] + chain_project(self.projects@)->Some_0.name + seq![
                    '/',
                ] + chain_sub(self.projects@)->Some_0.name + seq!['/'] + subj.name,
                None => r@ == "None"@,
            },
    {
        match self.projects.get_current() {
            Some(p) => {
                proof {
                    lemma_chain_project_wf(self.projects@);
                }
                match p.get_current() {
                    Some(s) => {
                        proof {
                            lemma_chain_sub_wf(self.projects@);
                        }
                        match s.get_current() {
                            Some(subj) => {
                                proof {
                                    reveal_strlit(" ");
                                    reveal_strlit("/");
                                }
                                let mut r = String::new();
                                r.append(" ");
                                r.append(p.name.as_str());
                                r.append("/");
                                r.append(s.name.as_str());
                                r.append("/");
                                r.append(subj.name.as_str());
                                proof {
                                    assert(r@ =~= seq![' '] + p@.name + seq!['/'] + s@.name + seq![
                                        '/',
                                    ] + subj@.name);
                                }
                                r
                            },
                            None => "None".to_owned(),
                        }
                    },
                    None => "None".to_owned(),
                }
            },
            None => "None".to_owned(),
        }
    }

    /// Selects a todo project (or clears the selection); an unknown key
    /// is a no-op.
    pub fn set_current_todo_project(&mut self, project_key: Option<u64>)
        requires
            old(self).wf(),
        ensures
            final(self).todos@ == old(self).todos@.set_current_model(project_key),
            *final(self) == (Backend { todos: final(self).todos, ..*old(self) }),
            final(self).wf(),
    {
        let ghost pre = self.todos@;
        self.todos.set_current(project_key);
        proof {
            lemma_wf_set_current(pre, project_key);
        }
    }
}

} // verus!
