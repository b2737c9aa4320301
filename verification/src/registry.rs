//! The engine's table of managed torrents: stable engine ids, the session torrent each
//! one stands for, when it was added, and which session torrents are being deleted.

use vstd::prelude::*;

use crate::types::EngineError;

verus! {

/// One managed torrent.
#[derive(Debug)]
pub struct Entry<H> {
    /// Engine id shown to the host application.
    pub id: u64,
    /// The session's own id of the torrent.
    pub session_id: usize,
    /// The session's handle to the torrent.
    pub handle: H,
    /// When this engine added it (nanoseconds since the Unix epoch); `None` for torrents
    /// restored from an earlier run.
    pub added_at: Option<i128>,
}

/// What adding a torrent to the session answered.
#[derive(Debug)]
pub enum AddOutcome<H> {
    Added { session_id: usize, handle: H },
    AlreadyManaged { session_id: usize, handle: H },
    ListOnly,
}

/// Why a registration was refused.
pub enum Refusal {
    /// The session only listed the torrent's files.
    ListOnly,
    /// The session torrent is being deleted; registering it would leave a dangling id.
    BeingDeleted,
}

/// Mathematical model of a [`Registry`].
pub struct RegistryModel<H> {
    /// Managed torrents, by increasing engine id.
    pub entries: Seq<Entry<H>>,
    /// Session ids whose deletion is in flight.
    pub deleting: Set<usize>,
    /// The engine id the next new torrent gets.
    pub next_id: u64,
}

pub open spec fn has_id<H>(e: Seq<Entry<H>>, id: u64) -> bool {
    exists|i: int| 0 <= i < e.len() && #[trigger] e[i].id == id
}

/// Index of the entry with engine id `id`.
pub open spec fn id_index<H>(e: Seq<Entry<H>>, id: u64) -> int {
    choose|i: int| 0 <= i < e.len() && #[trigger] e[i].id == id
}

pub open spec fn has_session<H>(e: Seq<Entry<H>>, sid: usize) -> bool {
    exists|i: int| 0 <= i < e.len() && #[trigger] e[i].session_id == sid
}

/// Index of the entry for session torrent `sid`.
pub open spec fn session_index<H>(e: Seq<Entry<H>>, sid: usize) -> int {
    choose|i: int| 0 <= i < e.len() && #[trigger] e[i].session_id == sid
}

/// Number of entries whose id is below `id`: where an entry with that id belongs.
pub open spec fn slot_for<H>(e: Seq<Entry<H>>, id: u64) -> int
    decreases e.len(),
{
    if e.len() == 0 {
        0
    } else {
        slot_for(e.drop_last(), id) + if e.last().id < id {
            1int
        } else {
            0int
        }
    }
}

/// The table's invariant: ids strictly increase and stay below `next_id`, each session
/// torrent appears at most once, and none of them is being deleted.
pub open spec fn model_wf<H>(m: RegistryModel<H>) -> bool {
    &&& forall|i: int, j: int|
        0 <= i < j < m.entries.len() ==> #[trigger] m.entries[i].id < #[trigger] m.entries[j].id
    &&& forall|i: int| 0 <= i < m.entries.len() ==> #[trigger] m.entries[i].id < m.next_id
    &&& forall|i: int, j: int|
        0 <= i < j < m.entries.len() ==> #[trigger] m.entries[i].session_id
            != #[trigger] m.entries[j].session_id
    &&& forall|i: int|
        0 <= i < m.entries.len() ==> !m.deleting.contains(#[trigger] m.entries[i].session_id)
    &&& m.deleting.finite()
}

/// Registering the torrent of an add: refused for a list-only answer or a torrent being
/// deleted; a torrent already in the table keeps its id; a new one gets `next_id`.
pub open spec fn register_step<H>(
    m: RegistryModel<H>,
    outcome: AddOutcome<H>,
    now: i128,
) -> (RegistryModel<H>, Result<u64, Refusal>) {
    match outcome {
        AddOutcome::ListOnly => (m, Err(Refusal::ListOnly)),
        AddOutcome::Added { session_id, handle } | AddOutcome::AlreadyManaged {
            session_id,
            handle,
        } => if m.deleting.contains(session_id) {
            (m, Err(Refusal::BeingDeleted))
        } else if has_session(m.entries, session_id) {
            (m, Ok(m.entries[session_index(m.entries, session_id)].id))
        } else {
            (
                RegistryModel {
                    entries: m.entries.push(
                        Entry { id: m.next_id, session_id, handle, added_at: Some(now) },
                    ),
                    next_id: (m.next_id + 1) as u64,
                    ..m
                },
                Ok(m.next_id),
            )
        },
    }
}

/// Starting a removal: the entry leaves the table and its session torrent is marked as
/// being deleted.
pub open spec fn begin_remove_step<H>(m: RegistryModel<H>, id: u64) -> (
    RegistryModel<H>,
    Option<Entry<H>>,
) {
    if has_id(m.entries, id) {
        let i = id_index(m.entries, id);
        let e = m.entries[i];
        (
            RegistryModel {
                entries: m.entries.remove(i),
                deleting: m.deleting.insert(e.session_id),
                ..m
            },
            Some(e),
        )
    } else {
        (m, None)
    }
}

/// Finishing a removal: the session torrent is no longer being deleted; when the deletion
/// failed, the entry comes back in its place.
pub open spec fn finish_remove_step<H>(m: RegistryModel<H>, e: Entry<H>, deleted: bool) -> RegistryModel<
    H,
> {
    let cleared = RegistryModel { deleting: m.deleting.remove(e.session_id), ..m };
    if deleted || !(e.id < m.next_id && !has_id(m.entries, e.id) && !has_session(
        m.entries,
        e.session_id,
    )) {
        cleared
    } else {
        RegistryModel { entries: m.entries.insert(slot_for(m.entries, e.id), e), ..cleared }
    }
}

} // verus!

verus! {

pub open spec fn ids_increasing<H>(e: Seq<Entry<H>>) -> bool {
    forall|i: int, j: int| 0 <= i < j < e.len() ==> #[trigger] e[i].id < #[trigger] e[j].id
}

proof fn lemma_slot_for<H>(e: Seq<Entry<H>>, id: u64)
    requires
        ids_increasing(e),
    ensures
        0 <= slot_for(e, id) <= e.len(),
        forall|k: int| 0 <= k < slot_for(e, id) ==> #[trigger] e[k].id < id,
        forall|k: int| slot_for(e, id) <= k < e.len() ==> #[trigger] e[k].id >= id,
    decreases e.len(),
{
    if e.len() > 0 {
        let d = e.drop_last();
        assert(ids_increasing(d));
        lemma_slot_for(d, id);
        if e.last().id < id {
            assert forall|k: int| 0 <= k < e.len() - 1 implies #[trigger] e[k].id < id by {
                assert(e[k].id < e[e.len() - 1].id);
            }
        } else {
            assert forall|k: int| 0 <= k < slot_for(d, id) implies #[trigger] e[k].id < id by {
                assert(d[k] == e[k]);
            }
            assert forall|k: int| slot_for(d, id) <= k < e.len() implies #[trigger] e[k].id
                >= id by {
                if k < e.len() - 1 {
                    assert(d[k] == e[k]);
                }
            }
        }
    }
}

/// The slot of an entry's own id, in a table without it, is where it was.
proof fn lemma_slot_of_removed<H>(e: Seq<Entry<H>>, i: int)
    requires
        ids_increasing(e),
        0 <= i < e.len(),
    ensures
        slot_for(e.remove(i), e[i].id) == i,
{
    let r = e.remove(i);
    assert(ids_increasing(r)) by {
        assert forall|a: int, b: int| 0 <= a < b < r.len() implies #[trigger] r[a].id
            < #[trigger] r[b].id by {
            let ea = if a < i {
                a
            } else {
                a + 1
            };
            let eb = if b < i {
                b
            } else {
                b + 1
            };
            assert(r[a] == e[ea] && r[b] == e[eb]);
        }
    }
    lemma_slot_for(r, e[i].id);
    let s = slot_for(r, e[i].id);
    if s < i {
        assert(r[s] == e[s]);
        assert(e[s].id < e[i].id);
    } else if s > i {
        assert(r[i] == e[i + 1]);
        assert(e[i].id < e[i + 1].id);
    }
}

/// Registering keeps the table well formed.
/// Registering `outcome` hands out a new engine id: it names a session torrent that is
/// neither in the table nor being deleted.
pub open spec fn allocates_id<H>(m: RegistryModel<H>, outcome: AddOutcome<H>) -> bool {
    match outcome {
        AddOutcome::Added { session_id, .. } | AddOutcome::AlreadyManaged { session_id, .. } =>
            !m.deleting.contains(session_id) && !has_session(m.entries, session_id),
        AddOutcome::ListOnly => false,
    }
}

pub proof fn lemma_register_wf<H>(m: RegistryModel<H>, outcome: AddOutcome<H>, now: i128)
    requires
        model_wf(m),
        allocates_id(m, outcome) ==> m.next_id < u64::MAX,
    ensures
        model_wf(register_step(m, outcome, now).0),
{
    let m1 = register_step(m, outcome, now).0;
    match outcome {
        AddOutcome::Added { session_id, .. } | AddOutcome::AlreadyManaged { session_id, .. } => {
            if !m.deleting.contains(session_id) && !has_session(m.entries, session_id) {
                assert forall|i: int, j: int| 0 <= i < j < m1.entries.len() implies #[trigger] m1.entries[i].session_id
                    != #[trigger] m1.entries[j].session_id by {
                    if j == m.entries.len() {
                        assert(m1.entries[i] == m.entries[i]);
                        if m.entries[i].session_id == session_id {
                            assert(has_session(m.entries, session_id));
                        }
                    }
                }
                assert forall|i: int, j: int| 0 <= i < j < m1.entries.len() implies #[trigger] m1.entries[i].id
                    < #[trigger] m1.entries[j].id by {
                    if j == m.entries.len() {
                        assert(m1.entries[i] == m.entries[i]);
                    }
                }
            }
        },
        AddOutcome::ListOnly => {},
    }
}

/// Starting a removal keeps the table well formed.
pub proof fn lemma_begin_remove_wf<H>(m: RegistryModel<H>, id: u64)
    requires
        model_wf(m),
    ensures
        model_wf(begin_remove_step(m, id).0),
{
    if has_id(m.entries, id) {
        let i = id_index(m.entries, id);
        let e = m.entries;
        let r = e.remove(i);
        let m1 = begin_remove_step(m, id).0;
        assert(m1.entries == r);
        assert forall|a: int| 0 <= a < r.len() implies r[a] == e[if a < i {
            a
        } else {
            a + 1
        }] by {}
        assert forall|a: int, b: int| 0 <= a < b < r.len() implies #[trigger] r[a].id
            < #[trigger] r[b].id by {
            assert(r[a] == e[if a < i { a } else { a + 1 }]);
            assert(r[b] == e[if b < i { b } else { b + 1 }]);
        }
        assert forall|a: int, b: int| 0 <= a < b < r.len() implies #[trigger] r[a].session_id
            != #[trigger] r[b].session_id by {
            assert(r[a] == e[if a < i { a } else { a + 1 }]);
            assert(r[b] == e[if b < i { b } else { b + 1 }]);
        }
        assert forall|a: int| 0 <= a < r.len() implies #[trigger] r[a].id < m1.next_id by {
            assert(r[a] == e[if a < i { a } else { a + 1 }]);
        }
        assert forall|a: int| 0 <= a < r.len() implies !m1.deleting.contains(
            #[trigger] r[a].session_id,
        ) by {
            let k = if a < i {
                a
            } else {
                a + 1
            };
            assert(r[a] == e[k]);
            assert(k != i);
        }
    }
}

/// Finishing a removal keeps the table well formed.
pub proof fn lemma_finish_remove_wf<H>(m: RegistryModel<H>, e: Entry<H>, deleted: bool)
    requires
        model_wf(m),
    ensures
        model_wf(finish_remove_step(m, e, deleted)),
{
    let m1 = finish_remove_step(m, e, deleted);
    if !deleted && e.id < m.next_id && !has_id(m.entries, e.id) && !has_session(
        m.entries,
        e.session_id,
    ) {
        let s = slot_for(m.entries, e.id);
        lemma_slot_for(m.entries, e.id);
        let n = m1.entries;
        assert forall|a: int| 0 <= a < n.len() implies #[trigger] n[a] == if a < s {
            m.entries[a]
        } else if a == s {
            e
        } else {
            m.entries[a - 1]
        } by {}
        assert forall|a: int, b: int| 0 <= a < b < n.len() implies #[trigger] n[a].id
            < #[trigger] n[b].id by {
            if a == s {
                assert(m.entries[b - 1].id >= e.id);
                assert(m.entries[b - 1].id != e.id);
            } else if b == s {
                assert(m.entries[a].id < e.id);
            }
        }
        assert forall|a: int, b: int| 0 <= a < b < n.len() implies #[trigger] n[a].session_id
            != #[trigger] n[b].session_id by {
            if a == s {
                if m.entries[b - 1].session_id == e.session_id {
                    assert(has_session(m.entries, e.session_id));
                }
            } else if b == s {
                if m.entries[a].session_id == e.session_id {
                    assert(has_session(m.entries, e.session_id));
                }
            }
        }
        assert forall|a: int| 0 <= a < n.len() implies #[trigger] n[a].id < m1.next_id by {}
        assert forall|a: int| 0 <= a < n.len() implies !m1.deleting.contains(
            #[trigger] n[a].session_id,
        ) by {}
    }
}

} // verus!

verus! {

pub open spec fn outcome_session<H>(o: AddOutcome<H>) -> Option<usize> {
    match o {
        AddOutcome::Added { session_id, .. } => Some(session_id),
        AddOutcome::AlreadyManaged { session_id, .. } => Some(session_id),
        AddOutcome::ListOnly => None,
    }
}

/// Adding the same torrent twice gives the same engine id both times, and the second add
/// leaves the table as the first left it.
pub proof fn law_duplicate_add_same_id<H>(
    m: RegistryModel<H>,
    first: AddOutcome<H>,
    second: AddOutcome<H>,
    t1: i128,
    t2: i128,
)
    requires
        model_wf(m),
        allocates_id(m, first) ==> m.next_id < u64::MAX,
        outcome_session(first) is Some,
        outcome_session(first) == outcome_session(second),
        register_step(m, first, t1).1 is Ok,
    ensures
        register_step(register_step(m, first, t1).0, second, t2).1 == register_step(
            m,
            first,
            t1,
        ).1,
        register_step(register_step(m, first, t1).0, second, t2).0 == register_step(
            m,
            first,
            t1,
        ).0,
{
    let (m1, r1) = register_step(m, first, t1);
    let sid = outcome_session(first)->0;
    lemma_register_wf(m, first, t1);
    if has_session(m.entries, sid) {
        let i = session_index(m.entries, sid);
        assert(m1 == m);
        assert(has_session(m1.entries, sid));
    } else {
        let n = m.entries.len() as int;
        assert(m1.entries[n].session_id == sid);
        assert(has_session(m1.entries, sid));
        let j = session_index(m1.entries, sid);
        if j != n {
            assert(m1.entries[j].session_id != m1.entries[n].session_id);
        }
    }
}

/// A torrent new to the table gets an id above every id handed out before, so ids grow
/// with each new torrent.
pub proof fn law_new_ids_increase<H>(m: RegistryModel<H>, outcome: AddOutcome<H>, now: i128)
    requires
        model_wf(m),
        m.next_id < u64::MAX,
        outcome_session(outcome) matches Some(sid) && !has_session(m.entries, sid)
            && !m.deleting.contains(sid),
    ensures
        register_step(m, outcome, now).1 == Ok::<u64, Refusal>(m.next_id),
        register_step(m, outcome, now).0.next_id == m.next_id + 1,
        forall|i: int| 0 <= i < m.entries.len() ==> #[trigger] m.entries[i].id < m.next_id,
{
}

/// Two torrents new to the table, added one after the other, get consecutive ids: the
/// second id is above the first.
pub proof fn law_two_adds_increase<H>(
    m: RegistryModel<H>,
    first: AddOutcome<H>,
    second: AddOutcome<H>,
    t1: i128,
    t2: i128,
)
    requires
        model_wf(m),
        m.next_id + 1 < u64::MAX,
        allocates_id(m, first),
        allocates_id(m, second),
        outcome_session(first) != outcome_session(second),
    ensures
        ({
            let (m1, r1) = register_step(m, first, t1);
            let r2 = register_step(m1, second, t2).1;
            &&& r1 == Ok::<u64, Refusal>(m.next_id)
            &&& r2 == Ok::<u64, Refusal>((m.next_id + 1) as u64)
            &&& r1 matches Ok(a) && r2 matches Ok(b) && a < b
        }),
{
    let m1 = register_step(m, first, t1).0;
    let s2 = outcome_session(second)->0;
    if has_session(m1.entries, s2) {
        let k = choose|k: int| 0 <= k < m1.entries.len() && #[trigger] m1.entries[k].session_id == s2;
        if k < m.entries.len() {
            assert(m.entries[k] == m1.entries[k]);
        }
    }
}

/// While a torrent's deletion is in flight, adding it again is refused and changes
/// nothing.
pub proof fn law_add_during_delete_refused<H>(
    m: RegistryModel<H>,
    id: u64,
    again: AddOutcome<H>,
    now: i128,
)
    requires
        model_wf(m),
        has_id(m.entries, id),
        outcome_session(again) == Some(begin_remove_step(m, id).1->0.session_id),
    ensures
        register_step(begin_remove_step(m, id).0, again, now) == (
            begin_remove_step(m, id).0,
            Err::<u64, Refusal>(Refusal::BeingDeleted),
        ),
{
}

/// After a removal starts, and after it completes, the id is no longer in the table.
pub proof fn law_removed_id_absent<H>(m: RegistryModel<H>, id: u64)
    requires
        model_wf(m),
        has_id(m.entries, id),
    ensures
        !has_id(begin_remove_step(m, id).0.entries, id),
        !has_id(
            finish_remove_step(begin_remove_step(m, id).0, begin_remove_step(m, id).1->0, true).entries,
            id,
        ),
{
    let i = id_index(m.entries, id);
    let r = m.entries.remove(i);
    if has_id(r, id) {
        let k = choose|k: int| 0 <= k < r.len() && #[trigger] r[k].id == id;
        let ek = if k < i {
            k
        } else {
            k + 1
        };
        assert(r[k] == m.entries[ek]);
        assert(m.entries[ek].id != m.entries[i].id);
    }
}

/// When the session fails to delete a torrent, the table is exactly as before the removal
/// started: the torrent keeps its id, handle and add time.
pub proof fn law_failed_delete_restores<H>(m: RegistryModel<H>, id: u64)
    requires
        model_wf(m),
        has_id(m.entries, id),
    ensures
        finish_remove_step(begin_remove_step(m, id).0, begin_remove_step(m, id).1->0, false) == m,
{
    let i = id_index(m.entries, id);
    let e = m.entries[i];
    let r = m.entries.remove(i);
    let (m1, removed) = begin_remove_step(m, id);
    assert(removed == Some(e));
    law_removed_id_absent(m, id);
    if has_session(r, e.session_id) {
        let k = choose|k: int| 0 <= k < r.len() && #[trigger] r[k].session_id == e.session_id;
        let ek = if k < i {
            k
        } else {
            k + 1
        };
        assert(r[k] == m.entries[ek]);
        if ek < i {
            assert(m.entries[ek].session_id != m.entries[i].session_id);
        } else {
            assert(m.entries[i].session_id != m.entries[ek].session_id);
        }
    }
    lemma_slot_of_removed(m.entries, i);
    assert(r.insert(i, e) =~= m.entries);
    assert(m.deleting.insert(e.session_id).remove(e.session_id) =~= m.deleting);
}

} // verus!

verus! {

/// The engine's table of managed torrents (see [`RegistryModel`]). Entries are kept in
/// increasing id order, so listings come out sorted by id, and are found by engine id or
/// by session id.
pub struct Registry<H> {
    entries: Vec<Entry<H>>,
    deleting: Vec<usize>,
    next_id: u64,
}

impl<H> View for Registry<H> {
    type V = RegistryModel<H>;

    closed spec fn view(&self) -> RegistryModel<H> {
        RegistryModel {
            entries: self.entries@,
            deleting: self.deleting@.to_set(),
            next_id: self.next_id,
        }
    }
}

/// Error of a refused registration.
pub open spec fn refusal_error(r: Refusal, e: EngineError) -> bool {
    match r {
        Refusal::ListOnly => e matches EngineError::Backend { reason } && reason@
            == "unexpected list_only response"@,
        Refusal::BeingDeleted => e matches EngineError::Backend { reason } && reason@
            == "torrent is currently being deleted"@,
    }
}

/// `r` is the engine's answer for the registration result `s`.
pub open spec fn register_answer(s: Result<u64, Refusal>, r: Result<u64, EngineError>) -> bool {
    match s {
        Ok(id) => r == Ok::<u64, EngineError>(id),
        Err(f) => r matches Err(e) && refusal_error(f, e),
    }
}

impl<H> Registry<H> {
    /// The table is well formed (see [`model_wf`]).
    pub closed spec fn wf(&self) -> bool {
        model_wf(self@) && self.deleting@.no_duplicates()
    }

    pub proof fn lemma_wf(&self)
        requires
            self.wf(),
        ensures
            model_wf(self@),
    {
    }

    /// An empty table whose first new torrent gets id 1.
    pub fn new() -> (r: Self)
        ensures
            r.wf(),
            r@.entries == Seq::<Entry<H>>::empty(),
            r@.deleting == Set::<usize>::empty(),
            r@.next_id == 1,
    {
        let r = Registry { entries: Vec::new(), deleting: Vec::new(), next_id: 1 };
        assert(r@.deleting =~= Set::<usize>::empty());
        r
    }

    /// Number of managed torrents.
    pub fn len(&self) -> (r: usize)
        ensures
            r == self@.entries.len(),
    {
        self.entries.len()
    }

    /// The engine id the next new torrent gets.
    pub fn next_id(&self) -> (r: u64)
        ensures
            r == self@.next_id,
    {
        self.next_id
    }

    fn find_id(&self, id: u64) -> (r: Option<usize>)
        requires
            self.wf(),
        ensures
            r is Some <==> has_id(self@.entries, id),
            r matches Some(i) ==> i == id_index(self@.entries, id) && i < self@.entries.len(),
    {
        let mut i: usize = 0;
        while i < self.entries.len()
            invariant
                self.wf(),
                i <= self.entries@.len(),
                forall|k: int| 0 <= k < i ==> #[trigger] self.entries@[k].id != id,
            decreases self.entries@.len() - i,
        {
            if self.entries[i].id == id {
                proof {
                    let j = id_index(self@.entries, id);
                    if j != i {
                        if j < i {
                            assert(self@.entries[j].id < self@.entries[i as int].id);
                        } else {
                            assert(self@.entries[i as int].id < self@.entries[j].id);
                        }
                    }
                }
                return Some(i);
            }
            i = i + 1;
        }
        None
    }

    fn find_session(&self, sid: usize) -> (r: Option<usize>)
        requires
            self.wf(),
        ensures
            r is Some <==> has_session(self@.entries, sid),
            r matches Some(i) ==> i == session_index(self@.entries, sid) && i
                < self@.entries.len(),
    {
        let mut i: usize = 0;
        while i < self.entries.len()
            invariant
                self.wf(),
                i <= self.entries@.len(),
                forall|k: int| 0 <= k < i ==> #[trigger] self.entries@[k].session_id != sid,
            decreases self.entries@.len() - i,
        {
            if self.entries[i].session_id == sid {
                proof {
                    let j = session_index(self@.entries, sid);
                    if j != i {
                        if j < i {
                            assert(self@.entries[j].session_id != self@.entries[i as int].session_id);
                        } else {
                            assert(self@.entries[i as int].session_id != self@.entries[j].session_id);
                        }
                    }
                }
                return Some(i);
            }
            i = i + 1;
        }
        None
    }

    /// Whether the session torrent `sid` is being deleted.
    pub fn is_deleting(&self, sid: usize) -> (r: bool)
        ensures
            r == self@.deleting.contains(sid),
    {
        let mut i: usize = 0;
        while i < self.deleting.len()
            invariant
                i <= self.deleting@.len(),
                forall|k: int| 0 <= k < i ==> #[trigger] self.deleting@[k] != sid,
            decreases self.deleting@.len() - i,
        {
            if self.deleting[i] == sid {
                assert(self.deleting@.contains(sid));
                return true;
            }
            i = i + 1;
        }
        false
    }

    /// The torrent with engine id `id`, or `NotFound`.
    pub fn lookup(&self, id: u64) -> (r: Result<&Entry<H>, EngineError>)
        requires
            self.wf(),
        ensures
            r is Ok <==> has_id(self@.entries, id),
            r matches Ok(e) ==> *e == self@.entries[id_index(self@.entries, id)],
            r matches Err(e) ==> e == (EngineError::NotFound { id }),
    {
        match self.find_id(id) {
            Some(i) => Ok(&self.entries[i]),
            None => Err(EngineError::NotFound { id }),
        }
    }

    /// Engine ids and handles of all managed torrents, by increasing id.
    pub fn handles(&self) -> (r: Vec<(u64, &H)>)
        ensures
            r@.len() == self@.entries.len(),
            forall|i: int|
                0 <= i < r@.len() ==> #[trigger] r@[i].0 == self@.entries[i].id && *r@[i].1
                    == self@.entries[i].handle,
    {
        let mut out: Vec<(u64, &H)> = Vec::new();
        let mut i: usize = 0;
        while i < self.entries.len()
            invariant
                i <= self.entries@.len(),
                out@.len() == i,
                forall|k: int|
                    0 <= k < i ==> #[trigger] out@[k].0 == self.entries@[k].id && *out@[k].1
                        == self.entries@[k].handle,
            decreases self.entries@.len() - i,
        {
            let e = &self.entries[i];
            out.push((e.id, &e.handle));
            i = i + 1;
        }
        out
    }

    /// Whether the table holds the session torrent `sid`.
    pub fn manages_session(&self, sid: usize) -> (r: bool)
        requires
            self.wf(),
        ensures
            r == has_session(self@.entries, sid),
    {
        self.find_session(sid).is_some()
    }

    /// Records the torrent of an add (see [`register_step`]): returns its engine id, the
    /// existing one when the torrent is already managed.
    pub fn register(&mut self, outcome: AddOutcome<H>, now: i128) -> (r: Result<u64, EngineError>)
        requires
            old(self).wf(),
            allocates_id(old(self)@, outcome) ==> old(self)@.next_id < u64::MAX,
        ensures
            final(self).wf(),
            final(self)@ == register_step(old(self)@, outcome, now).0,
            register_answer(register_step(old(self)@, outcome, now).1, r),
    {
        proof {
            lemma_register_wf(self@, outcome, now);
        }
        let (session_id, handle) = match outcome {
            AddOutcome::ListOnly => {
                return Err(
                    EngineError::Backend { reason: String::from_str("unexpected list_only response") },
                );
            },
            AddOutcome::Added { session_id, handle } => (session_id, handle),
            AddOutcome::AlreadyManaged { session_id, handle } => (session_id, handle),
        };
        if self.is_deleting(session_id) {
            return Err(
                EngineError::Backend {
                    reason: String::from_str("torrent is currently being deleted"),
                },
            );
        }
        if let Some(i) = self.find_session(session_id) {
            return Ok(self.entries[i].id);
        }
        let id = self.next_id;
        self.entries.push(Entry { id, session_id, handle, added_at: Some(now) });
        self.next_id = self.next_id + 1;
        Ok(id)
    }

    /// Takes the torrent with engine id `id` out of the table and marks its session torrent
    /// as being deleted; `NotFound` when there is no such torrent.
    pub fn begin_remove(&mut self, id: u64) -> (r: Result<Entry<H>, EngineError>)
        requires
            old(self).wf(),
        ensures
            final(self).wf(),
            final(self)@ == begin_remove_step(old(self)@, id).0,
            r matches Ok(e) ==> begin_remove_step(old(self)@, id).1 == Some(e),
            r is Err ==> begin_remove_step(old(self)@, id).1 is None,
            r matches Err(e) ==> e == (EngineError::NotFound { id }),
    {
        proof {
            lemma_begin_remove_wf(self@, id);
        }
        let i = match self.find_id(id) {
            Some(i) => i,
            None => return Err(EngineError::NotFound { id }),
        };
        let ghost old_deleting = self.deleting@;
        let e = self.entries.remove(i);
        proof {
            assert(!old_deleting.contains(e.session_id));
        }
        self.deleting.push(e.session_id);
        proof {
            assert forall|x: usize| self.deleting@.contains(x) <==> (old_deleting.contains(x) || x
                == e.session_id) by {
                if self.deleting@.contains(x) {
                    let j = choose|j: int| 0 <= j < self.deleting@.len() && #[trigger] self.deleting@[j] == x;
                    if j < old_deleting.len() {
                        assert(old_deleting[j] == x);
                    }
                }
                if old_deleting.contains(x) {
                    let j = choose|j: int| 0 <= j < old_deleting.len() && #[trigger] old_deleting[j] == x;
                    assert(self.deleting@[j] == x);
                }
                if x == e.session_id {
                    assert(self.deleting@[old_deleting.len() as int] == x);
                }
            }
            assert(self.deleting@.to_set() =~= old_deleting.to_set().insert(e.session_id));
            assert forall|a: int, b: int| 0 <= a < b < self.deleting@.len() implies self.deleting@[a]
                != self.deleting@[b] by {
                if b == self.deleting@.len() - 1 {
                    assert(old_deleting[a] == self.deleting@[a]);
                    assert(old_deleting.contains(self.deleting@[a]));
                }
            }
        }
        Ok(e)
    }

    /// Ends the removal of `e`: its session torrent is no longer being deleted, and when
    /// the deletion failed (`!deleted`) the torrent is back under its id.
    pub fn finish_remove(&mut self, e: Entry<H>, deleted: bool)
        requires
            old(self).wf(),
        ensures
            final(self).wf(),
            final(self)@ == finish_remove_step(old(self)@, e, deleted),
    {
        proof {
            lemma_finish_remove_wf(self@, e, deleted);
        }
        let ghost old_deleting = self.deleting@;
        let mut k: usize = 0;
        while k < self.deleting.len()
            invariant
                self.deleting@ == old_deleting,
                k <= old_deleting.len(),
                forall|m: int| 0 <= m < k ==> #[trigger] old_deleting[m] != e.session_id,
            ensures
                k < old_deleting.len() ==> old_deleting[k as int] == e.session_id,
                k >= old_deleting.len() ==> !old_deleting.contains(e.session_id),
            decreases old_deleting.len() - k,
        {
            if self.deleting[k] == e.session_id {
                break;
            }
            k = k + 1;
        }
        if k < self.deleting.len() {
            self.deleting.remove(k);
            proof {
                assert forall|x: usize| self.deleting@.contains(x) <==> old_deleting.to_set().remove(
                    e.session_id,
                ).contains(x) by {
                    if self.deleting@.contains(x) {
                        let j = choose|j: int| 0 <= j < self.deleting@.len() && #[trigger] self.deleting@[j] == x;
                        let oj = if j < k {
                            j
                        } else {
                            j + 1
                        };
                        assert(old_deleting[oj] == x);
                        assert(oj != k);
                        assert(old_deleting.contains(x));
                    }
                    if old_deleting.contains(x) && x != e.session_id {
                        let j = choose|j: int| 0 <= j < old_deleting.len() && #[trigger] old_deleting[j] == x;
                        assert(j != k);
                        let nj = if j < k {
                            j
                        } else {
                            j - 1
                        };
                        assert(self.deleting@[nj] == x);
                    }
                }
                assert(self.deleting@.to_set() =~= old_deleting.to_set().remove(e.session_id));
            }
        } else {
            assert(old_deleting.to_set() =~= old_deleting.to_set().remove(e.session_id));
        }
        if !deleted && e.id < self.next_id && self.find_id(e.id).is_none() && self.find_session(
            e.session_id,
        ).is_none() {
            let mut s: usize = 0;
            while s < self.entries.len() && self.entries[s].id < e.id
                invariant
                    s <= self.entries@.len(),
                    ids_increasing(self.entries@),
                    forall|m: int| 0 <= m < s ==> #[trigger] self.entries@[m].id < e.id,
                decreases self.entries@.len() - s,
            {
                s = s + 1;
            }
            proof {
                lemma_slot_for(self.entries@, e.id);
                let t = slot_for(self.entries@, e.id);
                if s < t {
                    assert(self.entries@[s as int].id < e.id);
                } else if s > t {
                    assert(self.entries@[t].id < e.id);
                }
            }
            self.entries.insert(s, e);
        }
    }
}

} // verus!

verus! {

/// One more than the largest restored engine id (`sid + 1`), or 1 when nothing was restored.
pub open spec fn restored_next_id<H>(rs: Seq<(usize, H)>) -> nat
    decreases rs.len(),
{
    if rs.len() == 0 {
        1
    } else {
        let prev = restored_next_id(rs.drop_last());
        let cand = rs.last().0 + 2;
        if cand > prev {
            cand as nat
        } else {
            prev
        }
    }
}

/// `rs[j]` is the last pair for its session id.
pub open spec fn last_for_session<H>(rs: Seq<(usize, H)>, j: int) -> bool {
    &&& 0 <= j < rs.len()
    &&& forall|k: int| j < k < rs.len() ==> #[trigger] rs[k].0 != rs[j].0
}

proof fn lemma_restored_next_id<H>(rs: Seq<(usize, H)>)
    ensures
        restored_next_id(rs) >= 1,
        forall|k: int| 0 <= k < rs.len() ==> #[trigger] rs[k].0 + 2 <= restored_next_id(rs),
        rs.len() > 0 ==> exists|k: int| 0 <= k < rs.len() && restored_next_id(rs) == #[trigger] rs[k].0 + 2,
    decreases rs.len(),
{
    if rs.len() > 0 {
        let d = rs.drop_last();
        lemma_restored_next_id(d);
        assert forall|k: int| 0 <= k < rs.len() implies #[trigger] rs[k].0 + 2 <= restored_next_id(rs) by {
            if k < rs.len() - 1 {
                assert(rs[k] == d[k]);
            }
        }
        if rs.last().0 + 2 > restored_next_id(d) {
            assert(restored_next_id(rs) == rs[rs.len() - 1].0 + 2);
        } else if d.len() > 0 {
            let k = choose|k: int| 0 <= k < d.len() && restored_next_id(d) == #[trigger] d[k].0 + 2;
            assert(rs[k] == d[k]);
        } else {
            assert(restored_next_id(d) == 1);
            assert(rs.last().0 + 2 >= 2);
        }
    }
}

impl<H> Registry<H> {
    /// The table for the torrents a session restored, each pinned to engine id
    /// `session id + 1` so that ids stay the same across restarts; a later pair for the
    /// same session id replaces an earlier one. New torrents get ids above all of them.
    pub fn restore(restored: Vec<(usize, H)>) -> (r: Self)
        requires
            forall|k: int| 0 <= k < restored@.len() ==> #[trigger] restored@[k].0 + 2 <= u64::MAX,
        ensures
            r.wf(),
            r@.deleting == Set::<usize>::empty(),
            r@.next_id == restored_next_id(restored@),
            forall|k: int|
                0 <= k < restored@.len() ==> has_session(r@.entries, #[trigger] restored@[k].0),
            forall|i: int|
                0 <= i < r@.entries.len() ==> {
                    let e = #[trigger] r@.entries[i];
                    &&& e.id == e.session_id + 1
                    &&& e.added_at is None
                    &&& exists|j: int|
                        last_for_session(restored@, j) && #[trigger] restored@[j].0 == e.session_id
                            && restored@[j].1 == e.handle
                },
    {
        let ghost rs = restored@;
        let mut rest = restored;
        let mut reg: Registry<H> = Registry::new();
        let mut next: u64 = 1;
        proof {
            lemma_restored_next_id(rs);
        }
        while rest.len() > 0
            invariant
                rest@ == rs.take(rest@.len() as int),
                rest@.len() <= rs.len(),
                forall|k: int| 0 <= k < rs.len() ==> #[trigger] rs[k].0 + 2 <= u64::MAX,
                reg.wf(),
                reg@.deleting == Set::<usize>::empty(),
                reg@.next_id == next,
                next >= 1,
                forall|k: int| rest@.len() <= k < rs.len() ==> #[trigger] rs[k].0 + 2 <= next,
                rest@.len() < rs.len() ==> exists|k: int|
                    rest@.len() <= k < rs.len() && next == #[trigger] rs[k].0 + 2,
                rest@.len() == rs.len() ==> next == 1,
                forall|k: int|
                    rest@.len() <= k < rs.len() ==> has_session(reg@.entries, #[trigger] rs[k].0),
                forall|i: int|
                    0 <= i < reg@.entries.len() ==> {
                        let e = #[trigger] reg@.entries[i];
                        &&& e.id == e.session_id + 1
                        &&& e.added_at is None
                        &&& exists|j: int|
                            rest@.len() <= j < rs.len() && last_for_session(rs, j)
                                && #[trigger] rs[j].0 == e.session_id && rs[j].1 == e.handle
                    },
            decreases rest@.len(),
        {
            let ghost k = (rest@.len() - 1) as int;
            let (sid, h) = rest.pop().unwrap();
            assert(rs[k] == (sid, h));
            let id = sid as u64 + 1;
            if id + 1 > next {
                next = id + 1;
            }
            reg.next_id = next;
            if reg.find_session(sid).is_none() {
                proof {
                    assert(last_for_session(rs, k)) by {
                        assert forall|k2: int| k < k2 < rs.len() implies #[trigger] rs[k2].0
                            != rs[k].0 by {
                            if rs[k2].0 == rs[k].0 {
                                assert(has_session(reg@.entries, rs[k2].0));
                            }
                        }
                    }
                    assert(!has_id(reg@.entries, id)) by {
                        if has_id(reg@.entries, id) {
                            let i = choose|i: int| 0 <= i < reg@.entries.len() && #[trigger] reg@.entries[i].id == id;
                            assert(reg@.entries[i].session_id == sid);
                        }
                    }
                }
                let ghost before = reg@.entries;
                reg.insert_restored(Entry { id, session_id: sid, handle: h, added_at: None });
                proof {
                    assert forall|i: int| 0 <= i < reg@.entries.len() implies ({
                        let e = #[trigger] reg@.entries[i];
                        &&& e.id == e.session_id + 1
                        &&& e.added_at is None
                        &&& exists|j: int|
                            rest@.len() <= j < rs.len() && last_for_session(rs, j)
                                && #[trigger] rs[j].0 == e.session_id && rs[j].1 == e.handle
                    }) by {
                        let e = reg@.entries[i];
                        if e != (Entry { id, session_id: sid, handle: h, added_at: None }) {
                            let bi = choose|bi: int| 0 <= bi < before.len() && before[bi] == e;
                            assert(before[bi] == e);
                        } else {
                            assert(rs[k].0 == e.session_id);
                        }
                    }
                }
            }
            proof {
                assert forall|k2: int| rest@.len() <= k2 < rs.len() implies has_session(
                    reg@.entries,
                    #[trigger] rs[k2].0,
                ) by {
                    if k2 != k {
                        assert(has_session(reg@.entries, rs[k2].0));
                    }
                }
            }
        }
        proof {
            if rs.len() > 0 {
                let k = choose|k: int| 0 <= k < rs.len() && next == #[trigger] rs[k].0 + 2;
                assert(rs[k].0 + 2 <= restored_next_id(rs));
                let k2 = choose|k2: int| 0 <= k2 < rs.len() && restored_next_id(rs) == #[trigger] rs[k2].0 + 2;
                assert(rs[k2].0 + 2 <= next);
            }
            assert forall|i: int| 0 <= i < reg@.entries.len() implies #[trigger] reg@.entries[i].id
                < reg@.next_id by {
                let e = reg@.entries[i];
                let j = choose|j: int|
                    0 <= j < rs.len() && last_for_session(rs, j) && #[trigger] rs[j].0 == e.session_id
                        && rs[j].1 == e.handle;
                assert(rs[j].0 + 2 <= next);
            }
        }
        reg
    }

    /// Puts a restored entry in its slot by id.
    fn insert_restored(&mut self, e: Entry<H>)
        requires
            old(self).wf(),
            !has_id(old(self)@.entries, e.id),
            !has_session(old(self)@.entries, e.session_id),
            !old(self)@.deleting.contains(e.session_id),
            e.id < old(self)@.next_id,
        ensures
            final(self).wf(),
            final(self)@.next_id == old(self)@.next_id,
            final(self)@.deleting == old(self)@.deleting,
            final(self)@.entries == old(self)@.entries.insert(slot_for(old(self)@.entries, e.id), e),
            forall|sid: usize|
                has_session(final(self)@.entries, sid) <==> (has_session(old(self)@.entries, sid)
                    || sid == e.session_id),
            forall|i: int|
                0 <= i < final(self)@.entries.len() ==> #[trigger] final(self)@.entries[i] == e
                    || old(self)@.entries.contains(final(self)@.entries[i]),
    {
        let ghost m0 = self@;
        proof {
            lemma_finish_remove_wf(self@, e, false);
        }
        let mut s: usize = 0;
        while s < self.entries.len() && self.entries[s].id < e.id
            invariant
                s <= self.entries@.len(),
                ids_increasing(self.entries@),
                forall|m: int| 0 <= m < s ==> #[trigger] self.entries@[m].id < e.id,
            decreases self.entries@.len() - s,
        {
            s = s + 1;
        }
        proof {
            lemma_slot_for(self.entries@, e.id);
            let t = slot_for(self.entries@, e.id);
            if s < t {
                assert(self.entries@[s as int].id < e.id);
            } else if s > t {
                assert(self.entries@[t].id < e.id);
            }
        }
        let ghost before = self.entries@;
        self.entries.insert(s, e);
        proof {
            let n = self.entries@;
            assert forall|a: int, b: int| 0 <= a < b < n.len() implies #[trigger] n[a].id
                < #[trigger] n[b].id by {
                let ia = if a < s { a } else if a == s { -1 } else { a - 1 };
                let ib = if b < s { b } else if b == s { -1 } else { b - 1 };
                if a == s {
                    assert(n[b] == before[ib]);
                    assert(before[ib].id >= e.id);
                    if before[ib].id == e.id {
                        assert(has_id(before, e.id));
                    }
                } else if b == s {
                    assert(n[a] == before[ia]);
                } else {
                    assert(n[a] == before[ia]);
                    assert(n[b] == before[ib]);
                }
            }
            assert forall|sid: usize| has_session(n, sid) <==> (has_session(before, sid) || sid
                == e.session_id) by {
                if has_session(n, sid) {
                    let i = choose|i: int| 0 <= i < n.len() && #[trigger] n[i].session_id == sid;
                    if i < s {
                        assert(before[i] == n[i]);
                    } else if i > s {
                        assert(before[i - 1] == n[i]);
                    }
                }
                if has_session(before, sid) {
                    let i = choose|i: int| 0 <= i < before.len() && #[trigger] before[i].session_id == sid;
                    if i < s {
                        assert(before[i] == n[i]);
                    } else {
                        assert(before[i] == n[i + 1]);
                    }
                }
                if sid == e.session_id {
                    assert(n[s as int] == e);
                }
            }
            assert forall|i: int| 0 <= i < n.len() implies #[trigger] n[i] == e || before.contains(
                n[i],
            ) by {
                if i < s {
                    assert(before[i] == n[i]);
                } else if i > s {
                    assert(before[i - 1] == n[i]);
                }
            }
            assert(m0.deleting.remove(e.session_id) =~= m0.deleting);
            assert(self@.entries == finish_remove_step(m0, e, false).entries);
            assert(self@.deleting == finish_remove_step(m0, e, false).deleting);
            assert(self@ == finish_remove_step(m0, e, false));
        }
    }
}

} // verus!

verus! {

impl<H> Registry<H> {
    /// [`Registry::register`] with the current time as the add time.
    pub fn register_now(&mut self, outcome: AddOutcome<H>) -> (r: Result<u64, EngineError>)
        requires
            old(self).wf(),
            allocates_id(old(self)@, outcome) ==> old(self)@.next_id < u64::MAX,
        ensures
            final(self).wf(),
            exists|now: i128|
                final(self)@ == register_step(old(self)@, outcome, now).0 && register_answer(
                    register_step(old(self)@, outcome, now).1,
                    r,
                ),
    {
        let now = crate::clock::now_nanos();
        self.register(outcome, now)
    }
}

} // verus!

verus! {

/// Adding a torrent the table already manages changes nothing and answers the id of that
/// torrent's own entry, and looking that id up gives back the same session torrent.
pub proof fn law_managed_add_keeps_own_id<H>(
    m: RegistryModel<H>,
    outcome: AddOutcome<H>,
    now: i128,
    i: int,
)
    requires
        model_wf(m),
        0 <= i < m.entries.len(),
        outcome_session(outcome) == Some(m.entries[i].session_id),
        !m.deleting.contains(m.entries[i].session_id),
    ensures
        register_step(m, outcome, now).0 == m,
        register_step(m, outcome, now).1 == Ok::<u64, Refusal>(m.entries[i].id),
        has_id(m.entries, m.entries[i].id),
        m.entries[id_index(m.entries, m.entries[i].id)].session_id == m.entries[i].session_id,
{
    let sid = m.entries[i].session_id;
    assert(has_session(m.entries, sid));
    let j = session_index(m.entries, sid);
    if j != i {
        if j < i {
            assert(m.entries[j].session_id != m.entries[i].session_id);
        } else {
            assert(m.entries[i].session_id != m.entries[j].session_id);
        }
    }
    let id = m.entries[i].id;
    assert(has_id(m.entries, id));
    let k = id_index(m.entries, id);
    if k != i {
        if k < i {
            assert(m.entries[k].id < m.entries[i].id);
        } else {
            assert(m.entries[i].id < m.entries[k].id);
        }
    }
}

} // verus!
