//! The session registry: the single directory of live sessions, keyed by
//! ids that are never handed out twice.
use vstd::prelude::*;
use crate::ids::{digits_value, id_serial_part, lemma_decimal_value, session_id};

verus! {

/// Why an operation on the registry failed.
#[derive(Debug, Clone, Copy, PartialEq, Eq, Structural)]
pub enum PtyError {
    /// No new session could be set up.
    SpawnFailure,
    /// No live session has the given id.
    NotFound,
    /// Reading, writing or resizing a live session's terminal failed.
    IoFailure,
    /// A terminal size with zero columns or zero rows was asked for.
    InvalidSize,
}

/// One live session: its id, its terminal size and its I/O ends.
pub struct PtyProcess<H> {
    pub id: String,
    pub cols: u16,
    pub rows: u16,
    pub io: H,
}

/// The directory of live sessions. `H` holds a session's I/O ends (its
/// writer, its terminal and its child process), which the caller drives.
pub struct PtyManager<H> {
    processes: Vec<PtyProcess<H>>,
    next_serial: u64,
    handed_out: Ghost<Set<Seq<char>>>,
}

/// No two entries of `ps` share an id.
pub open spec fn unique_ids<H>(ps: Seq<PtyProcess<H>>) -> bool {
    forall|i: int, j: int|
        0 <= i < ps.len() && 0 <= j < ps.len() && i != j ==> #[trigger] ps[i].id@
            != #[trigger] ps[j].id@
}

/// The entries of `ps` by id.
pub open spec fn map_of<H>(ps: Seq<PtyProcess<H>>) -> Map<Seq<char>, PtyProcess<H>> {
    Map::new(
        |k: Seq<char>| exists|i: int| 0 <= i < ps.len() && ps[i].id@ == k,
        |k: Seq<char>| ps[choose|i: int| 0 <= i < ps.len() && ps[i].id@ == k],
    )
}

proof fn lemma_map_of_entry<H>(ps: Seq<PtyProcess<H>>, i: int)
    requires
        unique_ids(ps),
        0 <= i < ps.len(),
    ensures
        map_of(ps).contains_key(ps[i].id@),
        map_of(ps)[ps[i].id@] == ps[i],
{
    let k = ps[i].id@;
    assert(exists|j: int| 0 <= j < ps.len() && ps[j].id@ == k);
    let j = choose|j: int| 0 <= j < ps.len() && ps[j].id@ == k;
    assert(i == j);
}

proof fn lemma_map_of_entries<H>(ps: Seq<PtyProcess<H>>)
    requires
        unique_ids(ps),
    ensures
        forall|i: int|
            0 <= i < ps.len() ==> map_of(ps).contains_key(#[trigger] ps[i].id@) && map_of(
                ps,
            )[ps[i].id@] == ps[i],
{
    assert forall|i: int| 0 <= i < ps.len() implies map_of(ps).contains_key(
        #[trigger] ps[i].id@,
    ) && map_of(ps)[ps[i].id@] == ps[i] by {
        lemma_map_of_entry(ps, i);
    }
}

proof fn lemma_map_of_update<H>(ps: Seq<PtyProcess<H>>, i: int, e: PtyProcess<H>)
    requires
        unique_ids(ps),
        0 <= i < ps.len(),
        e.id@ == ps[i].id@,
    ensures
        unique_ids(ps.update(i, e)),
        map_of(ps.update(i, e)) == map_of(ps).insert(ps[i].id@, e),
{
    let qs = ps.update(i, e);
    assert(unique_ids(qs));
    lemma_map_of_entries(ps);
    lemma_map_of_entries(qs);
    assert(map_of(qs) =~= map_of(ps).insert(ps[i].id@, e)) by {
        assert forall|k: Seq<char>| #[trigger] map_of(qs).contains_key(k) implies map_of(
            ps,
        ).insert(ps[i].id@, e).contains_key(k) && map_of(qs)[k] == map_of(ps).insert(
            ps[i].id@,
            e,
        )[k] by {
            let j = choose|j: int| 0 <= j < qs.len() && qs[j].id@ == k;
            if j != i {
                assert(ps[j] == qs[j]);
            }
        }
        assert forall|k: Seq<char>| #[trigger] map_of(ps).contains_key(k) implies map_of(
            qs,
        ).contains_key(k) by {
            let j = choose|j: int| 0 <= j < ps.len() && ps[j].id@ == k;
            assert(qs[j].id@ == ps[j].id@);
        }
    }
}

proof fn lemma_map_of_remove<H>(ps: Seq<PtyProcess<H>>, i: int)
    requires
        unique_ids(ps),
        0 <= i < ps.len(),
    ensures
        unique_ids(ps.remove(i)),
        map_of(ps.remove(i)) == map_of(ps).remove(ps[i].id@),
{
    let qs = ps.remove(i);
    assert forall|a: int, b: int|
        0 <= a < qs.len() && 0 <= b < qs.len() && a != b implies #[trigger] qs[a].id@
        != #[trigger] qs[b].id@ by {
        let a2 = if a < i { a } else { a + 1 };
        let b2 = if b < i { b } else { b + 1 };
        assert(qs[a] == ps[a2]);
        assert(qs[b] == ps[b2]);
    }
    lemma_map_of_entries(ps);
    lemma_map_of_entries(qs);
    let id = ps[i].id@;
    assert(map_of(qs) =~= map_of(ps).remove(id)) by {
        assert forall|k: Seq<char>| #[trigger] map_of(qs).contains_key(k) implies map_of(
            ps,
        ).remove(id).contains_key(k) && map_of(qs)[k] == map_of(ps)[k] by {
            let j = choose|j: int| 0 <= j < qs.len() && qs[j].id@ == k;
            let j2 = if j < i { j } else { j + 1 };
            assert(qs[j] == ps[j2]);
        }
        assert forall|k: Seq<char>| #[trigger] map_of(ps).remove(id).contains_key(k) implies map_of(
            qs,
        ).contains_key(k) by {
            let j = choose|j: int| 0 <= j < ps.len() && ps[j].id@ == k;
            let j2 = if j < i { j } else { j - 1 };
            assert(qs[j2] == ps[j]);
        }
    }
}

impl<H> PtyManager<H> {
    /// The live sessions, by id.
    pub closed spec fn sessions(&self) -> Map<Seq<char>, PtyProcess<H>> {
        map_of(self.processes@)
    }

    /// Every id this registry has handed out, live or not.
    pub closed spec fn issued(&self) -> Set<Seq<char>> {
        self.handed_out@
    }

    /// The serial number the next session gets.
    pub closed spec fn next_serial(&self) -> nat {
        self.next_serial as nat
    }

    /// The registry's invariant.
    pub closed spec fn wf(&self) -> bool {
        let ps = self.processes@;
        &&& unique_ids(ps)
        &&& forall|i: int| 0 <= i < ps.len() ==> self.handed_out@.contains(#[trigger] ps[i].id@)
        &&& forall|k: Seq<char>| #[trigger]
            self.handed_out@.contains(k) ==> k.len() > crate::ids::UUID_TEXT_LEN + 1
                && digits_value(id_serial_part(k)) < self.next_serial
    }

    /// An empty registry.
    pub fn new() -> (r: Self)
        ensures
            r.wf(),
            r.sessions() == Map::<Seq<char>, PtyProcess<H>>::empty(),
            r.issued() == Set::<Seq<char>>::empty(),
            r.next_serial() == 0,
    {
        PtyManager {
            processes: Vec::new(),
            next_serial: 0,
            handed_out: Ghost(Set::empty()),
        }
    }

    /// The position of the live session with id `id`.
    fn find(&self, id: &String) -> (r: Option<usize>)
        requires
            self.wf(),
        ensures
            match r {
                Some(i) => i < self.processes@.len() && self.processes@[i as int].id@ == id@,
                None => !self.sessions().contains_key(id@),
            },
    {
        let mut i: usize = 0;
        while i < self.processes.len()
            invariant
                self.wf(),
                i <= self.processes@.len(),
                forall|j: int| 0 <= j < i ==> self.processes@[j].id@ != id@,
            decreases self.processes@.len() - i,
        {
            if self.processes[i].id == *id {
                return Some(i);
            }
            i = i + 1;
        }
        None
    }

    /// Registers a newly spawned session with the given size and I/O ends,
    /// and returns its id: one never handed out before. Fails only when the
    /// serial numbers are used up.
    pub fn register(&mut self, io: H, cols: u16, rows: u16) -> (r: Result<String, PtyError>)
        requires
            old(self).wf(),
        ensures
            final(self).wf(),
            (r is Ok) <==> old(self).next_serial() < u64::MAX,
            match r {
                Ok(id) => {
                    &&& !old(self).issued().contains(id@)
                    &&& final(self).issued() == old(self).issued().insert(id@)
                    &&& final(self).sessions() == old(self).sessions().insert(
                        id@,
                        PtyProcess { id, cols, rows, io },
                    )
                    &&& final(self).next_serial() == old(self).next_serial() + 1
                },
                Err(e) => e == PtyError::SpawnFailure && *final(self) == *old(self),
            },
    {
        if self.next_serial == u64::MAX {
            return Err(PtyError::SpawnFailure);
        }
        let serial = self.next_serial;
        let id = session_id(serial);
        proof {
            lemma_decimal_value(serial as nat);
        }
        assert(!self.handed_out@.contains(id@));
        let ghost old_ps = self.processes@;
        let entry = PtyProcess { id: id.clone(), cols, rows, io };
        self.processes.push(entry);
        self.next_serial = serial + 1;
        self.handed_out = Ghost(self.handed_out@.insert(id@));
        proof {
            let ps = self.processes@;
            assert(unique_ids(ps));
            lemma_map_of_entries(ps);
            lemma_map_of_entries(old_ps);
            assert(map_of(ps) =~= map_of(old_ps).insert(id@, entry)) by {
                assert forall|k: Seq<char>| #[trigger] map_of(ps).contains_key(k) implies map_of(
                    old_ps,
                ).insert(id@, entry).contains_key(k) by {
                    let j = choose|j: int| 0 <= j < ps.len() && ps[j].id@ == k;
                    if j < old_ps.len() {
                        assert(old_ps[j] == ps[j]);
                    }
                }
                assert forall|k: Seq<char>| #[trigger] map_of(old_ps).contains_key(k) implies map_of(
                    ps,
                ).contains_key(k) && map_of(ps)[k] == map_of(old_ps)[k] by {
                    let j = choose|j: int| 0 <= j < old_ps.len() && old_ps[j].id@ == k;
                    assert(ps[j] == old_ps[j]);
                }
                assert(ps[old_ps.len() as int] == entry);
            }
        }
        Ok(id)
    }

    /// Finds the live session `id` so that the caller can write input to it
    /// through the returned I/O ends, then flush.
    pub fn write_to_pty(&mut self, id: &str) -> (r: Result<&mut H, PtyError>)
        requires
            old(self).wf(),
        ensures
            final(self).wf(),
            final(self).issued() == old(self).issued(),
            final(self).next_serial() == old(self).next_serial(),
            (r is Ok) <==> old(self).sessions().contains_key(id@),
            match r {
                Ok(h) => {
                    &&& *h == old(self).sessions()[id@].io
                    &&& final(self).sessions() == old(self).sessions().insert(
                        id@,
                        PtyProcess { io: *final(h), ..old(self).sessions()[id@] },
                    )
                },
                Err(e) => e == PtyError::NotFound && *final(self) == *old(self),
            },
    {
        let key = String::from_str(id);
        match self.find(&key) {
            None => Err(PtyError::NotFound),
            Some(i) => {
                let ghost old_ps = self.processes@;
                proof {
                    lemma_map_of_entries(old_ps);
                }
                let entry = &mut self.processes[i];
                let io = &mut entry.io;
                proof {
                    lemma_map_of_update(old_ps, i as int, PtyProcess { io: *final(io), ..old_ps[i as int] });
                }
                Ok(io)
            },
        }
    }

    /// Records a new terminal size for the live session `id` and hands out its
    /// I/O ends, so that the caller can pass the size on to the terminal.
    /// Fails with `NotFound` for an unknown id and with `InvalidSize` where
    /// `cols` or `rows` is zero.
    pub fn resize_pty(&mut self, id: &str, cols: u16, rows: u16) -> (r: Result<&mut H, PtyError>)
        requires
            old(self).wf(),
        ensures
            final(self).wf(),
            final(self).issued() == old(self).issued(),
            final(self).next_serial() == old(self).next_serial(),
            (r is Ok) <==> (old(self).sessions().contains_key(id@) && cols > 0 && rows > 0),
            match r {
                Ok(h) => {
                    &&& *h == old(self).sessions()[id@].io
                    &&& final(self).sessions() == old(self).sessions().insert(
                        id@,
                        PtyProcess { cols, rows, io: *final(h), ..old(self).sessions()[id@] },
                    )
                },
                Err(e) => {
                    &&& e == if old(self).sessions().contains_key(id@) {
                        PtyError::InvalidSize
                    } else {
                        PtyError::NotFound
                    }
                    &&& *final(self) == *old(self)
                },
            },
    {
        let key = String::from_str(id);
        match self.find(&key) {
            None => Err(PtyError::NotFound),
            Some(i) => {
                if cols == 0 || rows == 0 {
                    proof {
                        lemma_map_of_entries(self.processes@);
                    }
                    return Err(PtyError::InvalidSize);
                }
                let ghost old_ps = self.processes@;
                proof {
                    lemma_map_of_entries(old_ps);
                }
                let entry = &mut self.processes[i];
                entry.cols = cols;
                entry.rows = rows;
                let io = &mut entry.io;
                proof {
                    lemma_map_of_update(
                        old_ps,
                        i as int,
                        PtyProcess { cols, rows, io: *final(io), ..old_ps[i as int] },
                    );
                }
                Ok(io)
            },
        }
    }

    /// Removes the live session `id` and hands back its I/O ends, so that the
    /// caller can close its writer and end its child process. Used both for
    /// an explicit kill and when the session's output ends; whichever comes
    /// second finds nothing.
    pub fn kill_pty(&mut self, id: &str) -> (r: Result<H, PtyError>)
        requires
            old(self).wf(),
        ensures
            final(self).wf(),
            final(self).issued() == old(self).issued(),
            final(self).next_serial() == old(self).next_serial(),
            (r is Ok) <==> old(self).sessions().contains_key(id@),
            match r {
                Ok(h) => {
                    &&& h == old(self).sessions()[id@].io
                    &&& final(self).sessions() == old(self).sessions().remove(id@)
                },
                Err(e) => e == PtyError::NotFound && *final(self) == *old(self),
            },
    {
        let key = String::from_str(id);
        match self.find(&key) {
            None => Err(PtyError::NotFound),
            Some(i) => {
                let ghost old_ps = self.processes@;
                proof {
                    lemma_map_of_entries(old_ps);
                    lemma_map_of_remove(old_ps, i as int);
                }
                let gone = self.processes.remove(i);
                proof {
                    let ps = self.processes@;
                    assert forall|j: int| 0 <= j < ps.len() implies self.handed_out@.contains(
                        #[trigger] ps[j].id@,
                    ) by {
                        let j2 = if j < i { j } else { j + 1 };
                        assert(ps[j] == old_ps[j2]);
                    }
                }
                Ok(gone.io)
            },
        }
    }

    /// Whether `id` names a live session.
    pub fn is_live(&self, id: &str) -> (r: bool)
        requires
            self.wf(),
        ensures
            r == self.sessions().contains_key(id@),
    {
        let key = String::from_str(id);
        proof {
            lemma_map_of_entries(self.processes@);
        }
        self.find(&key).is_some()
    }

    /// The terminal size (columns, rows) recorded for the live session `id`.
    pub fn size_of(&self, id: &str) -> (r: Option<(u16, u16)>)
        requires
            self.wf(),
        ensures
            match r {
                Some(size) => self.sessions().contains_key(id@) && size == (
                    self.sessions()[id@].cols,
                    self.sessions()[id@].rows,
                ),
                None => !self.sessions().contains_key(id@),
            },
    {
        let key = String::from_str(id);
        proof {
            lemma_map_of_entries(self.processes@);
        }
        match self.find(&key) {
            Some(i) => Some((self.processes[i].cols, self.processes[i].rows)),
            None => None,
        }
    }

}

/// The shell a new session runs: the one asked for, else the environment's
/// default shell, else `/bin/sh`.
pub fn resolve_shell(requested: Option<String>, env_default: Option<String>) -> (r: String)
    ensures
        r@ == match requested {
            Some(s) => s@,
            None => match env_default {
                Some(s) => s@,
                None => "/bin/sh"@,
            },
        },
{
    match requested {
        Some(s) => s,
        None => match env_default {
            Some(s) => s,
            None => String::from_str("/bin/sh"),
        },
    }
}

/// An id that a registry never handed out names no live session, so every
/// operation on it finds nothing.
pub proof fn lemma_unissued_not_live<H>(m: PtyManager<H>, id: Seq<char>)
    requires
        m.wf(),
        !m.issued().contains(id),
    ensures
        !m.sessions().contains_key(id),
{
    m.lemma_live_issued();
}

/// After a session is removed (as `kill_pty` removes it), its id names no
/// live session, so writing, resizing or killing it finds nothing; and the
/// id stays among those handed out, which `register` never returns again.
pub proof fn lemma_removed_stays_gone<H>(before: PtyManager<H>, after: PtyManager<H>, id: Seq<char>)
    requires
        after.wf(),
        after.sessions() == before.sessions().remove(id),
        after.issued() == before.issued(),
    ensures
        !after.sessions().contains_key(id),
        before.wf() && before.sessions().contains_key(id) ==> after.issued().contains(id),
{
    if before.wf() {
        before.lemma_live_issued();
    }
}

impl<H> PtyManager<H> {
    proof fn lemma_live_issued(&self)
        requires
            self.wf(),
        ensures
            forall|k: Seq<char>| #[trigger] self.sessions().contains_key(k) ==> self.issued().contains(k),
    {
    }
}

} // verus!
