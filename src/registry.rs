use vstd::prelude::*;
use crate::error::AppError;

verus! {

/// What a non-blocking liveness poll of a session's process found.
#[derive(Debug, Clone, Copy, PartialEq, Eq, Structural)]
pub enum Poll {
    /// The process is still running.
    Running,
    /// The process has exited.
    Exited,
    /// The poll itself failed; the session counts as dead.
    Failed,
}

pub open spec fn is_alive(p: Poll) -> bool {
    p == Poll::Running
}

/// The entries whose poll found them running, in order.
pub open spec fn surviving<S>(es: Seq<(Seq<char>, S)>, polls: Seq<Poll>) -> Seq<(Seq<char>, S)>
    decreases es.len(),
{
    if es.len() == 0 || polls.len() != es.len() {
        Seq::empty()
    } else {
        let r = surviving(es.drop_last(), polls.drop_last());
        if is_alive(polls.last()) {
            r.push(es.last())
        } else {
            r
        }
    }
}

/// `e` reports that no live session has identifier `id`.
pub open spec fn lookup_error(e: AppError, id: Seq<char>) -> bool {
    match e {
        AppError::SessionLookup(m) => m@ == id,
        _ => false,
    }
}

pub open spec fn ids_unique<S>(es: Seq<(Seq<char>, S)>) -> bool {
    forall|i: int, j: int| 0 <= i < es.len() && 0 <= j < es.len() && i != j ==> es[i].0 != es[j].0
}

pub open spec fn has_id<S>(es: Seq<(Seq<char>, S)>, id: Seq<char>) -> bool {
    exists|i: int| 0 <= i < es.len() && #[trigger] es[i].0 == id
}

/// The entries without the one named `id`.
pub open spec fn without<S>(es: Seq<(Seq<char>, S)>, id: Seq<char>) -> Seq<(Seq<char>, S)> {
    es.filter(|e: (Seq<char>, S)| e.0 != id)
}

/// The live sessions, keyed by agent identifier. `S` holds a session's handles.
pub struct SessionRegistry<S> {
    entries: Vec<(String, S)>,
}

impl<S> SessionRegistry<S> {
    /// The sessions with their identifiers, in order of insertion.
    pub closed spec fn view_entries(&self) -> Seq<(Seq<char>, S)> {
        self.entries@.map_values(|e: (String, S)| (e.0@, e.1))
    }

    /// No identifier occurs twice.
    pub open spec fn well_formed(&self) -> bool {
        ids_unique(self.view_entries())
    }

    pub open spec fn contains(&self, id: Seq<char>) -> bool {
        has_id(self.view_entries(), id)
    }

    /// An empty registry.
    pub fn new() -> (r: SessionRegistry<S>)
        ensures
            r.well_formed(),
            r.view_entries().len() == 0,
    {
        let r = SessionRegistry { entries: Vec::new() };
        assert(r.view_entries() =~= Seq::<(Seq<char>, S)>::empty());
        r
    }

    /// The number of sessions held.
    pub fn len(&self) -> (r: usize)
        ensures
            r == self.view_entries().len(),
    {
        self.entries.len()
    }

    fn position(&self, id: &String) -> (r: Option<usize>)
        requires
            self.well_formed(),
        ensures
            r is None <==> !self.contains(id@),
            r is Some ==> r->0 < self.view_entries().len() && self.view_entries()[r->0 as int].0
                == id@,
    {
        let mut i: usize = 0;
        while i < self.entries.len()
            invariant
                i <= self.entries@.len(),
                forall|m: int| 0 <= m < i ==> #[trigger] self.view_entries()[m].0 != id@,
            decreases self.entries@.len() - i,
        {
            if self.entries[i].0 == *id {
                assert(self.view_entries()[i as int].0 == id@);
                return Some(i);
            }
            i = i + 1;
        }
        None
    }

    /// The session of `id`, for a write or a resize; `SessionLookup` when none is live.
    pub fn lookup(&self, id: &String) -> (r: Result<&S, AppError>)
        requires
            self.well_formed(),
        ensures
            r is Ok <==> self.contains(id@),
            r is Ok ==> exists|i: int|
                0 <= i < self.view_entries().len() && self.view_entries()[i].0 == id@ && *r->Ok_0
                    == self.view_entries()[i].1,
            r is Err ==> lookup_error(r->Err_0, id@),
    {
        match self.position(id) {
            Some(i) => {
                assert(self.view_entries()[i as int].1 == self.entries@[i as int].1);
                Ok(&self.entries[i].1)
            },
            None => Err(AppError::SessionLookup(id.clone())),
        }
    }

    /// The session at position `i`, in order of insertion.
    pub fn session_at(&self, i: usize) -> (r: &S)
        requires
            i < self.view_entries().len(),
        ensures
            *r == self.view_entries()[i as int].1,
    {
        &self.entries[i].1
    }

    /// Removes the session of `id` and hands it back to be terminated. An unknown
    /// identifier leaves the registry as it was.
    pub fn remove(&mut self, id: &String) -> (r: Option<S>)
        requires
            old(self).well_formed(),
        ensures
            final(self).well_formed(),
            r is Some <==> old(self).contains(id@),
            !final(self).contains(id@),
            final(self).view_entries() == without(old(self).view_entries(), id@),
            !old(self).contains(id@) ==> final(self).view_entries() == old(self).view_entries(),
    {
        let ghost es = self.view_entries();
        proof { lemma_without_absent(es, id@); }
        match self.position(id) {
            Some(i) => {
                let (_, s) = self.entries.remove(i);
                proof { lemma_without_at(es, id@, i as int); }
                assert(self.view_entries() =~= es.remove(i as int));
                assert(ids_unique(self.view_entries())) by {
                    assert forall|a: int, b: int|
                        0 <= a < self.view_entries().len() && 0 <= b < self.view_entries().len()
                            && a != b implies self.view_entries()[a].0
                        != self.view_entries()[b].0 by {
                        let a2 = if a < i { a } else { a + 1 };
                        let b2 = if b < i { b } else { b + 1 };
                        assert(self.view_entries()[a] == es[a2]);
                        assert(self.view_entries()[b] == es[b2]);
                    }
                }
                assert forall|m: int| 0 <= m < self.view_entries().len() implies #[trigger] self.view_entries()[m].0 != id@ by {
                    let m2 = if m < i { m } else { m + 1 };
                    assert(self.view_entries()[m] == es[m2]);
                }
                Some(s)
            },
            None => None,
        }
    }

    /// Adds the session of `id`; a live session under the same identifier is replaced
    /// and handed back.
    pub fn insert(&mut self, id: String, s: S) -> (r: Option<S>)
        requires
            old(self).well_formed(),
        ensures
            final(self).well_formed(),
            r is Some <==> old(self).contains(id@),
            final(self).view_entries() == without(old(self).view_entries(), id@).push((id@, s)),
    {
        let previous = self.remove(&id);
        let ghost es = self.view_entries();
        self.entries.push((id, s));
        assert(self.view_entries() =~= es.push((id@, s)));
        assert(ids_unique(self.view_entries())) by {
            assert forall|a: int, b: int|
                0 <= a < self.view_entries().len() && 0 <= b < self.view_entries().len() && a
                    != b implies self.view_entries()[a].0 != self.view_entries()[b].0 by {
                if a < es.len() && b < es.len() {
                } else if a < es.len() {
                    assert(es[a].0 != id@);
                } else {
                    assert(es[b].0 != id@);
                }
            }
        }
        previous
    }

    /// Evicts the sessions whose poll (one per session, in order) did not find them
    /// running, and returns how many are left.
    pub fn retain_running(&mut self, polls: &Vec<Poll>) -> (r: usize)
        requires
            old(self).well_formed(),
            polls@.len() == old(self).view_entries().len(),
        ensures
            final(self).well_formed(),
            final(self).view_entries() == surviving(old(self).view_entries(), polls@),
            r == final(self).view_entries().len(),
    {
        let ghost es = self.view_entries();
        let mut kept: Vec<(String, S)> = Vec::new();
        let mut old_entries: Vec<(String, S)> = Vec::new();
        std::mem::swap(&mut old_entries, &mut self.entries);
        assert(old_entries@.map_values(|e: (String, S)| (e.0@, e.1)) == es);
        let n = old_entries.len();
        let mut rest: Vec<(String, S)> = Vec::new();
        let mut k: usize = n;
        while k > 0
            invariant
                k <= n,
                n == es.len(),
                n == polls@.len(),
                old_entries@.len() == k,
                forall|m: int| 0 <= m < k ==> (#[trigger] old_entries@[m].0@, old_entries@[m].1) == es[m],
                rest@.len() == n - k,
                forall|m: int| 0 <= m < n - k ==> (#[trigger] rest@[m].0@, rest@[m].1) == es[n - 1 - m],
            decreases k,
        {
            let e = old_entries.pop().unwrap();
            rest.push(e);
            k = k - 1;
        }
        let mut i: usize = 0;
        assert(surviving(es.take(0), polls@.take(0)) =~= Seq::<(Seq<char>, S)>::empty());
        assert(kept@.map_values(|e: (String, S)| (e.0@, e.1)) =~= Seq::<(Seq<char>, S)>::empty());
        while i < n
            invariant
                i <= n,
                n == es.len(),
                n == polls@.len(),
                rest@.len() == n - i,
                forall|m: int| 0 <= m < n - i ==> (#[trigger] rest@[m].0@, rest@[m].1) == es[n - 1 - m],
                kept@.map_values(|e: (String, S)| (e.0@, e.1)) == surviving(es.take(i as int), polls@.take(i as int)),
            decreases n - i,
        {
            let e = rest.pop().unwrap();
            assert(es.take(i + 1).drop_last() =~= es.take(i as int));
            assert(polls@.take(i + 1).drop_last() =~= polls@.take(i as int));
            let ghost before = kept@;
            if polls[i] == Poll::Running {
                kept.push(e);
                assert(kept@.map_values(|e: (String, S)| (e.0@, e.1)) =~= before.map_values(|e: (String, S)| (e.0@, e.1)).push(es[i as int]));
            }
            i = i + 1;
        }
        assert(es.take(n as int) =~= es);
        assert(polls@.take(n as int) =~= polls@);
        self.entries = kept;
        proof { lemma_surviving_subset(es, polls@); }
        self.entries.len()
    }

    /// Removes every session, handing them back with their identifiers in order.
    pub fn drain(&mut self) -> (r: Vec<(String, S)>)
        requires
            old(self).well_formed(),
        ensures
            final(self).well_formed(),
            final(self).view_entries().len() == 0,
            r@.map_values(|e: (String, S)| (e.0@, e.1)) == old(self).view_entries(),
    {
        let mut out: Vec<(String, S)> = Vec::new();
        std::mem::swap(&mut out, &mut self.entries);
        assert(self.view_entries() =~= Seq::<(Seq<char>, S)>::empty());
        out
    }
}

proof fn lemma_without_absent<S>(es: Seq<(Seq<char>, S)>, id: Seq<char>)
    ensures
        !has_id(es, id) ==> without(es, id) == es,
{
    if !has_id(es, id) {
        broadcast use vstd::seq_lib::group_filter_ensures;
        assert(without(es, id) =~= es) by {
            lemma_filter_keeps_all(es, id);
        }
    }
}

proof fn lemma_filter_keeps_all<S>(es: Seq<(Seq<char>, S)>, id: Seq<char>)
    requires
        !has_id(es, id),
    ensures
        without(es, id) =~= es,
    decreases es.len(),
{
    reveal(Seq::filter);
    if es.len() > 0 {
        assert(!has_id(es.drop_last(), id)) by {
            if has_id(es.drop_last(), id) {
                let i = choose|i: int| 0 <= i < es.drop_last().len() && #[trigger] es.drop_last()[i].0 == id;
                assert(es[i].0 == id);
            }
        }
        lemma_filter_keeps_all(es.drop_last(), id);
        assert(es.last().0 != id) by {
            assert(es[es.len() - 1].0 != id);
        }
        assert(es.drop_last().push(es.last()) =~= es);
    }
}

proof fn lemma_without_at<S>(es: Seq<(Seq<char>, S)>, id: Seq<char>, i: int)
    requires
        ids_unique(es),
        0 <= i < es.len(),
        es[i].0 == id,
    ensures
        without(es, id) =~= es.remove(i),
    decreases es.len(),
{
    reveal(Seq::filter);
    if i == es.len() - 1 {
        let d = es.drop_last();
        assert(!has_id(d, id)) by {
            if has_id(d, id) {
                let j = choose|j: int| 0 <= j < d.len() && #[trigger] d[j].0 == id;
                assert(es[j].0 == id);
            }
        }
        lemma_filter_keeps_all(d, id);
        assert(es.remove(i) =~= d);
    } else {
        let d = es.drop_last();
        assert(ids_unique(d)) by {
            assert forall|a: int, b: int| 0 <= a < d.len() && 0 <= b < d.len() && a != b implies d[a].0 != d[b].0 by {
                assert(d[a] == es[a]);
                assert(d[b] == es[b]);
            }
        }
        lemma_without_at(d, id, i);
        assert(es.last().0 != id) by {
            assert(es[es.len() - 1].0 != es[i].0);
        }
        assert(es.remove(i) =~= d.remove(i).push(es.last()));
    }
}

proof fn lemma_surviving_subset<S>(es: Seq<(Seq<char>, S)>, polls: Seq<Poll>)
    requires
        ids_unique(es),
        polls.len() == es.len(),
    ensures
        ids_unique(surviving(es, polls)),
        forall|j: int| 0 <= j < surviving(es, polls).len() ==> has_id(es, #[trigger] surviving(es, polls)[j].0),
    decreases es.len(),
{
    if es.len() > 0 {
        let d = es.drop_last();
        assert(ids_unique(d)) by {
            assert forall|a: int, b: int| 0 <= a < d.len() && 0 <= b < d.len() && a != b implies d[a].0 != d[b].0 by {
                assert(d[a] == es[a]);
                assert(d[b] == es[b]);
            }
        }
        lemma_surviving_subset(d, polls.drop_last());
        let r = surviving(d, polls.drop_last());
        assert forall|j: int| 0 <= j < r.len() implies has_id(es, #[trigger] r[j].0) by {
            let k = choose|k: int| 0 <= k < d.len() && #[trigger] d[k].0 == r[j].0;
            assert(es[k].0 == r[j].0);
        }
        if is_alive(polls.last()) {
            let s = r.push(es.last());
            assert forall|j: int| 0 <= j < r.len() implies #[trigger] r[j].0 != es.last().0 by {
                let k = choose|k: int| 0 <= k < d.len() && #[trigger] d[k].0 == r[j].0;
                assert(es[k].0 == r[j].0);
                assert(es[es.len() - 1] == es.last());
            }
            assert(ids_unique(s)) by {
                assert forall|a: int, b: int| 0 <= a < s.len() && 0 <= b < s.len() && a != b implies s[a].0 != s[b].0 by {
                    if a < r.len() && b < r.len() {
                        assert(s[a] == r[a]);
                        assert(s[b] == r[b]);
                    } else if a < r.len() {
                        assert(s[a] == r[a]);
                    } else {
                        assert(s[b] == r[b]);
                    }
                }
            }
            assert forall|j: int| 0 <= j < s.len() implies has_id(es, #[trigger] s[j].0) by {
                if j < r.len() {
                    assert(s[j] == r[j]);
                } else {
                    assert(es[es.len() - 1].0 == s[j].0);
                }
            }
        }
    }
}

} // verus!
