use vstd::prelude::*;
use crate::text::{copy_from, lossy_text, text_of};

verus! {

/// Events closer than this many milliseconds to the last accepted one are dropped.
pub const DEBOUNCE_MS: u64 = 1000;

/// Decides which file-system events under a plans directory are reported.
pub struct PlanDebouncer {
    last_ms: Option<u64>,
}

impl PlanDebouncer {
    /// When the last event was accepted, in milliseconds on the caller's clock.
    pub closed spec fn last_view(&self) -> Option<u64> {
        self.last_ms
    }

    /// A debouncer that has accepted nothing yet.
    pub fn new() -> (r: PlanDebouncer)
        ensures
            r.last_view() is None,
    {
        PlanDebouncer { last_ms: None }
    }

    /// Whether an event at `now_ms` is reported: it must create or modify a file
    /// (`relevant`) and come at least `DEBOUNCE_MS` after the last accepted one,
    /// which it then becomes.
    pub fn accept(&mut self, relevant: bool, now_ms: u64) -> (r: bool)
        ensures
            r == (relevant && match old(self).last_view() {
                None => true,
                Some(t) => now_ms >= t && now_ms - t >= DEBOUNCE_MS,
            }),
            r ==> final(self).last_view() == Some(now_ms),
            !r ==> final(self).last_view() == old(self).last_view(),
    {
        if !relevant {
            return false;
        }
        let due = match self.last_ms {
            None => true,
            Some(t) => now_ms >= t && now_ms - t >= DEBOUNCE_MS,
        };
        if due {
            self.last_ms = Some(now_ms);
        }
        due
    }
}

/// Index just past the last `/` of `p`, or 0.
pub open spec fn name_start(p: Seq<u8>) -> int
    decreases p.len(),
{
    if p.len() == 0 {
        0
    } else if p.last() == 47u8 {
        p.len() as int
    } else {
        name_start(p.drop_last())
    }
}

/// The last component of a `/`-separated path.
pub open spec fn file_name(p: Seq<u8>) -> Seq<u8> {
    p.skip(name_start(p))
}

/// A file name ends in `.md` after a non-empty stem.
pub open spec fn is_markdown(name: Seq<u8>) -> bool {
    name.len() > 3 && name[name.len() - 3] == 46u8 && name[name.len() - 2] == 109u8 && name[name.len()
        - 1] == 100u8
}

proof fn lemma_name_start_bounds(p: Seq<u8>)
    ensures
        0 <= name_start(p) <= p.len(),
    decreases p.len(),
{
    if p.len() > 0 && p.last() != 47u8 {
        lemma_name_start_bounds(p.drop_last());
    }
}

/// The name of a changed file under the plans directory when it is a markdown plan.
pub fn plan_file_name(path: &[u8]) -> (r: Option<String>)
    ensures
        r is Some <==> is_markdown(file_name(path@)),
        r is Some ==> r->0@ == lossy_text(file_name(path@)),
{
    let mut i: usize = path.len();
    proof { lemma_name_start_bounds(path@); }
    assert(path@.take(path@.len() as int) =~= path@);
    while i > 0 && path[i - 1] != 47u8
        invariant
            i <= path@.len(),
            name_start(path@.take(i as int)) == name_start(path@),
        decreases i,
    {
        assert(path@.take(i as int).drop_last() =~= path@.take(i - 1));
        i = i - 1;
    }
    proof {
        if i > 0 {
            assert(path@.take(i as int).last() == 47u8);
        } else {
            assert(path@.take(0) =~= Seq::<u8>::empty());
        }
    }
    let name = copy_from(path, i);
    let n = name.len();
    if n > 3 && name[n - 3] == 46u8 && name[n - 2] == 109u8 && name[n - 1] == 100u8 {
        Some(text_of(name.as_slice()))
    } else {
        None
    }
}

} // verus!
