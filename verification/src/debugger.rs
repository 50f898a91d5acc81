use vstd::prelude::*;

use crate::json::{JsonValue, JsonView, views, lemma_views_push};

verus! {

broadcast use vstd::std_specs::vec::group_vec_axioms;

/// One-event-at-a-time cursor over a list of events.
///
/// The position is -1 before the first event, an index while on an event,
/// and the number of events once the cursor has run past the end.
pub struct Debugger {
    events: Vec<JsonValue>,
    pos: i64,
}

/// Where a step forward from `p` lands among `n` events: on the next event,
/// or past the end when there is none.
pub open spec fn next_pos(p: int, n: int) -> int {
    if p + 1 >= n {
        n
    } else {
        p + 1
    }
}

/// Where a step back from `p` lands: on the event before, or before the
/// start when there is none.
pub open spec fn prev_pos(p: int) -> int {
    if p <= 0 {
        -1
    } else {
        p - 1
    }
}

/// The event at position `p`, if `p` is on one.
pub open spec fn event_at(events: Seq<JsonView>, p: int) -> Option<JsonView> {
    if 0 <= p < events.len() {
        Some(events[p])
    } else {
        None
    }
}

/// The first index after position `p` that a look-ahead starts at, within
/// the events.
pub open spec fn ahead_start(p: int, n: int) -> int {
    if p + 1 < 0 {
        0
    } else if p + 1 > n {
        n
    } else {
        p + 1
    }
}

/// The end of a look-ahead of `window` events from `start`, within the events.
pub open spec fn ahead_end(start: int, window: int, n: int) -> int {
    if start + window > n {
        n
    } else {
        start + window
    }
}

impl View for Debugger {
    /// The events, and the position.
    type V = (Seq<JsonView>, int);

    open spec fn view(&self) -> (Seq<JsonView>, int) {
        (views(self.items()), self.cursor())
    }
}

impl Debugger {
    #[verifier::type_invariant]
    spec fn well_formed(self) -> bool {
        &&& -1 <= self.pos <= self.events@.len()
        &&& self.events@.len() < i64::MAX
    }

    /// The events as they are held.
    pub closed spec fn items(&self) -> Seq<JsonValue> {
        self.events@
    }

    /// The position: -1 before the first event, an index on an event, the
    /// number of events past the end.
    pub closed spec fn cursor(&self) -> int {
        self.pos as int
    }

    /// A cursor before the first of `events`.
    pub(crate) fn new(events: Vec<JsonValue>) -> (r: Debugger)
        requires
            events@.len() < i64::MAX,
        ensures
            r@ == (views(events@), -1int),
            r.items() == events@,
    {
        Debugger { events, pos: -1 }
    }

    /// Zero-based index of the current event, or -1 before any `next()`.
    /// The position always lies between -1 and the number of events.
    pub fn position(&self) -> (r: i64)
        ensures
            r == self@.1,
            -1 <= r <= self@.0.len(),
    {
        proof {
            use_type_invariant(self);
        }
        self.pos
    }

    /// The current event, or `None` before the start or past the end.
    pub fn current(&self) -> (r: Option<&JsonValue>)
        ensures
            -1 <= self@.1 <= self@.0.len(),
            match r {
                Some(v) => event_at(self@.0, self@.1) == Some(v@),
                None => event_at(self@.0, self@.1) is None,
            },
    {
        proof {
            use_type_invariant(self);
        }
        if self.pos >= 0 && self.pos < self.events.len() as i64 {
            Some(&self.events[self.pos as usize])
        } else {
            None
        }
    }

    /// Advance one step. Returns the new current event, or `None` at the end.
    pub fn next(&mut self) -> (r: Option<&JsonValue>)
        ensures
            final(self)@.0 == old(self)@.0,
            final(self)@.1 == next_pos(old(self)@.1, old(self)@.0.len() as int),
            final(self).items() == old(self).items(),
            match r {
                Some(v) => event_at(final(self)@.0, final(self)@.1) == Some(v@),
                None => event_at(final(self)@.0, final(self)@.1) is None,
            },
    {
        proof {
            use_type_invariant(&*self);
        }
        let n = self.events.len() as i64;
        let next = self.pos + 1;
        if next >= n {
            self.pos = n;
            return None;
        }
        self.pos = next;
        Some(&self.events[next as usize])
    }

    /// Move back one step. Returns the new current event, or `None` at the start.
    pub fn prev(&mut self) -> (r: Option<&JsonValue>)
        ensures
            final(self)@.0 == old(self)@.0,
            final(self)@.1 == prev_pos(old(self)@.1),
            final(self).items() == old(self).items(),
            match r {
                Some(v) => event_at(final(self)@.0, final(self)@.1) == Some(v@),
                None => event_at(final(self)@.0, final(self)@.1) is None,
            },
    {
        proof {
            use_type_invariant(&*self);
        }
        if self.pos <= 0 {
            self.pos = -1;
            return None;
        }
        let n = self.events.len();
        let p = self.pos - 1;
        assert(0 <= p < n);
        let idx = p as usize;
        self.pos = p;
        Some(&self.events[idx])
    }

    /// Move to the event at `idx` and return it; an index past the last
    /// event moves the cursor past the end and returns `None`.
    pub fn seek(&mut self, idx: usize) -> (r: Option<&JsonValue>)
        ensures
            final(self)@.0 == old(self)@.0,
            final(self).items() == old(self).items(),
            final(self)@.1 == (if idx < old(self)@.0.len() {
                idx as int
            } else {
                old(self)@.0.len() as int
            }),
            match r {
                Some(v) => event_at(final(self)@.0, final(self)@.1) == Some(v@),
                None => event_at(final(self)@.0, final(self)@.1) is None,
            },
    {
        proof {
            use_type_invariant(&*self);
        }
        let n = self.events.len();
        if idx < n {
            self.pos = idx as i64;
            Some(&self.events[idx])
        } else {
            self.pos = n as i64;
            None
        }
    }

    /// Reset the cursor to before the first event.
    pub fn reset(&mut self)
        ensures
            final(self)@ == (old(self)@.0, -1int),
            final(self).items() == old(self).items(),
    {
        proof {
            use_type_invariant(&*self);
        }
        self.pos = -1;
    }

    /// The next `window` events after the cursor (fewer at the end, none
    /// past the end), without moving it.
    pub fn peek(&self, window: usize) -> (r: Vec<JsonValue>)
        ensures
            views(r@) == self@.0.subrange(
                ahead_start(self@.1, self@.0.len() as int),
                ahead_end(
                    ahead_start(self@.1, self@.0.len() as int),
                    window as int,
                    self@.0.len() as int,
                ),
            ),
    {
        proof {
            use_type_invariant(self);
        }
        let n = self.events.len();
        let start: usize = if self.pos + 1 > n as i64 {
            n
        } else {
            (self.pos + 1) as usize
        };
        let end: usize = if window > n - start {
            n
        } else {
            start + window
        };
        let mut out: Vec<JsonValue> = Vec::new();
        let mut i: usize = start;
        while i < end
            invariant
                start <= i <= end <= n,
                n == self.events@.len(),
                views(out@) == views(self.events@).subrange(start as int, i as int),
            decreases end - i,
        {
            let ghost before = out@;
            out.push(self.events[i].duplicate());
            proof {
                lemma_views_push(before, out@.last());
            }
            assert(views(out@) =~= views(self.events@).subrange(start as int, i + 1));
            i = i + 1;
        }
        out
    }

    /// Advance until `predicate` holds for the event reached, and return a
    /// copy of that event; `None`, with the cursor past the end, if no
    /// later event satisfies it.
    pub fn find<F: Fn(&JsonValue) -> bool>(&mut self, predicate: F) -> (r: Option<JsonValue>)
        requires
            forall|i: int|
                0 <= i < old(self).items().len() ==> call_requires(
                    predicate,
                    (&old(self).items()[i],),
                ),
        ensures
            final(self)@.0 == old(self)@.0,
            final(self).items() == old(self).items(),
            match r {
                Some(v) => {
                    &&& old(self)@.1 < final(self)@.1 < old(self)@.0.len()
                    &&& v@ == old(self)@.0[final(self)@.1]
                    &&& call_ensures(predicate, (&old(self).items()[final(self)@.1],), true)
                },
                None => final(self)@.1 == old(self)@.0.len(),
            },
            forall|j: int|
                old(self)@.1 < j < final(self)@.1 && j < old(self)@.0.len() ==> call_ensures(
                    predicate,
                    (&old(self).items()[j],),
                    false,
                ),
    {
        proof {
            use_type_invariant(&*self);
        }
        let ghost p0 = self.pos as int;
        loop
            invariant
                self.items() == old(self).items(),
                self@.0 == old(self)@.0,
                p0 == old(self)@.1,
                p0 <= self@.1 <= self@.0.len(),
                forall|i: int|
                    0 <= i < old(self).items().len() ==> call_requires(
                        predicate,
                        (&old(self).items()[i],),
                    ),
                forall|j: int|
                    p0 < j <= self@.1 && j < self@.0.len() ==> call_ensures(
                        predicate,
                        (&old(self).items()[j],),
                        false,
                    ),
            decreases self@.0.len() - self@.1,
        {
            proof {
                use_type_invariant(&*self);
            }
            let n = self.events.len() as i64;
            let next = self.pos + 1;
            if next >= n {
                self.pos = n;
                return None;
            }
            self.pos = next;
            let ev = &self.events[next as usize];
            if predicate(ev) {
                let v = ev.duplicate();
                return Some(v);
            }
        }
    }

    /// Every event after the cursor, in order, leaving the cursor past the end.
    pub fn collect_rest(&mut self) -> (r: Vec<JsonValue>)
        ensures
            final(self)@ == (old(self)@.0, old(self)@.0.len() as int),
            final(self).items() == old(self).items(),
            views(r@) == old(self)@.0.subrange(
                ahead_start(old(self)@.1, old(self)@.0.len() as int),
                old(self)@.0.len() as int,
            ),
    {
        proof {
            use_type_invariant(&*self);
        }
        let n = self.events.len();
        let start: usize = if self.pos + 1 > n as i64 {
            n
        } else {
            (self.pos + 1) as usize
        };
        let mut out: Vec<JsonValue> = Vec::new();
        let mut i: usize = start;
        while i < n
            invariant
                start <= i <= n,
                n == self.events@.len(),
                views(out@) == views(self.events@).subrange(start as int, i as int),
            decreases n - i,
        {
            let ghost before = out@;
            out.push(self.events[i].duplicate());
            proof {
                lemma_views_push(before, out@.last());
            }
            assert(views(out@) =~= views(self.events@).subrange(start as int, i + 1));
            i = i + 1;
        }
        self.pos = n as i64;
        out
    }
}

} // verus!
