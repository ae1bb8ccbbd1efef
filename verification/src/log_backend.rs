//! A backend for exercising the cache: it stores nothing, echoes every
//! index back as the item itself, and logs each call it receives, so a
//! test can check exactly which loads and write-backs an operation caused.

use crate::backend::CacheBackend;
use vstd::prelude::*;

verus! {

/// One call a `LogBackend` received: a load of an index, or a write-back
/// of an index together with its dirty bit.
#[derive(PartialEq, Eq, Debug, Clone, Copy)]
pub enum Log {
    Load(usize),
    Write(usize, bool),
}

/// The queue of logged calls, oldest first.
enum Events {
    Nil,
    More(Log, Box<Events>),
}

/// The calls an `Events` queue holds, oldest first.
spec fn seq_of(ev: Events) -> Seq<Log>
    decreases ev,
{
    match ev {
        Events::Nil => Seq::empty(),
        Events::More(e, rest) => seq![e].add(seq_of(*rest)),
    }
}

/// The queue holding exactly the calls of `s`.
spec fn events_of(s: Seq<Log>) -> Events
    decreases s.len(),
{
    if s.len() == 0 {
        Events::Nil
    } else {
        Events::More(s[0], Box::new(events_of(s.drop_first())))
    }
}

/// A queue is determined by the calls it holds.
proof fn lemma_events_canonical(ev: Events)
    ensures
        events_of(seq_of(ev)) == ev,
    decreases ev,
{
    match ev {
        Events::Nil => {
            assert(seq_of(ev) =~= Seq::<Log>::empty());
        },
        Events::More(e, rest) => {
            lemma_events_canonical(*rest);
            assert(seq_of(ev)[0] == e);
            assert(seq_of(ev).len() > 0);
            assert(seq_of(ev).drop_first() =~= seq_of(*rest));
        },
    }
}

/// A queue built from given calls holds exactly those calls.
proof fn lemma_events_seq(s: Seq<Log>)
    ensures
        seq_of(events_of(s)) == s,
    decreases s.len(),
{
    if s.len() == 0 {
        assert(seq_of(events_of(s)) =~= s);
    } else {
        lemma_events_seq(s.drop_first());
        assert(seq_of(events_of(s)) =~= s);
    }
}

/// A backend that echoes each index as its item and logs every call.
pub struct LogBackend {
    events: Events,
}

impl LogBackend {
    /// The calls received so far, oldest first.
    pub closed spec fn log(&self) -> Seq<Log> {
        seq_of(self.events)
    }

    /// A backend with an empty call log.
    pub fn new() -> (r: Self)
        ensures
            r.log() == Seq::<Log>::empty(),
    {
        let r = LogBackend { events: Events::Nil };
        proof {
            assert(r.log() =~= Seq::<Log>::empty());
        }
        r
    }

    /// Append a call at the back of a queue.
    fn push_event(ev: Events, e: Log) -> (r: Events)
        ensures
            seq_of(r) == seq_of(ev).push(e),
        decreases ev,
    {
        let ghost gev = ev;
        match ev {
            Events::Nil => {
                let r = Events::More(e, Box::new(Events::Nil));
                proof {
                    assert(seq_of(r) =~= seq_of(gev).push(e));
                }
                r
            },
            Events::More(h, t) => {
                let ghost tail = *t;
                let r = Events::More(h, Box::new(Self::push_event(*t, e)));
                proof {
                    assert(seq_of(r) == seq![h].add(seq_of(tail).push(e)));
                    assert(seq![h].add(seq_of(tail).push(e)) =~= seq![h].add(
                        seq_of(tail),
                    ).push(e));
                }
                r
            },
        }
    }

    /// Take the oldest logged call, if any.
    pub fn pop_front(&mut self) -> (r: Option<Log>)
        ensures
            old(self).log().len() == 0 ==> r.is_none() && final(self).log() == old(self).log(),
            old(self).log().len() > 0 ==> r == Some(old(self).log()[0]) && final(self).log()
                == old(self).log().drop_first(),
    {
        let mut ev = Events::Nil;
        std::mem::swap(&mut ev, &mut self.events);
        match ev {
            Events::Nil => None,
            Events::More(e, rest) => {
                self.events = *rest;
                proof {
                    assert(old(self).log().drop_first() =~= seq_of(self.events));
                }
                Some(e)
            },
        }
    }

    /// Whether no logged call is waiting.
    pub fn is_empty(&self) -> (r: bool)
        ensures
            r == (self.log().len() == 0),
    {
        match &self.events {
            Events::Nil => true,
            Events::More(_, _) => false,
        }
    }
}

impl CacheBackend for LogBackend {
    type Index = usize;

    type Item = usize;

    closed spec fn spec_weight(index: usize, item: usize) -> usize {
        1
    }

    closed spec fn spec_load(&self, index: usize) -> Option<usize> {
        Some(index)
    }

    closed spec fn spec_after_load(&self, index: usize) -> Self {
        LogBackend { events: events_of(self.log().push(Log::Load(index))) }
    }

    closed spec fn spec_after_write_back(&self, index: usize, item: usize, updated: bool) -> Self {
        LogBackend { events: events_of(self.log().push(Log::Write(index, updated))) }
    }

    fn load_from_backend(&mut self, index: &usize) -> (r: Option<usize>) {
        let mut ev = Events::Nil;
        std::mem::swap(&mut ev, &mut self.events);
        self.events = Self::push_event(ev, Log::Load(*index));
        proof {
            lemma_events_canonical(self.events);
        }
        Some(*index)
    }

    fn write_back(&mut self, index: usize, item: usize, updated: bool) {
        let mut ev = Events::Nil;
        std::mem::swap(&mut ev, &mut self.events);
        self.events = Self::push_event(ev, Log::Write(index, updated));
        proof {
            lemma_events_canonical(self.events);
        }
    }

    fn get_weight(&mut self, index: &usize, item: &usize) -> (w: usize) {
        1
    }
}

/// How a `LogBackend` behaves, stated over its log: every item weighs
/// one; a load returns the index itself and appends a load record; a
/// write-back appends a write record carrying the dirty bit.
pub proof fn lemma_log_backend_model(b: LogBackend, index: usize, item: usize, updated: bool)
    ensures
        LogBackend::spec_weight(index, item) == 1,
        b.spec_load(index) == Some(index),
        b.spec_after_load(index).log() == b.log().push(Log::Load(index)),
        b.spec_after_write_back(index, item, updated).log() == b.log().push(
            Log::Write(index, updated),
        ),
{
    lemma_events_seq(b.log().push(Log::Load(index)));
    lemma_events_seq(b.log().push(Log::Write(index, updated)));
}

/// A logging backend that charges each item its own value as weight, so
/// a test can drive the eviction loop past several entries at once, or
/// admit a single entry heavier than the whole capacity.
pub struct WeightedBackend {
    events: Events,
}

impl WeightedBackend {
    /// The calls received so far, oldest first.
    pub closed spec fn log(&self) -> Seq<Log> {
        seq_of(self.events)
    }

    /// A backend with an empty call log.
    pub fn new() -> (r: Self)
        ensures
            r.log() == Seq::<Log>::empty(),
    {
        let r = WeightedBackend { events: Events::Nil };
        proof {
            assert(r.log() =~= Seq::<Log>::empty());
        }
        r
    }

    /// Take the oldest logged call, if any.
    pub fn pop_front(&mut self) -> (r: Option<Log>)
        ensures
            old(self).log().len() == 0 ==> r.is_none() && final(self).log() == old(self).log(),
            old(self).log().len() > 0 ==> r == Some(old(self).log()[0]) && final(self).log()
                == old(self).log().drop_first(),
    {
        let mut ev = Events::Nil;
        std::mem::swap(&mut ev, &mut self.events);
        match ev {
            Events::Nil => None,
            Events::More(e, rest) => {
                self.events = *rest;
                proof {
                    assert(old(self).log().drop_first() =~= seq_of(self.events));
                }
                Some(e)
            },
        }
    }

    /// Whether no logged call is waiting.
    pub fn is_empty(&self) -> (r: bool)
        ensures
            r == (self.log().len() == 0),
    {
        match &self.events {
            Events::Nil => true,
            Events::More(_, _) => false,
        }
    }
}

impl CacheBackend for WeightedBackend {
    type Index = usize;

    type Item = usize;

    closed spec fn spec_weight(index: usize, item: usize) -> usize {
        item
    }

    closed spec fn spec_load(&self, index: usize) -> Option<usize> {
        Some(index)
    }

    closed spec fn spec_after_load(&self, index: usize) -> Self {
        WeightedBackend { events: events_of(self.log().push(Log::Load(index))) }
    }

    closed spec fn spec_after_write_back(&self, index: usize, item: usize, updated: bool) -> Self {
        WeightedBackend { events: events_of(self.log().push(Log::Write(index, updated))) }
    }

    fn load_from_backend(&mut self, index: &usize) -> (r: Option<usize>) {
        let mut ev = Events::Nil;
        std::mem::swap(&mut ev, &mut self.events);
        self.events = LogBackend::push_event(ev, Log::Load(*index));
        proof {
            lemma_events_canonical(self.events);
        }
        Some(*index)
    }

    fn write_back(&mut self, index: usize, item: usize, updated: bool) {
        let mut ev = Events::Nil;
        std::mem::swap(&mut ev, &mut self.events);
        self.events = LogBackend::push_event(ev, Log::Write(index, updated));
        proof {
            lemma_events_canonical(self.events);
        }
    }

    fn get_weight(&mut self, index: &usize, item: &usize) -> (w: usize) {
        *item
    }
}

/// How a `WeightedBackend` behaves, stated over its log: an item weighs
/// its own value; a load returns the index itself and appends a load
/// record; a write-back appends a write record carrying the dirty bit.
pub proof fn lemma_weighted_backend_model(b: WeightedBackend, index: usize, item: usize, updated: bool)
    ensures
        WeightedBackend::spec_weight(index, item) == item,
        b.spec_load(index) == Some(index),
        b.spec_after_load(index).log() == b.log().push(Log::Load(index)),
        b.spec_after_write_back(index, item, updated).log() == b.log().push(
            Log::Write(index, updated),
        ),
{
    lemma_events_seq(b.log().push(Log::Load(index)));
    lemma_events_seq(b.log().push(Log::Write(index, updated)));
}

} // verus!
