use vstd::prelude::*;

verus! {

/// What an event channel holds, as a value: every event ever published, in
/// publish order, and for each registered reader the absolute position up to
/// which it has consumed that history.
pub struct EventLog<E> {
    pub history: Seq<E>,
    pub cursors: Seq<nat>,
}

/// One operation on an event channel, used to state what readers observe over
/// an arbitrary run of publishes, registrations and reads.
pub enum LogOp<E> {
    Publish(E),
    Register,
    Read(nat),
}

impl<E> EventLog<E> {
    /// No cursor is ahead of the write head.
    pub open spec fn wf(self) -> bool {
        forall|i: int| 0 <= i < self.cursors.len() ==> self.cursors[i] <= self.history.len()
    }

    pub open spec fn empty() -> EventLog<E> {
        EventLog { history: Seq::empty(), cursors: Seq::empty() }
    }

    pub open spec fn publish(self, e: E) -> EventLog<E> {
        EventLog { history: self.history.push(e), cursors: self.cursors }
    }

    /// A new reader starts at the write head.
    pub open spec fn register(self) -> EventLog<E> {
        EventLog { history: self.history, cursors: self.cursors.push(self.history.len()) }
    }

    /// The events that reader `r` has not consumed yet.
    pub open spec fn unread(self, r: nat) -> Seq<E> {
        self.history.subrange(self.cursors[r as int] as int, self.history.len() as int)
    }

    /// Reader `r` has consumed everything published so far.
    pub open spec fn consume(self, r: nat) -> EventLog<E> {
        EventLog { history: self.history, cursors: self.cursors.update(r as int, self.history.len()) }
    }

    pub open spec fn apply(self, op: LogOp<E>) -> EventLog<E> {
        match op {
            LogOp::Publish(e) => self.publish(e),
            LogOp::Register => self.register(),
            LogOp::Read(r) => if r < self.cursors.len() {
                self.consume(r)
            } else {
                self
            },
        }
    }

    /// What reader `r` is handed by `op`.
    pub open spec fn seen_by(self, op: LogOp<E>, r: nat) -> Seq<E> {
        match op {
            LogOp::Read(k) => if k == r && r < self.cursors.len() {
                self.unread(r)
            } else {
                Seq::empty()
            },
            _ => Seq::empty(),
        }
    }
}

/// The log after running `ops` in order.
pub open spec fn replay<E>(log: EventLog<E>, ops: Seq<LogOp<E>>) -> EventLog<E>
    decreases ops.len(),
{
    if ops.len() == 0 {
        log
    } else {
        replay(log.apply(ops[0]), ops.drop_first())
    }
}

/// Everything reader `r` is handed while `ops` run, concatenated in order.
pub open spec fn observed<E>(log: EventLog<E>, ops: Seq<LogOp<E>>, r: nat) -> Seq<E>
    decreases ops.len(),
{
    if ops.len() == 0 {
        Seq::empty()
    } else {
        log.seen_by(ops[0], r) + observed(log.apply(ops[0]), ops.drop_first(), r)
    }
}

/// Over any run of operations, a registered reader is handed exactly the
/// events between its starting position and its final cursor, each once and
/// in publish order; the history published before the run is kept unchanged.
pub proof fn lemma_reader_sees_each_event_once<E>(log: EventLog<E>, ops: Seq<LogOp<E>>, r: nat)
    requires
        log.wf(),
        r < log.cursors.len(),
    ensures
        replay(log, ops).wf(),
        r < replay(log, ops).cursors.len(),
        log.history.len() <= replay(log, ops).history.len(),
        replay(log, ops).history.subrange(0, log.history.len() as int) == log.history,
        log.cursors[r as int] <= replay(log, ops).cursors[r as int],
        observed(log, ops, r) == replay(log, ops).history.subrange(
            log.cursors[r as int] as int,
            replay(log, ops).cursors[r as int] as int,
        ),
    decreases ops.len(),
{
    if ops.len() > 0 {
        let next = log.apply(ops[0]);
        let rest = ops.drop_first();
        assert(next.wf()) by {
            match ops[0] {
                LogOp::Register => {
                    assert forall|i: int| 0 <= i < next.cursors.len() implies next.cursors[i]
                        <= next.history.len() by {
                        if i < log.cursors.len() {
                            assert(next.cursors[i] == log.cursors[i]);
                        }
                    }
                },
                _ => {},
            }
        }
        assert(next.history.subrange(0, log.history.len() as int) == log.history);
        assert(r < next.cursors.len());
        lemma_reader_sees_each_event_once(next, rest, r);
        let fin = replay(next, rest);
        assert(replay(log, ops) == fin);
        assert(fin.history.subrange(0, next.history.len() as int) == next.history);
        assert(fin.history.subrange(0, log.history.len() as int) == log.history) by {
            assert(fin.history.subrange(0, log.history.len() as int) =~= fin.history.subrange(
                0,
                next.history.len() as int,
            ).subrange(0, log.history.len() as int));
        }
        let a = log.cursors[r as int] as int;
        let b = next.cursors[r as int] as int;
        let c = fin.cursors[r as int] as int;
        assert(log.seen_by(ops[0], r) == fin.history.subrange(a, b)) by {
            assert(fin.history.subrange(a, b) =~= fin.history.subrange(
                0,
                log.history.len() as int,
            ).subrange(a, b));
            match ops[0] {
                LogOp::Read(k) => {
                    if k == r {
                        assert(b == log.history.len());
                    } else {
                        assert(b == a);
                    }
                },
                _ => {
                    assert(b == a);
                },
            }
        }
        assert(observed(log, ops, r) == log.seen_by(ops[0], r) + observed(next, rest, r));
        assert(fin.history.subrange(a, b) + fin.history.subrange(b, c) =~= fin.history.subrange(
            a,
            c,
        ));
    }
}

/// A reader registered on `log` is never handed an event published before its
/// registration: over any later run it sees exactly the events published after it.
pub proof fn lemma_new_reader_skips_earlier_events<E>(log: EventLog<E>, ops: Seq<LogOp<E>>)
    requires
        log.wf(),
    ensures
        observed(log.register(), ops, log.cursors.len()) == replay(
            log.register(),
            ops,
        ).history.subrange(
            log.history.len() as int,
            replay(log.register(), ops).cursors[log.cursors.len() as int] as int,
        ),
{
    let reg = log.register();
    assert(reg.wf()) by {
        assert forall|i: int| 0 <= i < reg.cursors.len() implies reg.cursors[i]
            <= reg.history.len() by {
            if i < log.cursors.len() {
                assert(reg.cursors[i] == log.cursors[i]);
            }
        }
    }
    lemma_reader_sees_each_event_once(reg, ops, log.cursors.len());
}

/// A reader's handle into one event channel.
pub struct ReaderId {
    id: usize,
}

impl ReaderId {
    /// The position of this reader among the channel's cursors.
    pub closed spec fn index(&self) -> nat {
        self.id as nat
    }
}

/// An append-only, multi-reader log of events. Published events sit in a
/// buffer; each reader's cursor is kept as an offset into it, and the prefix
/// that every reader has passed is dropped.
pub struct EventChannel<E> {
    buffer: Vec<E>,
    cursors: Vec<usize>,
    history: Ghost<Seq<E>>,
    trimmed: Ghost<nat>,
}

impl<E> View for EventChannel<E> {
    type V = EventLog<E>;

    closed spec fn view(&self) -> EventLog<E> {
        EventLog {
            history: self.history@,
            cursors: self.cursors@.map_values(|c: usize| (self.trimmed@ + c) as nat),
        }
    }
}

impl<E: Copy> EventChannel<E> {
    pub closed spec fn wf(&self) -> bool {
        &&& self.trimmed@ <= self.history@.len()
        &&& self.buffer@ == self.history@.subrange(
            self.trimmed@ as int,
            self.history@.len() as int,
        )
        &&& forall|i: int| 0 <= i < self.cursors@.len() ==> self.cursors@[i] <= self.buffer@.len()
    }

    pub proof fn lemma_wf_view(&self)
        requires
            self.wf(),
        ensures
            self@.wf(),
    {
        assert forall|i: int| 0 <= i < self@.cursors.len() implies self@.cursors[i]
            <= self@.history.len() by {
            assert(self.cursors@[i] <= self.buffer@.len());
        }
    }

    /// An empty channel with no readers.
    pub fn new() -> (c: Self)
        ensures
            c.wf(),
            c@ == EventLog::<E>::empty(),
    {
        let c = EventChannel {
            buffer: Vec::new(),
            cursors: Vec::new(),
            history: Ghost(Seq::empty()),
            trimmed: Ghost(0),
        };
        assert(c@.cursors =~= Seq::<nat>::empty());
        assert(c.buffer@ =~= c.history@.subrange(0, 0));
        c
    }

    /// Registers a reader positioned at the write head.
    pub fn register_reader(&mut self) -> (r: ReaderId)
        requires
            old(self).wf(),
        ensures
            final(self).wf(),
            final(self)@ == old(self)@.register(),
            r.index() == old(self)@.cursors.len(),
    {
        let id = self.cursors.len();
        let head = self.buffer.len();
        self.cursors.push(head);
        assert(self@.cursors =~= old(self)@.cursors.push(old(self)@.history.len()));
        ReaderId { id }
    }

    /// Appends an event, visible to every reader on its next read.
    pub fn single_write(&mut self, e: E)
        requires
            old(self).wf(),
        ensures
            final(self).wf(),
            final(self)@ == old(self)@.publish(e),
    {
        self.buffer.push(e);
        self.history = Ghost(self.history@.push(e));
        assert(self.buffer@ =~= self.history@.subrange(
            self.trimmed@ as int,
            self.history@.len() as int,
        ));
        assert(self@.cursors =~= old(self)@.cursors);
    }

    /// Hands `reader` every event published since its last read, in publish
    /// order, and moves its cursor to the write head.
    pub fn read(&mut self, reader: &ReaderId) -> (events: Vec<E>)
        requires
            old(self).wf(),
            reader.index() < old(self)@.cursors.len(),
        ensures
            final(self).wf(),
            events@ == old(self)@.unread(reader.index()),
            final(self)@ == old(self)@.consume(reader.index()),
    {
        let start = self.cursors[reader.id];
        let mut events: Vec<E> = Vec::new();
        let mut i: usize = start;
        while i < self.buffer.len()
            invariant
                self.wf(),
                *self == *old(self),
                reader.index() < self.cursors@.len(),
                start == self.cursors@[reader.index() as int],
                start <= i <= self.buffer@.len(),
                events@ == self.buffer@.subrange(start as int, i as int),
            decreases self.buffer@.len() - i,
        {
            events.push(self.buffer[i]);
            i = i + 1;
            assert(events@ =~= self.buffer@.subrange(start as int, i as int));
        }
        proof {
            let t = self.trimmed@ as int;
            assert(events@ =~= self.history@.subrange(t + start, self.history@.len() as int));
        }
        let head = self.buffer.len();
        self.cursors.set(reader.id, head);
        assert(self@.cursors =~= old(self)@.cursors.update(
            reader.index() as int,
            old(self)@.history.len(),
        ));
        self.trim();
        events
    }

    /// Drops the buffered prefix that every reader has already passed.
    fn trim(&mut self)
        requires
            old(self).wf(),
        ensures
            final(self).wf(),
            final(self)@ == old(self)@,
    {
        if self.cursors.len() == 0 {
            return ;
        }
        let mut low: usize = self.cursors[0];
        let mut k: usize = 1;
        while k < self.cursors.len()
            invariant
                self.wf(),
                *self == *old(self),
                1 <= k <= self.cursors@.len(),
                low <= self.buffer@.len(),
                forall|j: int| 0 <= j < k ==> low <= self.cursors@[j],
            decreases self.cursors@.len() - k,
        {
            if self.cursors[k] < low {
                low = self.cursors[k];
            }
            k = k + 1;
        }
        if low == 0 {
            return ;
        }
        let mut kept: Vec<E> = Vec::new();
        let mut i: usize = low;
        while i < self.buffer.len()
            invariant
                self.wf(),
                *self == *old(self),
                low <= i <= self.buffer@.len(),
                kept@ == self.buffer@.subrange(low as int, i as int),
            decreases self.buffer@.len() - i,
        {
            kept.push(self.buffer[i]);
            i = i + 1;
            assert(kept@ =~= self.buffer@.subrange(low as int, i as int));
        }
        let mut shifted: Vec<usize> = Vec::new();
        let mut j: usize = 0;
        while j < self.cursors.len()
            invariant
                self.wf(),
                *self == *old(self),
                j <= self.cursors@.len(),
                forall|m: int| 0 <= m < self.cursors@.len() ==> low <= self.cursors@[m],
                shifted@.len() == j,
                forall|m: int| 0 <= m < j ==> shifted@[m] + low == self.cursors@[m],
            decreases self.cursors@.len() - j,
        {
            shifted.push(self.cursors[j] - low);
            j = j + 1;
        }
        let ghost old_view = self@;
        self.buffer = kept;
        self.cursors = shifted;
        self.trimmed = Ghost((self.trimmed@ + low) as nat);
        assert(self.buffer@ =~= self.history@.subrange(
            self.trimmed@ as int,
            self.history@.len() as int,
        ));
        assert(self@.cursors =~= old_view.cursors);
        assert forall|m: int| 0 <= m < self.cursors@.len() implies self.cursors@[m]
            <= self.buffer@.len() by {
            assert(old(self).cursors@[m] <= old(self).buffer@.len());
        }
    }
}

} // verus!
