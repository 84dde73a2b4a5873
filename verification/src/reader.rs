use vstd::prelude::*;

verus! {

/// A full batch flushes as soon as this many records are pending.
pub const BUFFER_SIZE: usize = 100;

/// What the batcher's bounded wait on its input can yield: a record, a
/// debounce timeout, or closure of the input channel.
pub enum ReaderEvent {
    Line(String),
    TimedOut,
    Closed,
}

/// Mathematical value of a `ReaderEvent`.
pub enum ReaderEventModel {
    Line(Seq<char>),
    TimedOut,
    Closed,
}

impl DeepView for ReaderEvent {
    type V = ReaderEventModel;

    open spec fn deep_view(&self) -> ReaderEventModel {
        match self {
            ReaderEvent::Line(l) => ReaderEventModel::Line(l@),
            ReaderEvent::TimedOut => ReaderEventModel::TimedOut,
            ReaderEvent::Closed => ReaderEventModel::Closed,
        }
    }
}

/// Mathematical state of the batcher: everything accumulated since start,
/// and how many records are pending since the last flush.
pub struct ReaderModel {
    pub buffer: Seq<Seq<char>>,
    pub cnt: int,
}

/// A flush ships the whole accumulated buffer — not a delta — and resets
/// the pending count; with nothing pending it ships nothing.
pub open spec fn flush_spec(s: ReaderModel) -> (ReaderModel, Seq<Seq<Seq<char>>>) {
    if s.cnt == 0 {
        (s, Seq::empty())
    } else {
        (ReaderModel { buffer: s.buffer, cnt: 0 }, seq![s.buffer])
    }
}

/// One batcher step: a record is appended and counted, flushing when the
/// threshold fills; a timeout flushes whatever is pending; closure flushes
/// and ends the loop.
pub open spec fn reader_step(s: ReaderModel, ev: ReaderEventModel) -> (
    ReaderModel,
    Seq<Seq<Seq<char>>>,
    bool,
) {
    match ev {
        ReaderEventModel::Line(l) => {
            let s1 = ReaderModel { buffer: s.buffer.push(l), cnt: s.cnt + 1 };
            if s1.cnt >= BUFFER_SIZE {
                let (s2, out) = flush_spec(s1);
                (s2, out, false)
            } else {
                (s1, Seq::empty(), false)
            }
        },
        ReaderEventModel::TimedOut => {
            let (s2, out) = flush_spec(s);
            (s2, out, false)
        },
        ReaderEventModel::Closed => {
            let (s2, out) = flush_spec(s);
            (s2, out, true)
        },
    }
}

/// The batcher run over a sequence of wait outcomes: the snapshots it
/// ships, in order, stopping at channel closure.
pub open spec fn reader_run(s: ReaderModel, evs: Seq<ReaderEventModel>) -> (
    ReaderModel,
    Seq<Seq<Seq<char>>>,
)
    decreases evs.len(),
{
    if evs.len() == 0 {
        (s, Seq::empty())
    } else {
        let (s1, out1, done) = reader_step(s, evs[0]);
        if done {
            (s1, out1)
        } else {
            let (s2, out2) = reader_run(s1, evs.drop_first());
            (s2, out1 + out2)
        }
    }
}

/// The snapshots a flush hands out, as a sequence of zero or one.
pub open spec fn out_seq(o: Option<Vec<String>>) -> Seq<Seq<Seq<char>>> {
    match o {
        None => Seq::empty(),
        Some(v) => seq![v.deep_view()],
    }
}

/// The batcher: accumulates scanner records and ships full-corpus
/// snapshots downstream, on a full batch or after a quiet period.
pub struct Reader {
    buffer: Vec<String>,
    cnt: usize,
}

impl DeepView for Reader {
    type V = ReaderModel;

    closed spec fn deep_view(&self) -> ReaderModel {
        ReaderModel { buffer: self.buffer.deep_view(), cnt: self.cnt as int }
    }
}

impl Reader {
    /// The pending count never passes the threshold and counts records of
    /// the buffer.
    pub open spec fn wf(&self) -> bool {
        self.deep_view().cnt <= self.deep_view().buffer.len() && self.deep_view().cnt
            < BUFFER_SIZE
    }

    pub fn new() -> (r: Reader)
        ensures
            r.deep_view() == (ReaderModel { buffer: Seq::<Seq<char>>::empty(), cnt: 0 as int }),
            r.wf(),
    {
        let r = Reader { buffer: Vec::with_capacity(BUFFER_SIZE), cnt: 0 };
        proof {
            assert(r.deep_view().buffer =~= Seq::<Seq<char>>::empty());
        }
        r
    }

    /// Flush the pending batch: ship the whole accumulated buffer and reset
    /// the pending count; with nothing pending, ship nothing.
    pub fn send_buffer(&mut self) -> (out: Option<Vec<String>>)
        ensures
            final(self).wf(),
            final(self).deep_view() == flush_spec(old(self).deep_view()).0,
            out_seq(out) == flush_spec(old(self).deep_view()).1,
    {
        if self.cnt == 0 {
            return None;
        }
        self.cnt = 0;
        let copy = self.buffer.clone();
        proof {
            assert(out_seq(Some(copy)) =~= flush_spec(old(self).deep_view()).1);
        }
        Some(copy)
    }

    /// One step of the batcher loop, as `reader_step` states.
    pub fn handle(&mut self, ev: ReaderEvent) -> (r: (Option<Vec<String>>, bool))
        requires
            old(self).wf(),
        ensures
            final(self).wf(),
            final(self).deep_view() == reader_step(old(self).deep_view(), ev.deep_view()).0,
            out_seq(r.0) == reader_step(old(self).deep_view(), ev.deep_view()).1,
            r.1 == reader_step(old(self).deep_view(), ev.deep_view()).2,
    {
        match ev {
            ReaderEvent::Line(l) => {
                let ghost lm = l@;
                self.buffer.push(l);
                self.cnt = self.cnt + 1;
                proof {
                    assert(self.deep_view().buffer =~= old(self).deep_view().buffer.push(lm));
                }
                if self.cnt >= BUFFER_SIZE {
                    (self.send_buffer(), false)
                } else {
                    (None, false)
                }
            },
            ReaderEvent::TimedOut => (self.send_buffer(), false),
            ReaderEvent::Closed => (self.send_buffer(), true),
        }
    }

    /// The batcher loop over a sequence of wait outcomes: ships snapshots
    /// as `reader_run` states and stops at channel closure.
    pub fn run(&mut self, events: Vec<ReaderEvent>) -> (flushes: Vec<Vec<String>>)
        requires
            old(self).wf(),
        ensures
            final(self).wf(),
            final(self).deep_view() == reader_run(old(self).deep_view(), events.deep_view()).0,
            flushes.deep_view() == reader_run(old(self).deep_view(), events.deep_view()).1,
    {
        let ghost s0 = old(self).deep_view();
        let ghost e0 = events.deep_view();
        let mut evs = events;
        let mut flushes: Vec<Vec<String>> = Vec::new();
        let mut done = false;
        proof {
            assert(flushes.deep_view() =~= Seq::<Seq<Seq<char>>>::empty());
        }
        while !done && evs.len() > 0
            invariant
                self.wf(),
                done ==> reader_run(s0, e0).1 == flushes.deep_view() && reader_run(s0, e0).0
                    == self.deep_view(),
                !done ==> reader_run(s0, e0).1 == flushes.deep_view() + reader_run(
                    self.deep_view(),
                    evs.deep_view(),
                ).1 && reader_run(s0, e0).0 == reader_run(self.deep_view(), evs.deep_view()).0,
            decreases evs.len(),
        {
            let ghost pre = self.deep_view();
            let ghost pre_evs = evs.deep_view();
            let ghost pre_flushes = flushes.deep_view();
            let ev = evs.remove(0);
            proof {
                assert(evs.deep_view() =~= pre_evs.drop_first());
                assert(ev.deep_view() == pre_evs[0]);
            }
            let (flush, stop) = self.handle(ev);
            match flush {
                Some(f) => {
                    flushes.push(f);
                    proof {
                        assert(flushes.deep_view() =~= pre_flushes + out_seq(Some(f)));
                    }
                },
                None => {
                    proof {
                        assert(flushes.deep_view() =~= pre_flushes + out_seq(
                            None::<Vec<String>>,
                        ));
                    }
                },
            }
            done = stop;
            proof {
                let (s1, out1, d) = reader_step(pre, pre_evs[0]);
                if d {
                    assert(reader_run(pre, pre_evs).1 == out1);
                    assert(reader_run(pre, pre_evs).0 == s1);
                } else {
                    assert(reader_run(pre, pre_evs).1 == out1 + reader_run(
                        s1,
                        pre_evs.drop_first(),
                    ).1);
                }
            }
        }
        proof {
            if !done {
                assert(evs.deep_view().len() == 0);
                assert(reader_run(self.deep_view(), evs.deep_view()).1 =~= Seq::<
                    Seq<Seq<char>>,
                >::empty());
                assert(flushes.deep_view() + Seq::<Seq<Seq<char>>>::empty() =~= flushes.deep_view());
            }
        }
        flushes
    }
}

/// Feeding records that do not fill the threshold only accumulates: the
/// batcher ships nothing and keeps counting.
proof fn lemma_reader_accumulates(s: ReaderModel, records: Seq<Seq<char>>)
    requires
        0 <= s.cnt,
        s.cnt + records.len() < BUFFER_SIZE,
    ensures
        reader_run(s, records.map_values(|l: Seq<char>| ReaderEventModel::Line(l))) == (
            ReaderModel { buffer: s.buffer + records, cnt: s.cnt + records.len() },
            Seq::<Seq<Seq<char>>>::empty(),
        ),
    decreases records.len(),
{
    let f = |l: Seq<char>| ReaderEventModel::Line(l);
    let evs = records.map_values(f);
    if records.len() == 0 {
        assert(s.buffer + records =~= s.buffer);
        assert(reader_run(s, evs) == (s, Seq::<Seq<Seq<char>>>::empty()));
    } else {
        let s1 = ReaderModel { buffer: s.buffer.push(records[0]), cnt: s.cnt + 1 };
        assert(evs[0] == f(records[0]));
        assert(reader_step(s, evs[0]) == (s1, Seq::<Seq<Seq<char>>>::empty(), false));
        lemma_reader_accumulates(s1, records.drop_first());
        assert(evs.drop_first() =~= records.drop_first().map_values(f));
        assert(s1.buffer + records.drop_first() =~= s.buffer + records);
        assert(Seq::<Seq<Seq<char>>>::empty() + Seq::<Seq<Seq<char>>>::empty() =~= Seq::<
            Seq<Seq<char>>,
        >::empty());
    }
}

/// Feeding exactly the threshold number of records into a fresh batcher,
/// with no gaps, ships exactly one snapshot holding exactly those records.
pub proof fn lemma_reader_full_batch(records: Seq<Seq<char>>)
    requires
        records.len() == BUFFER_SIZE,
    ensures
        reader_run(
            ReaderModel { buffer: Seq::empty(), cnt: 0 },
            records.map_values(|l: Seq<char>| ReaderEventModel::Line(l)),
        ).1 == seq![records],
{
    let f = |l: Seq<char>| ReaderEventModel::Line(l);
    let s = ReaderModel { buffer: Seq::<Seq<char>>::empty(), cnt: 0 as int };
    let front = records.drop_last();
    let evs = records.map_values(f);
    let front_evs = front.map_values(f);
    let last_ev = f(records.last());
    assert(evs =~= front_evs + seq![last_ev]);
    lemma_reader_accumulates(s, front);
    let s1 = ReaderModel { buffer: s.buffer + front, cnt: front.len() as int };
    assert(reader_run(s, front_evs) == (s1, Seq::<Seq<Seq<char>>>::empty()));
    assert forall|k: int| 0 <= k < front_evs.len() implies !(front_evs[k] is Closed) by {
        assert(front_evs[k] == f(front[k]));
    }
    lemma_reader_run_concat(s, front_evs, seq![last_ev]);
    assert(reader_run(s, evs) == reader_run(s, front_evs + seq![last_ev]));
    let s2 = ReaderModel { buffer: s1.buffer.push(records.last()), cnt: s1.cnt + 1 };
    assert(s2.cnt == BUFFER_SIZE);
    assert(seq![last_ev][0] == last_ev);
    assert(reader_step(s1, last_ev) == (
        ReaderModel { buffer: s2.buffer, cnt: 0 as int },
        seq![s2.buffer],
        false,
    ));
    assert(seq![last_ev].drop_first() =~= Seq::<ReaderEventModel>::empty());
    assert(reader_run(ReaderModel { buffer: s2.buffer, cnt: 0 as int }, Seq::<ReaderEventModel>::empty()).1
        =~= Seq::<Seq<Seq<char>>>::empty());
    assert(reader_run(s1, seq![last_ev]).1 =~= seq![s2.buffer]);
    assert(s2.buffer =~= records);
    assert(reader_run(s, evs).1 =~= Seq::<Seq<Seq<char>>>::empty() + seq![s2.buffer]);
    assert(Seq::<Seq<Seq<char>>>::empty() + seq![s2.buffer] =~= seq![records]);
}

/// Feeding fewer records than the threshold and then waiting past the
/// debounce window ships exactly one snapshot holding exactly those records.
pub proof fn lemma_reader_debounce(records: Seq<Seq<char>>)
    requires
        0 < records.len() < BUFFER_SIZE,
    ensures
        reader_run(
            ReaderModel { buffer: Seq::empty(), cnt: 0 },
            records.map_values(|l: Seq<char>| ReaderEventModel::Line(l)) + seq![
                ReaderEventModel::TimedOut,
            ],
        ).1 == seq![records],
{
    let f = |l: Seq<char>| ReaderEventModel::Line(l);
    let s = ReaderModel { buffer: Seq::<Seq<char>>::empty(), cnt: 0 as int };
    let line_evs = records.map_values(f);
    let evs = line_evs + seq![ReaderEventModel::TimedOut];
    lemma_reader_accumulates(s, records);
    let s1 = ReaderModel { buffer: s.buffer + records, cnt: records.len() as int };
    assert(reader_run(s, line_evs) == (s1, Seq::<Seq<Seq<char>>>::empty()));
    assert forall|k: int| 0 <= k < line_evs.len() implies !(line_evs[k] is Closed) by {
        assert(line_evs[k] == f(records[k]));
    }
    lemma_reader_run_concat(s, line_evs, seq![ReaderEventModel::TimedOut]);
    assert(s1.cnt != 0);
    assert(seq![ReaderEventModel::TimedOut][0] == ReaderEventModel::TimedOut);
    assert(reader_step(s1, ReaderEventModel::TimedOut) == (
        ReaderModel { buffer: s1.buffer, cnt: 0 as int },
        seq![s1.buffer],
        false,
    ));
    assert(seq![ReaderEventModel::TimedOut].drop_first() =~= Seq::<ReaderEventModel>::empty());
    assert(reader_run(ReaderModel { buffer: s1.buffer, cnt: 0 as int }, Seq::<ReaderEventModel>::empty()).1
        =~= Seq::<Seq<Seq<char>>>::empty());
    assert(reader_run(s1, seq![ReaderEventModel::TimedOut]).1 =~= seq![s1.buffer]);
    assert(s1.buffer =~= records);
    assert(reader_run(s, evs).1 =~= Seq::<Seq<Seq<char>>>::empty() + seq![s1.buffer]);
    assert(Seq::<Seq<Seq<char>>>::empty() + seq![s1.buffer] =~= seq![records]);
}

/// A run splits at any point before the channel closes: the second leg
/// starts where the first left off, and the shipped snapshots concatenate.
proof fn lemma_reader_run_concat(s: ReaderModel, evs1: Seq<ReaderEventModel>, evs2: Seq<
    ReaderEventModel,
>)
    requires
        forall|k: int| 0 <= k < evs1.len() ==> !(evs1[k] is Closed),
    ensures
        reader_run(s, evs1 + evs2) == (
            reader_run(reader_run(s, evs1).0, evs2).0,
            reader_run(s, evs1).1 + reader_run(reader_run(s, evs1).0, evs2).1,
        ),
    decreases evs1.len(),
{
    if evs1.len() == 0 {
        assert(evs1 + evs2 =~= evs2);
        assert(reader_run(s, evs1) == (s, Seq::<Seq<Seq<char>>>::empty()));
        assert(Seq::<Seq<Seq<char>>>::empty() + reader_run(s, evs2).1 =~= reader_run(s, evs2).1);
    } else {
        let (s1, out1, d) = reader_step(s, evs1[0]);
        assert(!d);
        lemma_reader_run_concat(s1, evs1.drop_first(), evs2);
        assert((evs1 + evs2)[0] == evs1[0]);
        assert((evs1 + evs2).drop_first() =~= evs1.drop_first() + evs2);
        assert(out1 + (reader_run(s1, evs1.drop_first()).1 + reader_run(
            reader_run(s1, evs1.drop_first()).0,
            evs2,
        ).1) =~= (out1 + reader_run(s1, evs1.drop_first()).1) + reader_run(
            reader_run(s1, evs1.drop_first()).0,
            evs2,
        ).1);
    }
}

} // verus!
