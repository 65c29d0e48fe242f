use vstd::prelude::*;

verus! {

/// Capacity of the queue between the listeners and the upload engine.
pub const QUEUE_CAPACITY: usize = 100;

/// How long after it opens a healthy session is closed and replaced.
pub const RECYCLE_AFTER_MS: u64 = 55_000;

/// A failed session is retried no earlier than this long after it opened.
pub const RETRY_SPACING_MS: u64 = 15_000;

/// The longest that one upload request may take in all.
pub const REQUEST_TIMEOUT_MS: u64 = 90_000;

/// Where the upload engine stands. Times are milliseconds on the engine's clock.
#[derive(Clone, Copy, Debug, PartialEq, Eq, Structural)]
pub enum Phase {
    /// No session is open.
    Idle,
    /// A session opened at `start` takes messages.
    Active { start: u64 },
    /// The session's body was closed for recycling; its outcome is awaited.
    Recycling,
    /// A failed session waits out the retry spacing, until `deadline`.
    Waiting { deadline: u64 },
    /// The queue closed; the last session's outcome is awaited.
    Draining,
    /// The engine has stopped.
    Closed,
}

/// What the driver of the engine observed.
pub enum Event<M> {
    /// The engine may open a session now.
    Open { now: u64 },
    /// A message came out of the queue.
    Message { msg: M },
    /// The session's relay refused this message: its receiving side is gone.
    RelayRejected { msg: M },
    /// The recycle deadline of the session passed.
    RecycleDue,
    /// A session closed for recycling finished, well or not.
    RecycleFinished { ok: bool },
    /// The session finished on its own at `now`, well or not.
    SessionEnded { ok: bool, now: u64 },
    /// The retry wait ended, by its deadline or by cancellation.
    WaitFinished { cancelled: bool },
    /// The queue's producing side has closed for good.
    QueueClosed,
    /// The last session, whose body was closed because the queue closed, finished.
    DrainFinished { ok: bool },
}

/// What the driver of the engine is to do next.
pub enum Action<M> {
    /// Open a session, whose recycle deadline is `recycle_at`, and hand it `first`
    /// before anything else.
    OpenSession { first: Option<M>, recycle_at: u64 },
    /// Hand the message to the session's relay, echoing it locally when `echo` holds.
    Forward { msg: M, echo: bool },
    /// The session cycle is over: report `Open` when the next session may start.
    EndCycle,
    /// Close the session's body and report how the session finished.
    CloseForRecycle,
    /// Wait until `deadline` or until cancellation, whichever comes first.
    WaitUntil { deadline: u64 },
    /// Close the session's body and report how the session finished: the last one.
    CloseAndDrain,
    /// Stop the engine, with success or failure.
    Stop { ok: bool },
    /// The event does not fit the phase; it is handed back and nothing changed.
    Unexpected { event: Event<M> },
}

/// The upload engine: its phase, the message recovered from a session that refused
/// it, and whether messages are echoed locally.
pub struct UploadEngine<M> {
    pub phase: Phase,
    pub recovered: Option<M>,
    pub echo: bool,
}

/// `t + d`, or the largest time where that does not fit.
pub open spec fn later_by(t: u64, d: u64) -> u64 {
    if t as int + d as int <= u64::MAX as int {
        (t + d) as u64
    } else {
        u64::MAX
    }
}

/// `t + d`, saturating at the largest time.
fn later_by_exec(t: u64, d: u64) -> (r: u64)
    ensures
        r == later_by(t, d),
{
    if t <= u64::MAX - d {
        t + d
    } else {
        u64::MAX
    }
}

/// The same engine in another phase.
pub open spec fn with_phase<M>(s: UploadEngine<M>, phase: Phase) -> UploadEngine<M> {
    UploadEngine { phase, recovered: s.recovered, echo: s.echo }
}

/// One transition of the engine: the next state and the action, for a state and an
/// event.
pub open spec fn step_spec<M>(s: UploadEngine<M>, e: Event<M>) -> (UploadEngine<M>, Action<M>) {
    match e {
        Event::Open { now } => if s.phase is Idle {
            (
                UploadEngine { phase: Phase::Active { start: now }, recovered: None, echo: s.echo },
                Action::OpenSession {
                    first: s.recovered,
                    recycle_at: later_by(now, RECYCLE_AFTER_MS),
                },
            )
        } else {
            (s, Action::Unexpected { event: e })
        },
        Event::Message { msg } => if s.phase is Active {
            (s, Action::Forward { msg, echo: s.echo })
        } else {
            (s, Action::Unexpected { event: e })
        },
        Event::RelayRejected { msg } => if s.phase is Active {
            (
                UploadEngine { phase: Phase::Idle, recovered: Some(msg), echo: s.echo },
                Action::EndCycle,
            )
        } else {
            (s, Action::Unexpected { event: e })
        },
        Event::RecycleDue => if s.phase is Active {
            (with_phase(s, Phase::Recycling), Action::CloseForRecycle)
        } else {
            (s, Action::Unexpected { event: e })
        },
        Event::RecycleFinished { ok } => if s.phase is Recycling {
            if ok {
                (with_phase(s, Phase::Idle), Action::EndCycle)
            } else {
                (with_phase(s, Phase::Closed), Action::Stop { ok: false })
            }
        } else {
            (s, Action::Unexpected { event: e })
        },
        Event::SessionEnded { ok, now } => match s.phase {
            Phase::Active { start } => {
                let deadline = later_by(start, RETRY_SPACING_MS);
                if !ok && now < deadline {
                    (with_phase(s, Phase::Waiting { deadline }), Action::WaitUntil { deadline })
                } else {
                    (with_phase(s, Phase::Idle), Action::EndCycle)
                }
            },
            _ => (s, Action::Unexpected { event: e }),
        },
        Event::WaitFinished { cancelled } => if s.phase is Waiting {
            if cancelled {
                (with_phase(s, Phase::Closed), Action::Stop { ok: true })
            } else {
                (with_phase(s, Phase::Idle), Action::EndCycle)
            }
        } else {
            (s, Action::Unexpected { event: e })
        },
        Event::QueueClosed => if s.phase is Active {
            (with_phase(s, Phase::Draining), Action::CloseAndDrain)
        } else {
            (s, Action::Unexpected { event: e })
        },
        Event::DrainFinished { ok } => if s.phase is Draining {
            (with_phase(s, Phase::Closed), Action::Stop { ok })
        } else {
            (s, Action::Unexpected { event: e })
        },
    }
}

impl<M> UploadEngine<M> {
    /// Only an idle engine holds a recovered message.
    pub open spec fn wf(&self) -> bool {
        self.recovered is Some ==> self.phase is Idle
    }

    pub fn new(echo: bool) -> (r: UploadEngine<M>)
        ensures
            r.phase == Phase::Idle,
            r.recovered is None,
            r.echo == echo,
            r.wf(),
    {
        UploadEngine { phase: Phase::Idle, recovered: None, echo }
    }

    /// Takes one event and says what to do next.
    pub fn step(&mut self, event: Event<M>) -> (r: Action<M>)
        ensures
            (*final(self), r) == step_spec(*old(self), event),
            old(self).wf() ==> final(self).wf(),
    {
        match event {
            Event::Open { now } => match self.phase {
                Phase::Idle => {
                    let first = self.recovered.take();
                    self.phase = Phase::Active { start: now };
                    Action::OpenSession { first, recycle_at: later_by_exec(now, RECYCLE_AFTER_MS) }
                },
                _ => Action::Unexpected { event: Event::Open { now } },
            },
            Event::Message { msg } => match self.phase {
                Phase::Active { .. } => Action::Forward { msg, echo: self.echo },
                _ => Action::Unexpected { event: Event::Message { msg } },
            },
            Event::RelayRejected { msg } => match self.phase {
                Phase::Active { .. } => {
                    self.phase = Phase::Idle;
                    self.recovered = Some(msg);
                    Action::EndCycle
                },
                _ => Action::Unexpected { event: Event::RelayRejected { msg } },
            },
            Event::RecycleDue => match self.phase {
                Phase::Active { .. } => {
                    self.phase = Phase::Recycling;
                    Action::CloseForRecycle
                },
                _ => Action::Unexpected { event: Event::RecycleDue },
            },
            Event::RecycleFinished { ok } => match self.phase {
                Phase::Recycling => {
                    if ok {
                        self.phase = Phase::Idle;
                        Action::EndCycle
                    } else {
                        self.phase = Phase::Closed;
                        Action::Stop { ok: false }
                    }
                },
                _ => Action::Unexpected { event: Event::RecycleFinished { ok } },
            },
            Event::SessionEnded { ok, now } => match self.phase {
                Phase::Active { start } => {
                    let deadline = later_by_exec(start, RETRY_SPACING_MS);
                    if !ok && now < deadline {
                        self.phase = Phase::Waiting { deadline };
                        Action::WaitUntil { deadline }
                    } else {
                        self.phase = Phase::Idle;
                        Action::EndCycle
                    }
                },
                _ => Action::Unexpected { event: Event::SessionEnded { ok, now } },
            },
            Event::WaitFinished { cancelled } => match self.phase {
                Phase::Waiting { .. } => {
                    if cancelled {
                        self.phase = Phase::Closed;
                        Action::Stop { ok: true }
                    } else {
                        self.phase = Phase::Idle;
                        Action::EndCycle
                    }
                },
                _ => Action::Unexpected { event: Event::WaitFinished { cancelled } },
            },
            Event::QueueClosed => match self.phase {
                Phase::Active { .. } => {
                    self.phase = Phase::Draining;
                    Action::CloseAndDrain
                },
                _ => Action::Unexpected { event: Event::QueueClosed },
            },
            Event::DrainFinished { ok } => match self.phase {
                Phase::Draining => {
                    self.phase = Phase::Closed;
                    Action::Stop { ok }
                },
                _ => Action::Unexpected { event: Event::DrainFinished { ok } },
            },
        }
    }
}

/// The state and the actions after a series of events, taken in order.
pub open spec fn run<M>(s: UploadEngine<M>, events: Seq<Event<M>>) -> (
    UploadEngine<M>,
    Seq<Action<M>>,
)
    decreases events.len(),
{
    if events.len() == 0 {
        (s, Seq::empty())
    } else {
        let (s1, a) = step_spec(s, events[0]);
        let (s2, rest) = run(s1, events.drop_first());
        (s2, seq![a] + rest)
    }
}

/// The message that an action hands on to a session, if any.
pub open spec fn handed_on<M>(a: Action<M>) -> Seq<M> {
    match a {
        Action::Forward { msg, .. } => seq![msg],
        Action::OpenSession { first: Some(m), .. } => seq![m],
        _ => Seq::empty(),
    }
}

/// The messages handed to a session's relay, in order, by a series of actions.
pub open spec fn delivered<M>(actions: Seq<Action<M>>) -> Seq<M>
    decreases actions.len(),
{
    if actions.len() == 0 {
        Seq::empty()
    } else {
        handed_on(actions[0]) + delivered(actions.drop_first())
    }
}

/// One queue event per message, in order.
pub open spec fn message_events<M>(msgs: Seq<M>) -> Seq<Event<M>> {
    msgs.map_values(|m: M| Event::Message { msg: m })
}

/// Running two series of events is running the first, then the second.
proof fn lemma_run_append<M>(s: UploadEngine<M>, a: Seq<Event<M>>, b: Seq<Event<M>>)
    ensures
        run(s, a + b) == (run(run(s, a).0, b).0, run(s, a).1 + run(run(s, a).0, b).1),
    decreases a.len(),
{
    if a.len() == 0 {
        assert(a + b =~= b);
        assert(run(s, a).1 + run(s, b).1 =~= run(s, b).1);
    } else {
        let s1 = step_spec(s, a[0]).0;
        lemma_run_append(s1, a.drop_first(), b);
        assert((a + b).drop_first() =~= a.drop_first() + b);
        assert((a + b)[0] == a[0]);
        let x = step_spec(s, a[0]).1;
        assert(seq![x] + (run(s1, a.drop_first()).1 + run(run(s1, a.drop_first()).0, b).1)
            =~= (seq![x] + run(s1, a.drop_first()).1) + run(run(s1, a.drop_first()).0, b).1);
    }
}

proof fn lemma_delivered_append<M>(x: Seq<Action<M>>, y: Seq<Action<M>>)
    ensures
        delivered(x + y) == delivered(x) + delivered(y),
    decreases x.len(),
{
    if x.len() == 0 {
        assert(x + y =~= y);
        assert(delivered(x) + delivered(y) =~= delivered(y));
    } else {
        lemma_delivered_append(x.drop_first(), y);
        assert((x + y).drop_first() =~= x.drop_first() + y);
        assert((x + y)[0] == x[0]);
        let here = handed_on(x[0]);
        assert(here + (delivered(x.drop_first()) + delivered(y)) =~= (here + delivered(
            x.drop_first(),
        )) + delivered(y));
    }
}

proof fn lemma_delivered_single<M>(a: Action<M>)
    ensures
        delivered(seq![a]) == handed_on(a),
{
    assert(seq![a].drop_first() =~= Seq::<Action<M>>::empty());
    assert(delivered(Seq::<Action<M>>::empty()) == Seq::<M>::empty());
    assert(seq![a][0] == a);
    assert(handed_on(a) + Seq::<M>::empty() =~= handed_on(a));
}

/// While a session takes messages, each queue event forwards its message, in the order
/// of the queue, and leaves the engine as it was.
pub proof fn lemma_forwarding_keeps_order<M>(s: UploadEngine<M>, msgs: Seq<M>)
    requires
        s.phase is Active,
    ensures
        run(s, message_events(msgs)).0 == s,
        delivered(run(s, message_events(msgs)).1) == msgs,
    decreases msgs.len(),
{
    let evs = message_events(msgs);
    if msgs.len() == 0 {
        assert(evs =~= Seq::<Event<M>>::empty());
    } else {
        lemma_forwarding_keeps_order(s, msgs.drop_first());
        assert(evs.drop_first() =~= message_events(msgs.drop_first()));
        assert(evs[0] == Event::Message { msg: msgs[0] });
        let a = Action::Forward { msg: msgs[0], echo: s.echo };
        assert(step_spec(s, evs[0]) == (s, a));
        let rest = run(s, message_events(msgs.drop_first())).1;
        lemma_delivered_append(seq![a], rest);
        lemma_delivered_single(a);
        assert(msgs =~= seq![msgs[0]] + msgs.drop_first());
    }
}

/// When a session's relay refuses a message, the next session is handed that message
/// first, once, and the messages that follow in the queue come after it in order.
pub proof fn lemma_refused_message_opens_next_session<M>(
    s: UploadEngine<M>,
    msg: M,
    now: u64,
    msgs: Seq<M>,
)
    requires
        s.phase is Active,
    ensures
        ({
            let events = seq![Event::RelayRejected { msg }, Event::Open { now }] + message_events(
                msgs,
            );
            let (last, actions) = run(s, events);
            &&& actions[1] == Action::OpenSession {
                first: Some(msg),
                recycle_at: later_by(now, RECYCLE_AFTER_MS),
            }
            &&& delivered(actions) == seq![msg] + msgs
            &&& last.phase == Phase::Active { start: now }
            &&& last.recovered is None
        }),
{
    let e1 = Event::RelayRejected { msg };
    let e2 = Event::<M>::Open { now };
    let head = seq![e1, e2];
    let s1 = UploadEngine { phase: Phase::Idle, recovered: Some(msg), echo: s.echo };
    let s2 = UploadEngine {
        phase: Phase::Active { start: now },
        recovered: None::<M>,
        echo: s.echo,
    };
    let a1 = Action::<M>::EndCycle;
    let a2 = Action::OpenSession { first: Some(msg), recycle_at: later_by(now, RECYCLE_AFTER_MS) };
    assert(step_spec(s, e1) == (s1, a1));
    assert(step_spec(s1, e2) == (s2, a2));
    lemma_run_one(s, e1);
    lemma_run_one(s1, e2);
    assert(seq![e1] + seq![e2] =~= head);
    lemma_run_append(s, seq![e1], seq![e2]);
    assert(seq![a1] + seq![a2] =~= seq![a1, a2]);
    assert(run(s, head) == (s2, seq![a1, a2]));
    lemma_run_append(s, head, message_events(msgs));
    lemma_forwarding_keeps_order(s2, msgs);
    let tail = run(s2, message_events(msgs)).1;
    lemma_delivered_append(seq![a1, a2], tail);
    lemma_delivered_append(seq![a1], seq![a2]);
    assert(seq![a1] + seq![a2] =~= seq![a1, a2]);
    lemma_delivered_single(a1);
    lemma_delivered_single(a2);
    assert(Seq::<M>::empty() + seq![msg] =~= seq![msg]);
    assert((seq![a1, a2] + tail)[1] == a2);
}

/// Recycling closes the session after what it was handed and opens a fresh one with
/// nothing carried over: the messages before and after the boundary are delivered in
/// the order of the queue.
pub proof fn lemma_recycling_keeps_order<M>(
    s: UploadEngine<M>,
    before: Seq<M>,
    now: u64,
    after: Seq<M>,
)
    requires
        s.phase is Active,
        s.wf(),
    ensures
        ({
            let events = message_events(before) + seq![
                Event::RecycleDue,
                Event::RecycleFinished { ok: true },
                Event::Open { now },
            ] + message_events(after);
            let (last, actions) = run(s, events);
            &&& actions[before.len() + 2int] == Action::<M>::OpenSession {
                first: None,
                recycle_at: later_by(now, RECYCLE_AFTER_MS),
            }
            &&& delivered(actions) == before + after
            &&& last.phase == Phase::Active { start: now }
            &&& last.recovered is None
        }),
{
    let mid = seq![Event::RecycleDue, Event::RecycleFinished { ok: true }, Event::Open { now }];
    let pre = message_events(before);
    let post = message_events(after);
    lemma_forwarding_keeps_order(s, before);
    let pre_actions = run(s, pre).1;
    let s1 = with_phase(s, Phase::Recycling);
    let s2 = with_phase(s, Phase::Idle);
    let s3 = UploadEngine { phase: Phase::Active { start: now }, recovered: None::<M>, echo: s.echo };
    let a1 = Action::<M>::CloseForRecycle;
    let a2 = Action::<M>::EndCycle;
    let a3 = Action::<M>::OpenSession { first: None, recycle_at: later_by(now, RECYCLE_AFTER_MS) };
    assert(step_spec(s, mid[0]) == (s1, a1));
    assert(step_spec(s1, mid[1]) == (s2, a2));
    assert(s.recovered is None);
    assert(step_spec(s2, mid[2]) == (s3, a3));
    lemma_run_one(s, mid[0]);
    lemma_run_one(s1, mid[1]);
    lemma_run_one(s2, mid[2]);
    assert(seq![mid[0]] + seq![mid[1]] + seq![mid[2]] =~= mid);
    lemma_run_append(s, seq![mid[0]], seq![mid[1]]);
    lemma_run_append(s, seq![mid[0]] + seq![mid[1]], seq![mid[2]]);
    let mid_actions = seq![a1, a2, a3];
    assert(seq![a1] + seq![a2] + seq![a3] =~= mid_actions);
    assert(run(s, mid) == (s3, mid_actions));
    lemma_run_append(s, pre, mid);
    lemma_run_append(s, pre + mid, post);
    lemma_forwarding_keeps_order(s3, after);
    let post_actions = run(s3, post).1;
    let all = pre_actions + mid_actions + post_actions;
    assert(all[before.len() + 2int] == a3) by {
        assert(pre_actions.len() == before.len()) by {
            lemma_actions_len(s, pre);
        }
    }
    lemma_delivered_append(pre_actions + mid_actions, post_actions);
    lemma_delivered_append(pre_actions, mid_actions);
    lemma_delivered_append(seq![a1], seq![a2, a3]);
    lemma_delivered_append(seq![a2], seq![a3]);
    assert(seq![a1] + seq![a2, a3] =~= mid_actions);
    assert(seq![a2] + seq![a3] =~= seq![a2, a3]);
    lemma_delivered_single(a1);
    lemma_delivered_single(a2);
    lemma_delivered_single(a3);
    assert(delivered(mid_actions) =~= Seq::<M>::empty());
    assert(before + Seq::<M>::empty() + after =~= before + after);
}

proof fn lemma_actions_len<M>(s: UploadEngine<M>, events: Seq<Event<M>>)
    ensures
        run(s, events).1.len() == events.len(),
    decreases events.len(),
{
    if events.len() > 0 {
        lemma_actions_len(step_spec(s, events[0]).0, events.drop_first());
    }
}

proof fn lemma_run_one<M>(s: UploadEngine<M>, e: Event<M>)
    ensures
        run(s, seq![e]) == (step_spec(s, e).0, seq![step_spec(s, e).1]),
{
    let (s1, a) = step_spec(s, e);
    assert(seq![e].drop_first() =~= Seq::<Event<M>>::empty());
    assert(seq![e][0] == e);
    assert(run(s1, Seq::<Event<M>>::empty()) == (s1, Seq::<Action<M>>::empty()));
    assert(seq![a] + Seq::<Action<M>>::empty() =~= seq![a]);
}

/// The message that the engine holds back, if any.
pub open spec fn held<M>(s: UploadEngine<M>) -> Seq<M> {
    match s.recovered {
        Some(m) => seq![m],
        None => Seq::empty(),
    }
}

/// The message that an event brings, if any.
pub open spec fn brought<M>(e: Event<M>) -> Seq<M> {
    match e {
        Event::Message { msg } => seq![msg],
        Event::RelayRejected { msg } => seq![msg],
        _ => Seq::empty(),
    }
}

/// No step loses or duplicates a message: what the engine held and what the event
/// brought is what the action hands on and what the engine holds after, in that order;
/// an event that does not fit the phase is handed back whole, with nothing changed.
pub proof fn lemma_step_keeps_every_message<M>(s: UploadEngine<M>, e: Event<M>)
    requires
        s.wf(),
    ensures
        ({
            let (next, a) = step_spec(s, e);
            &&& next.wf()
            &&& a is Unexpected ==> next == s && a->event == e
            &&& !(a is Unexpected) ==> held(s) + brought(e) == handed_on(a) + held(next)
        }),
{
    let (next, a) = step_spec(s, e);
    assert(Seq::<M>::empty() + Seq::<M>::empty() =~= Seq::<M>::empty());
    match s.recovered {
        Some(m) => {
            assert(seq![m] + Seq::<M>::empty() =~= seq![m]);
            assert(Seq::<M>::empty() + seq![m] =~= seq![m]);
        },
        None => {},
    }
    match e {
        Event::Message { msg } => {
            assert(seq![msg] + Seq::<M>::empty() =~= seq![msg]);
            assert(Seq::<M>::empty() + seq![msg] =~= seq![msg]);
        },
        Event::RelayRejected { msg } => {
            assert(seq![msg] + Seq::<M>::empty() =~= seq![msg]);
            assert(Seq::<M>::empty() + seq![msg] =~= seq![msg]);
        },
        _ => {},
    }
}

} // verus!
