//! The scoreboard clock: the time of the game in milliseconds, which runs with the
//! wall clock while it is started and can be advanced or rewound.
//!
//! The clock is a state machine: the caller reads the wall clock (see
//! [`system_millis`]) and hands the reading to the clock's methods; the methods that
//! move the clock return the time to announce to the registered clients.
use vstd::prelude::*;
use std::time::{Duration, SystemTime, SystemTimeError};
use tokio::sync::mpsc::{UnboundedReceiver, UnboundedSender};

verus! {

#[verifier::external_type_specification]
#[verifier::external_body]
pub struct ExSystemTime(SystemTime);

#[verifier::external_type_specification]
#[verifier::external_body]
pub struct ExSystemTimeError(SystemTimeError);

/// `SystemTime::now`: the current wall-clock time.  Nothing is stated of it.
#[verifier::external_body]
fn wall_clock_now() -> SystemTime {
    SystemTime::now()
}

/// `SystemTime::duration_since(UNIX_EPOCH)`: the time elapsed since the Unix epoch, or
/// an error when `t` lies before it.  Nothing is stated of which comes back.
#[verifier::external_body]
fn since_unix_epoch(t: &SystemTime) -> Result<Duration, SystemTimeError> {
    t.duration_since(std::time::UNIX_EPOCH)
}

/// `Duration::as_millis`: the whole milliseconds of `d`.  A `Duration` is opaque here,
/// so nothing is stated of the number.
#[verifier::external_body]
fn duration_millis(d: &Duration) -> u128 {
    d.as_millis()
}

#[verifier::external_type_specification]
#[verifier::external_body]
#[verifier::reject_recursive_types(T)]
pub struct ExUnboundedSender<T>(UnboundedSender<T>);

#[verifier::external_type_specification]
#[verifier::external_body]
#[verifier::reject_recursive_types(T)]
pub struct ExUnboundedReceiver<T>(UnboundedReceiver<T>);

/// `tokio::sync::mpsc::unbounded_channel`: a new channel of times, as its sending and
/// its receiving half.  Nothing is stated of the halves.
#[verifier::external_body]
fn new_time_channel() -> (UnboundedSender<u128>, UnboundedReceiver<u128>) {
    tokio::sync::mpsc::unbounded_channel()
}

/// Milliseconds since the Unix epoch by the wall clock (0 if the wall clock reads a
/// time before the epoch).
pub fn system_millis() -> u128 {
    let now = wall_clock_now();
    match since_unix_epoch(&now) {
        Ok(d) => duration_millis(&d),
        Err(_) => 0,
    }
}

/// The clients that can register for the clock's updates.
#[derive(PartialEq, Eq, Structural)]
pub enum ScoreBoardClockClient {
    Test,
}

/// The state of the scoreboard clock.  `current_time` is the clock's time; while the
/// clock runs, it is the wall time minus `offset`.
pub struct ScoreBoardClock {
    offset: u128,
    current_time: u128,
    stopped: bool,
    _break: bool,
    last_rewind: u128,
    clients: Vec<(ScoreBoardClockClient, UnboundedSender<u128>)>,
    announcements: Vec<u128>,
}

/// What a [`ScoreBoardClock`] holds: its numbers and flags, the clients registered for
/// its updates in the order they registered, the sending halves of their channels in
/// the same order, and the times announced to the clients that are yet to be handed to
/// those channels, oldest first.
pub ghost struct ClockView {
    pub offset: u128,
    pub current_time: u128,
    pub stopped: bool,
    pub _break: bool,
    pub last_rewind: u128,
    pub clients: Seq<ScoreBoardClockClient>,
    pub senders: Seq<UnboundedSender<u128>>,
    pub announcements: Seq<u128>,
}

/// The sending halves of a registry, in the order the clients registered.
pub open spec fn sender_list(v: Seq<(ScoreBoardClockClient, UnboundedSender<u128>)>) -> Seq<
    UnboundedSender<u128>,
> {
    v.map_values(|e: (ScoreBoardClockClient, UnboundedSender<u128>)| e.1)
}

/// The clients of a registry, in the order they registered.
pub open spec fn client_list(v: Seq<(ScoreBoardClockClient, UnboundedSender<u128>)>) -> Seq<
    ScoreBoardClockClient,
> {
    v.map_values(|e: (ScoreBoardClockClient, UnboundedSender<u128>)| e.0)
}

/// The clock after a tick at the wall time `now`: a running clock shows `now - offset`
/// and announces that time to its clients; a stopped one is unchanged.
pub open spec fn ticked(v: ClockView, now: u128) -> ClockView {
    if v.stopped {
        v
    } else {
        ClockView {
            current_time: (now - v.offset) as u128,
            announcements: v.announcements.push((now - v.offset) as u128),
            ..v
        }
    }
}

/// The clock after being started at the wall time `now`: it runs; with `catch_up` the
/// offset becomes `now - current_time`, so that it goes on from the time it shows;
/// without it the offset is kept, and the time it was stopped for is caught up at the
/// next tick.
pub open spec fn started(v: ClockView, now: u128, catch_up: bool) -> ClockView {
    ClockView {
        stopped: false,
        offset: if catch_up {
            (now - v.current_time) as u128
        } else {
            v.offset
        },
        ..v
    }
}

/// Law: a clock started with catch-up at the wall time `t` goes on from the time it
/// showed: a tick at a later wall time `t2` shows that time plus `t2 - t`.
pub proof fn law_catch_up_continues(v: ClockView, t: u128, t2: u128)
    requires
        v.current_time <= t <= t2,
    ensures
        ticked(started(v, t, true), t2).current_time == v.current_time + (t2 - t),
{
}

/// Law: without catch-up, a restarted clock shows at its next tick the wall time minus
/// the offset it had, as if it had never stopped.
pub proof fn law_restart_without_catch_up(v: ClockView, t: u128, t2: u128)
    requires
        v.offset <= t2,
    ensures
        ticked(started(v, t, false), t2).current_time == t2 - v.offset,
{
}

impl View for ScoreBoardClock {
    type V = ClockView;

    closed spec fn view(&self) -> ClockView {
        ClockView {
            offset: self.offset,
            current_time: self.current_time,
            stopped: self.stopped,
            _break: self._break,
            last_rewind: self.last_rewind,
            clients: client_list(self.clients@),
            senders: sender_list(self.clients@),
            announcements: self.announcements@,
        }
    }
}

impl ScoreBoardClock {
    /// A running clock started at the wall time `now`: offset and time both read `now`;
    /// no client is registered.
    pub fn new(now: u128) -> (r: ScoreBoardClock)
        ensures
            r@.offset == now,
            r@.current_time == now,
            !r@.stopped,
            !r@._break,
            r@.last_rewind == 0,
            r@.clients == Seq::<ScoreBoardClockClient>::empty(),
            r@.senders == Seq::<UnboundedSender<u128>>::empty(),
            r@.announcements == Seq::<u128>::empty(),
    {
        let r = ScoreBoardClock {
            offset: now,
            current_time: now,
            stopped: false,
            _break: false,
            last_rewind: 0,
            clients: Vec::new(),
            announcements: Vec::new(),
        };
        assert(r@.clients =~= Seq::<ScoreBoardClockClient>::empty());
        assert(r@.senders =~= Seq::<UnboundedSender<u128>>::empty());
        r
    }

    /// What a tick hands to the channels: for every registered client, in order, its
    /// sending half and `time`.
    pub fn time_sends(&self, time: u128) -> (r: Vec<(&UnboundedSender<u128>, u128)>)
        ensures
            r@.len() == self@.senders.len(),
            forall|i: int| 0 <= i < r@.len() ==> *(#[trigger] r@[i]).0 == self@.senders[i] && r@[i].1 == time,
    {
        let mut r: Vec<(&UnboundedSender<u128>, u128)> = Vec::new();
        let mut i: usize = 0;
        while i < self.clients.len()
            invariant
                i <= self.clients@.len(),
                r@.len() == i,
                forall|j: int| 0 <= j < i ==> *(#[trigger] r@[j]).0 == self.clients@[j].1 && r@[j].1 == time,
            decreases self.clients@.len() - i,
        {
            r.push((&self.clients[i].1, time));
            i = i + 1;
        }
        r
    }

    /// Announces `time` to every registered client: it joins the announcements, each
    /// of which is to be handed to every client's channel (see
    /// [`ScoreBoardClock::time_sends`]).
    pub fn update_clients(&mut self, time: u128)
        ensures
            final(self)@ == (ClockView { announcements: old(self)@.announcements.push(time), ..old(self)@ }),
    {
        self.announcements.push(time);
    }

    /// The announcements, oldest first, to be handed to the clients' channels (see
    /// [`ScoreBoardClock::time_sends`]); none is left.
    pub fn take_announcements(&mut self) -> (r: Vec<u128>)
        ensures
            r@ == old(self)@.announcements,
            final(self)@ == (ClockView { announcements: Seq::empty(), ..old(self)@ }),
    {
        let mut r: Vec<u128> = Vec::new();
        std::mem::swap(&mut r, &mut self.announcements);
        assert(self@.announcements =~= Seq::<u128>::empty());
        r
    }

    /// Registers `client` for the clock's updates and returns the receiving half of its
    /// channel.  A client registers once: when it already is, it keeps the channel it
    /// had, and the receiver returned is connected to nothing.
    pub fn register_client(&mut self, client: ScoreBoardClockClient) -> (r: UnboundedReceiver<
        u128,
    >)
        ensures
            final(self)@.clients == if old(self)@.clients.contains(client) {
                old(self)@.clients
            } else {
                old(self)@.clients.push(client)
            },
            old(self)@.clients.contains(client) ==> final(self)@.senders == old(self)@.senders,
            !old(self)@.clients.contains(client) ==> final(self)@.senders.drop_last()
                == old(self)@.senders && final(self)@.senders.len() == old(self)@.senders.len() + 1,
            final(self)@.offset == old(self)@.offset,
            final(self)@.current_time == old(self)@.current_time,
            final(self)@.stopped == old(self)@.stopped,
            final(self)@._break == old(self)@._break,
            final(self)@.last_rewind == old(self)@.last_rewind,
            final(self)@.announcements == old(self)@.announcements,
    {
        let (tx, rx) = new_time_channel();
        let mut i: usize = 0;
        while i < self.clients.len()
            invariant
                i <= self.clients@.len(),
                *self == *old(self),
                forall|j: int| 0 <= j < i ==> client_list(self.clients@)[j] != client,
            decreases self.clients@.len() - i,
        {
            if self.clients[i].0 == client {
                assert(client_list(self.clients@)[i as int] == client);
                return rx;
            }
            i = i + 1;
        }
        let ghost pre = self.clients@;
        self.clients.push((client, tx));
        proof {
            assert(!old(self)@.clients.contains(client));
            assert(client_list(self.clients@) =~= client_list(pre).push(client));
            assert(sender_list(self.clients@).drop_last() =~= sender_list(pre));
        }
        rx
    }

    /// A tick at the wall time `now`: a running clock takes the time `now - offset`,
    /// which is announced to the clients and returned; a stopped clock is left alone.
    pub fn update_time(&mut self, now: u128) -> (r: Option<u128>)
        requires
            old(self)@.stopped || now >= old(self)@.offset,
        ensures
            final(self)@ == ticked(old(self)@, now),
            r == if old(self)@.stopped {
                None
            } else {
                Some(final(self)@.current_time)
            },
    {
        if !self.stopped {
            self.current_time = now - self.offset;
            self.update_clients(self.current_time);
            Some(self.current_time)
        } else {
            None
        }
    }

    /// Whether the clock runs.
    pub fn is_running(&self) -> (r: bool)
        ensures
            r == !self@.stopped,
    {
        !self.stopped
    }

    /// Starts the clock at the wall time `now` (see [`started`]).
    pub fn start(&mut self, now: u128, do_catch_up: bool)
        requires
            do_catch_up ==> now >= old(self)@.current_time,
        ensures
            final(self)@ == started(old(self)@, now, do_catch_up),
    {
        if do_catch_up {
            self.offset = now - self.current_time;
        }
        self.stopped = false;
    }

    /// Stops the clock at the wall time `now`, after a last tick; returns what that
    /// tick announces.
    pub fn stop(&mut self, now: u128) -> (r: Option<u128>)
        requires
            old(self)@.stopped || now >= old(self)@.offset,
        ensures
            final(self)@ == (ClockView { stopped: true, ..ticked(old(self)@, now) }),
            r == if old(self)@.stopped {
                None
            } else {
                Some(final(self)@.current_time)
            },
    {
        let r = self.update_time(now);
        self.stopped = true;
        r
    }

    /// Moves the clock's time forward by `ms`; the new time is announced to the clients
    /// and returned.
    pub fn advance(&mut self, ms: u128) -> (r: u128)
        requires
            old(self)@.current_time + ms <= u128::MAX,
        ensures
            r == old(self)@.current_time + ms,
            final(self)@ == (ClockView {
                current_time: r,
                announcements: old(self)@.announcements.push(r),
                ..old(self)@
            }),
    {
        self.current_time = self.current_time + ms;
        self.update_clients(self.current_time);
        self.current_time
    }

    /// The offset: while the clock runs, its time is the wall time minus the offset.
    pub fn get_offset(&self) -> (r: u128)
        ensures
            r == self@.offset,
    {
        self.offset
    }

    /// How far the clock was set back by the last rewind.
    pub fn get_last_rewind(&self) -> (r: u128)
        ensures
            r == self@.last_rewind,
    {
        self.last_rewind
    }

    /// Rewinds the clock to `time`: the amount `current_time - time` is recorded as the
    /// last rewind and taken off the offset.
    pub fn rewind_to(&mut self, time: u128)
        requires
            time <= old(self)@.current_time,
            old(self)@.current_time - time <= old(self)@.offset,
        ensures
            final(self)@.last_rewind == old(self)@.current_time - time,
            final(self)@.offset == old(self)@.offset - (old(self)@.current_time - time),
            final(self)@.current_time == old(self)@.current_time,
            final(self)@.stopped == old(self)@.stopped,
            final(self)@._break == old(self)@._break,
            final(self)@.clients == old(self)@.clients,
            final(self)@.senders == old(self)@.senders,
            final(self)@.announcements == old(self)@.announcements,
    {
        self.last_rewind = self.current_time - time;
        self.offset = self.offset - self.last_rewind;
    }

    /// The wall time in milliseconds since the Unix epoch.
    pub fn get_current_walltime() -> u128 {
        system_millis()
    }

    /// The clock's time.
    pub fn get_current_time(&self) -> (r: u128)
        ensures
            r == self@.current_time,
    {
        self.current_time
    }
}

} // verus!
