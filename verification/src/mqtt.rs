//! The listener that turns published messages into triggers: which broker it listens to,
//! and what it does on each notification.
use vstd::prelude::*;

verus! {

/// The name under which the listener connects.
pub const CLIENT_ID: &'static str = "pulsebeam";

/// Seconds between signs of life.
pub const KEEP_ALIVE_SECS: u64 = 30;

/// How many requests can wait to be sent.
pub const QUEUE: usize = 10;

/// What the connection reports.
#[derive(Clone, Copy, Debug, PartialEq, Eq, Structural)]
pub enum Notification {
    /// A message came in.
    Published,
    /// Another packet came in, one went out, or the connection failed.
    Other,
}

/// What the listener does.
#[derive(Clone, Copy, Debug, PartialEq, Eq, Structural)]
pub enum Reaction {
    /// It ends.
    Stop,
    /// It sets the trigger and listens on.
    Trigger,
    /// It listens on.
    Listen,
}

/// A listener: where it listens, whether it was told to end, and whether its thread is
/// still to be waited for.
#[derive(Debug)]
pub struct MqttHandle {
    pub host: String,
    pub port: u16,
    pub topic: String,
    pub shutdown: bool,
    pub joinable: bool,
}

/// What a listener does on a notification.
pub open spec fn reaction(shutdown: bool, n: Notification) -> Reaction {
    if shutdown {
        Reaction::Stop
    } else if n == Notification::Published {
        Reaction::Trigger
    } else {
        Reaction::Listen
    }
}

/// Whether the trigger is set after the notifications `ns`, where the listener is told to
/// end before notification `stop`.
pub open spec fn triggers(ns: Seq<Notification>, stop: int) -> bool
    decreases ns.len(),
{
    if ns.len() == 0 {
        false
    } else {
        triggers(ns.drop_last(), stop) || reaction(ns.len() - 1 >= stop, ns.last())
            == Reaction::Trigger
    }
}

impl MqttHandle {
    /// A listener on `topic` at the broker.
    pub fn new(host: &str, port: u16, topic: &str) -> (m: MqttHandle)
        ensures
            m.host@ == host@,
            m.port == port,
            m.topic@ == topic@,
            !m.shutdown,
            m.joinable,
    {
        MqttHandle {
            host: host.to_owned(),
            port,
            topic: topic.to_owned(),
            shutdown: false,
            joinable: true,
        }
    }

    /// What the listener does on a notification, where `shutdown` says whether it was told
    /// to end.
    pub fn on_notification(shutdown: bool, n: Notification) -> (r: Reaction)
        ensures
            r == reaction(shutdown, n),
    {
        if shutdown {
            Reaction::Stop
        } else {
            match n {
                Notification::Published => Reaction::Trigger,
                Notification::Other => Reaction::Listen,
            }
        }
    }

    /// Tells the listener to end; says whether its thread is to be waited for.
    pub fn close(&mut self) -> (join: bool)
        ensures
            join == old(self).joinable,
            final(self).shutdown,
            !final(self).joinable,
            final(self).host == old(self).host,
            final(self).port == old(self).port,
            final(self).topic == old(self).topic,
    {
        self.shutdown = true;
        let join = self.joinable;
        self.joinable = false;
        join
    }
}

/// The trigger is set exactly where a message came in before the listener was told to
/// end.
pub proof fn lemma_triggers_on_message(ns: Seq<Notification>, stop: int)
    ensures
        triggers(ns, stop) <==> exists|i: int|
            0 <= i < ns.len() && i < stop && #[trigger] ns[i] == Notification::Published,
    decreases ns.len(),
{
    if ns.len() > 0 {
        let rest = ns.drop_last();
        let last: int = ns.len() - 1;
        lemma_triggers_on_message(rest, stop);
        if triggers(rest, stop) {
            let i: int = choose|i: int|
                0 <= i < rest.len() && i < stop && #[trigger] rest[i] == Notification::Published;
            assert(ns[i] == Notification::Published);
        }
        if exists|i: int|
            0 <= i < ns.len() && i < stop && #[trigger] ns[i] == Notification::Published {
            let i: int = choose|i: int|
                0 <= i < ns.len() && i < stop && #[trigger] ns[i] == Notification::Published;
            if i < last {
                assert(rest[i] == Notification::Published);
            } else {
                assert(ns[last] == Notification::Published);
            }
        }
        if reaction(last >= stop, ns.last()) == Reaction::Trigger {
            assert(ns[last] == Notification::Published);
        }
    }
}

/// A listener that was told to end ends, whatever comes in; until then it sets the trigger on
/// a message and on nothing else, and listens on.
pub proof fn lemma_reaction(n: Notification)
    ensures
        reaction(true, n) == Reaction::Stop,
        reaction(false, Notification::Published) == Reaction::Trigger,
        n != Notification::Published ==> reaction(false, n) == Reaction::Listen,
{
}

} // verus!
