use vstd::prelude::*;
use vstd::string::StringExecFns;
use crate::config::MSG_HEIGHT;

verus! {

/// What a log entry reports. The text and colour shown for each kind are chosen by
/// the front end.
#[derive(Clone, Copy, Debug, PartialEq, Eq, Structural)]
pub enum MessageKind {
    Welcome,
    /// `subject` attacks `object` for `amount` hit points.
    Attack,
    /// `subject` attacks `object` without effect.
    NoEffect,
    PlayerDied,
    /// `subject` died; `amount` experience is gained.
    MonsterDied,
    /// `subject` cannot be equipped or unequipped.
    NotEquipment,
    /// `subject` was equipped on slot `object`.
    Equipped,
    /// `subject` was taken off slot `object`.
    Dequipped,
    /// `subject` is no longer confused.
    NoLongerConfused,
    /// The inventory is full; `subject` stays where it is.
    InventoryFull,
    PickedUp,
    Dropped,
    /// `subject` has no use.
    CannotUse,
    Cancelled,
    FullHealth,
    Healed,
    /// A lightning bolt strikes `subject` for `amount` hit points.
    Lightning,
    NoEnemyClose,
    /// `subject` is now confused.
    Confused,
    /// A fireball of radius `amount` explodes.
    Fireball,
    /// `subject` is burned for `amount` hit points.
    Burned,
    /// The player reached level `amount`.
    LevelUp,
}

/// One entry of the message log.
#[derive(Debug, PartialEq, Eq)]
pub struct Message {
    pub kind: MessageKind,
    pub subject: String,
    pub object: String,
    pub amount: i64,
}

/// The message log, oldest entry first.
pub type Messages = Vec<Message>;

/// What a log entry holds, as plain values.
pub type Entry = (MessageKind, Seq<char>, Seq<char>, int);

pub open spec fn entry(kind: MessageKind, subject: Seq<char>, object: Seq<char>, amount: int) -> Entry {
    (kind, subject, object, amount)
}

impl View for Message {
    type V = Entry;

    open spec fn view(&self) -> Entry {
        (self.kind, self.subject@, self.object@, self.amount as int)
    }
}

/// The entries of a log, as plain values.
pub open spec fn log_view(log: Seq<Message>) -> Seq<Entry> {
    log.map_values(|m: Message| m@)
}

impl Message {
    pub fn new(kind: MessageKind, subject: &str, object: &str, amount: i64) -> (m: Message)
        ensures
            m.kind == kind,
            m.subject@ == subject@,
            m.object@ == object@,
            m.amount == amount,
    {
        Message { kind, subject: String::from_str(subject), object: String::from_str(object), amount }
    }

    /// An entry with neither names nor amount.
    pub fn plain(kind: MessageKind) -> (m: Message)
        ensures
            m@ == entry(kind, Seq::empty(), Seq::empty(), 0),
    {
        proof {
            reveal_strlit("");
            assert(""@ =~= Seq::<char>::empty());
        }
        Message::new(kind, "", "", 0)
    }

    /// An entry about `subject`, with no amount.
    pub fn about(kind: MessageKind, subject: &str) -> (m: Message)
        ensures
            m@ == entry(kind, subject@, Seq::empty(), 0),
    {
        proof {
            reveal_strlit("");
            assert(""@ =~= Seq::<char>::empty());
        }
        Message::new(kind, subject, "", 0)
    }
}

/// The log after `m` is added to `log`: the oldest entry goes once the log
/// holds `MSG_HEIGHT` entries.
pub open spec fn logged<A>(log: Seq<A>, m: A) -> Seq<A> {
    if log.len() >= MSG_HEIGHT {
        log.subrange(log.len() - MSG_HEIGHT + 1, log.len() as int).push(m)
    } else {
        log.push(m)
    }
}

/// Adds `m` to the log, dropping the oldest entries so that at most `MSG_HEIGHT` remain.
pub fn message(messages: &mut Messages, m: Message)
    ensures
        final(messages)@ == logged(old(messages)@, m),
        final(messages)@.len() <= MSG_HEIGHT,
        final(messages)@.last() == m,
        log_view(final(messages)@) == logged(log_view(old(messages)@), m@),
{
    while messages.len() >= MSG_HEIGHT
        invariant
            messages@.len() <= old(messages)@.len(),
            messages@ == old(messages)@.subrange(old(messages)@.len() - messages@.len(), old(messages)@.len() as int),
            old(messages)@.len() >= MSG_HEIGHT ==> messages@.len() >= MSG_HEIGHT - 1,
            old(messages)@.len() < MSG_HEIGHT ==> messages@.len() == old(messages)@.len(),
        decreases messages@.len(),
    {
        messages.remove(0);
    }
    assert(old(messages)@.len() < MSG_HEIGHT ==> messages@ =~= old(messages)@);
    messages.push(m);
    assert(log_view(messages@) =~= logged(log_view(old(messages)@), m@));
}

/// A log that entries can be added to.
pub trait MessageLog {
    spec fn entries(&self) -> Seq<Message>;

    /// Adds `m` as the newest entry, keeping at most `MSG_HEIGHT` entries.
    fn add(&mut self, m: Message)
        ensures
            final(self).entries() == logged(old(self).entries(), m),
    ;
}

impl MessageLog for Vec<Message> {
    open spec fn entries(&self) -> Seq<Message> {
        self@
    }

    fn add(&mut self, m: Message) {
        message(self, m);
    }
}

} // verus!
