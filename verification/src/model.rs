//! The message data model: validators, weights, messages, and the arena that
//! owns every message and issues their identifiers.

use vstd::prelude::*;

verus! {

/// A validator identifier. Identifier `0` is reserved: it denotes the
/// synthetic author of the genesis block and is never assigned to a real
/// validator.
pub type Validator = u64;

/// A validator's voting power, in non-negative integer units.
pub type Weight = u64;

/// The ways a request to the library can be rejected.
#[derive(Clone, Copy, Debug, PartialEq, Eq, Structural)]
pub enum Error {
    /// The weight table names the reserved validator `0`.
    ReservedValidator,
    /// The weight table names the same validator twice.
    DuplicateValidator,
    /// The weights add up to more than a `Weight` can hold.
    WeightOverflow,
    /// A message was submitted with the reserved sender `0`.
    InvalidSender,
    /// A message was submitted with an empty justification.
    EmptyJustification,
    /// A handle does not name a message that the arena owns.
    InvalidHandle,
}

/// A Casper message. Messages are identified by `id`, which equals their
/// index in the [`Arena`] that owns them; `estimate` and `justification`
/// reference earlier messages by such handles, so every reference edge goes
/// from a larger handle to a strictly smaller one and the message DAG is
/// acyclic by construction.
#[derive(Debug)]
pub struct Message {
    /// The unique identifier: the message's index in the arena, strictly
    /// increasing in creation order.
    pub id: usize,
    /// The validator that authored the message (`0` only for genesis).
    pub sender: Validator,
    /// The single parent block this message builds upon, chosen by the
    /// fork-choice rule at construction time; absent only for genesis.
    pub estimate: Option<usize>,
    /// The messages the author had observed before creating this one;
    /// empty only for genesis.
    pub justification: Vec<usize>,
}

/// The shape of the genesis block: no parent, nothing observed, and the
/// reserved sender.
pub open spec fn is_genesis(m: Message) -> bool {
    &&& m.sender == 0
    &&& m.estimate is None
    &&& m.justification@.len() == 0
}

/// Well-formedness of the arena entry at index `i`: its stored identifier is
/// its index, entry `0` is the genesis block, and every later entry was
/// authored by a real validator, carries a parent with a strictly smaller
/// handle, and justifies only strictly earlier messages.
pub open spec fn msg_wf(arena: Seq<Message>, i: int) -> bool {
    &&& arena[i].id == i
    &&& if i == 0 {
        is_genesis(arena[i])
    } else {
        &&& arena[i].sender != 0
        &&& (arena[i].estimate matches Some(e) && e < i)
        &&& arena[i].justification@.len() > 0
        &&& forall|k: int|
            0 <= k < arena[i].justification@.len() ==> arena[i].justification@[k] < i
    }
}

/// Well-formedness of a whole arena.
pub open spec fn arena_wf(arena: Seq<Message>) -> bool {
    forall|i: int| 0 <= i < arena.len() ==> #[trigger] msg_wf(arena, i)
}

/// Owns every message of a run by value and hands out stable integer handles;
/// the handle of a message is its index, and the arena alone assigns them, so
/// identifiers are unique and strictly increasing in creation order.
pub struct Arena {
    msgs: Vec<Message>,
}

impl View for Arena {
    type V = Seq<Message>;

    closed spec fn view(&self) -> Seq<Message> {
        self.msgs@
    }
}

impl Arena {
    /// The arena's invariant: every entry it owns is well-formed.
    pub open spec fn wf(self) -> bool {
        arena_wf(self@)
    }

    /// An empty arena, holding no messages yet.
    pub fn new() -> (a: Arena)
        ensures
            a@.len() == 0,
            a.wf(),
    {
        Arena { msgs: Vec::new() }
    }

    /// How many messages the arena owns; equivalently, the next identifier.
    pub fn len(&self) -> (n: usize)
        ensures
            n == self@.len(),
    {
        self.msgs.len()
    }

    /// The message a handle names.
    pub fn get(&self, id: usize) -> (m: &Message)
        requires
            id < self@.len(),
        ensures
            *m == self@[id as int],
    {
        &self.msgs[id]
    }

    /// Appends a message the arena will own; the caller re-establishes
    /// well-formedness.
    pub(crate) fn push_msg(&mut self, m: Message)
        ensures
            final(self)@ == old(self)@.push(m),
    {
        self.msgs.push(m);
    }

    /// Creates the unique genesis block as the arena's first message,
    /// consuming identifier `0`.
    pub fn create_genesis(&mut self) -> (id: usize)
        requires
            old(self)@.len() == 0,
        ensures
            final(self).wf(),
            final(self)@.len() == 1,
            id == 0,
            final(self)@[0].id == 0,
            is_genesis(final(self)@[0]),
    {
        let g = Message::genesis(0);
        self.msgs.push(g);
        proof {
            assert(msg_wf(self@, 0));
        }
        0
    }
}

impl Message {
    /// The genesis block: sender `0`, no estimate, an empty justification,
    /// and the given identifier.
    pub fn genesis(id: usize) -> (m: Message)
        ensures
            m.id == id,
            is_genesis(m),
    {
        Message { id, sender: 0, estimate: None, justification: Vec::new() }
    }
}

} // verus!
