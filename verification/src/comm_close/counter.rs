//! Rounds that are counted for each thread.

use crate::assoc::Assoc;
use crate::event::ThreadId;
use crate::event_label::Val;
use crate::loc::{Predicate, RecvPredicate};
use vstd::prelude::*;

verus! {

/// Which thread runs, and in which execution.
#[derive(Clone, Copy, Debug, PartialEq, Eq, Structural)]
pub struct Turn {
    pub tid: ThreadId,
    pub execution_id: u64,
}

/// The rounds that the threads of an execution are in.
pub struct RoundState {
    execution_id: Option<u64>,
    rounds: Assoc<ThreadId, u32>,
}

/// Such rounds as the contracts see them.
#[verifier::ext_equal]
pub struct CountView {
    pub execution_id: Option<u64>,
    pub rounds: Map<ThreadId, u32>,
}

impl View for RoundState {
    type V = CountView;

    closed spec fn view(&self) -> CountView {
        CountView { execution_id: self.execution_id, rounds: self.rounds@ }
    }
}

/// The rounds as a thread finds them: those of an earlier execution are forgotten.
pub open spec fn synced(s: CountView, turn: Turn) -> CountView {
    if s.execution_id != Some(turn.execution_id) {
        CountView { execution_id: Some(turn.execution_id), rounds: Map::empty() }
    } else {
        s
    }
}

/// The round that the running thread is in; threads begin at zero.
pub open spec fn round_of(s: CountView, turn: Turn) -> u32 {
    let now = synced(s, turn);
    if now.rounds.contains_key(turn.tid) {
        now.rounds[turn.tid]
    } else {
        0
    }
}

/// The rounds after the running thread entered the round `n`.
pub open spec fn with_round(s: CountView, turn: Turn, n: u32) -> CountView {
    let now = synced(s, turn);
    CountView { rounds: now.rounds.insert(turn.tid, n), ..now }
}

impl RoundState {
    pub fn new() -> (s: Self)
        ensures
            s@ == (CountView { execution_id: None, rounds: Map::empty() }),
    {
        RoundState { execution_id: None, rounds: Assoc::new() }
    }

    fn sync(&mut self, turn: Turn)
        ensures
            final(self)@ == synced(old(self)@, turn),
    {
        let same = match self.execution_id {
            Some(e) => e == turn.execution_id,
            None => false,
        };
        if !same {
            self.execution_id = Some(turn.execution_id);
            self.rounds.clear();
        }
    }

    fn enter(&mut self, turn: Turn, n: u32)
        ensures
            final(self)@ == with_round(old(self)@, turn, n),
    {
        self.sync(turn);
        self.rounds.insert(turn.tid, n);
    }

    fn current(&mut self, turn: Turn) -> (n: u32)
        ensures
            n == round_of(old(self)@, turn),
            final(self)@ == with_round(old(self)@, turn, n),
    {
        self.sync(turn);
        let n: u32 = match self.rounds.get(&turn.tid) {
            Some(n) => *n,
            None => 0,
        };
        self.rounds.insert(turn.tid, n);
        n
    }
}

/// The number of a round.
#[derive(Clone, Copy, Debug, PartialEq, Eq, Structural, PartialOrd, Ord, Hash)]
pub struct RoundId(pub u32);

/// A round that a thread was in.
#[derive(Clone, Copy, Debug, PartialEq, Eq, Structural)]
pub struct Round {
    pub id: RoundId,
    pub thread: ThreadId,
}

/// Why a round is not accepted.
#[derive(Clone, Copy, Debug, PartialEq, Eq, Structural)]
pub enum RoundFault {
    /// It belongs to another thread.
    WrongThread,
    /// It is not the current one.
    NotCurrent,
    /// The message is of an earlier round.
    EarlierMessage,
    /// The message is of another type.
    WrongType,
}

/// Why a round is not that of the running thread.
pub open spec fn round_fault(s: CountView, turn: Turn, round: Round) -> Option<RoundFault> {
    if turn.tid != round.thread {
        Some(RoundFault::WrongThread)
    } else if round.id.0 != round_of(s, turn) {
        Some(RoundFault::NotCurrent)
    } else {
        None
    }
}

/// The rounds after the round of the running thread was looked at.
pub open spec fn looked_at(s: CountView, turn: Turn) -> CountView {
    with_round(s, turn, round_of(s, turn))
}

impl Round {
    pub fn id(&self) -> (id: RoundId)
        ensures
            id == self.id,
    {
        self.id
    }

    /// The tag of messages of the round.
    pub fn tag(&self) -> (t: u32)
        ensures
            t == self.id.0,
    {
        self.id.0
    }

    /// Why the round is not that of the running thread.
    pub fn assert_current(&self, state: &mut RoundState, turn: Turn) -> (r: Option<RoundFault>)
        ensures
            r == round_fault(old(state)@, turn, *self),
            final(state)@ == looked_at(old(state)@, turn),
    {
        let current = state.current(turn);
        if turn.tid != self.thread {
            Some(RoundFault::WrongThread)
        } else if self.id.0 != current {
            Some(RoundFault::NotCurrent)
        } else {
            None
        }
    }
}

/// The rounds of the running thread.
#[derive(Clone, Copy, Debug, PartialEq, Eq, Structural)]
pub struct Rounds {}

impl Rounds {
    pub fn new() -> (r: Self)
        ensures
            r == (Rounds {  }),
    {
        Rounds {  }
    }

    /// The round that the thread is in.
    pub fn current(&self, state: &mut RoundState, turn: Turn) -> (r: Round)
        ensures
            r == (Round { id: RoundId(round_of(old(state)@, turn)), thread: turn.tid }),
            final(state)@ == looked_at(old(state)@, turn),
    {
        Round { id: RoundId(state.current(turn)), thread: turn.tid }
    }

    /// Goes on to the next round; none where the count is at its end.
    pub fn advance(&mut self, state: &mut RoundState, turn: Turn) -> (r: Option<Round>)
        ensures
            *final(self) == *old(self),
            match r {
                Some(round) => {
                    &&& round_of(old(state)@, turn) < u32::MAX
                    &&& round == (Round {
                        id: RoundId((round_of(old(state)@, turn) + 1) as u32),
                        thread: turn.tid,
                    })
                    &&& final(state)@ == with_round(old(state)@, turn, round.id.0)
                },
                None => round_of(old(state)@, turn) == u32::MAX && final(state)@ == looked_at(
                    old(state)@,
                    turn,
                ),
            },
    {
        let n = state.current(turn);
        if n == u32::MAX {
            return None;
        }
        state.enter(turn, n + 1);
        proof {
            let s = old(state)@;
            assert(synced(looked_at(s, turn), turn) == looked_at(s, turn));
            assert(with_round(looked_at(s, turn), turn, (n + 1) as u32).rounds =~= with_round(
                s,
                turn,
                (n + 1) as u32,
            ).rounds);
        }
        Some(Round { id: RoundId(n + 1), thread: turn.tid })
    }
}

/// A message together with the round in which it was sent.
pub struct RoundMsg<T> {
    payload: T,
    round: RoundId,
}

/// Such a message as the contracts see it.
pub struct MsgView<T> {
    pub payload: T,
    pub round: RoundId,
}

impl<T> View for RoundMsg<T> {
    type V = MsgView<T>;

    closed spec fn view(&self) -> MsgView<T> {
        MsgView { payload: self.payload, round: self.round }
    }
}

/// Why a message is not read in a round.
pub open spec fn message_fault(
    s: CountView,
    turn: Turn,
    round: Round,
    sent_in: RoundId,
) -> Option<RoundFault> {
    match round_fault(s, turn, round) {
        Some(f) => Some(f),
        None => if sent_in.0 < round.id.0 {
            Some(RoundFault::EarlierMessage)
        } else {
            None
        },
    }
}

impl<T> RoundMsg<T> {
    pub fn new(payload: T, round: RoundId) -> (m: Self)
        ensures
            m@ == (MsgView { payload, round }),
    {
        RoundMsg { payload, round }
    }

    /// The round in which the message was sent.
    pub fn round_id(&self) -> (r: RoundId)
        ensures
            r == self@.round,
    {
        self.round
    }

    fn assert_round(&self, round: &Round, state: &mut RoundState, turn: Turn) -> (r: Option<
        RoundFault,
    >)
        ensures
            r == message_fault(old(state)@, turn, *round, self@.round),
            final(state)@ == looked_at(old(state)@, turn),
    {
        match round.assert_current(state, turn) {
            Some(f) => Some(f),
            None => if self.round.0 < round.id.0 {
                Some(RoundFault::EarlierMessage)
            } else {
                None
            },
        }
    }

    /// What the message says, in the current round.
    pub fn payload(&self, round: &Round, state: &mut RoundState, turn: Turn) -> (r: Result<
        &T,
        RoundFault,
    >)
        ensures
            match message_fault(old(state)@, turn, *round, self@.round) {
                Some(f) => r == Err::<&T, RoundFault>(f),
                None => r matches Ok(p) && *p == self@.payload,
            },
            final(state)@ == looked_at(old(state)@, turn),
    {
        match self.assert_round(round, state, turn) {
            Some(f) => Err(f),
            None => Ok(&self.payload),
        }
    }

    /// Applies a function to what the message says, in the current round.
    pub fn with_payload<R, F: FnOnce(&T) -> R>(
        &self,
        round: &Round,
        state: &mut RoundState,
        turn: Turn,
        f: F,
    ) -> (r: Result<R, RoundFault>)
        requires
            f.requires((&self@.payload,)),
        ensures
            match message_fault(old(state)@, turn, *round, self@.round) {
                Some(x) => r == Err::<R, RoundFault>(x),
                None => r matches Ok(v) && f.ensures((&self@.payload,), v),
            },
            final(state)@ == looked_at(old(state)@, turn),
    {
        match self.assert_round(round, state, turn) {
            Some(x) => Err(x),
            None => Ok(f(&self.payload)),
        }
    }
}

/// A value together with the round in which it is sent.
#[derive(Clone, Copy, Debug, PartialEq, Eq, Structural)]
pub struct TaggedVal {
    pub round: RoundId,
    pub payload: Val,
}

/// A message as it is sent.
pub struct RoundSend {
    pub to: ThreadId,
    pub tag: Vec<u32>,
    pub value: TaggedVal,
    pub lossy: bool,
}

/// Whether `m` is `msg`, sent to `to` in `round`.
pub open spec fn sends(m: RoundSend, to: ThreadId, msg: Val, round: Round, lossy: bool) -> bool {
    &&& m.to == to
    &&& m.tag@ == seq![round.id.0]
    &&& m.value == (TaggedVal { round: round.id, payload: msg })
    &&& m.lossy == lossy
}

fn send_in(
    to: ThreadId,
    msg: Val,
    round: &Round,
    lossy: bool,
    state: &mut RoundState,
    turn: Turn,
) -> (r: Result<RoundSend, RoundFault>)
    ensures
        match round_fault(old(state)@, turn, *round) {
            Some(f) => r == Err::<RoundSend, RoundFault>(f),
            None => r matches Ok(m) && sends(m, to, msg, *round, lossy),
        },
        final(state)@ == looked_at(old(state)@, turn),
{
    match round.assert_current(state, turn) {
        Some(f) => Err(f),
        None => {
            let mut tag: Vec<u32> = Vec::new();
            tag.push(round.tag());
            assert(tag@ =~= seq![round.id.0]);
            Ok(RoundSend { to, tag, value: TaggedVal { round: round.id(), payload: msg }, lossy })
        },
    }
}

/// Sends a message in the current round.
pub fn send(tid: ThreadId, msg: Val, round: &Round, state: &mut RoundState, turn: Turn) -> (r:
    Result<RoundSend, RoundFault>)
    ensures
        match round_fault(old(state)@, turn, *round) {
            Some(f) => r == Err::<RoundSend, RoundFault>(f),
            None => r matches Ok(m) && sends(m, tid, msg, *round, false),
        },
        final(state)@ == looked_at(old(state)@, turn),
{
    send_in(tid, msg, round, false, state, turn)
}

/// Sends a message that may get lost in the current round.
pub fn send_lossy(tid: ThreadId, msg: Val, round: &Round, state: &mut RoundState, turn: Turn) -> (r:
    Result<RoundSend, RoundFault>)
    ensures
        match round_fault(old(state)@, turn, *round) {
            Some(f) => r == Err::<RoundSend, RoundFault>(f),
            None => r matches Ok(m) && sends(m, tid, msg, *round, true),
        },
        final(state)@ == looked_at(old(state)@, turn),
{
    send_in(tid, msg, round, true, state, turn)
}

/// How messages are received in a round.
#[derive(Clone, Copy, Debug, PartialEq, Eq, Structural)]
pub struct RoundRecv {
    /// The first round of which messages are taken.
    pub from: u32,
    pub blocking: bool,
}

/// Which messages are received.
pub fn predicate(r: &RoundRecv) -> (p: Predicate)
    ensures
        p == Predicate::TagAtLeast(r.from),
{
    Predicate::TagAtLeast(r.from)
}

/// Receives a message of the current round or a later one.
pub fn recv(round: &Round, state: &mut RoundState, turn: Turn) -> (r: Result<RoundRecv, RoundFault>)
    ensures
        r == (match round_fault(old(state)@, turn, *round) {
            Some(f) => Err::<RoundRecv, RoundFault>(f),
            None => Ok::<RoundRecv, RoundFault>(
                RoundRecv { from: round.id.0, blocking: false },
            ),
        }),
        final(state)@ == looked_at(old(state)@, turn),
{
    match round.assert_current(state, turn) {
        Some(f) => Err(f),
        None => Ok(RoundRecv { from: round.tag(), blocking: false }),
    }
}

/// Waits for a message of the current round or a later one.
pub fn recv_block(round: &Round, state: &mut RoundState, turn: Turn) -> (r: Result<
    RoundRecv,
    RoundFault,
>)
    ensures
        r == (match round_fault(old(state)@, turn, *round) {
            Some(f) => Err::<RoundRecv, RoundFault>(f),
            None => Ok::<RoundRecv, RoundFault>(RoundRecv { from: round.id.0, blocking: true }),
        }),
        final(state)@ == looked_at(old(state)@, turn),
{
    match round.assert_current(state, turn) {
        Some(f) => Err(f),
        None => Ok(RoundRecv { from: round.tag(), blocking: true }),
    }
}

/// How an inbox is read in a round.
#[derive(Clone, Copy, Debug)]
pub struct RoundInbox {
    /// The first round of which messages are taken.
    pub from: u32,
    pub min: usize,
    pub max: Option<usize>,
}

/// Which messages an inbox takes.
pub fn inbox_predicate(r: &RoundInbox) -> (p: Predicate)
    ensures
        p == Predicate::TagAtLeast(r.from),
{
    Predicate::TagAtLeast(r.from)
}

/// Reads all messages of the current round and later ones.
pub fn inbox(round: &Round, state: &mut RoundState, turn: Turn) -> (r: Result<
    RoundInbox,
    RoundFault,
>)
    ensures
        r == (match round_fault(old(state)@, turn, *round) {
            Some(f) => Err::<RoundInbox, RoundFault>(f),
            None => Ok::<RoundInbox, RoundFault>(
                RoundInbox { from: round.id.0, min: 0, max: None },
            ),
        }),
        final(state)@ == looked_at(old(state)@, turn),
{
    inbox_with_bounds(round, 0, None, state, turn)
}

/// Reads between `min` and `max` messages of the current round and later ones.
pub fn inbox_with_bounds(
    round: &Round,
    min: usize,
    max: Option<usize>,
    state: &mut RoundState,
    turn: Turn,
) -> (r: Result<RoundInbox, RoundFault>)
    ensures
        r == (match round_fault(old(state)@, turn, *round) {
            Some(f) => Err::<RoundInbox, RoundFault>(f),
            None => Ok::<RoundInbox, RoundFault>(RoundInbox { from: round.id.0, min, max }),
        }),
        final(state)@ == looked_at(old(state)@, turn),
{
    match round.assert_current(state, turn) {
        Some(f) => Err(f),
        None => Ok(RoundInbox { from: round.tag(), min, max }),
    }
}

/// The message that a received value is.
pub fn opened(tagged: TaggedVal, type_key: u64) -> (r: Result<RoundMsg<Val>, RoundFault>)
    ensures
        tagged.payload.type_key == type_key ==> (r matches Ok(m) && m@ == (MsgView {
            payload: tagged.payload,
            round: tagged.round,
        })),
        tagged.payload.type_key != type_key ==> r == Err::<RoundMsg<Val>, RoundFault>(
            RoundFault::WrongType,
        ),
{
    if tagged.payload.type_key == type_key {
        Ok(RoundMsg::new(tagged.payload, tagged.round))
    } else {
        Err(RoundFault::WrongType)
    }
}

/// What the messages that an inbox yields are, one for one.
pub open spec fn opened_all(vals: Seq<Option<TaggedVal>>, msgs: Seq<Option<RoundMsg<Val>>>) -> bool {
    &&& msgs.len() == vals.len()
    &&& forall|i: int|
        0 <= i < vals.len() ==> match #[trigger] vals[i] {
            Some(v) => msgs[i] matches Some(m) && m@ == (MsgView {
                payload: v.payload,
                round: v.round,
            }),
            None => msgs[i] is None,
        }
}

/// The messages that an inbox yields: as many as it yields values, in the same order,
/// and none where it yields none.
pub fn inbox_messages(vals: &Vec<Option<TaggedVal>>) -> (msgs: Vec<Option<RoundMsg<Val>>>)
    ensures
        opened_all(vals@, msgs@),
{
    let mut msgs: Vec<Option<RoundMsg<Val>>> = Vec::new();
    let mut i: usize = 0;
    while i < vals.len()
        invariant
            i <= vals@.len(),
            opened_all(vals@.take(i as int), msgs@),
        decreases vals.len() - i,
    {
        let ghost before = msgs@;
        msgs.push(
            match vals[i] {
                Some(v) => Some(RoundMsg::new(v.payload, v.round)),
                None => None,
            },
        );
        i += 1;
        proof {
            let taken = vals@.take(i as int);
            assert forall|k: int| 0 <= k < taken.len() implies match #[trigger] taken[k] {
                Some(v) => msgs@[k] matches Some(m) && m@ == (MsgView {
                    payload: v.payload,
                    round: v.round,
                }),
                None => msgs@[k] is None,
            } by {
                if k < i - 1 {
                    assert(msgs@[k] == before[k]);
                    assert(vals@.take(i - 1)[k] == taken[k]);
                }
            }
        }
    }
    assert(vals@.take(i as int) =~= vals@);
    msgs
}

/// Whether all that an inbox yields was sent in a round, with the tag that it accepts.
pub open spec fn yields(r: RoundInbox, vals: Seq<Option<TaggedVal>>) -> bool {
    forall|i: int|
        0 <= i < vals.len() ==> ((#[trigger] vals[i]) matches Some(v)
            ==> exists|m: RoundSend, to: ThreadId, sent_in: Round, lossy: bool, sender: ThreadId|
            {
                &&& #[trigger] sends(m, to, v.payload, sent_in, lossy)
                &&& m.value == v
                &&& #[trigger] Predicate::TagAtLeast(r.from).accepted(sender, Some(m.tag@))
            })
}

/// What an inbox of a round yields are messages of that round or later ones, each with
/// what its sender sent.
pub proof fn law_inboxes_yield_no_earlier_rounds(
    r: RoundInbox,
    vals: Seq<Option<TaggedVal>>,
    msgs: Seq<Option<RoundMsg<Val>>>,
)
    requires
        yields(r, vals),
        opened_all(vals, msgs),
    ensures
        forall|i: int|
            0 <= i < msgs.len() ==> ((#[trigger] msgs[i]) matches Some(m) ==> m@.round.0 >= r.from
                && (vals[i] matches Some(v) && m@.payload == v.payload)),
{
    assert forall|i: int| 0 <= i < msgs.len() implies ((#[trigger] msgs[i]) matches Some(m)
        ==> m@.round.0 >= r.from && (vals[i] matches Some(v) && m@.payload == v.payload)) by {
        if let Some(v) = vals[i] {
            let (m, to, sent_in, lossy, sender) = choose|
                m: RoundSend,
                to: ThreadId,
                sent_in: Round,
                lossy: bool,
                sender: ThreadId,
            |
                {
                    &&& #[trigger] sends(m, to, v.payload, sent_in, lossy)
                    &&& m.value == v
                    &&& #[trigger] Predicate::TagAtLeast(r.from).accepted(sender, Some(m.tag@))
                };
            assert(m.tag@[0] == sent_in.id.0);
        }
    }
}

/// What a receive in the current round accepts can be read in that round.
pub proof fn law_received_messages_can_be_read(
    s: CountView,
    turn: Turn,
    round: Round,
    m: RoundSend,
    to: ThreadId,
    msg: Val,
    sent_in: Round,
    lossy: bool,
    sender: ThreadId,
)
    requires
        round_fault(s, turn, round) is None,
        sends(m, to, msg, sent_in, lossy),
        Predicate::TagAtLeast(round.id.0).accepted(sender, Some(m.tag@)),
    ensures
        message_fault(s, turn, round, m.value.round) is None,
{
    assert(m.tag@[0] == sent_in.id.0);
}

} // verus!
