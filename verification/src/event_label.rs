//! The labels of events: what a thread did at each of its positions.

use crate::event::{Event, ThreadId};
use crate::loc::{CommunicationModel, Loc};
use vstd::prelude::*;

verus! {

/// A message or result value. The value itself stays with the caller, who finds
/// it again by `handle`; `type_key` tells the values of different types apart.
#[derive(Clone, Copy, Debug, PartialEq, Eq, Structural)]
pub struct Val {
    pub type_key: u64,
    pub handle: u64,
    /// Set while the event that produces the value has not been re-executed.
    pub pending: bool,
}

impl Val {
    pub fn new(type_key: u64, handle: u64) -> (v: Self)
        ensures
            v == (Val { type_key, handle, pending: false }),
    {
        Val { type_key, handle, pending: false }
    }
}

/// Why a thread cannot go on.
#[derive(Clone, Copy, Debug, PartialEq, Eq, Structural)]
pub enum BlockType {
    /// The program assumed something false.
    Assume,
    /// The program asserted something false.
    Assert,
    /// A receive (by its location) waits for this many messages.
    Value(usize, usize),
    /// A join waits for a thread.
    Join(ThreadId),
}

/// What happened at an event.
#[allow(inconsistent_fields)]
pub enum LabelKind {
    Begin { parent: Option<Event>, sym_id: Option<ThreadId> },
    End { result: Val },
    TCreate {
        cid: ThreadId,
        name: Option<String>,
        daemon: bool,
        sym_cid: Option<ThreadId>,
        origination: Vec<u32>,
    },
    TJoin { cid: ThreadId },
    Recv { loc: usize, blocking: bool, rf: Option<Event>, revisitable: bool },
    Send {
        loc: Loc,
        tag: Option<Vec<u32>>,
        val: Val,
        monitors: Vec<ThreadId>,
        lossy: bool,
        dropped: bool,
        model: CommunicationModel,
    },
    Inbox {
        loc: usize,
        min: usize,
        max: Option<usize>,
        rfs: Option<Vec<Event>>,
        revisitable: bool,
    },
    Block { btype: BlockType },
    CToss { result: bool },
    Choice { start: usize, end: usize, result: usize },
    Sample { current: u64, rest: Vec<u64> },
    Unique { loc: Loc },
}

/// What happened at an event, as the contracts see it.
#[allow(inconsistent_fields)]
pub enum KindView {
    Begin { parent: Option<Event>, sym_id: Option<ThreadId> },
    End { result: Val },
    TCreate {
        cid: ThreadId,
        name: Option<Seq<char>>,
        daemon: bool,
        sym_cid: Option<ThreadId>,
        origination: Seq<u32>,
    },
    TJoin { cid: ThreadId },
    Recv { loc: usize, blocking: bool, rf: Option<Event>, revisitable: bool },
    Send {
        loc: Loc,
        tag: Option<Seq<u32>>,
        val: Val,
        monitors: Seq<ThreadId>,
        lossy: bool,
        dropped: bool,
        model: CommunicationModel,
    },
    Inbox {
        loc: usize,
        min: usize,
        max: Option<usize>,
        rfs: Option<Seq<Event>>,
        revisitable: bool,
    },
    Block { btype: BlockType },
    CToss { result: bool },
    Choice { start: usize, end: usize, result: usize },
    Sample { current: u64, rest: Seq<u64> },
    Unique { loc: Loc },
}

/// A set of read events as the contracts see it.
pub open spec fn events_view(events: Option<Vec<Event>>) -> Option<Seq<Event>> {
    match events {
        Some(es) => Some(es@),
        None => None,
    }
}

/// The name of a thread as the contracts see it.
pub open spec fn name_view(name: Option<String>) -> Option<Seq<char>> {
    match name {
        Some(n) => Some(n@),
        None => None,
    }
}

impl View for LabelKind {
    type V = KindView;

    open spec fn view(&self) -> KindView {
        match *self {
            LabelKind::Begin { parent, sym_id } => KindView::Begin { parent, sym_id },
            LabelKind::End { result } => KindView::End { result },
            LabelKind::TCreate { cid, name, daemon, sym_cid, origination } => KindView::TCreate {
                cid,
                name: name_view(name),
                daemon,
                sym_cid,
                origination: origination@,
            },
            LabelKind::TJoin { cid } => KindView::TJoin { cid },
            LabelKind::Recv { loc, blocking, rf, revisitable } => KindView::Recv {
                loc,
                blocking,
                rf,
                revisitable,
            },
            LabelKind::Send { loc, tag, val, monitors, lossy, dropped, model } => KindView::Send {
                loc,
                tag: crate::loc::tag_view(tag),
                val,
                monitors: monitors@,
                lossy,
                dropped,
                model,
            },
            LabelKind::Inbox { loc, min, max, rfs, revisitable } => KindView::Inbox {
                loc,
                min,
                max,
                rfs: events_view(rfs),
                revisitable,
            },
            LabelKind::Block { btype } => KindView::Block { btype },
            LabelKind::CToss { result } => KindView::CToss { result },
            LabelKind::Choice { start, end, result } => KindView::Choice { start, end, result },
            LabelKind::Sample { current, rest } => KindView::Sample { current, rest: rest@ },
            LabelKind::Unique { loc } => KindView::Unique { loc },
        }
    }
}

pub fn copy_events(events: &Vec<Event>) -> (r: Vec<Event>)
    ensures
        r@ == events@,
{
    let mut r: Vec<Event> = Vec::new();
    let mut i: usize = 0;
    while i < events.len()
        invariant
            i <= events.len(),
            r@ == events@.take(i as int),
        decreases events.len() - i,
    {
        r.push(events[i]);
        i += 1;
        assert(events@.take(i as int) =~= events@.take(i - 1).push(events@[i - 1]));
    }
    assert(events@.take(i as int) =~= events@);
    r
}

pub fn copy_threads(threads: &Vec<ThreadId>) -> (r: Vec<ThreadId>)
    ensures
        r@ == threads@,
{
    let mut r: Vec<ThreadId> = Vec::new();
    let mut i: usize = 0;
    while i < threads.len()
        invariant
            i <= threads.len(),
            r@ == threads@.take(i as int),
        decreases threads.len() - i,
    {
        r.push(threads[i]);
        i += 1;
        assert(threads@.take(i as int) =~= threads@.take(i - 1).push(threads@[i - 1]));
    }
    assert(threads@.take(i as int) =~= threads@);
    r
}

pub fn copy_words(words: &Vec<u32>) -> (r: Vec<u32>)
    ensures
        r@ == words@,
{
    let r = words.clone();
    assert(r@ =~= words@);
    r
}

pub fn copy_tag(tag: &Option<Vec<u32>>) -> (r: Option<Vec<u32>>)
    ensures
        crate::loc::tag_view(r) == crate::loc::tag_view(*tag),
{
    match tag {
        Some(words) => Some(copy_words(words)),
        None => None,
    }
}

pub fn copy_name(name: &Option<String>) -> (r: Option<String>)
    ensures
        name_view(r) == name_view(*name),
{
    match name {
        Some(n) => Some(n.clone()),
        None => None,
    }
}

impl Clone for LabelKind {
    fn clone(&self) -> (r: Self)
        ensures
            r@ == self@,
    {
        match self {
            LabelKind::Begin { parent, sym_id } => LabelKind::Begin {
                parent: *parent,
                sym_id: *sym_id,
            },
            LabelKind::End { result } => LabelKind::End { result: *result },
            LabelKind::TCreate { cid, name, daemon, sym_cid, origination } => LabelKind::TCreate {
                cid: *cid,
                name: copy_name(name),
                daemon: *daemon,
                sym_cid: *sym_cid,
                origination: copy_words(origination),
            },
            LabelKind::TJoin { cid } => LabelKind::TJoin { cid: *cid },
            LabelKind::Recv { loc, blocking, rf, revisitable } => LabelKind::Recv {
                loc: *loc,
                blocking: *blocking,
                rf: *rf,
                revisitable: *revisitable,
            },
            LabelKind::Send { loc, tag, val, monitors, lossy, dropped, model } => LabelKind::Send {
                loc: *loc,
                tag: copy_tag(tag),
                val: *val,
                monitors: copy_threads(monitors),
                lossy: *lossy,
                dropped: *dropped,
                model: *model,
            },
            LabelKind::Inbox { loc, min, max, rfs, revisitable } => {
                let rfs_copy: Option<Vec<Event>> = match rfs {
                    Some(es) => Some(copy_events(es)),
                    None => None,
                };
                LabelKind::Inbox {
                    loc: *loc,
                    min: *min,
                    max: *max,
                    rfs: rfs_copy,
                    revisitable: *revisitable,
                }
            },
            LabelKind::Block { btype } => LabelKind::Block { btype: *btype },
            LabelKind::CToss { result } => LabelKind::CToss { result: *result },
            LabelKind::Choice { start, end, result } => LabelKind::Choice {
                start: *start,
                end: *end,
                result: *result,
            },
            LabelKind::Sample { current, rest } => {
                let rest_copy = rest.clone();
                assert(rest_copy@ =~= rest@);
                LabelKind::Sample { current: *current, rest: rest_copy }
            },
            LabelKind::Unique { loc } => LabelKind::Unique { loc: *loc },
        }
    }
}

/// An event of an execution with its label. Stamps number the labels in the
/// order in which they were added.
pub struct Label {
    pub pos: Event,
    pub stamp: usize,
    pub kind: LabelKind,
}

/// A label as the contracts see it.
pub struct LabelView {
    pub pos: Event,
    pub stamp: usize,
    pub kind: KindView,
}

impl View for Label {
    type V = LabelView;

    open spec fn view(&self) -> LabelView {
        LabelView { pos: self.pos, stamp: self.stamp, kind: self.kind@ }
    }
}

impl Clone for Label {
    fn clone(&self) -> (r: Self)
        ensures
            r@ == self@,
    {
        Label { pos: self.pos, stamp: self.stamp, kind: self.kind.clone() }
    }
}

impl LabelView {
    pub open spec fn is_send(self) -> bool {
        self.kind is Send
    }

    pub open spec fn is_inbox(self) -> bool {
        self.kind is Inbox
    }

    /// Whether the label reads the message that `send` sent.
    pub open spec fn reads(self, send: Event) -> bool {
        match self.kind {
            KindView::Recv { rf, .. } => rf == Some(send),
            KindView::Inbox { rfs, .. } => rfs matches Some(es) && es.contains(send),
            _ => false,
        }
    }
}

/// Whether `event` is one of `events`.
pub fn event_in(events: &Vec<Event>, event: Event) -> (r: bool)
    ensures
        r == events@.contains(event),
{
    let mut i: usize = 0;
    while i < events.len()
        invariant
            i <= events.len(),
            forall|j: int| 0 <= j < i ==> events@[j] != event,
        decreases events.len() - i,
    {
        if events[i] == event {
            assert(events@[i as int] == event);
            return true;
        }
        i += 1;
    }
    false
}

/// Whether two lists hold the same events in the same order.
pub fn events_equal(a: &Vec<Event>, b: &Vec<Event>) -> (r: bool)
    ensures
        r == (a@ == b@),
{
    if a.len() != b.len() {
        return false;
    }
    let mut i: usize = 0;
    while i < a.len()
        invariant
            i <= a.len(),
            a.len() == b.len(),
            forall|j: int| 0 <= j < i ==> a@[j] == b@[j],
        decreases a.len() - i,
    {
        if a[i] != b[i] {
            assert(a@[i as int] != b@[i as int]);
            return false;
        }
        i += 1;
    }
    assert(a@ =~= b@);
    true
}

impl Label {
    pub fn reads_from(&self, send: Event) -> (b: bool)
        ensures
            b == self@.reads(send),
    {
        match &self.kind {
            LabelKind::Recv { rf, .. } => *rf == Some(send),
            LabelKind::Inbox { rfs, .. } => match rfs {
                Some(es) => event_in(es, send),
                None => false,
            },
            _ => false,
        }
    }
}

} // verus!
