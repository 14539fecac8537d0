//! Giving up the current execution for another one.

use crate::event::{Event, ThreadId};
use crate::event_label::{BlockType, KindView, LabelKind, LabelView};
use crate::exec_graph::{
    first_event, in_log, index_of, label_at, last_label, last_place, lemma_last_place,
    lemma_thread_size, lemma_with_label, previous, threads_upto, with_label,
};
use crate::loc::RecvPredicate;
use crate::must::{
    added, has_alternatives, lemma_revisit_ok, log_of, recordable, sent_by, with_revisit, Must,
    MustView,
};
use crate::random::random_between;
use crate::revisit::{PlacementView, RevisitEnum, RevisitView};
use vstd::prelude::*;

verus! {

/// The exploration after each of the first `n` threads was blocked.
pub open spec fn all_blocked<P>(
    v: MustView<P>,
    threads: Seq<ThreadId>,
    btype: BlockType,
    n: nat,
) -> MustView<P>
    decreases n,
{
    if n == 0 {
        v
    } else {
        let before = all_blocked(v, threads, btype, (n - 1) as nat);
        let last = last_label(log_of(before), threads[n - 1]).pos;
        added(
            before,
            Event { thread: last.thread, index: (last.index + 1) as u32 },
            KindView::Block { btype },
        )
    }
}

/// Whether `extra` more events fit in every thread and in the graph.
pub open spec fn has_room_for<P>(v: MustView<P>, extra: nat) -> bool {
    &&& v.current.graph.stamp + extra < usize::MAX
    &&& forall|i: int|
        0 <= i < log_of(v).len() ==> (#[trigger] log_of(v)[i]).pos.index + extra < u32::MAX
}

/// The threads that have begun have a first event.
proof fn lemma_threads(log: Seq<LabelView>, n: nat)
    requires
        n <= log.len(),
    ensures
        threads_upto(log, n).len() <= n,
        forall|i: int|
            0 <= i < threads_upto(log, n).len() ==> in_log(
                log,
                first_event(#[trigger] threads_upto(log, n)[i]),
            ),
    decreases n,
{
    if n > 0 {
        lemma_threads(log, (n - 1) as nat);
        if log[n - 1].pos.index == 0 {
            assert(log[n - 1].pos == first_event(log[n - 1].pos.thread));
        }
    }
}

/// The revisit that is made instead of going on, if `idx` names one of `revs`.
pub open spec fn revisit_picked<P>(
    v: MustView<P>,
    revs: Seq<Event>,
    pos: Event,
    idx: nat,
) -> MustView<P> {
    let w = MustView { estimates: v.estimates.push((revs.len() + 1) as u64), ..v };
    if idx < revs.len() {
        let u = with_revisit(
            w,
            label_at(log_of(v), pos).stamp,
            RevisitView {
                backward: true,
                pos: revs[idx as int],
                rev: PlacementView::Default(pos),
            },
        );
        let threads = threads_upto(log_of(v), log_of(v).len());
        MustView {
            stopped: true,
            ..all_blocked(u, threads, BlockType::Assume, threads.len())
        }
    } else {
        w
    }
}

impl<P: RecvPredicate> Must<P> {
    /// Blocks all threads.
    pub fn block_exec(&mut self, btype: BlockType)
        requires
            old(self).wf(),
            has_room_for(old(self)@, log_of(old(self)@).len() + 1),
        ensures
            final(self).wf(),
            final(self)@ == all_blocked(
                old(self)@,
                threads_upto(log_of(old(self)@), log_of(old(self)@).len()),
                btype,
                threads_upto(log_of(old(self)@), log_of(old(self)@).len()).len(),
            ),
    {
        let ghost before = self@;
        let threads = self.current.graph.thread_ids();
        let ghost total = log_of(before).len();
        proof {
            lemma_threads(log_of(before), total);
        }
        let mut i: usize = 0;
        while i < threads.len()
            invariant
                self.wf(),
                i <= threads.len(),
                threads.len() <= total,
                self@ == all_blocked(before, threads@, btype, i as nat),
                has_room_for(self@, (total + 1 - i) as nat),
                forall|k: int|
                    0 <= k < threads@.len() ==> in_log(
                        log_of(self@),
                        first_event(#[trigger] threads@[k]),
                    ),
            decreases threads.len() - i,
        {
            let ghost mid = self@;
            let ghost log = log_of(mid);
            let t = threads[i];
            proof {
                assert(in_log(log, first_event(threads@[i as int])));
                lemma_thread_size(log, t, 0);
                lemma_last_place(log, t, log.len());
            }
            if let Some(last) = self.current.graph.thread_last(t) {
                let pos = last.pos;
                let ghost place = last_place(log, t, log.len()) - 1;
                assert(log[place].pos == pos);
                let next = pos.next();
                proof {
                    lemma_thread_size(log, t, next.index);
                    assert(previous(next) == pos);
                    assert(recordable(mid, next));
                    lemma_with_label(
                        mid.current.graph,
                        next,
                        KindView::Block { btype },
                    );
                }
                self.add_to_graph(next, LabelKind::Block { btype });
                proof {
                    let after = log_of(self@);
                    assert(after == with_label(
                        mid.current.graph,
                        next,
                        KindView::Block { btype },
                    ).log);
                    assert forall|j: int| 0 <= j < after.len() implies (
                    #[trigger] after[j]).pos.index + (total - i) < u32::MAX by {
                        if j < after.len() - 1 {
                            assert(after[j] == log[j]);
                        }
                    }
                    assert forall|k: int| 0 <= k < threads@.len() implies in_log(
                        after,
                        first_event(#[trigger] threads@[k]),
                    ) by {
                        assert(in_log(log, first_event(threads@[k])));
                    }
                }
            }
            i += 1;
        }
    }

    /// Notes that the receive `revs[idx]` is to be revisited by `pos` in place of the
    /// rest of this execution; goes on where `idx` names none.
    pub fn pick_revisit_with(&mut self, revs: &Vec<Event>, pos: Event, idx: usize)
        requires
            old(self).wf(),
            sent_by(log_of(old(self)@), pos, label_at(log_of(old(self)@), pos).stamp),
            revs@.len() < u64::MAX,
            has_room_for(old(self)@, log_of(old(self)@).len() + 1),
            forall|i: int|
                0 <= i < revs@.len() ==> in_log(log_of(old(self)@), #[trigger] revs@[i])
                    && has_alternatives(label_at(log_of(old(self)@), revs@[i]).kind) && label_at(
                    log_of(old(self)@),
                    revs@[i],
                ).stamp <= label_at(log_of(old(self)@), pos).stamp,
        ensures
            final(self).wf(),
            final(self)@ == revisit_picked(old(self)@, revs@, pos, idx as nat),
    {
        let ghost before = self@;
        self.estimates.push(revs.len() as u64 + 1);
        assert(self@ =~= MustView {
            estimates: before.estimates.push((revs@.len() + 1) as u64),
            ..before
        });
        proof {
            assert(self@.states == before.states);
            assert(self@.current == before.current);
        }
        if idx < revs.len() {
            let stamp = self.current.graph.label(pos).stamp;
            proof {
                let r = RevisitView {
                    backward: true,
                    pos: revs@[idx as int],
                    rev: PlacementView::Default(pos),
                };
                let at = index_of(log_of(before), pos);
                assert(log_of(before)[at].pos == pos);
                assert(in_log(log_of(before), revs@[idx as int]));
                lemma_revisit_ok(self@, stamp, r);
            }
            self.push_revisit(stamp, RevisitEnum::new_backward(revs[idx], pos));
            self.block_exec(BlockType::Assume);
            self.stop();
            proof {
                assert(self@ =~= revisit_picked(before, revs@, pos, idx as nat));
            }
        }
    }

    /// Decides by chance whether one of `revs` is revisited by `pos` in place of the
    /// rest of this execution.
    pub fn pick_revisit(&mut self, revs: &Vec<Event>, pos: Event)
        requires
            old(self).wf(),
            sent_by(log_of(old(self)@), pos, label_at(log_of(old(self)@), pos).stamp),
            revs@.len() < u64::MAX,
            has_room_for(old(self)@, log_of(old(self)@).len() + 1),
            forall|i: int|
                0 <= i < revs@.len() ==> in_log(log_of(old(self)@), #[trigger] revs@[i])
                    && has_alternatives(label_at(log_of(old(self)@), revs@[i]).kind) && label_at(
                    log_of(old(self)@),
                    revs@[i],
                ).stamp <= label_at(log_of(old(self)@), pos).stamp,
        ensures
            final(self).wf(),
            exists|idx: nat|
                idx <= revs@.len() && final(self)@ == #[trigger] revisit_picked(
                    old(self)@,
                    revs@,
                    pos,
                    idx,
                ),
    {
        let idx = random_between(0, revs.len());
        self.pick_revisit_with(revs, pos, idx)
    }
}

} // verus!
