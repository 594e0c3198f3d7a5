//! What has left the interface for the terminal's own history.
use crate::tui::app::{message_views, streaming_slot, App, Message, MessageView};
use crate::tui::style::{line_views, push_line, Line, LineView};
use crate::tui::ui::{message_lines, shown_message, StreamView};
use std::ops::Range;
use vstd::prelude::*;

verus! {

/// The lines of a message that leave the interface next. While the message is
/// coming in, its last line and the one behind it stay; all others do not
/// change any more.
pub open spec fn ready_range(is_streaming: bool, committed: int, total: int) -> (int, int) {
    let start = if committed < total {
        committed
    } else {
        total
    };
    let ready = if !is_streaming {
        total
    } else if total < 2 {
        0
    } else {
        total - 2
    };
    (
        start,
        if ready < start {
            start
        } else {
            ready
        },
    )
}

/// The lines of a message that leave the interface next.
pub fn transcript_line_range(is_streaming: bool, committed_lines: usize, total_lines: usize) -> (r:
    Range<usize>)
    ensures
        (r.start as int, r.end as int) == ready_range(
            is_streaming,
            committed_lines as int,
            total_lines as int,
        ),
        r.start <= r.end <= total_lines,
{
    let start: usize = if committed_lines < total_lines {
        committed_lines
    } else {
        total_lines
    };
    let ready: usize = if is_streaming {
        total_lines.saturating_sub(2)
    } else {
        total_lines
    };
    let end: usize = if ready < start {
        start
    } else {
        ready
    };
    start..end
}

/// What leaves the interface next begins where the last part ended, and once a
/// message is whole, all of it has left.
pub proof fn the_parts_of_a_message_join(
    committed: int,
    total: int,
    is_streaming: bool,
    later_total: int,
)
    requires
        0 <= committed,
        0 <= total <= later_total,
    ensures
        ({
            let first = ready_range(true, committed, total);
            let reached = if committed < first.1 {
                first.1
            } else {
                committed
            };
            let second = ready_range(is_streaming, reached, later_total);
            &&& first.0 <= first.1 <= total
            &&& reached <= later_total ==> second.0 == reached
            &&& second.0 >= first.1
            &&& !is_streaming ==> second.1 == later_total
        }),
{
}

/// How far a message that is coming in has left the interface, and the width in
/// which it is broken.
#[derive(Debug, Clone, Copy, PartialEq, Eq, Structural)]
pub struct StreamingMessageState {
    pub id: u128,
    pub committed_lines: usize,
    pub render_width: usize,
}

/// The messages that have left the interface, and how far those have that are
/// coming in.
#[derive(Debug)]
pub struct UiRuntime {
    pub rendered_message_ids: Vec<u128>,
    pub streaming_messages: Vec<StreamingMessageState>,
}

/// The view of what has left the interface.
#[verifier::ext_equal]
pub struct RuntimeView {
    pub rendered: Seq<u128>,
    pub streaming: Seq<StreamingMessageState>,
}

impl View for UiRuntime {
    type V = RuntimeView;

    open spec fn view(&self) -> RuntimeView {
        RuntimeView {
            rendered: self.rendered_message_ids@,
            streaming: self.streaming_messages@,
        }
    }
}

/// Where a message stands among those that are coming in; behind all where it
/// is none of them.
pub open spec fn state_slot(streaming: Seq<StreamingMessageState>, id: u128) -> int
    decreases streaming.len(),
{
    if streaming.len() == 0 {
        0
    } else if streaming[0].id == id {
        0
    } else {
        1 + state_slot(streaming.drop_first(), id)
    }
}

proof fn lemma_state_slot(streaming: Seq<StreamingMessageState>, id: u128, k: int)
    requires
        0 <= k <= streaming.len(),
        forall|j: int| 0 <= j < k ==> (#[trigger] streaming[j]).id != id,
        k < streaming.len() ==> streaming[k].id == id,
    ensures
        state_slot(streaming, id) == k,
    decreases k,
{
    if k > 0 {
        let rest = streaming.drop_first();
        assert(streaming[0].id != id);
        assert forall|j: int| 0 <= j < k - 1 implies (#[trigger] rest[j]).id != id by {
            assert(rest[j] == streaming[j + 1]);
        }
        lemma_state_slot(rest, id, k - 1);
    }
}

/// A message is among others.
pub open spec fn has_message(messages: Seq<MessageView>, id: u128) -> bool {
    exists|i: int| 0 <= i < messages.len() && (#[trigger] messages[i]).id == id
}

/// How far a message has left the interface.
pub open spec fn progress(r: RuntimeView, id: u128, width: usize) -> StreamingMessageState {
    let k = state_slot(r.streaming, id);
    if k < r.streaming.len() {
        r.streaming[k]
    } else {
        StreamingMessageState { id, committed_lines: 0, render_width: width }
    }
}

/// A message has begun to come in.
pub open spec fn noted(r: RuntimeView, id: u128, width: usize) -> RuntimeView {
    if state_slot(r.streaming, id) < r.streaming.len() {
        r
    } else {
        RuntimeView { streaming: r.streaming.push(progress(r, id, width)), ..r }
    }
}

/// A whole message has left the interface.
pub open spec fn finished(r: RuntimeView, id: u128) -> RuntimeView {
    let k = state_slot(r.streaming, id);
    RuntimeView {
        rendered: if r.rendered.contains(id) {
            r.rendered
        } else {
            r.rendered.push(id)
        },
        streaming: if k < r.streaming.len() {
            r.streaming.remove(k)
        } else {
            r.streaming
        },
    }
}

/// More lines of a message that is coming in have left the interface.
pub open spec fn advanced(r: RuntimeView, id: u128, end: usize) -> RuntimeView {
    let k = state_slot(r.streaming, id);
    let s = r.streaming[k];
    RuntimeView {
        streaming: r.streaming.update(
            k,
            StreamingMessageState {
                committed_lines: if s.committed_lines < end {
                    end
                } else {
                    s.committed_lines
                },
                ..s
            },
        ),
        ..r
    }
}

/// What has left the interface after one more message was looked at, and the
/// lines that leave it then.
pub open spec fn flush_one(r: RuntimeView, m: MessageView, width: usize) -> (
    RuntimeView,
    Seq<LineView>,
) {
    if r.rendered.contains(m.id) {
        (r, Seq::empty())
    } else {
        let s = progress(r, m.id, width);
        let next = if m.is_streaming {
            noted(r, m.id, width)
        } else {
            r
        };
        let lines = shown_message(m, s.render_width);
        let range = ready_range(m.is_streaming, s.committed_lines as int, lines.len() as int);
        let part = lines.subrange(range.0, range.1);
        if !m.is_streaming {
            (finished(next, m.id), part)
        } else if range.0 == range.1 {
            (next, part)
        } else {
            (advanced(next, m.id, range.1 as usize), part)
        }
    }
}

/// What has left the interface after messages were looked at, and the lines
/// that leave it then.
pub open spec fn flush_all(r: RuntimeView, messages: Seq<MessageView>, width: usize) -> (
    RuntimeView,
    Seq<LineView>,
)
    decreases messages.len(),
{
    if messages.len() == 0 {
        (r, Seq::empty())
    } else {
        let before = flush_all(r, messages.drop_last(), width);
        let one = flush_one(before.0, messages.last(), width);
        (one.0, before.1 + one.1)
    }
}

/// What is known of messages that are still there.
pub open spec fn still_there(r: RuntimeView, messages: Seq<MessageView>) -> RuntimeView {
    RuntimeView {
        streaming: r.streaming.filter(|s: StreamingMessageState| has_message(messages, s.id)),
        ..r
    }
}

impl UiRuntime {
    /// Nothing has left the interface.
    pub fn new() -> (r: Self)
        ensures
            r@ == (RuntimeView { rendered: Seq::empty(), streaming: Seq::empty() }),
    {
        UiRuntime { rendered_message_ids: Vec::new(), streaming_messages: Vec::new() }
    }

    /// Forgets what has left the interface.
    pub fn clear(&mut self)
        ensures
            final(self)@ == (RuntimeView { rendered: Seq::empty(), streaming: Seq::empty() }),
    {
        self.rendered_message_ids = Vec::new();
        self.streaming_messages = Vec::new();
    }

    fn find(&self, id: u128) -> (r: Option<usize>)
        ensures
            match r {
                Some(k) => k < self.streaming_messages@.len() && k == state_slot(
                    self@.streaming,
                    id,
                ),
                None => state_slot(self@.streaming, id) == self@.streaming.len(),
            },
    {
        let ghost all = self@.streaming;
        let mut i: usize = 0;
        while i < self.streaming_messages.len()
            invariant
                i <= self.streaming_messages.len(),
                all == self.streaming_messages@,
                forall|j: int| 0 <= j < i ==> (#[trigger] all[j]).id != id,
            decreases self.streaming_messages.len() - i,
        {
            if self.streaming_messages[i].id == id {
                proof {
                    lemma_state_slot(all, id, i as int);
                }
                return Some(i);
            }
            i += 1;
        }
        proof {
            lemma_state_slot(all, id, i as int);
        }
        None
    }

    fn is_rendered(&self, id: u128) -> (r: bool)
        ensures
            r == self@.rendered.contains(id),
    {
        let mut i: usize = 0;
        while i < self.rendered_message_ids.len()
            invariant
                i <= self.rendered_message_ids.len(),
                forall|j: int|
                    0 <= j < i ==> #[trigger] self.rendered_message_ids@[j] != id,
            decreases self.rendered_message_ids.len() - i,
        {
            if self.rendered_message_ids[i] == id {
                return true;
            }
            i += 1;
        }
        false
    }

    /// How far the message that is coming in has left the interface.
    pub fn stream_view(&self, app: &App) -> (r: Option<StreamView>)
        ensures
            r == (match streaming_slot(app@) {
                None => None,
                Some(k) => {
                    let slot = state_slot(self@.streaming, app@.messages[k].id);
                    if slot < self@.streaming.len() {
                        Some(
                            StreamView {
                                committed_lines: self@.streaming[slot].committed_lines,
                                render_width: self@.streaming[slot].render_width,
                            },
                        )
                    } else {
                        None
                    }
                },
            }),
    {
        match app.current_streaming_message() {
            None => None,
            Some(message) => match self.find(message.id) {
                Some(k) => {
                    let s = self.streaming_messages[k];
                    Some(
                        StreamView {
                            committed_lines: s.committed_lines,
                            render_width: s.render_width,
                        },
                    )
                },
                None => None,
            },
        }
    }

    fn retain(&mut self, messages: &Vec<Message>)
        ensures
            final(self)@ == still_there(old(self)@, message_views(messages@)),
    {
        let ghost views = message_views(messages@);
        let ghost keep = |s: StreamingMessageState| has_message(views, s.id);
        let ghost all = self@.streaming;
        let mut rest: Vec<StreamingMessageState> = Vec::new();
        let mut i: usize = 0;
        assert(rest@ =~= all.take(0).filter(keep));
        while i < self.streaming_messages.len()
            invariant
                i <= self.streaming_messages.len(),
                self == old(self),
                all == self.streaming_messages@,
                views == message_views(messages@),
                keep == (|s: StreamingMessageState| has_message(views, s.id)),
                rest@ == all.take(i as int).filter(keep),
            decreases self.streaming_messages.len() - i,
        {
            let s = self.streaming_messages[i];
            proof {
                let now = all.take(i + 1);
                assert(now.drop_last() =~= all.take(i as int));
                assert(now.last() == s);
                reveal(Seq::filter);
            }
            if lists_message(messages, s.id) {
                rest.push(s);
            }
            i += 1;
        }
        assert(all.take(i as int) =~= all);
        self.streaming_messages = rest;
    }

    /// Looks at a message: the lines of it that leave the interface.
    fn flush_message(&mut self, message: &Message, width: usize, out: &mut Vec<Line>)
        ensures
            ({
                let one = flush_one(old(self)@, message@, width);
                final(self)@ == one.0 && line_views(final(out)@) == line_views(old(out)@) + one.1
            }),
    {
        let ghost r = self@;
        let ghost before = line_views(out@);
        if self.is_rendered(message.id) {
            assert(before + Seq::<LineView>::empty() =~= before);
            return;
        }
        let found = self.find(message.id);
        let state = match found {
            Some(k) => self.streaming_messages[k],
            None => StreamingMessageState {
                id: message.id,
                committed_lines: 0,
                render_width: width,
            },
        };
        let slot: usize = match found {
            Some(k) => k,
            None => self.streaming_messages.len(),
        };
        if message.is_streaming && found.is_none() {
            self.streaming_messages.push(state);
        }
        let lines = message_lines(message, state.render_width);
        let ghost all = line_views(lines@);
        assert(all.len() == lines@.len());
        let range = transcript_line_range(
            message.is_streaming,
            state.committed_lines,
            lines.len(),
        );
        let start: usize = range.start;
        let end: usize = range.end;
        let mut i: usize = start;
        assert(before + all.subrange(start as int, start as int) =~= before);
        while i < end
            invariant
                start <= i <= end <= lines@.len(),
                all == line_views(lines@),
                line_views(out@) == before + all.subrange(start as int, i as int),
            decreases end - i,
        {
            let line = lines[i].clone();
            assert(line@ == all[i as int]);
            push_line(out, line);
            i += 1;
            assert(before + all.subrange(start as int, i as int) =~= (before + all.subrange(
                start as int,
                i - 1,
            )).push(all[i - 1]));
        }
        if !message.is_streaming {
            if found.is_some() {
                let _done = self.streaming_messages.remove(slot);
            }
            self.rendered_message_ids.push(message.id);
            assert(self@ =~= finished(r, message.id));
        } else if start != end {
            proof {
                if found is None {
                    assert forall|j: int| 0 <= j < slot implies (#[trigger] self@.streaming[j]).id
                        != message.id by {
                        lemma_not_before(r.streaming, message.id, j);
                        assert(self@.streaming[j] == r.streaming[j]);
                    }
                    lemma_state_slot(self@.streaming, message.id, slot as int);
                }
            }
            if state.committed_lines < end {
                let ghost mid = self@;
                self.streaming_messages.set(
                    slot,
                    StreamingMessageState {
                        id: message.id,
                        committed_lines: end,
                        render_width: state.render_width,
                    },
                );
                proof {
                    lemma_slot_id(mid.streaming, message.id);
                }
            } else {
                assert(self@.streaming.update(slot as int, self@.streaming[slot as int])
                    =~= self@.streaming);
            }
            assert(self@ =~= flush_one(r, message@, width).0);
        }
    }

    /// Looks at all messages: the lines that leave the interface.
    pub fn flush_unrendered_messages(&mut self, app: &App, terminal_width: usize) -> (r: Vec<Line>)
        ensures
            (final(self)@, line_views(r@)) == flush_all(
                still_there(old(self)@, app@.messages),
                app@.messages,
                terminal_width,
            ),
    {
        self.retain(&app.messages);
        let ghost start = self@;
        let ghost all = app@.messages;
        let mut out: Vec<Line> = Vec::new();
        let mut i: usize = 0;
        assert(line_views(out@) =~= Seq::<LineView>::empty());
        assert(all.take(0) =~= Seq::<MessageView>::empty());
        while i < app.messages.len()
            invariant
                i <= app.messages.len(),
                all == message_views(app.messages@),
                (self@, line_views(out@)) == flush_all(start, all.take(i as int), terminal_width),
            decreases app.messages.len() - i,
        {
            proof {
                let now = all.take(i + 1);
                assert(now.drop_last() =~= all.take(i as int));
                assert(now.last() == app.messages@[i as int]@);
            }
            self.flush_message(&app.messages[i], terminal_width, &mut out);
            i += 1;
        }
        assert(all.take(i as int) =~= all);
        out
    }
}

proof fn lemma_not_before(streaming: Seq<StreamingMessageState>, id: u128, j: int)
    requires
        0 <= j < state_slot(streaming, id),
        j < streaming.len(),
    ensures
        streaming[j].id != id,
    decreases streaming.len(),
{
    if j > 0 {
        lemma_not_before(streaming.drop_first(), id, j - 1);
        assert(streaming[j] == streaming.drop_first()[j - 1]);
    }
}

proof fn lemma_slot_id(streaming: Seq<StreamingMessageState>, id: u128)
    ensures
        0 <= state_slot(streaming, id) <= streaming.len(),
        state_slot(streaming, id) < streaming.len() ==> streaming[state_slot(streaming, id)].id
            == id,
    decreases streaming.len(),
{
    if streaming.len() > 0 && streaming[0].id != id {
        lemma_slot_id(streaming.drop_first(), id);
    }
}

fn lists_message(messages: &Vec<Message>, id: u128) -> (r: bool)
    ensures
        r == has_message(message_views(messages@), id),
{
    let ghost views = message_views(messages@);
    let mut i: usize = 0;
    while i < messages.len()
        invariant
            i <= messages.len(),
            views == message_views(messages@),
            forall|j: int| 0 <= j < i ==> (#[trigger] views[j]).id != id,
        decreases messages.len() - i,
    {
        if messages[i].id == id {
            assert(views[i as int].id == id);
            return true;
        }
        i += 1;
    }
    false
}

/// A message that has left the interface as a whole does not leave it again.
pub proof fn a_whole_message_leaves_once(r: RuntimeView, m: MessageView, width: usize)
    requires
        !m.is_streaming,
    ensures
        ({
            let first = flush_one(r, m, width);
            let again = flush_one(first.0, m, width);
            &&& first.0.rendered.contains(m.id)
            &&& again == (first.0, Seq::<LineView>::empty())
        }),
{
    let first = flush_one(r, m, width);
    if !r.rendered.contains(m.id) {
        assert(first.0.rendered.last() == m.id);
        assert(first.0.rendered.contains(m.id));
    }
}

} // verus!
