//! The frame filter as a mathematical state machine over decoded payloads.

use vstd::prelude::*;

verus! {

/// The payload that opens the message.
pub const BEGIN_SENTINEL: &'static str = "<|BEGIN_message|>";

/// The payload that closes the message.
pub const END_SENTINEL: &'static str = "<|END_message|>";


/// Unicode `White_Space` code points.
pub open spec fn is_whitespace(c: char) -> bool {
    let u: u32 = c as u32;
    ||| 0x09 <= u <= 0x0D
    ||| u == 0x20
    ||| u == 0x85
    ||| u == 0xA0
    ||| u == 0x1680
    ||| 0x2000 <= u <= 0x200A
    ||| u == 0x2028
    ||| u == 0x2029
    ||| u == 0x202F
    ||| u == 0x205F
    ||| u == 0x3000
}

/// A payload is blank when it holds nothing but whitespace; the empty
/// payload is blank.
pub open spec fn is_blank(payload: Seq<char>) -> bool {
    forall|i: int| 0 <= i < payload.len() ==> is_whitespace(#[trigger] payload[i])
}

/// The rules of the filter, in the order in which they are tried. Only
/// `Emit` lets a payload through.
#[derive(Clone, Copy, Debug, PartialEq, Eq, Structural)]
pub enum Rule {
    /// The filter has ended: the payload is discarded.
    Closed,
    /// The payload is the begin sentinel: the filter starts.
    Begin,
    /// The payload is the end sentinel: the filter ends.
    End,
    /// The filter has not started: the payload is discarded.
    NotStarted,
    /// The payload is the first blank one after the start of a filter that
    /// expects a begin sentinel: it is absorbed, once.
    LeadingBlank,
    /// The payload is emitted.
    Emit,
}

/// The flags of one frame filter.
pub struct FilterState {
    /// Message content is allowed to flow.
    pub started: bool,
    /// The end sentinel has been seen; nothing is emitted any more.
    pub ended: bool,
    /// The one leading blank payload has been absorbed.
    pub first_blank_dropped: bool,
    /// Fixed at construction: content flows only after a begin sentinel.
    pub expect_begin_sentinel: bool,
}

impl FilterState {
    /// The state of a fresh filter.
    pub open spec fn initial(expect_begin_sentinel: bool) -> FilterState {
        FilterState {
            started: !expect_begin_sentinel,
            ended: false,
            first_blank_dropped: false,
            expect_begin_sentinel,
        }
    }

    /// What holds of every state reachable from `initial`.
    pub open spec fn wf(self) -> bool {
        &&& !self.expect_begin_sentinel ==> self.started
        &&& self.first_blank_dropped ==> self.expect_begin_sentinel && self.started
    }

    /// The rule that decides on a payload in this state: the first in the
    /// order of `Rule` whose condition holds.
    pub open spec fn rule(self, payload: Seq<char>) -> Rule {
        if self.ended {
            Rule::Closed
        } else if payload == BEGIN_SENTINEL@ {
            Rule::Begin
        } else if payload == END_SENTINEL@ {
            Rule::End
        } else if !self.started {
            Rule::NotStarted
        } else if !self.first_blank_dropped && is_blank(payload) && self.expect_begin_sentinel {
            Rule::LeadingBlank
        } else {
            Rule::Emit
        }
    }

    /// The payload is the leading blank that this state absorbs.
    pub open spec fn drops_blank(self, payload: Seq<char>) -> bool {
        self.rule(payload) is LeadingBlank
    }

    /// The payload passes the filter in this state.
    pub open spec fn emits(self, payload: Seq<char>) -> bool {
        self.rule(payload) is Emit
    }

    /// The state after one payload.
    pub open spec fn step(self, payload: Seq<char>) -> FilterState {
        match self.rule(payload) {
            Rule::Begin => FilterState { started: true, ..self },
            Rule::End => FilterState { ended: true, ..self },
            Rule::LeadingBlank => FilterState { first_blank_dropped: true, ..self },
            Rule::Closed | Rule::NotStarted | Rule::Emit => self,
        }
    }

    /// The state after a sequence of payloads, taken in order.
    pub open spec fn run(self, payloads: Seq<Seq<char>>) -> FilterState
        decreases payloads.len(),
    {
        if payloads.len() == 0 {
            self
        } else {
            self.run(payloads.drop_last()).step(payloads.last())
        }
    }

    /// The payloads that pass the filter, in order.
    pub open spec fn output(self, payloads: Seq<Seq<char>>) -> Seq<Seq<char>>
        decreases payloads.len(),
    {
        if payloads.len() == 0 {
            Seq::empty()
        } else {
            let before = self.output(payloads.drop_last());
            if self.run(payloads.drop_last()).emits(payloads.last()) {
                before.push(payloads.last())
            } else {
                before
            }
        }
    }
}

/// The two sentinels differ, and neither is blank.
pub proof fn lemma_sentinels()
    ensures
        BEGIN_SENTINEL@ != END_SENTINEL@,
        !is_blank(BEGIN_SENTINEL@),
        !is_blank(END_SENTINEL@),
{
    reveal_strlit("<|BEGIN_message|>");
    reveal_strlit("<|END_message|>");
    assert(BEGIN_SENTINEL@.len() == 17 && BEGIN_SENTINEL@[0] == '<');
    assert(END_SENTINEL@.len() == 15 && END_SENTINEL@[0] == '<');
}

/// One more payload at the end is one more step.
pub proof fn lemma_run_push(state: FilterState, payloads: Seq<Seq<char>>, payload: Seq<char>)
    ensures
        state.run(payloads.push(payload)) == state.run(payloads).step(payload),
        state.output(payloads.push(payload)) == if state.run(payloads).emits(payload) {
            state.output(payloads).push(payload)
        } else {
            state.output(payloads)
        },
{
    assert(payloads.push(payload).drop_last() =~= payloads);
}

/// Running over two sequences in a row is running over the first, then
/// over the second from the state that the first left.
pub proof fn lemma_run_concat(state: FilterState, first: Seq<Seq<char>>, second: Seq<Seq<char>>)
    ensures
        state.run(first + second) == state.run(first).run(second),
        state.output(first + second) == state.output(first) + state.run(first).output(second),
    decreases second.len(),
{
    if second.len() == 0 {
        assert(first + second =~= first);
        assert(state.output(first) + state.run(first).output(second) =~= state.output(first));
    } else {
        let head = second.drop_last();
        let last = second.last();
        lemma_run_concat(state, first, head);
        assert(first + second =~= (first + head).push(last));
        lemma_run_push(state, first + head, last);
        if state.run(first + head).emits(last) {
            assert(state.output(first + second) =~= state.output(first) + state.run(
                first,
            ).output(second));
        }
    }
}

} // verus!
