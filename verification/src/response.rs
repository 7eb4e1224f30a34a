//! The frame filter in executable form.

use vstd::prelude::*;
use crate::filter::{
    lemma_run_concat, lemma_run_push, FilterState, Rule, BEGIN_SENTINEL, END_SENTINEL,
};
use crate::laws::{law_sentinels_never_emitted, lemma_ended_is_final};
use crate::json::text_of;
use crate::text::{is_blank_text, same_text, split_line};
use crate::wire::{
    chunk_payloads, decode_line, lemma_lines_of_first, lemma_lines_of_last,
    lemma_payloads_of_push, line_payload, lines_of, payloads_of, stream_payloads,
};

verus! {

/// The frame filter of one response. It lives as long as the response
/// stream does and is driven by one consumer.
#[derive(Debug)]
pub struct ResponseState {
    started: bool,
    ended: bool,
    first_newline_dropped: bool,
    expect_begin_message: bool,
}

impl View for ResponseState {
    type V = FilterState;

    closed spec fn view(&self) -> FilterState {
        FilterState {
            started: self.started,
            ended: self.ended,
            first_blank_dropped: self.first_newline_dropped,
            expect_begin_sentinel: self.expect_begin_message,
        }
    }
}

/// One more line: the filter takes one more step where the line carries a
/// payload, and none where it carries none.
proof fn lemma_step_line(before: FilterState, done: Seq<Seq<char>>, line: Seq<char>)
    ensures
        before.run(payloads_of(done.push(line))) == match line_payload(line) {
            Some(payload) => before.run(payloads_of(done)).step(payload),
            None => before.run(payloads_of(done)),
        },
        before.output(payloads_of(done.push(line))) == match line_payload(line) {
            Some(payload) => if before.run(payloads_of(done)).emits(payload) {
                before.output(payloads_of(done)).push(payload)
            } else {
                before.output(payloads_of(done))
            },
            None => before.output(payloads_of(done)),
        },
{
    lemma_payloads_of_push(done, line);
    if let Some(payload) = line_payload(line) {
        lemma_run_push(before, payloads_of(done), payload);
    }
}

/// What holds of the payloads that a filter hands out: no sentinel is among
/// them, and a filter that had ended hands out none and stays as it was.
proof fn lemma_emitted(before: FilterState, payloads: Seq<Seq<char>>, out: Vec<String>)
    requires
        out.deep_view() == before.output(payloads),
    ensures
        forall|i: int|
            0 <= i < out.len() ==> #[trigger] out[i]@ != BEGIN_SENTINEL@ && out[i]@
                != END_SENTINEL@,
        before.ended ==> out.len() == 0 && before.run(payloads) == before,
{
    law_sentinels_never_emitted(before, payloads);
    assert forall|i: int| 0 <= i < out.len() implies #[trigger] out[i]@ != BEGIN_SENTINEL@
        && out[i]@ != END_SENTINEL@ by {
        assert(out.deep_view()[i] == out[i]@);
    }
    if before.ended {
        lemma_ended_is_final(before, payloads);
        assert(out.deep_view().len() == out.len());
    }
}

impl ResponseState {
    #[verifier::type_invariant]
    spec fn well_formed(self) -> bool {
        self@.wf()
    }

    /// A fresh filter. Content flows at once unless a begin sentinel is
    /// expected.
    pub fn new(expect_begin_message: bool) -> (state: Self)
        ensures
            state@ == FilterState::initial(expect_begin_message),
    {
        ResponseState {
            started: !expect_begin_message,
            ended: false,
            first_newline_dropped: false,
            expect_begin_message,
        }
    }

    /// The rule that decides on `payload` in the present state.
    pub fn rule(&self, payload: &str) -> (rule: Rule)
        ensures
            rule == self@.rule(payload@),
    {
        if self.ended {
            Rule::Closed
        } else if same_text(payload, BEGIN_SENTINEL) {
            Rule::Begin
        } else if same_text(payload, END_SENTINEL) {
            Rule::End
        } else if !self.started {
            Rule::NotStarted
        } else if !self.first_newline_dropped && self.expect_begin_message && is_blank_text(
            payload,
        ) {
            Rule::LeadingBlank
        } else {
            Rule::Emit
        }
    }

    /// Applies the filter rules to one decoded payload: updates the flags
    /// and hands the payload back where it is emitted.
    pub fn filter_payload(&mut self, payload: String) -> (emitted: Option<String>)
        ensures
            final(self)@ == old(self)@.step(payload@),
            final(self)@.wf(),
            text_of(emitted) == if old(self)@.emits(payload@) {
                Some(payload@)
            } else {
                None
            },
    {
        proof {
            use_type_invariant(&*self);
        }
        match self.rule(payload.as_str()) {
            Rule::Begin => {
                self.started = true;
                None
            },
            Rule::End => {
                self.ended = true;
                None
            },
            Rule::LeadingBlank => {
                self.first_newline_dropped = true;
                None
            },
            Rule::Emit => Some(payload),
            Rule::Closed | Rule::NotStarted => None,
        }
    }

    /// Decodes one line and applies the filter rules to its payload, if it
    /// carries one.
    pub fn filter_line(&mut self, line: &str) -> (emitted: Option<String>)
        ensures
            final(self)@ == match line_payload(line@) {
                Some(payload) => old(self)@.step(payload),
                None => old(self)@,
            },
            final(self)@.wf(),
            text_of(emitted) == match line_payload(line@) {
                Some(payload) => if old(self)@.emits(payload) {
                    Some(payload)
                } else {
                    None
                },
                None => None,
            },
    {
        proof {
            use_type_invariant(&*self);
        }
        match decode_line(line) {
            Some(payload) => self.filter_payload(payload),
            None => None,
        }
    }

    /// Filters one chunk: splits it into lines, decodes the payload of each
    /// candidate line, and returns the payloads that are emitted, in order.
    pub fn filter_chunk(&mut self, chunk: &str) -> (out: Vec<String>)
        ensures
            final(self)@ == old(self)@.run(chunk_payloads(chunk@)),
            out.deep_view() == old(self)@.output(chunk_payloads(chunk@)),
            final(self)@.wf(),
            forall|i: int|
                0 <= i < out.len() ==> #[trigger] out[i]@ != BEGIN_SENTINEL@ && out[i]@
                    != END_SENTINEL@,
            old(self)@.ended ==> out.len() == 0 && final(self)@ == old(self)@,
    {
        let ghost before = self@;
        let ghost mut done: Seq<Seq<char>> = Seq::empty();
        let mut out: Vec<String> = Vec::new();
        let mut rest: &str = chunk;
        proof {
            assert(done + lines_of(rest@) =~= lines_of(chunk@));
            assert(out.deep_view() =~= Seq::<Seq<char>>::empty());
        }
        loop
            invariant
                lines_of(chunk@) == done + lines_of(rest@),
                self@ == before.run(payloads_of(done)),
                out.deep_view() == before.output(payloads_of(done)),
            ensures
                !rest@.contains('\n'),
            decreases rest@.len(),
        {
            match split_line(rest) {
                Some((line, behind)) => {
                    let ghost shown = out.deep_view();
                    proof {
                        lemma_lines_of_first(line@, behind@);
                        lemma_step_line(before, done, line@);
                        assert(done + (seq![line@] + lines_of(behind@)) =~= done.push(line@)
                            + lines_of(behind@));
                        done = done.push(line@);
                    }
                    if let Some(payload) = self.filter_line(line) {
                        out.push(payload);
                        assert(out.deep_view() =~= shown.push(payload@));
                    }
                    rest = behind;
                },
                None => {
                    break;
                },
            }
        }
        let ghost shown = out.deep_view();
        proof {
            lemma_lines_of_last(rest@);
            lemma_step_line(before, done, rest@);
            assert(done + seq![rest@] =~= done.push(rest@));
        }
        if let Some(payload) = self.filter_line(rest) {
            out.push(payload);
            assert(out.deep_view() =~= shown.push(payload@));
        }
        proof {
            use_type_invariant(&*self);
            lemma_emitted(before, chunk_payloads(chunk@), out);
        }
        out
    }

    /// Filters a whole response body, chunk by chunk in arrival order, and
    /// returns every payload that is emitted, in order.
    pub fn data_stream(&mut self, chunks: &[String]) -> (out: Vec<String>)
        ensures
            final(self)@ == old(self)@.run(stream_payloads(chunks.deep_view())),
            out.deep_view() == old(self)@.output(stream_payloads(chunks.deep_view())),
            final(self)@.wf(),
            forall|i: int|
                0 <= i < out.len() ==> #[trigger] out[i]@ != BEGIN_SENTINEL@ && out[i]@
                    != END_SENTINEL@,
            old(self)@.ended ==> out.len() == 0 && final(self)@ == old(self)@,
    {
        let ghost before = self@;
        let ghost all = chunks.deep_view();
        let mut out: Vec<String> = Vec::new();
        proof {
            assert(all.take(0) =~= Seq::<Seq<char>>::empty());
            assert(out.deep_view() =~= Seq::<Seq<char>>::empty());
        }
        for i in 0..chunks.len()
            invariant
                all == chunks.deep_view(),
                self@ == before.run(stream_payloads(all.take(i as int))),
                out.deep_view() == before.output(stream_payloads(all.take(i as int))),
        {
            let ghost shown = out.deep_view();
            let mut emitted = self.filter_chunk(chunks[i].as_str());
            proof {
                assert(all.take(i + 1).drop_last() =~= all.take(i as int));
                assert(all.take(i + 1).last() == chunks[i as int]@);
                lemma_run_concat(
                    before,
                    stream_payloads(all.take(i as int)),
                    chunk_payloads(chunks[i as int]@),
                );
            }
            let ghost added = emitted.deep_view();
            out.append(&mut emitted);
            assert(out.deep_view() =~= shown + added);
        }
        proof {
            assert(all.take(chunks.len() as int) =~= all);
            use_type_invariant(&*self);
            lemma_emitted(before, stream_payloads(all), out);
        }
        out
    }

    /// The outcome of the response once the transport has finished with the
    /// body: the transport's own outcome, whatever the filter has seen. A
    /// body that ends without an end sentinel is no failure.
    pub fn complete<E>(self, outcome: Result<(), E>) -> (result: Result<(), E>)
        ensures
            result == outcome,
    {
        outcome
    }

    /// Whether message content is allowed to flow.
    pub fn started(&self) -> (r: bool)
        ensures
            r == self@.started,
    {
        self.started
    }

    /// Whether the end sentinel has been seen.
    pub fn ended(&self) -> (r: bool)
        ensures
            r == self@.ended,
    {
        self.ended
    }

    /// Whether the leading blank payload has been absorbed.
    pub fn first_newline_dropped(&self) -> (r: bool)
        ensures
            r == self@.first_blank_dropped,
    {
        self.first_newline_dropped
    }

    /// Whether this filter waits for a begin sentinel.
    pub fn expect_begin_message(&self) -> (r: bool)
        ensures
            r == self@.expect_begin_sentinel,
    {
        self.expect_begin_message
    }
}

} // verus!
