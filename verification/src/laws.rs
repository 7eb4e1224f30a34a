//! What holds of the frame filter on every input.

use vstd::prelude::*;
use crate::filter::{
    is_blank, lemma_run_concat, lemma_run_push, lemma_sentinels, FilterState, BEGIN_SENTINEL,
    END_SENTINEL,
};
use crate::json::json_string_value;
use crate::wire::{
    chunk_payloads, first_newline, is_candidate, join_lines, lemma_first_newline,
    lemma_lines_of_join, lemma_payloads_of_concat, lemma_payloads_of_push,
    lemma_stream_payloads_concat, line_payload, lines_of, payloads_of, stream_payloads, FIELD_LEN,
};

verus! {

/// The lines of a chunk are the chunk cut at its newlines: there is at
/// least one line, no line holds a newline, and the lines joined by
/// newlines are the chunk.
pub proof fn law_lines_partition_chunk(chunk: Seq<char>)
    ensures
        lines_of(chunk).len() >= 1,
        forall|i: int|
            0 <= i < lines_of(chunk).len() ==> !(#[trigger] lines_of(chunk)[i]).contains('\n'),
        join_lines(lines_of(chunk)) == chunk,
    decreases chunk.len(),
{
    let n = first_newline(chunk);
    lemma_first_newline(chunk);
    if n < chunk.len() {
        let rest = chunk.skip(n + 1);
        law_lines_partition_chunk(rest);
        let lines = lines_of(chunk);
        assert(lines.drop_first() =~= lines_of(rest));
        assert(join_lines(lines) =~= chunk);
        assert forall|i: int| 0 <= i < lines.len() implies !(#[trigger] lines[i]).contains(
            '\n',
        ) by {
            if i > 0 {
                assert(lines[i] == lines_of(rest)[i - 1]);
            }
        }
    }
}

/// The flags move one way only: what is fixed at construction stays, and a
/// flag that is set stays set. Every state reached from a well-formed state
/// is well-formed.
pub proof fn law_flags_are_sticky(state: FilterState, payloads: Seq<Seq<char>>)
    ensures
        state.run(payloads).expect_begin_sentinel == state.expect_begin_sentinel,
        state.started ==> state.run(payloads).started,
        state.ended ==> state.run(payloads).ended,
        state.first_blank_dropped ==> state.run(payloads).first_blank_dropped,
        state.wf() ==> state.run(payloads).wf(),
    decreases payloads.len(),
{
    if payloads.len() > 0 {
        law_flags_are_sticky(state, payloads.drop_last());
    }
}

/// Every state that a fresh filter reaches is well-formed.
pub proof fn law_reachable_is_well_formed(expect_begin_sentinel: bool, payloads: Seq<Seq<char>>)
    ensures
        FilterState::initial(expect_begin_sentinel).run(payloads).wf(),
{
    law_flags_are_sticky(FilterState::initial(expect_begin_sentinel), payloads);
}

/// Neither sentinel is ever among the emitted payloads.
pub proof fn law_sentinels_never_emitted(state: FilterState, payloads: Seq<Seq<char>>)
    ensures
        forall|i: int|
            0 <= i < state.output(payloads).len() ==> {
                &&& #[trigger] state.output(payloads)[i] != BEGIN_SENTINEL@
                &&& state.output(payloads)[i] != END_SENTINEL@
            },
    decreases payloads.len(),
{
    if payloads.len() > 0 {
        let head = payloads.drop_last();
        law_sentinels_never_emitted(state, head);
        assert forall|i: int| 0 <= i < state.output(payloads).len() implies {
            &&& #[trigger] state.output(payloads)[i] != BEGIN_SENTINEL@
            &&& state.output(payloads)[i] != END_SENTINEL@
        } by {
            if i < state.output(head).len() {
                assert(state.output(payloads)[i] == state.output(head)[i]);
            }
        }
    }
}

/// A filter that has ended stays as it is and emits nothing.
pub proof fn lemma_ended_is_final(state: FilterState, payloads: Seq<Seq<char>>)
    requires
        state.ended,
    ensures
        state.run(payloads) == state,
        state.output(payloads) == Seq::<Seq<char>>::empty(),
    decreases payloads.len(),
{
    if payloads.len() > 0 {
        lemma_ended_is_final(state, payloads.drop_last());
    }
}

/// Once the end sentinel has appeared nothing more is emitted, whatever
/// follows it: the output is that of the payloads in front of the sentinel.
pub proof fn law_nothing_after_end(
    state: FilterState,
    before: Seq<Seq<char>>,
    after: Seq<Seq<char>>,
)
    ensures
        state.run(before.push(END_SENTINEL@) + after).ended,
        state.output(before.push(END_SENTINEL@) + after) == state.output(before),
{
    let closing = before.push(END_SENTINEL@);
    lemma_sentinels();
    lemma_run_push(state, before, END_SENTINEL@);
    lemma_run_concat(state, closing, after);
    lemma_ended_is_final(state.run(closing), after);
    assert(state.output(closing) + Seq::<Seq<char>>::empty() =~= state.output(closing));
}

/// A filter that has not started emits nothing and does not start as long
/// as no begin sentinel comes.
pub proof fn lemma_silent_until_begin(state: FilterState, payloads: Seq<Seq<char>>)
    requires
        !state.started,
        !payloads.contains(BEGIN_SENTINEL@),
    ensures
        !state.run(payloads).started,
        state.output(payloads) == Seq::<Seq<char>>::empty(),
    decreases payloads.len(),
{
    if payloads.len() > 0 {
        let head = payloads.drop_last();
        assert forall|i: int| 0 <= i < head.len() implies head[i] != BEGIN_SENTINEL@ by {
            assert(payloads[i] == head[i]);
            assert(payloads.contains(payloads[i]));
        }
        lemma_silent_until_begin(state, head);
        assert(payloads.contains(payloads.last()));
    }
}

/// A filter that expects a begin sentinel emits nothing of what comes in
/// front of the first begin sentinel: all that is emitted stems from the
/// payloads after it.
pub proof fn law_nothing_before_begin(before: Seq<Seq<char>>, after: Seq<Seq<char>>)
    requires
        !before.contains(BEGIN_SENTINEL@),
    ensures
        FilterState::initial(true).output(before) == Seq::<Seq<char>>::empty(),
        FilterState::initial(true).output(before + after) == FilterState::initial(true).run(
            before,
        ).output(after),
{
    let fresh = FilterState::initial(true);
    lemma_silent_until_begin(fresh, before);
    lemma_run_concat(fresh, before, after);
    assert(fresh.output(before) + fresh.run(before).output(after) =~= fresh.run(before).output(
        after,
    ));
}

/// The payloads other than the begin sentinel.
pub open spec fn without_begin(payloads: Seq<Seq<char>>) -> Seq<Seq<char>> {
    payloads.filter(|payload: Seq<char>| payload != BEGIN_SENTINEL@)
}

/// A started filter that expects no begin sentinel passes every payload
/// but the begin sentinel, as long as no end sentinel comes.
pub proof fn lemma_open_passes_all(state: FilterState, payloads: Seq<Seq<char>>)
    requires
        state.started,
        !state.ended,
        !state.expect_begin_sentinel,
        !payloads.contains(END_SENTINEL@),
    ensures
        state.run(payloads) == state,
        state.output(payloads) == without_begin(payloads),
    decreases payloads.len(),
{
    reveal(Seq::filter);
    if payloads.len() > 0 {
        let head = payloads.drop_last();
        assert forall|i: int| 0 <= i < head.len() implies head[i] != END_SENTINEL@ by {
            assert(payloads[i] == head[i]);
            assert(payloads.contains(payloads[i]));
        }
        lemma_open_passes_all(state, head);
        assert(payloads.contains(payloads.last()));
    }
}

/// A filter that expects no begin sentinel emits from the first payload on:
/// every payload in front of the first end sentinel is emitted, the begin
/// sentinel apart. The end sentinel still halts emission.
pub proof fn law_flows_without_begin(before: Seq<Seq<char>>, after: Seq<Seq<char>>)
    requires
        !before.contains(END_SENTINEL@),
    ensures
        FilterState::initial(false).output(before) == without_begin(before),
        FilterState::initial(false).output(before.push(END_SENTINEL@) + after) == without_begin(
            before,
        ),
{
    let fresh = FilterState::initial(false);
    lemma_open_passes_all(fresh, before);
    law_nothing_after_end(fresh, before, after);
}

/// The leading-blank rule fires only in a filter that expects a begin
/// sentinel, and the payload it fires on is not emitted.
pub proof fn law_blank_absorbed_only_when_expected(state: FilterState, payload: Seq<char>)
    ensures
        state.drops_blank(payload) ==> state.expect_begin_sentinel,
        state.drops_blank(payload) ==> !state.emits(payload),
        state.drops_blank(payload) ==> state.step(payload).first_blank_dropped,
{
}

/// The leading-blank rule fires at most once in the life of a filter: of
/// two places in a sequence of payloads, it fires at one at most.
pub proof fn law_at_most_one_blank_absorbed(
    state: FilterState,
    payloads: Seq<Seq<char>>,
    i: int,
    j: int,
)
    requires
        0 <= i < j < payloads.len(),
    ensures
        !(state.run(payloads.take(i)).drops_blank(payloads[i]) && state.run(
            payloads.take(j),
        ).drops_blank(payloads[j])),
{
    let at_i = state.run(payloads.take(i));
    if at_i.drops_blank(payloads[i]) {
        let between = payloads.subrange(i + 1, j);
        lemma_run_push(state, payloads.take(i), payloads[i]);
        assert(payloads.take(i).push(payloads[i]) =~= payloads.take(i + 1));
        lemma_run_concat(state, payloads.take(i + 1), between);
        assert(payloads.take(i + 1) + between =~= payloads.take(j));
        law_flags_are_sticky(state.run(payloads.take(i + 1)), between);
    }
}

/// After the one leading blank has been absorbed, a blank payload that
/// comes later is emitted like any other, as long as the filter has not
/// ended.
pub proof fn law_later_blank_is_emitted(
    state: FilterState,
    first: Seq<char>,
    between: Seq<Seq<char>>,
    second: Seq<char>,
)
    requires
        state.drops_blank(first),
        is_blank(second),
        !state.step(first).run(between).ended,
    ensures
        state.step(first).run(between).emits(second),
{
    law_flags_are_sticky(state.step(first), between);
    lemma_sentinels();
}

/// A candidate line whose text is no JSON string carries no payload, and
/// the stream goes on as if the line were not there: the lines around it
/// carry the same payloads, and the filter emits the same.
pub proof fn law_malformed_line_is_noise(
    state: FilterState,
    before: Seq<Seq<char>>,
    line: Seq<char>,
    after: Seq<Seq<char>>,
)
    ensures
        is_candidate(line) && json_string_value(line.skip(FIELD_LEN as int)) is None ==> {
            &&& line_payload(line) is None
            &&& payloads_of(before.push(line) + after) == payloads_of(before + after)
            &&& state.run(payloads_of(before.push(line) + after)) == state.run(
                payloads_of(before + after),
            )
            &&& state.output(payloads_of(before.push(line) + after)) == state.output(
                payloads_of(before + after),
            )
        },
{
    if line_payload(line) is None {
        lemma_payloads_of_push(before, line);
        lemma_payloads_of_concat(before.push(line), after);
        lemma_payloads_of_concat(before, after);
    }
}

/// A chunk is split between two lines when the cut lies next to a newline
/// or at either end of the chunk.
pub open spec fn splits_between_lines(first: Seq<char>, second: Seq<char>) -> bool {
    ||| first.len() == 0
    ||| second.len() == 0
    ||| first.last() == '\n'
    ||| second.first() == '\n'
}

/// A chunk that is split between two lines carries the payloads of its two
/// parts.
pub proof fn lemma_chunk_payloads_split(first: Seq<char>, second: Seq<char>)
    requires
        splits_between_lines(first, second),
    ensures
        chunk_payloads(first + second) == chunk_payloads(first) + chunk_payloads(second),
{
    let blank_line = Seq::<char>::empty();
    let no_lines = Seq::<Seq<char>>::empty();
    assert(lines_of(blank_line) =~= seq![blank_line]);
    assert(seq![blank_line] =~= no_lines.push(blank_line));
    lemma_payloads_of_push(no_lines, blank_line);
    assert(payloads_of(seq![blank_line]) =~= Seq::<Seq<char>>::empty());
    if first.len() == 0 {
        assert(first =~= blank_line);
        assert(first + second =~= second);
        assert(chunk_payloads(first) + chunk_payloads(second) =~= chunk_payloads(second));
    } else if second.len() == 0 {
        assert(second =~= blank_line);
        assert(first + second =~= first);
        assert(chunk_payloads(first) + chunk_payloads(second) =~= chunk_payloads(first));
    } else if first.last() == '\n' {
        let head = first.drop_last();
        assert(first =~= head + seq!['\n'] + blank_line);
        assert(first + second =~= head + seq!['\n'] + second);
        lemma_lines_of_join(head, second);
        lemma_lines_of_join(head, blank_line);
        lemma_payloads_of_concat(lines_of(head), seq![blank_line]);
        lemma_payloads_of_concat(lines_of(head), lines_of(second));
        assert(payloads_of(lines_of(head)) + payloads_of(seq![blank_line]) =~= payloads_of(
            lines_of(head),
        ));
    } else {
        let tail = second.drop_first();
        assert(second =~= blank_line + seq!['\n'] + tail);
        assert(first + second =~= first + seq!['\n'] + tail);
        lemma_lines_of_join(first, tail);
        lemma_lines_of_join(blank_line, tail);
        lemma_payloads_of_concat(lines_of(first), lines_of(tail));
        lemma_payloads_of_concat(seq![blank_line], lines_of(tail));
        assert(payloads_of(seq![blank_line]) + payloads_of(lines_of(tail)) =~= payloads_of(
            lines_of(tail),
        ));
    }
}

/// Whether a chunk arrives whole or split between two lines makes no
/// difference: the stream carries the same payloads, and the filter ends
/// in the same state and emits the same.
pub proof fn law_split_between_lines(
    state: FilterState,
    earlier: Seq<Seq<char>>,
    first: Seq<char>,
    second: Seq<char>,
    later: Seq<Seq<char>>,
)
    requires
        splits_between_lines(first, second),
    ensures
        stream_payloads(earlier.push(first).push(second) + later) == stream_payloads(
            earlier.push(first + second) + later,
        ),
        state.run(stream_payloads(earlier.push(first).push(second) + later)) == state.run(
            stream_payloads(earlier.push(first + second) + later),
        ),
        state.output(stream_payloads(earlier.push(first).push(second) + later)) == state.output(
            stream_payloads(earlier.push(first + second) + later),
        ),
{
    let whole = earlier.push(first + second);
    let halves = earlier.push(first).push(second);
    lemma_chunk_payloads_split(first, second);
    assert(whole.drop_last() =~= earlier);
    assert(halves.drop_last() =~= earlier.push(first));
    assert(earlier.push(first).drop_last() =~= earlier);
    assert(stream_payloads(whole) == stream_payloads(earlier) + chunk_payloads(first + second));
    assert(stream_payloads(earlier.push(first)) == stream_payloads(earlier) + chunk_payloads(
        first,
    ));
    assert(stream_payloads(halves) == stream_payloads(earlier.push(first)) + chunk_payloads(
        second,
    ));
    assert(stream_payloads(halves) =~= stream_payloads(whole));
    lemma_stream_payloads_concat(whole, later);
    lemma_stream_payloads_concat(halves, later);
}

} // verus!
