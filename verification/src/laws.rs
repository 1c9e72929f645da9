//! What holds of every text: the laws of the token stream and of the
//! prefix state.

use vstd::prelude::*;
use crate::lexer::{
    LexicalError,
    Prefix,
    SpecItem,
    Token,
};
use crate::scan::{
    floor,
    heading_allowed,
    initial,
    lemma_floor,
    lemma_produce,
    lemma_step,
    line_prefix,
    pending_hash,
    produce,
    starts_line,
    step,
    stream,
    token_stream,
    LexState,
    Outcome,
};
use crate::text::{
    byte_len,
    byte_offset,
    lemma_offset_monotone,
    lemma_offset_narrow,
    lemma_run_end,
    run_end,
    Run,
};

verus! {

/// The sum of the lengths of the spans of the tokens among `items`.
pub open spec fn span_total(items: Seq<SpecItem>) -> nat
    decreases items.len(),
{
    if items.len() == 0 {
        0
    } else {
        span_total(items.drop_first()) + match items[0] {
            Ok((start, _, end)) => (end - start) as nat,
            Err(_) => 0,
        }
    }
}

/// Whether the tokens among `items` have spans of at least one byte that
/// follow each other from the offset `from` on, none past the offset `to`
/// and none overlapping another, and whether an error, if there is one, is
/// the last item.
pub open spec fn in_order(items: Seq<SpecItem>, from: nat, to: nat) -> bool
    decreases items.len(),
{
    if items.len() == 0 {
        true
    } else {
        match items[0] {
            Ok((start, _, end)) => from <= start < end <= to && in_order(
                items.drop_first(),
                end,
                to,
            ),
            Err(_) => items.len() == 1,
        }
    }
}

/// The spans of a stream lie in order within the text: each token covers at
/// least one byte, starts where the one before it ended or later, and ends
/// within the text. Nothing follows an error.
pub proof fn lemma_stream_in_order(text: Seq<char>, st: LexState)
    requires
        st.valid(text),
    ensures
        in_order(stream(text, st), floor(text, st), byte_len(text)),
    decreases text.len() - st.cursor(text), st.pending,
{
    lemma_produce(text, st);
    let (item, s) = produce(text, st);
    if item is Some {
        let rest = stream(text, s);
        assert(stream(text, st).drop_first() =~= rest);
        match item->0 {
            Ok((start, _, end)) => {
                lemma_stream_in_order(text, s);
                lemma_in_order_from(rest, floor(text, s), end, byte_len(text));
            },
            Err(_) => {
                lemma_produce(text, s);
            },
        }
    }
}

/// Spans that are in order from one offset on are in order from any earlier
/// offset on.
pub proof fn lemma_in_order_from(items: Seq<SpecItem>, from: nat, earlier: nat, to: nat)
    requires
        in_order(items, from, to),
        earlier <= from,
    ensures
        in_order(items, earlier, to),
{
}

/// Spans that are in order between two offsets are no longer in all than
/// the distance between the two.
pub proof fn lemma_span_total(items: Seq<SpecItem>, from: nat, to: nat)
    requires
        in_order(items, from, to),
        from <= to,
    ensures
        span_total(items) <= to - from,
    decreases items.len(),
{
    if items.len() > 0 {
        match items[0] {
            Ok((start, _, end)) => {
                lemma_span_total(items.drop_first(), end, to);
            },
            Err(_) => {
                assert(span_total(items.drop_first()) == 0);
            },
        }
    }
}

/// The spans of all the tokens of a text together are no longer than the
/// text.
pub proof fn lemma_spans_within_text(text: Seq<char>)
    ensures
        span_total(token_stream(text)) <= byte_len(text),
{
    lemma_stream_in_order(text, initial());
    lemma_offset_monotone(text, 0, 0);
    lemma_span_total(token_stream(text), 0, byte_len(text));
}

/// A heading marker is emitted in one case only: a character read as a hash
/// sign, in a line of which nothing but blanks has been seen, begins a run
/// of hash signs that a space follows. The line is then a heading.
pub proof fn lemma_heading_marker(text: Seq<char>, st: LexState)
    requires
        st.valid(text),
    ensures
        step(text, st).0 matches Outcome::Emit(Ok((_, Token::Hashes(_), _))) <==> {
            let q = st.cursor(text);
            let e = run_end(text, q, Run::Hashes);
            &&& !st.failed
            &&& st.pending == 0
            &&& q < text.len()
            &&& text[q] == '#'
            &&& heading_allowed(line_prefix(text, st))
            &&& e < text.len()
            &&& text[e] == ' '
        },
        step(text, st).0 matches Outcome::Emit(Ok((_, Token::Hashes(_), _))) ==> step(
            text,
            st,
        ).1.prefix == Prefix::Title,
{
    let q = st.cursor(text);
    if !st.failed && q < text.len() {
        lemma_run_end(text, q, Run::Hashes);
    }
}

/// A line becomes a heading by a heading marker and in no other way.
pub proof fn lemma_title_entry(text: Seq<char>, st: LexState)
    requires
        st.valid(text),
        !st.failed,
        st.pending == 0,
        st.cursor(text) < text.len(),
        step(text, st).1.prefix == Prefix::Title,
    ensures
        line_prefix(text, st) == Prefix::Title || step(text, st).0 matches Outcome::Emit(
            Ok((_, Token::Hashes(_), _)),
        ),
{
}

/// An ordered-list marker is completed by a space right after digits and a
/// dot and in no other way; after digits and a dot, anything but a space
/// makes the line an ordinary one.
pub proof fn lemma_ordered_list_entry(text: Seq<char>, st: LexState)
    requires
        st.valid(text),
        !st.failed,
        st.pending == 0,
        st.cursor(text) < text.len(),
    ensures
        step(text, st).1.prefix == Prefix::OrderedList ==> line_prefix(text, st)
            == Prefix::OrderedList || (line_prefix(text, st) == Prefix::NumberDot
            && text[st.cursor(text)] == ' '),
        line_prefix(text, st) == Prefix::NumberDot ==> step(text, st).1.prefix == if text[st.cursor(
            text,
        )] == ' ' {
            Prefix::OrderedList
        } else {
            Prefix::Others
        },
{
}

/// The first character after a line feed, like the first of the text, is
/// read as if nothing had been seen before it.
pub proof fn lemma_line_start_resets(text: Seq<char>, st: LexState)
    requires
        st.valid(text),
        !st.failed,
        st.pending == 0,
        st.cursor(text) < text.len(),
        starts_line(text, st.cursor(text)),
    ensures
        step(text, st) == step(text, LexState { prefix: Prefix::LineStart, ..st }),
{
}

/// Pending hash signs come out first, in order: while `n` of them are
/// pending, the next `n` items are literal hash signs over the `n` bytes
/// before the current character, one byte each.
pub proof fn lemma_pending_hashes(text: Seq<char>, st: LexState, k: int)
    requires
        st.valid(text),
        !st.failed,
        0 <= k < st.pending,
    ensures
        k < stream(text, st).len(),
        stream(text, st)[k] == Ok::<(nat, Token, nat), LexicalError>(
            (
                (st.position(text) - st.pending + k) as nat,
                Token::Hash,
                (st.position(text) - st.pending + k + 1) as nat,
            ),
        ),
    decreases k,
{
    lemma_step(text, st);
    lemma_floor(text, st);
    let s = LexState { pending: (st.pending - 1) as nat, ..st };
    assert(produce(text, st) == (Some(pending_hash(text, st)), s));
    assert(stream(text, st) == seq![pending_hash(text, st)] + stream(text, s));
    if k > 0 {
        lemma_pending_hashes(text, s, k - 1);
        assert(stream(text, st)[k] == stream(text, s)[k - 1]);
    }
}

/// A run of hash signs that no space follows, where a heading could open,
/// gives no heading marker: each hash sign of the run is a literal token by
/// itself, and these are the next items, in order, over one byte each.
pub proof fn lemma_rejected_hashes_are_literal(text: Seq<char>, st: LexState, k: int)
    requires
        st.valid(text),
        !st.failed,
        st.pending == 0,
        st.cursor(text) < text.len(),
        text[st.cursor(text)] == '#',
        heading_allowed(line_prefix(text, st)),
        !(run_end(text, st.cursor(text), Run::Hashes) < text.len() && text[run_end(
            text,
            st.cursor(text),
            Run::Hashes,
        )] == ' '),
        0 <= k < run_end(text, st.cursor(text), Run::Hashes) - st.cursor(text),
    ensures
        step(text, st).0 is Skip,
        step(text, st).1.cursor(text) == run_end(text, st.cursor(text), Run::Hashes),
        k < stream(text, st).len(),
        stream(text, st)[k] == Ok::<(nat, Token, nat), LexicalError>(
            (
                byte_offset(text, st.cursor(text)) + k as nat,
                Token::Hash,
                byte_offset(text, st.cursor(text)) + k as nat + 1,
            ),
        ),
{
    let q = st.cursor(text);
    let e = run_end(text, q, Run::Hashes);
    lemma_run_end(text, q, Run::Hashes);
    lemma_offset_narrow(text, q, e);
    lemma_offset_monotone(text, e, text.len() as int);
    lemma_step(text, st);
    let s = step(text, st).1;
    assert(step(text, st).0 is Skip);
    assert(produce(text, st) == produce(text, s));
    assert(stream(text, st) == stream(text, s));
    assert(s.position(text) == byte_offset(text, e));
    lemma_pending_hashes(text, s, k);
}

/// A hash sign where no heading can open is a literal token by itself.
pub proof fn lemma_hash_is_literal(text: Seq<char>, st: LexState)
    requires
        st.valid(text),
        !st.failed,
        st.pending == 0,
        st.cursor(text) < text.len(),
        text[st.cursor(text)] == '#',
        !heading_allowed(line_prefix(text, st)),
        st.pushed_back || line_prefix(text, st) != Prefix::Title,
    ensures
        step(text, st).0 == Outcome::Emit(
            Ok(
                (
                    byte_offset(text, st.cursor(text)),
                    Token::Hash,
                    byte_offset(text, st.cursor(text)) + 1,
                ),
            ),
        ),
        step(text, st).1.cursor(text) == st.cursor(text) + 1,
{
}

/// A quoted item that no backtick closes before its line ends gives no
/// token: where a backtick is read and a line feed or the end of the text
/// comes before the next backtick, the step emits nothing, and whatever is
/// produced next starts at that line feed or later.
pub proof fn lemma_unclosed_quote_is_dropped(text: Seq<char>, st: LexState)
    requires
        st.valid(text),
        !st.failed,
        st.pending == 0,
        st.cursor(text) < text.len(),
        text[st.cursor(text)] == '`',
        st.pushed_back || line_prefix(text, st) != Prefix::Title,
        !(run_end(text, st.cursor(text) + 1, Run::Quoted) < text.len() && text[run_end(
            text,
            st.cursor(text) + 1,
            Run::Quoted,
        )] == '`'),
    ensures
        step(text, st).0 is Skip,
        step(text, st).1.cursor(text) == run_end(text, st.cursor(text) + 1, Run::Quoted),
        produce(text, st).0 matches Some(Ok((start, _, _))) ==> start >= byte_offset(
            text,
            run_end(text, st.cursor(text) + 1, Run::Quoted),
        ),
{
    let q = st.cursor(text);
    lemma_run_end(text, q + 1, Run::Quoted);
    lemma_step(text, st);
    lemma_produce(text, step(text, st).1);
}

} // verus!
