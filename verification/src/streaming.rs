//! Streaming and incremental rendering on top of the whole-text parser.
use vstd::prelude::*;

use crate::text::{
    all_in, all_of, append, char_index, in_class, is_blank, run_end, scan_run, slice, split,
    to_chars, to_string, trim, trim_start, trimmed_start, utf8_len, CharClass,
};
use crate::text::{law_utf8_len_is_encoding_length, lemma_encode_concat};
use crate::{html_of, html_of_chars, parses, Options};
use vstd::utf8::encode_utf8;

verus! {

// ---------------------------------------------------------------------------
// The streaming model
// ---------------------------------------------------------------------------

/// The state of a stream parser: the unfinished last line, the lines of the
/// block group not yet rendered, and the marker of an open code fence.
pub struct StreamModel {
    pub options: Options,
    pub line_buffer: Seq<char>,
    pub pending: Seq<char>,
    pub fence: Option<char>,
}

/// The open fence after a line: a fence line opens one when none is open,
/// and closes the open one when it has the same marker and nothing but
/// whitespace after the markers.
pub open spec fn fence_after(fence: Option<char>, line: Seq<char>) -> Option<char> {
    let t = trim_start(line);
    if t.len() == 0 || (t[0] != '`' && t[0] != '~') {
        fence
    } else {
        let count = run_end(t, 0, CharClass::Is(t[0]));
        if count < 3 {
            fence
        } else {
            match fence {
                None => Some(t[0]),
                Some(open) => if open == t[0] && all_in(t.skip(count), CharClass::Whitespace) {
                    None
                } else {
                    fence
                },
            }
        }
    }
}

/// The HTML of the pending text: nothing for a blank text. `None`: fails.
pub open spec fn flush_html(pending: Seq<char>, options: Options) -> Option<Seq<char>> {
    if trim(pending).len() == 0 {
        Some(Seq::empty())
    } else {
        html_of(pending, options)
    }
}

/// One complete line (with its `\n`, if any) added to the pending group:
/// a blank line outside a code fence renders the group. The new fence, the
/// new pending text and the HTML. `None`: fails.
pub open spec fn line_step(fence: Option<char>, pending: Seq<char>, line: Seq<char>, options: Options) -> Option<
    (Option<char>, Seq<char>, Seq<char>),
> {
    let f = fence_after(fence, line);
    let p = pending + line;
    if trim(line).len() == 0 && f is None {
        match flush_html(p, options) {
            None => None,
            Some(html) => Some((f, Seq::empty(), html)),
        }
    } else {
        Some((f, p, Seq::empty()))
    }
}

/// Feeds buffered text: each complete line in turn, keeping the text after
/// the last `\n` as the new line buffer. The new state and the HTML. `None`: fails.
pub open spec fn drain(
    fence: Option<char>,
    pending: Seq<char>,
    buf: Seq<char>,
    options: Options,
) -> Option<(StreamModel, Seq<char>)>
    decreases buf.len(),
{
    let k = run_end(buf, 0, CharClass::Not('\n'));
    if !(0 <= k < buf.len()) {
        Some((StreamModel { options, line_buffer: buf, pending, fence }, Seq::empty()))
    } else {
        match line_step(fence, pending, buf.take(k + 1), options) {
            None => None,
            Some((f, p, html)) => match drain(f, p, buf.skip(k + 1), options) {
                None => None,
                Some((st, more)) => Some((st, html + more)),
            },
        }
    }
}

/// A chunk pushed into a stream: the new state and the HTML of the block
/// groups that it completes. `None`: fails.
pub open spec fn push_chunk(st: StreamModel, chunk: Seq<char>) -> Option<(StreamModel, Seq<char>)> {
    drain(st.fence, st.pending, st.line_buffer + chunk, st.options)
}

/// The HTML of the end of a stream: the unfinished line taken as a last
/// line, then the pending group. `None`: fails.
pub open spec fn finish_stream(st: StreamModel) -> Option<Seq<char>> {
    if st.line_buffer.len() > 0 {
        match line_step(st.fence, st.pending, st.line_buffer, st.options) {
            None => None,
            Some((f, p, html)) => match flush_html(p, st.options) {
                None => None,
                Some(rest) => Some(html + rest),
            },
        }
    } else {
        flush_html(st.pending, st.options)
    }
}

/// A chunk pushed after the result of an earlier push.
pub open spec fn then_push(r: Option<(StreamModel, Seq<char>)>, chunk: Seq<char>) -> Option<
    (StreamModel, Seq<char>),
> {
    match r {
        None => None,
        Some((st, html)) => match push_chunk(st, chunk) {
            None => None,
            Some((st2, more)) => Some((st2, html + more)),
        },
    }
}

/// Feeding `s` then `t` is feeding `s + t`.
proof fn lemma_drain_concat(
    fence: Option<char>,
    pending: Seq<char>,
    s: Seq<char>,
    t: Seq<char>,
    options: Options,
)
    ensures
        drain(fence, pending, s + t, options) == then_push(drain(fence, pending, s, options), t),
    decreases s.len(),
{
    let k = run_end(s, 0, CharClass::Not('\n'));
    crate::text::lemma_run_end(s, 0, CharClass::Not('\n'));
    crate::text::lemma_run_end(s + t, 0, CharClass::Not('\n'));
    lemma_run_end_prefix(s, t, 0);
    if 0 <= k < s.len() {
        assert((s + t).take(k + 1) =~= s.take(k + 1));
        assert((s + t).skip(k + 1) =~= s.skip(k + 1) + t);
        match line_step(fence, pending, s.take(k + 1), options) {
            None => {},
            Some((f, p, html)) => {
                lemma_drain_concat(f, p, s.skip(k + 1), t, options);
                match drain(f, p, s.skip(k + 1), options) {
                    None => {},
                    Some((st, more)) => {
                        match push_chunk(st, t) {
                            None => {},
                            Some((st2, more2)) => {
                                assert(html + (more + more2) =~= (html + more) + more2);
                            },
                        }
                    },
                }
            },
        }
    } else {
        let st = StreamModel { options, line_buffer: s, pending, fence };
        assert(drain(fence, pending, s, options) == Some((st, Seq::<char>::empty())));
        match push_chunk(st, t) {
            None => {},
            Some((st2, more2)) => {
                assert(Seq::<char>::empty() + more2 =~= more2);
            },
        }
    }
}

/// A newline-free prefix leaves the end of its run where it was.
proof fn lemma_run_end_prefix(s: Seq<char>, t: Seq<char>, i: int)
    requires
        0 <= i <= s.len(),
    ensures
        run_end(s, i, CharClass::Not('\n')) < s.len() ==> run_end(s + t, i, CharClass::Not('\n'))
            == run_end(s, i, CharClass::Not('\n')),
        run_end(s, i, CharClass::Not('\n')) >= s.len() ==> run_end(s + t, i, CharClass::Not('\n'))
            >= s.len(),
    decreases s.len() - i,
{
    if i < s.len() {
        assert((s + t)[i] == s[i]);
        lemma_run_end_prefix(s, t, i + 1);
    } else {
        crate::text::lemma_run_end(s + t, i, CharClass::Not('\n'));
    }
}

/// Streaming output does not depend on how the input is split into chunks:
/// pushing `a` and then `b` gives the state and the HTML that pushing `a + b`
/// gives.
pub proof fn law_chunk_boundaries_do_not_matter(st: StreamModel, a: Seq<char>, b: Seq<char>)
    ensures
        push_chunk(st, a + b) == then_push(push_chunk(st, a), b),
{
    assert(st.line_buffer + (a + b) =~= (st.line_buffer + a) + b);
    lemma_drain_concat(st.fence, st.pending, st.line_buffer + a, b, st.options);
}

/// Inside an open code fence a line renders nothing: it joins the pending group.
pub proof fn law_open_fence_holds_output(
    fence: Option<char>,
    pending: Seq<char>,
    line: Seq<char>,
    options: Options,
)
    requires
        fence_after(fence, line) is Some,
    ensures
        line_step(fence, pending, line, options) == Some(
            (fence_after(fence, line), pending + line, Seq::<char>::empty()),
        ),
{
}

/// A blank line outside a code fence completes the pending group: the group
/// with the line is rendered and nothing stays pending.
pub proof fn law_blank_line_completes_group(
    fence: Option<char>,
    pending: Seq<char>,
    line: Seq<char>,
    options: Options,
)
    requires
        trim(line).len() == 0,
        fence_after(fence, line) is None,
        flush_html(pending + line, options) is Some,
    ensures
        line_step(fence, pending, line, options) == Some(
            (None::<char>, Seq::<char>::empty(), flush_html(pending + line, options)->0),
        ),
{
}

/// Whether every line of a text that a `\n` ends holds more than whitespace.
pub open spec fn no_blank_line(s: Seq<char>) -> bool {
    forall|i: int|
        0 <= i < split(s, '\n').len() - 1 ==> trim(#[trigger] split(s, '\n')[i]).len() != 0
}

/// Draining text without a blank line renders nothing and keeps all of the
/// text: the complete lines pending, the rest in the line buffer.
proof fn lemma_drain_without_blank_line(
    fence: Option<char>,
    pending: Seq<char>,
    buf: Seq<char>,
    options: Options,
)
    requires
        no_blank_line(buf),
    ensures
        drain(fence, pending, buf, options) matches Some((st, html)) && html.len() == 0
            && st.pending + st.line_buffer == pending + buf && st.options == options,
    decreases buf.len(),
{
    let k = run_end(buf, 0, CharClass::Not('\n'));
    crate::text::lemma_run_end(buf, 0, CharClass::Not('\n'));
    if 0 <= k < buf.len() {
        let line = buf.take(k + 1);
        let rest = buf.skip(k + 1);
        assert(split(buf, '\n') == seq![buf.take(k)] + split(rest, '\n'));
        crate::text::lemma_split_len(rest, '\n');
        assert(trim(split(buf, '\n')[0]).len() != 0);
        crate::text::lemma_trim_blank(buf.take(k));
        crate::text::lemma_trim_blank(line);
        if trim(line).len() == 0 {
            assert forall|m: int| 0 <= m < buf.take(k).len() implies in_class(
                #[trigger] buf.take(k)[m],
                CharClass::Whitespace,
            ) by {
                assert(buf.take(k)[m] == line[m]);
            }
        }
        assert forall|i: int| 0 <= i < split(rest, '\n').len() - 1 implies trim(
            #[trigger] split(rest, '\n')[i],
        ).len() != 0 by {
            assert(split(rest, '\n')[i] == split(buf, '\n')[i + 1]);
        }
        let f = fence_after(fence, line);
        lemma_drain_without_blank_line(f, pending + line, rest, options);
        assert(pending + line + rest =~= pending + buf);
        if let Some((st, html)) = drain(f, pending + line, rest, options) {
            assert(Seq::<char>::empty() + html =~= html);
        }
    } else {
        assert(pending + buf =~= pending + buf);
    }
}

/// Until a blank line arrives a stream renders nothing; when it finishes it
/// renders all it received at once, as the whole-text parser renders it.
pub proof fn law_stream_without_blank_line_renders_at_finish(options: Options, s: Seq<char>)
    requires
        no_blank_line(s),
    ensures
        push_chunk(
            StreamModel { options, line_buffer: Seq::empty(), pending: Seq::empty(), fence: None },
            s,
        ) matches Some((st, html)) && html.len() == 0 && finish_stream(st) == flush_html(
            s,
            options,
        ),
{
    let st0 = StreamModel { options, line_buffer: Seq::empty(), pending: Seq::empty(), fence: None };
    assert(st0.line_buffer + s =~= s);
    lemma_drain_without_blank_line(None, Seq::empty(), s, options);
    if let Some((st, html)) = push_chunk(st0, s) {
        assert(Seq::<char>::empty() + s =~= s);
        if st.line_buffer.len() > 0 {
            if let Some(h) = flush_html(s, options) {
                assert(h + Seq::<char>::empty() =~= h);
                assert(Seq::<char>::empty() + h =~= h);
            }
        } else {
            assert(st.pending =~= st.pending + st.line_buffer);
        }
    }
}

/// Text without a line break completes no line: it all stays in the line
/// buffer and nothing is rendered.
proof fn lemma_drain_without_newline(
    fence: Option<char>,
    pending: Seq<char>,
    buf: Seq<char>,
    options: Options,
)
    ensures
        !buf.contains('\n') ==> drain(fence, pending, buf, options) == Some(
            (StreamModel { options, line_buffer: buf, pending, fence }, Seq::<char>::empty()),
        ),
{
    crate::text::lemma_run_end(buf, 0, CharClass::Not('\n'));
    let k = run_end(buf, 0, CharClass::Not('\n'));
    if !buf.contains('\n') && k < buf.len() {
        assert(buf[k] == '\n');
    }
}

// ---------------------------------------------------------------------------
// Many chunks, and the block groups of the whole text
// ---------------------------------------------------------------------------

/// The text of chunks one after the other.
pub open spec fn joined(chunks: Seq<Seq<char>>) -> Seq<char>
    decreases chunks.len(),
{
    if chunks.len() == 0 {
        Seq::empty()
    } else {
        joined(chunks.drop_last()) + chunks.last()
    }
}

/// Chunks pushed one after the other: the final state and all the HTML.
pub open spec fn push_chunks(st: StreamModel, chunks: Seq<Seq<char>>) -> Option<
    (StreamModel, Seq<char>),
>
    decreases chunks.len(),
{
    if chunks.len() == 0 {
        Some((st, Seq::empty()))
    } else {
        then_push(push_chunks(st, chunks.drop_last()), chunks.last())
    }
}

/// The HTML so far followed by the HTML of finishing the stream.
pub open spec fn then_finish(r: Option<(StreamModel, Seq<char>)>) -> Option<Seq<char>> {
    match r {
        None => None,
        Some((st, html)) => match finish_stream(st) {
            None => None,
            Some(rest) => Some(html + rest),
        },
    }
}

/// A fresh stream with the given options.
pub open spec fn fresh_stream(options: Options) -> StreamModel {
    StreamModel { options, line_buffer: Seq::empty(), pending: Seq::empty(), fence: None }
}

/// The lines of a text as a stream reads them: each with its `\n`, and the
/// text after the last `\n`, when there is any, as a last line.
pub open spec fn stream_lines(s: Seq<char>) -> Seq<Seq<char>>
    decreases s.len(),
{
    let k = run_end(s, 0, CharClass::Not('\n'));
    if 0 <= k < s.len() {
        seq![s.take(k + 1)] + stream_lines(s.skip(k + 1))
    } else if s.len() == 0 {
        Seq::empty()
    } else {
        seq![s]
    }
}

/// The block groups of a stream, from lines on, with the fence open before
/// them and the text gathered so far: a whitespace-only line outside an open
/// code fence ends a group (and belongs to it); the last group is the rest.
pub open spec fn stream_groups(fence: Option<char>, current: Seq<char>, lines: Seq<Seq<char>>) -> Seq<
    Seq<char>,
>
    decreases lines.len(),
{
    if lines.len() == 0 {
        seq![current]
    } else {
        let f = fence_after(fence, lines[0]);
        let c = current + lines[0];
        if trim(lines[0]).len() == 0 && f is None {
            seq![c] + stream_groups(f, Seq::empty(), lines.skip(1))
        } else {
            stream_groups(f, c, lines.skip(1))
        }
    }
}

/// The HTML of groups one after the other: nothing for a whitespace-only
/// group, the whole-text HTML of any other. `None`: one of them fails.
pub open spec fn groups_html(groups: Seq<Seq<char>>, options: Options) -> Option<Seq<char>>
    decreases groups.len(),
{
    if groups.len() == 0 {
        Some(Seq::empty())
    } else {
        match (flush_html(groups[0], options), groups_html(groups.skip(1), options)) {
            (Some(a), Some(b)) => Some(a + b),
            _ => None,
        }
    }
}

/// Pushing chunks one by one is pushing their text at once.
proof fn lemma_push_chunks(st: StreamModel, chunks: Seq<Seq<char>>)
    requires
        !st.line_buffer.contains('\n'),
    ensures
        push_chunks(st, chunks) == push_chunk(st, joined(chunks)),
    decreases chunks.len(),
{
    if chunks.len() == 0 {
        assert(st.line_buffer + Seq::<char>::empty() =~= st.line_buffer);
        lemma_drain_without_newline(st.fence, st.pending, st.line_buffer, st.options);
    } else {
        lemma_push_chunks(st, chunks.drop_last());
        law_chunk_boundaries_do_not_matter(st, joined(chunks.drop_last()), chunks.last());
    }
}

/// Two ways of cutting the same text into chunks give the same state, the
/// same HTML from the pushes, and the same HTML from finishing.
pub proof fn law_chunkings_agree(st: StreamModel, cs: Seq<Seq<char>>, ds: Seq<Seq<char>>)
    requires
        !st.line_buffer.contains('\n'),
        joined(cs) == joined(ds),
    ensures
        push_chunks(st, cs) == push_chunks(st, ds),
        then_finish(push_chunks(st, cs)) == then_finish(push_chunks(st, ds)),
{
    lemma_push_chunks(st, cs);
    lemma_push_chunks(st, ds);
}

/// The empty text renders as nothing.
proof fn lemma_flush_empty(options: Options)
    ensures
        flush_html(Seq::<char>::empty(), options) == Some(Seq::<char>::empty()),
{
    assert(trim(Seq::<char>::empty()).len() == 0);
}

/// Finishing a text without a line break renders the groups of its one line.
proof fn lemma_finish_groups(fence: Option<char>, pending: Seq<char>, buf: Seq<char>, options: Options)
    requires
        run_end(buf, 0, CharClass::Not('\n')) >= buf.len(),
    ensures
        then_finish(
            Some((StreamModel { options, line_buffer: buf, pending, fence }, Seq::<char>::empty())),
        ) == groups_html(stream_groups(fence, pending, stream_lines(buf)), options),
{
    let empty = Seq::<char>::empty();
    let none = Seq::<Seq<char>>::empty();
    let st = StreamModel { options, line_buffer: buf, pending, fence };
    lemma_flush_empty(options);
    assert(groups_html(none, options) == Some(empty));
    if buf.len() == 0 {
        assert(stream_lines(buf) =~= none);
        let gs = seq![pending];
        assert(stream_groups(fence, pending, none) == gs);
        assert(gs[0] == pending);
        assert(gs.skip(1) =~= none);
        assert(finish_stream(st) == flush_html(pending, options));
        if let Some(x) = flush_html(pending, options) {
            assert(groups_html(gs, options) == Some(x + empty));
            assert(x + empty =~= x);
            assert(empty + x =~= x);
        }
    } else {
        assert(stream_lines(buf) == seq![buf]);
        let lines = seq![buf];
        assert(lines[0] == buf);
        assert(lines.skip(1) =~= none);
        let f = fence_after(fence, buf);
        if trim(buf).len() == 0 && f is None {
            let gs = seq![pending + buf] + seq![empty];
            assert(stream_groups(f, empty, none) == seq![empty]);
            assert(stream_groups(fence, pending, lines) == gs);
            assert(gs[0] == pending + buf);
            assert(gs.skip(1) =~= seq![empty]);
            assert(seq![empty][0] == empty);
            assert(seq![empty].skip(1) =~= none);
            assert(groups_html(seq![empty], options) == Some(empty + empty));
            match flush_html(pending + buf, options) {
                None => {
                    assert(finish_stream(st) is None);
                },
                Some(h) => {
                    assert(line_step(fence, pending, buf, options) == Some((f, empty, h)));
                    assert(finish_stream(st) == Some(h + empty));
                    assert(groups_html(gs, options) == Some(h + (empty + empty)));
                    assert(empty + (h + empty) =~= h + (empty + empty));
                },
            }
        } else {
            let gs = seq![pending + buf];
            assert(stream_groups(f, pending + buf, none) == gs);
            assert(stream_groups(fence, pending, lines) == gs);
            assert(gs[0] == pending + buf);
            assert(gs.skip(1) =~= none);
            assert(line_step(fence, pending, buf, options) == Some((f, pending + buf, empty)));
            match flush_html(pending + buf, options) {
                None => {
                    assert(finish_stream(st) is None);
                },
                Some(h) => {
                    assert(finish_stream(st) == Some(empty + h));
                    assert(groups_html(gs, options) == Some(h + empty));
                    assert(empty + (empty + h) =~= h + empty);
                },
            }
        }
    }
}

/// Draining a text and finishing renders the groups of its lines.
proof fn lemma_drain_groups(fence: Option<char>, pending: Seq<char>, buf: Seq<char>, options: Options)
    ensures
        then_finish(drain(fence, pending, buf, options)) == groups_html(
            stream_groups(fence, pending, stream_lines(buf)),
            options,
        ),
    decreases buf.len(),
{
    let k = run_end(buf, 0, CharClass::Not('\n'));
    crate::text::lemma_run_end(buf, 0, CharClass::Not('\n'));
    if 0 <= k < buf.len() {
        let line = buf.take(k + 1);
        let rest = buf.skip(k + 1);
        let lines = stream_lines(buf);
        assert(lines == seq![line] + stream_lines(rest));
        assert(lines[0] == line);
        assert(lines.skip(1) =~= stream_lines(rest));
        let f = fence_after(fence, line);
        if trim(line).len() == 0 && f is None {
            lemma_drain_groups(f, Seq::empty(), rest, options);
            lemma_blank_line_groups(fence, pending, line, rest, options);
        } else {
            lemma_drain_groups(f, pending + line, rest, options);
            lemma_other_line_groups(fence, pending, line, rest, options);
        }
    } else {
        lemma_finish_groups(fence, pending, buf, options);
    }
}

/// A blank line outside a fence: its group is rendered before the rest.
#[verifier::rlimit(40)]
proof fn lemma_blank_line_groups(
    fence: Option<char>,
    pending: Seq<char>,
    line: Seq<char>,
    rest: Seq<char>,
    options: Options,
)
    requires
        trim(line).len() == 0,
        fence_after(fence, line) is None,
        then_finish(drain(None, Seq::empty(), rest, options)) == groups_html(
            stream_groups(None, Seq::empty(), stream_lines(rest)),
            options,
        ),
    ensures
        then_finish(
            match line_step(fence, pending, line, options) {
                None => None,
                Some((f, p, html)) => match drain(f, p, rest, options) {
                    None => None,
                    Some((st, more)) => Some((st, html + more)),
                },
            },
        ) == groups_html(
            seq![pending + line] + stream_groups(None, Seq::empty(), stream_lines(rest)),
            options,
        ),
{
    let g = stream_groups(None, Seq::<char>::empty(), stream_lines(rest));
    let gs = seq![pending + line] + g;
    assert(gs[0] == pending + line);
    assert(gs.skip(1) =~= g);
    let first = flush_html(pending + line, options);
    let tail = then_finish(drain(None, Seq::empty(), rest, options));
    assert(line_step(fence, pending, line, options) == match first {
        None => None,
        Some(h) => Some((None::<char>, Seq::<char>::empty(), h)),
    });
    assert(groups_html(gs, options) == match (first, groups_html(g, options)) {
        (Some(a), Some(b)) => Some(a + b),
        _ => None,
    });
    if let Some(h) = first {
        if let Some((st, more)) = drain(None, Seq::empty(), rest, options) {
            if let Some(t) = finish_stream(st) {
                assert(h + more + t =~= h + (more + t));
            }
        }
    }
}

/// Any other line joins the group being gathered.
proof fn lemma_other_line_groups(
    fence: Option<char>,
    pending: Seq<char>,
    line: Seq<char>,
    rest: Seq<char>,
    options: Options,
)
    requires
        !(trim(line).len() == 0 && fence_after(fence, line) is None),
    ensures
        then_finish(
            match line_step(fence, pending, line, options) {
                None => None,
                Some((f, p, html)) => match drain(f, p, rest, options) {
                    None => None,
                    Some((st, more)) => Some((st, html + more)),
                },
            },
        ) == then_finish(drain(fence_after(fence, line), pending + line, rest, options)),
{
    if let Some((st, more)) = drain(fence_after(fence, line), pending + line, rest, options) {
        assert(Seq::<char>::empty() + more =~= more);
    }
}

/// A stream renders its text group by group: however the text is cut into
/// chunks, the HTML of all the pushes and of finishing is the HTML of the
/// block groups of the whole text, each rendered on its own (nothing for a
/// whitespace-only group), one after the other.
pub proof fn law_stream_renders_group_by_group(options: Options, chunks: Seq<Seq<char>>)
    ensures
        then_finish(push_chunks(fresh_stream(options), chunks)) == groups_html(
            stream_groups(None, Seq::empty(), stream_lines(joined(chunks))),
            options,
        ),
{
    let st = fresh_stream(options);
    lemma_push_chunks(st, chunks);
    assert(st.line_buffer + joined(chunks) =~= joined(chunks));
    lemma_drain_groups(None, Seq::empty(), joined(chunks), options);
}

// ---------------------------------------------------------------------------
// StreamParser
// ---------------------------------------------------------------------------

/// Renders Markdown arriving in arbitrary text chunks.
///
/// Completed block groups are emitted whenever a blank line is received. The
/// final unfinished group is emitted by [`StreamParser::finish`]. This keeps
/// output ordering stable while allowing callers to forward HTML as data is
/// read from a network or file stream.
pub struct StreamParser {
    options: Options,
    line_buffer: Vec<char>,
    pending: Vec<char>,
    fence: Option<char>,
}

impl StreamParser {
    /// The unfinished line holds no line break: every complete line has been
    /// taken from the buffer.
    #[verifier::type_invariant]
    closed spec fn buffer_is_one_line(self) -> bool {
        !self.line_buffer@.contains('\n')
    }

    /// The model of the parser's state.
    pub closed spec fn model(&self) -> StreamModel {
        StreamModel {
            options: self.options,
            line_buffer: self.line_buffer@,
            pending: self.pending@,
            fence: self.fence,
        }
    }

    pub fn new() -> (p: Self)
        ensures
            p.model() == (StreamModel {
                options: Options { gfm: false },
                line_buffer: Seq::empty(),
                pending: Seq::empty(),
                fence: None,
            }),
    {
        Self::with_options(Options::default())
    }

    pub fn with_options(options: Options) -> (p: Self)
        ensures
            p.model() == (StreamModel {
                options,
                line_buffer: Seq::empty(),
                pending: Seq::empty(),
                fence: None,
            }),
    {
        StreamParser { options, line_buffer: Vec::new(), pending: Vec::new(), fence: None }
    }

    /// Accepts a source chunk and returns HTML for block groups that are now complete.
    pub fn push(&mut self, chunk: &str) -> (html: String)
        requires
            push_chunk(old(self).model(), chunk@) is Some,
        ensures
            push_chunk(old(self).model(), chunk@) == Some((final(self).model(), html@)),
            !final(self).model().line_buffer.contains('\n'),
            !chunk@.contains('\n') ==> html@.len() == 0 && final(self).model().line_buffer == old(
                self,
            ).model().line_buffer + chunk@,
    {
        proof {
            use_type_invariant(&*self);
        }
        let mut buf = Vec::new();
        append(&mut buf, &self.line_buffer);
        let c = to_chars(chunk);
        append(&mut buf, &c);
        let ghost whole = buf@;
        assert(whole =~= old(self).line_buffer@ + chunk@);
        let ghost options = self.options;
        let mut out: Vec<char> = Vec::new();
        let mut pos: usize = 0;
        assert(buf@.skip(0) =~= buf@);
        loop
            invariant
                pos <= buf.len(),
                whole == buf@,
                whole == old(self).line_buffer@ + chunk@,
                options == self.options,
                options == old(self).options,
                !old(self).line_buffer@.contains('\n'),
                drain(old(self).fence, old(self).pending@, whole, options) is Some,
                drain(old(self).fence, old(self).pending@, whole, options) == then_out(
                    out@,
                    drain(self.fence, self.pending@, buf@.skip(pos as int), options),
                ),
            decreases buf.len() - pos,
        {
            let ghost rest = buf@.skip(pos as int);
            let e = scan_run(&buf, pos, CharClass::Not('\n'));
            proof {
                crate::text::lemma_run_end(buf@, pos as int, CharClass::Not('\n'));
                crate::text::lemma_run_shift(buf@, pos as int, CharClass::Not('\n'));
            }
            if e >= buf.len() {
                let ghost lb = buf@.subrange(pos as int, buf.len() as int);
                assert(!lb.contains('\n')) by {
                    assert forall|j: int| 0 <= j < lb.len() implies lb[j] != '\n' by {
                        assert(lb[j] == buf@[pos + j]);
                        assert(in_class(buf@[pos + j], CharClass::Not('\n')));
                    }
                }
                self.line_buffer = slice(&buf, pos, buf.len());
                assert(self.line_buffer@ =~= rest);
                let ghost st = StreamModel {
                    options,
                    line_buffer: rest,
                    pending: self.pending@,
                    fence: self.fence,
                };
                assert(drain(self.fence, self.pending@, rest, options) == Some(
                    (st, Seq::<char>::empty()),
                ));
                assert(self.model() == st);
                assert(out@ + Seq::<char>::empty() =~= out@);
                let html = to_string(&out);
                assert(old(self).model().line_buffer + chunk@ == whole);
                assert(drain(old(self).fence, old(self).pending@, whole, options) == Some((st, out@)));
                assert(push_chunk(old(self).model(), chunk@) == Some((st, html@)));
                proof {
                    let both = old(self).line_buffer@ + chunk@;
                    if !chunk@.contains('\n') {
                        assert forall|j: int| 0 <= j < both.len() implies both[j] != '\n' by {
                            if j < old(self).line_buffer@.len() {
                                assert(both[j] == old(self).line_buffer@[j]);
                            } else {
                                assert(both[j] == chunk@[j - old(self).line_buffer@.len()]);
                            }
                        }
                    }
                    lemma_drain_without_newline(
                        old(self).fence,
                        old(self).pending@,
                        old(self).line_buffer@ + chunk@,
                        old(self).options,
                    );
                }
                return html;
            }
            let line = slice(&buf, pos, e + 1);
            assert(line@ =~= rest.take(e - pos + 1));
            assert(rest.skip(e - pos + 1) =~= buf@.skip(e + 1));
            let ghost before = out@;
            match self.push_line(&line) {
                None => {
                    assert(false);
                    return String::new();
                },
                Some(html) => {
                    append(&mut out, &html);
                    proof {
                        assert forall|more: Seq<char>| #![auto]
                            before + (html@ + more) == out@ + more by {
                            assert(before + (html@ + more) =~= out@ + more);
                        }
                    }
                },
            }
            pos = e + 1;
        }
    }

    /// Adds one complete line to the pending group; the HTML of the group
    /// when the line completes it.
    fn push_line(&mut self, line: &Vec<char>) -> (r: Option<Vec<char>>)
        ensures
            r matches Some(html) ==> line_step(old(self).fence, old(self).pending@, line@, old(self).options)
                == Some((final(self).fence, final(self).pending@, html@)),
            r is None ==> line_step(old(self).fence, old(self).pending@, line@, old(self).options) is None,
            final(self).options == old(self).options,
            final(self).line_buffer == old(self).line_buffer,
    {
        proof {
            use_type_invariant(&*self);
        }
        self.update_fence(line);
        let mut pending = Vec::new();
        std::mem::swap(&mut pending, &mut self.pending);
        append(&mut pending, line);
        self.pending = pending;
        if is_blank(line) && self.fence.is_none() {
            self.flush()
        } else {
            Some(Vec::new())
        }
    }

    /// Renders the pending group and empties it.
    fn flush(&mut self) -> (r: Option<Vec<char>>)
        ensures
            r matches Some(html) ==> flush_html(old(self).pending@, old(self).options) == Some(html@),
            r is None ==> flush_html(old(self).pending@, old(self).options) is None,
            final(self).pending@ == Seq::<char>::empty(),
            final(self).options == old(self).options,
            final(self).fence == old(self).fence,
            final(self).line_buffer == old(self).line_buffer,
    {
        proof {
            use_type_invariant(&*self);
        }
        if is_blank(&self.pending) {
            self.pending = Vec::new();
            return Some(Vec::new());
        }
        let r = html_of_chars(&self.pending, self.options);
        self.pending = Vec::new();
        r
    }

    fn update_fence(&mut self, line: &Vec<char>)
        ensures
            final(self).fence == fence_after(old(self).fence, line@),
            final(self).options == old(self).options,
            final(self).pending == old(self).pending,
            final(self).line_buffer == old(self).line_buffer,
    {
        proof {
            use_type_invariant(&*self);
        }
        let t = trimmed_start(line);
        if t.len() == 0 {
            return;
        }
        let marker = t[0];
        if marker != '`' && marker != '~' {
            return;
        }
        let count = scan_run(&t, 0, CharClass::Is(marker));
        if count < 3 {
            return;
        }
        match self.fence {
            None => {
                self.fence = Some(marker);
            },
            Some(open) => {
                if open == marker && all_of(&t, count, CharClass::Whitespace) {
                    self.fence = None;
                }
            },
        }
    }

    /// Finishes the stream and returns HTML for any remaining source.
    pub fn finish(self) -> (html: String)
        requires
            finish_stream(self.model()) is Some,
        ensures
            finish_stream(self.model()) == Some(html@),
    {
        let mut this = self;
        let mut out: Vec<char> = Vec::new();
        if this.line_buffer.len() > 0 {
            let line = slice(&this.line_buffer, 0, this.line_buffer.len());
            assert(line@ =~= this.line_buffer@);
            this.line_buffer = Vec::new();
            match this.push_line(&line) {
                None => {
                    assert(false);
                },
                Some(html) => {
                    append(&mut out, &html);
                },
            }
        }
        match this.flush() {
            None => {
                assert(false);
            },
            Some(html) => {
                append(&mut out, &html);
            },
        }
        to_string(&out)
    }
}

/// HTML produced so far followed by the HTML still to come.
pub open spec fn then_out(done: Seq<char>, r: Option<(StreamModel, Seq<char>)>) -> Option<
    (StreamModel, Seq<char>),
> {
    match r {
        None => None,
        Some((st, html)) => Some((st, done + html)),
    }
}

// ---------------------------------------------------------------------------
// IncrementalParser
// ---------------------------------------------------------------------------

/// Why an edit was refused.
#[derive(Debug, Clone, Copy, PartialEq, Eq)]
pub enum EditError {
    OutOfBounds,
    InvalidUtf8Boundary,
}

impl EditError {
    /// A description of the error.
    pub fn message(&self) -> (s: String)
        ensures
            s@ == match self {
                EditError::OutOfBounds => "edit range is outside the source"@,
                EditError::InvalidUtf8Boundary => "edit range does not fall on UTF-8 character boundaries"@,
            },
    {
        match self {
            EditError::OutOfBounds => to_string(&to_chars("edit range is outside the source")),
            EditError::InvalidUtf8Boundary => to_string(
                &to_chars("edit range does not fall on UTF-8 character boundaries"),
            ),
        }
    }
}

/// The source after replacing the UTF-8 byte range `start..end`: refused
/// when the range is reversed or past the end, or when an end of it is not a
/// character boundary.
pub open spec fn edited(source: Seq<char>, start: int, end: int, replacement: Seq<char>) -> Result<
    Seq<char>,
    EditError,
> {
    if start > end || end > utf8_len(source) {
        Err(EditError::OutOfBounds)
    } else {
        match (char_index(source, start), char_index(source, end)) {
            (Some(a), Some(b)) => Ok(source.take(a) + replacement + source.skip(b)),
            _ => Err(EditError::InvalidUtf8Boundary),
        }
    }
}

/// An edit works on the UTF-8 bytes of the source: it is out of bounds
/// exactly when the range is reversed or ends past the last byte, and an
/// accepted edit gives the source whose UTF-8 encoding is that of the old
/// source with the bytes `start..end` replaced by the encoding of the
/// replacement.
pub proof fn law_edit_replaces_utf8_bytes(
    source: Seq<char>,
    start: int,
    end: int,
    replacement: Seq<char>,
)
    ensures
        (edited(source, start, end, replacement) == Err::<Seq<char>, EditError>(
            EditError::OutOfBounds,
        )) <==> (start > end || end > encode_utf8(source).len()),
        edited(source, start, end, replacement) matches Ok(t) ==> encode_utf8(t) == encode_utf8(
            source,
        ).take(start) + encode_utf8(replacement) + encode_utf8(source).skip(end),
{
    law_utf8_len_is_encoding_length(source);
    if !(start > end || end > utf8_len(source)) {
        crate::text::lemma_char_index_from(source, start, 0);
        crate::text::lemma_char_index_from(source, end, 0);
        if let (Some(a), Some(b)) = (char_index(source, start), char_index(source, end)) {
            let e = encode_utf8(source);
            law_utf8_len_is_encoding_length(source.take(a));
            law_utf8_len_is_encoding_length(source.take(b));
            assert(e == encode_utf8(source.take(a)) + encode_utf8(source.skip(a)));
            assert(e == encode_utf8(source.take(b)) + encode_utf8(source.skip(b)));
            assert(e.take(start) =~= encode_utf8(source.take(a)));
            assert(e.skip(end) =~= encode_utf8(source.skip(b)));
            lemma_encode_concat(source.take(a), replacement);
            lemma_encode_concat(source.take(a) + replacement, source.skip(b));
        }
    }
}

/// An editable Markdown document that immediately refreshes its rendered HTML.
///
/// The public edit API is incremental: callers replace only the changed byte
/// range and read the refreshed HTML. The current implementation reparses the
/// affected document synchronously, leaving room for future block-level cache
/// reuse without changing consumers.
pub struct IncrementalParser {
    options: Options,
    source: String,
    html: String,
}

impl IncrementalParser {
    /// The HTML is always that of the source.
    #[verifier::type_invariant]
    closed spec fn html_matches_source(self) -> bool {
        html_of(self.source@, self.options) == Some(self.html@)
    }

    /// The source text.
    pub closed spec fn source_text(self) -> Seq<char> {
        self.source@
    }

    /// The rendered HTML.
    pub closed spec fn html_text(self) -> Seq<char> {
        self.html@
    }

    /// The parser features in use.
    pub closed spec fn options(self) -> Options {
        self.options
    }

    pub fn new(source: &str) -> (p: Self)
        requires
            parses(source@, (Options { gfm: false })),
        ensures
            p.source_text() == source@,
            p.options() == (Options { gfm: false }),
            html_of(source@, p.options()) == Some(p.html_text()),
    {
        Self::with_options(source, Options::default())
    }

    pub fn with_options(source: &str, options: Options) -> (p: Self)
        requires
            parses(source@, options),
        ensures
            p.source_text() == source@,
            p.options() == options,
            html_of(source@, options) == Some(p.html_text()),
    {
        let chars = to_chars(source);
        match html_of_chars(&chars, options) {
            Some(html) => IncrementalParser {
                options,
                source: to_string(&chars),
                html: to_string(&html),
            },
            None => {
                assert(false);
                IncrementalParser { options, source: String::new(), html: String::new() }
            },
        }
    }

    pub fn source(&self) -> (s: &str)
        ensures
            s@ == self.source_text(),
    {
        self.source.as_str()
    }

    pub fn html(&self) -> (h: &str)
        ensures
            h@ == self.html_text(),
            html_of(self.source_text(), self.options()) == Some(h@),
    {
        proof {
            use_type_invariant(self);
        }
        self.html.as_str()
    }

    /// Replaces a UTF-8 byte range and returns the refreshed HTML.
    pub fn replace(&mut self, range: std::ops::Range<usize>, replacement: &str) -> (r: Result<
        &str,
        EditError,
    >)
        requires
            edited(old(self).source_text(), range.start as int, range.end as int, replacement@) matches Ok(
                s,
            ) ==> parses(s, old(self).options()),
        ensures
            final(self).options() == old(self).options(),
            match edited(old(self).source_text(), range.start as int, range.end as int, replacement@) {
                Err(e) => r == Err::<&str, EditError>(e) && final(self).source_text() == old(
                    self,
                ).source_text() && final(self).html_text() == old(self).html_text(),
                Ok(s) => r matches Ok(h) && final(self).source_text() == s && h@
                    == final(self).html_text() && html_of(s, final(self).options()) == Some(h@),
            },
    {
        let src = to_chars(self.source.as_str());
        let total = crate::text::utf8_width(&src, src.len());
        assert(src@.take(src@.len() as int) =~= src@);
        if range.start > range.end || range.end as u128 > total {
            return Err(EditError::OutOfBounds);
        }
        let a = crate::text::byte_to_char_index(&src, range.start as u128);
        let b = crate::text::byte_to_char_index(&src, range.end as u128);
        match (a, b) {
            (Some(a), Some(b)) => {
                proof {
                    crate::text::lemma_char_index_from(src@, range.start as int, 0);
                    crate::text::lemma_char_index_from(src@, range.end as int, 0);
                    if a > b {
                        crate::text::lemma_utf8_len_mono(src@, b as int, a as int);
                    }
                }
                let mut next = slice(&src, 0, a);
                let rep = to_chars(replacement);
                append(&mut next, &rep);
                let tail = slice(&src, b, src.len());
                append(&mut next, &tail);
                assert(next@ =~= src@.take(a as int) + replacement@ + src@.skip(b as int));
                let options = self.options;
                match html_of_chars(&next, options) {
                    Some(html) => {
                        *self = IncrementalParser {
                            options,
                            source: to_string(&next),
                            html: to_string(&html),
                        };
                        Ok(self.html.as_str())
                    },
                    None => {
                        assert(false);
                        Err(EditError::OutOfBounds)
                    },
                }
            },
            _ => Err(EditError::InvalidUtf8Boundary),
        }
    }
}

impl Default for StreamParser {
    fn default() -> (p: Self)
        ensures
            p.model() == (StreamModel {
                options: Options { gfm: false },
                line_buffer: Seq::empty(),
                pending: Seq::empty(),
                fence: None,
            }),
    {
        Self::new()
    }
}

} // verus!
