//! The server-sent-events framing of a streamed chat completion: bytes are
//! cut into lines, the `data:` payloads are picked out of the lines, and the
//! decoded chunks are joined into the answer's text.
use vstd::prelude::*;

use crate::error::Error;
use crate::text::{
    chars_of, decode_lossy, is_white, lacks, lemma_trim_ends, lemma_trim_lacks, trim, trim_str,
    utf8_lossy,
};

verus! {

/// The line separator of the stream.
pub const NEWLINE: u8 = 10;

/// The pieces of `s` between newlines, as `<[u8]>::split` gives them:
/// `k` newlines give `k + 1` pieces.
pub open spec fn segments(s: Seq<u8>) -> Seq<Seq<u8>>
    decreases s.len(),
{
    if s.len() == 0 {
        seq![Seq::empty()]
    } else {
        let r = segments(s.drop_last());
        if s.last() == NEWLINE {
            r.push(Seq::empty())
        } else {
            r.update(r.len() - 1, r.last().push(s.last()))
        }
    }
}

/// One piece of the stream as text: decoded lossily and trimmed. An empty
/// piece is the empty line.
pub open spec fn line_of(g: Seq<u8>) -> Seq<char> {
    if g.len() == 0 {
        Seq::empty()
    } else {
        trim(utf8_lossy(g))
    }
}

/// The non-empty lines that the pieces `gs` give, in order.
pub open spec fn clean_lines(gs: Seq<Seq<u8>>) -> Seq<Seq<char>>
    decreases gs.len(),
{
    if gs.len() == 0 {
        Seq::empty()
    } else {
        let p = clean_lines(gs.drop_last());
        let l = line_of(gs.last());
        if l.len() > 0 {
            p.push(l)
        } else {
            p
        }
    }
}

/// The lines of the bytes `s`: the non-empty, trimmed texts between newlines.
pub open spec fn stream_lines(s: Seq<u8>) -> Seq<Seq<char>> {
    clean_lines(segments(s))
}

/// `s` is empty or ends a line.
pub open spec fn ends_line(s: Seq<u8>) -> bool {
    s.len() == 0 || s.last() == NEWLINE
}

/// The length of the longest prefix of `s` that ends a line: up to and
/// including its last newline, or 0 when it holds none.
pub open spec fn complete_len(s: Seq<u8>) -> nat
    decreases s.len(),
{
    if s.len() == 0 {
        0
    } else if s.last() == NEWLINE {
        s.len()
    } else {
        complete_len(s.drop_last())
    }
}

/// How many newlines `s` holds.
pub open spec fn count_newlines(s: Seq<u8>) -> nat
    decreases s.len(),
{
    if s.len() == 0 {
        0
    } else if s.last() == NEWLINE {
        count_newlines(s.drop_last()) + 1
    } else {
        count_newlines(s.drop_last())
    }
}

/// None of the texts holds a newline character.
pub open spec fn no_line_breaks(ls: Seq<Seq<char>>) -> bool {
    forall|i: int| 0 <= i < ls.len() ==> lacks(#[trigger] ls[i], '\n')
}

/// The text views of a sequence of strings.
pub open spec fn views(v: Seq<String>) -> Seq<Seq<char>> {
    v.map_values(|s: String| s@)
}

proof fn lemma_segments_nonempty(s: Seq<u8>)
    ensures
        segments(s).len() >= 1,
    decreases s.len(),
{
    if s.len() > 0 {
        lemma_segments_nonempty(s.drop_last());
    }
}

proof fn lemma_clean_lines_concat(a: Seq<Seq<u8>>, b: Seq<Seq<u8>>)
    ensures
        clean_lines(a + b) == clean_lines(a) + clean_lines(b),
    decreases b.len(),
{
    if b.len() == 0 {
        assert(a + b =~= a);
        assert(clean_lines(a) + clean_lines(b) =~= clean_lines(a));
    } else {
        assert((a + b).drop_last() =~= a + b.drop_last());
        assert((a + b).last() == b.last());
        lemma_clean_lines_concat(a, b.drop_last());
        let l = line_of(b.last());
        if l.len() > 0 {
            assert(clean_lines(a) + clean_lines(b.drop_last()).push(l) =~= (clean_lines(a)
                + clean_lines(b.drop_last())).push(l));
        }
    }
}

proof fn lemma_segments_concat(x: Seq<u8>, y: Seq<u8>)
    requires
        x.len() > 0,
        x.last() == NEWLINE,
    ensures
        segments(x + y) == segments(x).drop_last() + segments(y),
        segments(x).last() == Seq::<u8>::empty(),
    decreases y.len(),
{
    lemma_segments_nonempty(x.drop_last());
    if y.len() == 0 {
        assert(x + y =~= x);
        assert(segments(x).drop_last() + segments(y) =~= segments(x));
    } else {
        let y0 = y.drop_last();
        let b = y.last();
        assert((x + y).drop_last() =~= x + y0);
        assert((x + y).last() == b);
        lemma_segments_concat(x, y0);
        lemma_segments_nonempty(y0);
        let d = segments(x).drop_last();
        let s0 = segments(y0);
        if b == NEWLINE {
            assert((d + s0).push(Seq::empty()) =~= d + s0.push(Seq::empty()));
        } else {
            let r = d + s0;
            assert(r.last() == s0.last());
            assert(r.update(r.len() - 1, r.last().push(b)) =~= d + s0.update(
                s0.len() - 1,
                s0.last().push(b),
            ));
        }
    }
}

proof fn lemma_lines_empty()
    ensures
        stream_lines(Seq::empty()) == Seq::<Seq<char>>::empty(),
{
    let e = Seq::<u8>::empty();
    assert(segments(e) == seq![e]);
    assert(seq![e].drop_last() =~= Seq::<Seq<u8>>::empty());
    assert(clean_lines(Seq::<Seq<u8>>::empty()) == Seq::<Seq<char>>::empty());
    assert(line_of(e).len() == 0);
}

/// Lines do not cross a line end: the lines of `x + y` are those of `x`
/// followed by those of `y` when `x` is empty or ends with a newline.
pub proof fn lemma_lines_concat(x: Seq<u8>, y: Seq<u8>)
    requires
        ends_line(x),
    ensures
        stream_lines(x + y) == stream_lines(x) + stream_lines(y),
{
    if x.len() == 0 {
        assert(x + y =~= y);
        assert(segments(x) =~= seq![Seq::<u8>::empty()]);
        assert(x =~= Seq::<u8>::empty());
        lemma_lines_empty();
        assert(stream_lines(x) + stream_lines(y) =~= stream_lines(y));
    } else {
        lemma_segments_concat(x, y);
        lemma_segments_nonempty(x);
        let d = segments(x).drop_last();
        lemma_clean_lines_concat(d, segments(y));
        assert(segments(x) =~= d.push(Seq::empty()));
    }
}

/// Every line of the stream is non-empty and neither starts nor ends with a
/// white character.
pub proof fn law_lines_are_trimmed(s: Seq<u8>)
    ensures
        forall|k: int|
            0 <= k < stream_lines(s).len() ==> {
                let l = #[trigger] stream_lines(s)[k];
                &&& l.len() > 0
                &&& !is_white(l[0])
                &&& !is_white(l.last())
            },
{
    lemma_clean_lines_trimmed(segments(s));
}

proof fn lemma_clean_lines_trimmed(gs: Seq<Seq<u8>>)
    ensures
        forall|k: int|
            0 <= k < clean_lines(gs).len() ==> {
                let l = #[trigger] clean_lines(gs)[k];
                &&& l.len() > 0
                &&& !is_white(l[0])
                &&& !is_white(l.last())
            },
    decreases gs.len(),
{
    if gs.len() > 0 {
        lemma_clean_lines_trimmed(gs.drop_last());
        let g = gs.last();
        if g.len() > 0 {
            lemma_trim_ends(utf8_lossy(g));
        }
        let p = clean_lines(gs.drop_last());
        assert forall|k: int| 0 <= k < p.len() implies #[trigger] clean_lines(gs)[k] == p[k] by {
            if line_of(g).len() > 0 {
                assert(p.push(line_of(g))[k] == p[k]);
            }
        }
    }
}

proof fn lemma_segments_count(s: Seq<u8>)
    ensures
        segments(s).len() == count_newlines(s) + 1,
    decreases s.len(),
{
    if s.len() > 0 {
        lemma_segments_count(s.drop_last());
    }
}

proof fn lemma_clean_lines_len(gs: Seq<Seq<u8>>)
    ensures
        clean_lines(gs).len() <= gs.len(),
    decreases gs.len(),
{
    if gs.len() > 0 {
        lemma_clean_lines_len(gs.drop_last());
    }
}

/// The bytes `s` give at most one line more than they hold newlines.
pub proof fn law_line_count(s: Seq<u8>)
    ensures
        stream_lines(s).len() <= count_newlines(s) + 1,
{
    lemma_segments_count(s);
    lemma_clean_lines_len(segments(s));
}

proof fn lemma_segments_single(g: Seq<u8>)
    requires
        forall|k: int| 0 <= k < g.len() ==> g[k] != NEWLINE,
    ensures
        segments(g) == seq![g],
    decreases g.len(),
{
    if g.len() > 0 {
        let g0 = g.drop_last();
        assert forall|k: int| 0 <= k < g0.len() implies g0[k] != NEWLINE by {
            assert(g0[k] == g[k]);
        }
        lemma_segments_single(g0);
        assert(g0.push(g.last()) =~= g);
        assert(seq![g0].update(0, g0.push(g.last())) =~= seq![g]);
    } else {
        assert(g =~= Seq::<u8>::empty());
    }
}

/// Every non-empty piece between newlines yields its decoded, trimmed text
/// as a line (when that text is not blank), whatever its length and whatever
/// came before: after any complete lines `x`, the piece `g` adds exactly
/// that line, both when its newline follows and when the stream ends.
pub proof fn law_piece_becomes_line(x: Seq<u8>, g: Seq<u8>)
    requires
        ends_line(x),
        g.len() > 0,
        forall|k: int| 0 <= k < g.len() ==> g[k] != NEWLINE,
    ensures
        trim(utf8_lossy(g)).len() > 0 ==> stream_lines(x + g.push(NEWLINE)) == stream_lines(x).push(
            trim(utf8_lossy(g)),
        ) && stream_lines(x + g) == stream_lines(x).push(trim(utf8_lossy(g))),
        trim(utf8_lossy(g)).len() == 0 ==> stream_lines(x + g.push(NEWLINE)) == stream_lines(x)
            && stream_lines(x + g) == stream_lines(x),
{
    lemma_segments_single(g);
    let e = Seq::<Seq<u8>>::empty();
    assert(seq![g].drop_last() =~= e);
    assert(clean_lines(e) == Seq::<Seq<char>>::empty());
    let want: Seq<Seq<char>> = if trim(utf8_lossy(g)).len() > 0 {
        seq![trim(utf8_lossy(g))]
    } else {
        Seq::empty()
    };
    assert(stream_lines(g) =~= want);
    assert(g.push(NEWLINE).drop_last() =~= g);
    assert(segments(g.push(NEWLINE)) == seq![g].push(Seq::<u8>::empty()));
    assert(seq![g].push(Seq::<u8>::empty()).drop_last() =~= seq![g]);
    assert(stream_lines(g.push(NEWLINE)) =~= want);
    lemma_lines_concat(x, g.push(NEWLINE));
    lemma_lines_concat(x, g);
    assert(stream_lines(x) + want =~= if trim(utf8_lossy(g)).len() > 0 {
        stream_lines(x).push(trim(utf8_lossy(g)))
    } else {
        stream_lines(x)
    });
}

/// What `complete_len` cuts off: the prefix ends a line, and the rest holds no
/// newline.
pub proof fn lemma_complete_len(s: Seq<u8>)
    ensures
        complete_len(s) <= s.len(),
        ends_line(s.take(complete_len(s) as int)),
        forall|k: int| complete_len(s) <= k < s.len() ==> s[k] != NEWLINE,
    decreases s.len(),
{
    if s.len() > 0 && s.last() != NEWLINE {
        lemma_complete_len(s.drop_last());
        let c = complete_len(s) as int;
        assert(s.take(c) =~= s.drop_last().take(c));
        assert forall|k: int| c <= k < s.len() implies s[k] != NEWLINE by {
            if k < s.len() - 1 {
                assert(s[k] == s.drop_last()[k]);
            }
        }
    } else if s.len() > 0 {
        assert(s.take(s.len() as int) =~= s);
    }
}

/// Taking the complete lines first and the rest at the end of the stream
/// gives every line of the bytes, in order, none lost or split.
pub proof fn law_flush_completes(s: Seq<u8>)
    ensures
        stream_lines(s.take(complete_len(s) as int)) + stream_lines(s.skip(complete_len(s) as int))
            == stream_lines(s),
{
    let c = complete_len(s) as int;
    lemma_complete_len(s);
    lemma_lines_concat(s.take(c), s.skip(c));
    assert(s.take(c) + s.skip(c) =~= s);
}

/// The bytes of `chunks`, one after the other.
pub open spec fn concat_chunks(chunks: Seq<Seq<u8>>) -> Seq<u8>
    decreases chunks.len(),
{
    if chunks.len() == 0 {
        Seq::empty()
    } else {
        concat_chunks(chunks.drop_last()) + chunks.last()
    }
}

/// What repeatedly appending a chunk to the buffer and taking its complete
/// lines (`lines_from_chunk`) gives, from an empty buffer: the lines taken,
/// in order, and the buffer left.
pub open spec fn framed(chunks: Seq<Seq<u8>>) -> (Seq<Seq<char>>, Seq<u8>)
    decreases chunks.len(),
{
    if chunks.len() == 0 {
        (Seq::empty(), Seq::empty())
    } else {
        let (ls, buf) = framed(chunks.drop_last());
        let b = buf + chunks.last();
        let c = complete_len(b) as int;
        (ls + stream_lines(b.take(c)), b.skip(c))
    }
}

proof fn lemma_framed(chunks: Seq<Seq<u8>>)
    ensures
        ({
            let all = concat_chunks(chunks);
            let (ls, buf) = framed(chunks);
            let n = all.len() - buf.len();
            &&& buf.len() <= all.len()
            &&& ends_line(all.take(n))
            &&& all.take(n) + buf == all
            &&& ls == stream_lines(all.take(n))
            &&& forall|k: int| 0 <= k < buf.len() ==> buf[k] != NEWLINE
        }),
    decreases chunks.len(),
{
    if chunks.len() == 0 {
        lemma_lines_empty();
        assert(Seq::<u8>::empty().take(0) =~= Seq::<u8>::empty());
        assert(Seq::<u8>::empty() + Seq::<u8>::empty() =~= Seq::<u8>::empty());
    } else {
        let cs = chunks.drop_last();
        let c0 = chunks.last();
        lemma_framed(cs);
        let all0 = concat_chunks(cs);
        let (ls0, buf0) = framed(cs);
        let consumed0 = all0.take(all0.len() - buf0.len());
        let b = buf0 + c0;
        let k = complete_len(b) as int;
        lemma_complete_len(b);
        lemma_lines_concat(consumed0, b.take(k));
        let consumed = consumed0 + b.take(k);
        let all = concat_chunks(chunks);
        let buf = b.skip(k);
        assert(all =~= consumed + buf);
        assert(all.take(all.len() - buf.len()) =~= consumed);
        if b.take(k).len() > 0 {
            assert(consumed.last() == b.take(k).last());
        } else {
            assert(consumed =~= consumed0);
        }
        assert forall|j: int| 0 <= j < buf.len() implies buf[j] != NEWLINE by {
            assert(buf[j] == b[k + j]);
        }
    }
}

/// However the bytes of a stream are cut into chunks, appending each to the
/// buffer and taking its complete lines, then taking the rest at the end
/// (`lines_at_eof`), gives every line of the whole stream exactly once, in
/// order; what is left before the end is the unfinished last line.
pub proof fn law_framing_any_chunking(chunks: Seq<Seq<u8>>)
    ensures
        ({
            let all = concat_chunks(chunks);
            let (ls, buf) = framed(chunks);
            &&& ls + stream_lines(buf) == stream_lines(all)
            &&& buf == all.skip(complete_len(all) as int)
        }),
{
    lemma_framed(chunks);
    let all = concat_chunks(chunks);
    let (ls, buf) = framed(chunks);
    let consumed = all.take(all.len() - buf.len());
    lemma_lines_concat(consumed, buf);
    lemma_complete_len_of_split(consumed, buf);
}

pub(crate) proof fn lemma_complete_len_of_split(consumed: Seq<u8>, pending: Seq<u8>)
    requires
        ends_line(consumed),
        forall|k: int| 0 <= k < pending.len() ==> pending[k] != NEWLINE,
    ensures
        complete_len(consumed + pending) == consumed.len(),
        (consumed + pending).skip(consumed.len() as int) == pending,
    decreases pending.len(),
{
    if pending.len() == 0 {
        assert(consumed + pending =~= consumed);
    } else {
        let p0 = pending.drop_last();
        assert((consumed + pending).drop_last() =~= consumed + p0);
        assert((consumed + pending).last() == pending[pending.len() - 1]);
        lemma_complete_len_of_split(consumed, p0);
    }
    assert((consumed + pending).skip(consumed.len() as int) =~= pending);
}

/// The text of one piece of the stream, as `line_of` states it.
fn clean_line(g: &[u8]) -> (r: String)
    ensures
        r@ == line_of(g@),
        (forall|k: int| 0 <= k < g@.len() ==> g@[k] != NEWLINE) ==> lacks(r@, '\n'),
{
    if g.len() == 0 {
        String::new()
    } else {
        let decoded = decode_lossy(g);
        proof {
            if forall|k: int| 0 <= k < g@.len() ==> g@[k] != NEWLINE {
                lemma_trim_lacks(decoded@, '\n');
            }
        }
        trim_str(decoded.as_str())
    }
}

/// Takes the first `end` bytes out of `buffer` and returns their lines.
pub fn take_lines(buffer: &mut Vec<u8>, end: usize) -> (lines: Vec<String>)
    requires
        end <= old(buffer)@.len(),
    ensures
        views(lines@) == stream_lines(old(buffer)@.take(end as int)),
        final(buffer)@ == old(buffer)@.skip(end as int),
        no_line_breaks(views(lines@)),
        lines@.len() <= count_newlines(old(buffer)@.take(end as int)) + 1,
{
    let mut lines: Vec<String> = Vec::new();
    let ghost b = buffer@;
    let mut seg_start: usize = 0;
    let mut i: usize = 0;
    while i < end
        invariant
            b == buffer@,
            end <= b.len(),
            seg_start <= i <= end,
            segments(b.take(i as int)).len() >= 1,
            segments(b.take(i as int)).last() == b.subrange(seg_start as int, i as int),
            views(lines@) == clean_lines(segments(b.take(i as int)).drop_last()),
            no_line_breaks(views(lines@)),
            forall|k: int| seg_start <= k < i ==> b[k] != NEWLINE,
        decreases end - i,
    {
        let ghost segs = segments(b.take(i as int));
        assert(b.take(i + 1).drop_last() =~= b.take(i as int));
        assert(b.take(i + 1).last() == b[i as int]);
        if buffer[i] == NEWLINE {
            let seg = vstd::slice::slice_subrange(buffer.as_slice(), seg_start, i);
            assert forall|k: int| 0 <= k < seg@.len() implies seg@[k] != NEWLINE by {
                assert(seg@[k] == b[seg_start + k]);
            }
            let line = clean_line(seg);
            assert(segments(b.take(i + 1)) == segs.push(Seq::empty()));
            assert(segments(b.take(i + 1)).drop_last() =~= segs);
            assert(segs =~= segs.drop_last().push(segs.last()));
            if !line.as_str().is_empty() {
                let ghost before = views(lines@);
                lines.push(line);
                assert(views(lines@) =~= clean_lines(segs.drop_last()).push(line@));
                assert(views(lines@) =~= before.push(line@));
            }
            seg_start = i + 1;
            assert(b.subrange(seg_start as int, i + 1) =~= Seq::<u8>::empty());
        } else {
            assert(segments(b.take(i + 1)) == segs.update(
                segs.len() - 1,
                segs.last().push(b[i as int]),
            ));
            assert(segments(b.take(i + 1)).drop_last() =~= segs.drop_last());
            assert(b.subrange(seg_start as int, i + 1) =~= b.subrange(
                seg_start as int,
                i as int,
            ).push(b[i as int]));
        }
        i = i + 1;
    }
    let ghost segs = segments(b.take(end as int));
    let seg = vstd::slice::slice_subrange(buffer.as_slice(), seg_start, end);
    assert forall|k: int| 0 <= k < seg@.len() implies seg@[k] != NEWLINE by {
        assert(seg@[k] == b[seg_start + k]);
    }
    let line = clean_line(seg);
    assert(segs =~= segs.drop_last().push(segs.last()));
    if !line.as_str().is_empty() {
        let ghost before = views(lines@);
        lines.push(line);
        assert(views(lines@) =~= clean_lines(segs.drop_last()).push(line@));
        assert(views(lines@) =~= before.push(line@));
    }
    proof {
        law_line_count(b.take(end as int));
    }
    let mut rest = buffer.split_off(end);
    std::mem::swap(buffer, &mut rest);
    lines
}

/// Takes the complete lines (up to the last newline) out of `buffer`; a
/// partial line at its end stays there for the next chunk.
pub fn lines_from_chunk(buffer: &mut Vec<u8>) -> (lines: Vec<String>)
    ensures
        views(lines@) == stream_lines(old(buffer)@.take(complete_len(old(buffer)@) as int)),
        final(buffer)@ == old(buffer)@.skip(complete_len(old(buffer)@) as int),
        no_line_breaks(views(lines@)),
{
    let ghost b = buffer@;
    let mut j: usize = buffer.len();
    assert(b.take(j as int) =~= b);
    while j > 0 && buffer[j - 1] != NEWLINE
        invariant
            b == buffer@,
            j <= b.len(),
            complete_len(b) == complete_len(b.take(j as int)),
        decreases j,
    {
        assert(b.take(j as int).drop_last() =~= b.take(j - 1));
        j = j - 1;
    }
    if j == 0 {
        assert(b.take(0) =~= Seq::<u8>::empty());
        assert(b.skip(0) =~= b);
        proof {
            lemma_lines_empty();
        }
        let empty: Vec<String> = Vec::new();
        assert(views(empty@) =~= Seq::<Seq<char>>::empty());
        return empty;
    }
    assert(b.take(j as int).last() == NEWLINE);
    take_lines(buffer, j)
}

/// Takes every byte out of `buffer`, at the end of the stream, and returns
/// their lines: a last line without a newline is not lost.
pub fn lines_at_eof(buffer: &mut Vec<u8>) -> (lines: Vec<String>)
    ensures
        views(lines@) == stream_lines(old(buffer)@),
        final(buffer)@ == Seq::<u8>::empty(),
        no_line_breaks(views(lines@)),
        lines@.len() <= count_newlines(old(buffer)@) + 1,
{
    let end = buffer.len();
    let lines = take_lines(buffer, end);
    assert(old(buffer)@.take(end as int) =~= old(buffer)@);
    assert(buffer@ =~= Seq::<u8>::empty());
    lines
}

/// The marker that opens a payload line.
pub open spec fn data_prefix() -> Seq<char> {
    seq!['d', 'a', 't', 'a', ':']
}

/// The payload that closes the stream.
pub open spec fn done_marker() -> Seq<char> {
    seq!['[', 'D', 'O', 'N', 'E', ']']
}

/// The trimmed payload of a `data:` line; `None` for any other line (comments,
/// `event:` and `id:` fields).
pub open spec fn payload_of(line: Seq<char>) -> Option<Seq<char>> {
    if line.len() >= 5 && line.take(5) == data_prefix() {
        Some(trim(line.skip(5)))
    } else {
        None
    }
}

/// A payload that holds a chunk to decode: neither empty nor the end marker.
pub open spec fn needs_decoding(body: Seq<char>) -> bool {
    body.len() > 0 && body != done_marker()
}

/// The payloads of `lines` that hold a chunk, in order.
pub open spec fn payloads(lines: Seq<Seq<char>>) -> Seq<Seq<char>>
    decreases lines.len(),
{
    if lines.len() == 0 {
        Seq::empty()
    } else {
        let p = payloads(lines.drop_last());
        match payload_of(lines.last()) {
            Some(b) => if needs_decoding(b) {
                p.push(b)
            } else {
                p
            },
            None => p,
        }
    }
}

/// The decoder is never handed an empty payload or the end marker, and every
/// payload it is handed comes from a `data:` line, trimmed.
pub proof fn law_payloads_decodable(lines: Seq<Seq<char>>)
    ensures
        forall|k: int|
            0 <= k < payloads(lines).len() ==> {
                let p = #[trigger] payloads(lines)[k];
                &&& needs_decoding(p)
                &&& exists|j: int| 0 <= j < lines.len() && payload_of(lines[j]) == Some(p)
            },
    decreases lines.len(),
{
    if lines.len() > 0 {
        let ls = lines.drop_last();
        law_payloads_decodable(ls);
        let p = payloads(ls);
        assert forall|k: int| 0 <= k < payloads(lines).len() implies {
            let q = #[trigger] payloads(lines)[k];
            &&& needs_decoding(q)
            &&& exists|j: int| 0 <= j < lines.len() && payload_of(lines[j]) == Some(q)
        } by {
            if k < p.len() {
                let q = p[k];
                match payload_of(lines.last()) {
                    Some(b) => {
                        if needs_decoding(b) {
                            assert(payloads(lines)[k] == p.push(b)[k]);
                        }
                    },
                    None => {},
                }
                let j = choose|j: int| 0 <= j < ls.len() && payload_of(ls[j]) == Some(q);
                assert(lines[j] == ls[j]);
            } else {
                assert(payload_of(lines[lines.len() - 1]) == Some(payloads(lines)[k]));
            }
        }
    }
}

/// The payload of one line, trimmed, if the line starts with `data:`.
pub fn data_payload(line: &str) -> (r: Option<String>)
    ensures
        match r {
            Some(b) => payload_of(line@) == Some(b@),
            None => payload_of(line@) is None,
        },
{
    let v = chars_of(line);
    let n = v.len();
    if n >= 5 && v[0] == 'd' && v[1] == 'a' && v[2] == 't' && v[3] == 'a' && v[4] == ':' {
        assert(line@.take(5) =~= data_prefix());
        let rest = line.substring_char(5, n);
        assert(rest@ =~= line@.skip(5));
        Some(trim_str(rest))
    } else {
        assert(n >= 5 ==> line@.take(5)[0] == line@[0] && line@.take(5)[1] == line@[1]
            && line@.take(5)[2] == line@[2] && line@.take(5)[3] == line@[3] && line@.take(5)[4]
            == line@[4]);
        assert(n >= 5 ==> data_prefix()[0] == 'd' && data_prefix()[1] == 'a' && data_prefix()[2]
            == 't' && data_prefix()[3] == 'a' && data_prefix()[4] == ':');
        None
    }
}

/// Whether a payload holds a chunk: it is neither empty nor `[DONE]`.
pub fn payload_needs_decoding(body: &str) -> (r: bool)
    ensures
        r == needs_decoding(body@),
{
    let v = chars_of(body);
    let n = v.len();
    if n == 0 {
        false
    } else if n == 6 && v[0] == '[' && v[1] == 'D' && v[2] == 'O' && v[3] == 'N' && v[4] == 'E'
        && v[5] == ']' {
        assert(body@ =~= done_marker());
        false
    } else {
        assert(n == 6 ==> done_marker()[0] == '[' && done_marker()[1] == 'D' && done_marker()[2]
            == 'O' && done_marker()[3] == 'N' && done_marker()[4] == 'E' && done_marker()[5]
            == ']');
        assert(done_marker().len() == 6);
        true
    }
}

/// The payloads among `lines` that hold a chunk to decode, in order: the
/// trimmed text after `data:`, without empty payloads and `[DONE]`.
pub fn stream_payloads(lines: &Vec<String>) -> (r: Vec<String>)
    ensures
        views(r@) == payloads(views(lines@)),
{
    let mut r: Vec<String> = Vec::new();
    let n = lines.len();
    let mut i: usize = 0;
    while i < n
        invariant
            n == lines@.len(),
            i <= n,
            views(r@) == payloads(views(lines@).take(i as int)),
        decreases n - i,
    {
        let ghost ls = views(lines@);
        assert(ls.take(i + 1).drop_last() =~= ls.take(i as int));
        assert(ls.take(i + 1).last() == lines@[i as int]@);
        match data_payload(lines[i].as_str()) {
            Some(body) => {
                if payload_needs_decoding(body.as_str()) {
                    r.push(body);
                    assert(views(r@) =~= payloads(ls.take(i as int)).push(body@));
                }
            },
            None => {},
        }
        i = i + 1;
    }
    assert(views(lines@).take(n as int) =~= views(lines@));
    r
}

/// The token counts that a chunk may report.
#[derive(Debug)]
pub struct Usage {
    pub total_tokens: u64,
}

/// The new text of one choice.
#[derive(Debug)]
pub struct Delta {
    pub content: Option<String>,
}

/// One choice of a chunk.
#[derive(Debug)]
pub struct StreamChoice {
    pub delta: Delta,
}

/// One decoded payload of the stream.
#[derive(Debug)]
pub struct ChatStreamChunk {
    pub choices: Vec<StreamChoice>,
    pub usage: Option<Usage>,
}

/// The text that a chunk adds to the answer: the content of its first
/// choice, or nothing.
pub open spec fn chunk_text(c: ChatStreamChunk) -> Seq<char> {
    if c.choices@.len() > 0 {
        match c.choices@[0].delta.content {
            Some(s) => s@,
            None => Seq::empty(),
        }
    } else {
        Seq::empty()
    }
}

/// The text of a chunk, as `chunk_text` states it.
pub fn chunk_content(c: &ChatStreamChunk) -> (r: String)
    ensures
        r@ == chunk_text(*c),
{
    if c.choices.len() > 0 {
        match &c.choices[0].delta.content {
            Some(s) => s.clone(),
            None => String::new(),
        }
    } else {
        String::new()
    }
}

/// The answer that a sequence of decoded payloads gives: the texts of the
/// chunks joined in order, or the first decoding error.
pub open spec fn rendered(ds: Seq<Result<ChatStreamChunk, serde_json::Error>>) -> Result<
    Seq<char>,
    serde_json::Error,
>
    decreases ds.len(),
{
    if ds.len() == 0 {
        Ok(Seq::empty())
    } else {
        match rendered(ds.drop_last()) {
            Err(e) => Err(e),
            Ok(t) => match ds.last() {
                Ok(c) => Ok(t + chunk_text(c)),
                Err(e) => Err(e),
            },
        }
    }
}

proof fn lemma_rendered_err_prefix(
    ds: Seq<Result<ChatStreamChunk, serde_json::Error>>,
    i: int,
    e: serde_json::Error,
)
    requires
        0 <= i <= ds.len(),
        rendered(ds.take(i)) == Err::<Seq<char>, serde_json::Error>(e),
    ensures
        rendered(ds) == Err::<Seq<char>, serde_json::Error>(e),
    decreases ds.len() - i,
{
    if i == ds.len() {
        assert(ds.take(i) =~= ds);
    } else {
        assert(ds.take(i + 1).drop_last() =~= ds.take(i));
        lemma_rendered_err_prefix(ds, i + 1, e);
    }
}

/// A decoded chunk adds to the reply exactly the content of its first
/// choice's delta, character for character as the server sent it, and
/// nothing when there is no choice or no content.
pub proof fn law_chunk_text_verbatim(c: ChatStreamChunk)
    ensures
        c.choices@.len() > 0 ==> match c.choices@[0].delta.content {
            Some(s) => rendered(seq![Ok::<ChatStreamChunk, serde_json::Error>(c)])
                == Ok::<Seq<char>, serde_json::Error>(s@),
            None => rendered(seq![Ok::<ChatStreamChunk, serde_json::Error>(c)])
                == Ok::<Seq<char>, serde_json::Error>(Seq::empty()),
        },
        c.choices@.len() == 0 ==> rendered(seq![Ok::<ChatStreamChunk, serde_json::Error>(c)])
            == Ok::<Seq<char>, serde_json::Error>(Seq::empty()),
{
    let ds = seq![Ok::<ChatStreamChunk, serde_json::Error>(c)];
    let e = Seq::<Result<ChatStreamChunk, serde_json::Error>>::empty();
    assert(ds.drop_last() =~= e);
    assert(rendered(e) == Ok::<Seq<char>, serde_json::Error>(Seq::empty()));
    assert(ds.last() == Ok::<ChatStreamChunk, serde_json::Error>(c));
    assert(Seq::<char>::empty() + chunk_text(c) =~= chunk_text(c));
    assert(rendered(ds) == Ok::<Seq<char>, serde_json::Error>(chunk_text(c)));
}

/// How the answers of two consecutive runs of payloads combine: the first
/// error of the first run, else the first error of the second, else the two
/// texts joined.
pub open spec fn combine_rendered(
    x: Result<Seq<char>, serde_json::Error>,
    y: Result<Seq<char>, serde_json::Error>,
) -> Result<Seq<char>, serde_json::Error> {
    match x {
        Err(e) => Err(e),
        Ok(s) => match y {
            Ok(t) => Ok(s + t),
            Err(e) => Err(e),
        },
    }
}

/// Rendering is compositional: the answer of `a + b` combines the answers
/// of `a` and of `b`.
pub proof fn law_render_concat(
    a: Seq<Result<ChatStreamChunk, serde_json::Error>>,
    b: Seq<Result<ChatStreamChunk, serde_json::Error>>,
)
    ensures
        rendered(a + b) == combine_rendered(rendered(a), rendered(b)),
    decreases b.len(),
{
    if b.len() == 0 {
        assert(a + b =~= a);
        match rendered(a) {
            Ok(x) => {
                assert(x + Seq::<char>::empty() =~= x);
            },
            Err(_) => {},
        }
    } else {
        let b0 = b.drop_last();
        assert((a + b).drop_last() =~= a + b0);
        assert((a + b).last() == b.last());
        law_render_concat(a, b0);
        match (rendered(a), rendered(b0)) {
            (Ok(x), Ok(y)) => match b.last() {
                Ok(c) => {
                    assert(x + y + chunk_text(c) =~= x + (y + chunk_text(c)));
                },
                Err(_) => {},
            },
            _ => {},
        }
    }
}

/// Payload extraction is compositional: the payloads of `a + b` are those of
/// `a` followed by those of `b`.
pub proof fn law_payloads_concat(a: Seq<Seq<char>>, b: Seq<Seq<char>>)
    ensures
        payloads(a + b) == payloads(a) + payloads(b),
    decreases b.len(),
{
    if b.len() == 0 {
        assert(a + b =~= a);
        assert(payloads(a) + payloads(b) =~= payloads(a));
    } else {
        assert((a + b).drop_last() =~= a + b.drop_last());
        assert((a + b).last() == b.last());
        law_payloads_concat(a, b.drop_last());
        let p = payloads(a) + payloads(b.drop_last());
        match payload_of(b.last()) {
            Some(x) => {
                assert(p.push(x) =~= payloads(a) + payloads(b.drop_last()).push(x));
            },
            None => {},
        }
    }
}

/// Rendering lines is compositional: for any decoding of payloads, the
/// answer of the lines `a + b` combines the answers of `a` and of `b`.
pub proof fn law_render_lines_concat(
    a: Seq<Seq<char>>,
    b: Seq<Seq<char>>,
    decode: spec_fn(Seq<char>) -> Result<ChatStreamChunk, serde_json::Error>,
)
    ensures
        rendered(payloads(a + b).map_values(decode)) == combine_rendered(
            rendered(payloads(a).map_values(decode)),
            rendered(payloads(b).map_values(decode)),
        ),
{
    law_payloads_concat(a, b);
    assert(payloads(a + b).map_values(decode) =~= payloads(a).map_values(decode) + payloads(
        b,
    ).map_values(decode));
    law_render_concat(payloads(a).map_values(decode), payloads(b).map_values(decode));
}

/// Joins the texts of the decoded payloads of one piece of the stream, in
/// order; the first payload that did not decode makes it fail.
#[verifier::loop_isolation(false)]
pub fn render(mut decoded: Vec<Result<ChatStreamChunk, serde_json::Error>>) -> (r: Result<String, Error>)
    ensures
        match r {
            Ok(t) => rendered(decoded@) == Ok::<Seq<char>, serde_json::Error>(t@),
            Err(Error::Decode(e)) => rendered(decoded@) == Err::<Seq<char>, serde_json::Error>(e),
            Err(_) => false,
        },
{
    let ghost ds = decoded@;
    let mut text = String::new();
    let n = decoded.len();
    let mut i: usize = 0;
    assert(ds.take(0) =~= Seq::<Result<ChatStreamChunk, serde_json::Error>>::empty());
    while i < n
        invariant
            decoded@ == ds,
            n == ds.len(),
            i <= n,
            rendered(ds.take(i as int)) == Ok::<Seq<char>, serde_json::Error>(text@),
        decreases n - i,
    {
        assert(ds.take(i + 1).drop_last() =~= ds.take(i as int));
        assert(ds.take(i + 1).last() == ds[i as int]);
        if decoded[i].is_err() {
            let d = decoded.remove(i);
            match d {
                Err(e) => {
                    proof {
                        lemma_rendered_err_prefix(ds, i + 1, e);
                        assert(rendered(ds) == Err::<Seq<char>, serde_json::Error>(e));
                    }
                    return Err(Error::Decode(e));
                },
                Ok(_) => {
                    assert(false);
                    return Ok(text);
                },
            }
        }
        match &decoded[i] {
            Ok(c) => {
                let piece = chunk_content(c);
                text.append(piece.as_str());
            },
            Err(_) => {},
        }
        i = i + 1;
    }
    assert(ds.take(n as int) =~= ds);
    Ok(text)
}

/// The payloads to decode that a piece of the stream completes: at the end of
/// the stream every byte left in `buffer`, else its complete lines.
pub fn drain_payloads(buffer: &mut Vec<u8>, eof: bool) -> (r: Vec<String>)
    ensures
        eof ==> views(r@) == payloads(stream_lines(old(buffer)@)),
        eof ==> final(buffer)@ == Seq::<u8>::empty(),
        !eof ==> views(r@) == payloads(
            stream_lines(old(buffer)@.take(complete_len(old(buffer)@) as int)),
        ),
        !eof ==> final(buffer)@ == old(buffer)@.skip(complete_len(old(buffer)@) as int),
{
    let lines = if eof {
        lines_at_eof(buffer)
    } else {
        lines_from_chunk(buffer)
    };
    stream_payloads(&lines)
}

} // verus!
