//! The decisions of one request: whether to stream, retry or give up on the
//! server's status, how the streamed reply accumulates, and whether the token
//! budget holds.
use vstd::prelude::*;

use crate::error::Error;
use crate::render::{
    complete_len, drain_payloads, ends_line, law_payloads_concat, law_render_concat,
    lemma_complete_len, lemma_lines_concat, payloads, render, rendered, stream_lines, views,
    ChatStreamChunk,
};

verus! {

/// How many requests one turn may send at most.
pub const MAX_ATTEMPTS: u32 = 3;

/// The status a server answers with when the client is to slow down.
pub const TOO_MANY_REQUESTS: u16 = 429;

/// The pause before the second request; each later one waits as much longer.
pub const RETRY_DELAY_MS: u64 = 500;

/// A status that `reqwest::StatusCode::is_success` accepts: 200 to 299.
pub open spec fn is_success(status: u16) -> bool {
    200 <= status && status <= 299
}

/// What to do with the answer to a request.
#[derive(Clone, Copy, Debug, PartialEq, Eq, Structural)]
pub enum StatusStep {
    /// Read the streamed body.
    Stream,
    /// Send the request again after the pause.
    Retry { delay_ms: u64 },
    /// Give up with the server's status and body.
    Fail,
}

/// The step for the status that answered the `attempt`-th request (counted
/// from 1): stream on success; on 429 retry while attempts are left; else fail.
pub open spec fn status_step(status: u16, attempt: u32) -> StatusStep {
    if is_success(status) {
        StatusStep::Stream
    } else if status == TOO_MANY_REQUESTS && attempt < MAX_ATTEMPTS {
        StatusStep::Retry { delay_ms: (RETRY_DELAY_MS * attempt) as u64 }
    } else {
        StatusStep::Fail
    }
}

/// Decides what to do with the status that answered the `attempt`-th request.
pub fn on_status(status: u16, attempt: u32) -> (r: StatusStep)
    ensures
        r == status_step(status, attempt),
{
    if 200 <= status && status <= 299 {
        StatusStep::Stream
    } else if status == TOO_MANY_REQUESTS && attempt < MAX_ATTEMPTS {
        StatusStep::Retry { delay_ms: RETRY_DELAY_MS * attempt as u64 }
    } else {
        StatusStep::Fail
    }
}

/// Every success status (200 to 299) is streamed, on every attempt; 429 is
/// retried while fewer than `MAX_ATTEMPTS` requests were sent, each pause
/// longer than the one before; every other status fails the turn at once.
pub proof fn law_status_decisions(status: u16, attempt: u32, later: u32)
    ensures
        200 <= status && status <= 299 ==> status_step(status, attempt) == StatusStep::Stream,
        status == 429 && attempt < MAX_ATTEMPTS ==> status_step(status, attempt) is Retry,
        status == 429 && attempt >= MAX_ATTEMPTS ==> status_step(status, attempt)
            == StatusStep::Fail,
        !(200 <= status && status <= 299) && status != 429 ==> status_step(status, attempt)
            == StatusStep::Fail,
        status == 429 && 1 <= attempt && attempt < later && later < MAX_ATTEMPTS ==> (match (
            status_step(status, attempt),
            status_step(status, later),
        ) {
            (StatusStep::Retry { delay_ms: d1 }, StatusStep::Retry { delay_ms: d2 }) => 0 < d1
                && d1 < d2,
            _ => false,
        }),
{
    if status == 429 && 1 <= attempt && attempt < later && later < MAX_ATTEMPTS {
        assert(attempt == 1 && later == 2);
        assert(status_step(status, attempt) == StatusStep::Retry { delay_ms: 500 });
        assert(status_step(status, later) == StatusStep::Retry { delay_ms: 1000 });
    }
}

/// How many requests a turn sends when the server answers them with
/// `answers`, in order, starting at the `attempt`-th.
pub open spec fn requests_sent(answers: Seq<u16>, attempt: u32) -> nat
    decreases answers.len(),
{
    if answers.len() == 0 {
        0
    } else {
        match status_step(answers[0], attempt) {
            StatusStep::Retry { .. } => 1 + requests_sent(answers.drop_first(), (attempt + 1) as u32),
            _ => 1,
        }
    }
}

/// A turn never sends more than `MAX_ATTEMPTS` requests, whatever the server
/// answers; and a server that answers every request with 429 gets exactly
/// `MAX_ATTEMPTS` of them.
pub proof fn law_attempts_bounded(answers: Seq<u16>)
    ensures
        requests_sent(answers, 1) <= MAX_ATTEMPTS,
        answers.len() >= MAX_ATTEMPTS && (forall|k: int|
            0 <= k < answers.len() ==> answers[k] == TOO_MANY_REQUESTS) ==> requests_sent(
            answers,
            1,
        ) == MAX_ATTEMPTS,
{
    lemma_requests_bounded(answers, 1);
    if answers.len() >= MAX_ATTEMPTS && (forall|k: int|
        0 <= k < answers.len() ==> answers[k] == TOO_MANY_REQUESTS) {
        let a1 = answers.drop_first();
        let a2 = a1.drop_first();
        assert(answers[0] == TOO_MANY_REQUESTS);
        assert(a1[0] == answers[1]);
        assert(a2[0] == answers[2]);
        assert(status_step(a2[0], 3) == StatusStep::Fail);
        assert(a2.len() > 0);
        assert(requests_sent(a2, 3) == 1);
        assert(status_step(a1[0], 2) is Retry);
        assert(requests_sent(a1, 2) == 2);
        assert(status_step(answers[0], 1) is Retry);
    }
}

proof fn lemma_requests_bounded(answers: Seq<u16>, attempt: u32)
    requires
        1 <= attempt <= MAX_ATTEMPTS,
    ensures
        requests_sent(answers, attempt) <= MAX_ATTEMPTS - attempt + 1,
    decreases answers.len(),
{
    if answers.len() > 0 {
        if status_step(answers[0], attempt) is Retry {
            lemma_requests_bounded(answers.drop_first(), (attempt + 1) as u32);
        }
    }
}

/// The budget is exceeded: the server reported more tokens than it allows.
pub open spec fn over_budget(budget: Option<i32>, used: Option<u64>) -> bool {
    match (budget, used) {
        (Some(b), Some(u)) => u > b,
        _ => false,
    }
}

/// Refuses a reply whose reported token count exceeds the budget.
pub fn check_budget(budget: Option<i32>, used: Option<u64>) -> (r: Result<(), Error>)
    ensures
        r is Ok <==> !over_budget(budget, used),
        r matches Err(e) ==> e matches Error::BudgetExceeded { used: u, budget: b } && Some(u)
            == used && Some(b) == budget,
{
    match (budget, used) {
        (Some(b), Some(u)) => {
            if b < 0 || u > b as u64 {
                Err(Error::BudgetExceeded { used: u, budget: b })
            } else {
                Ok(())
            }
        },
        _ => Ok(()),
    }
}

/// The last token count that the chunks of `ds` report, else `fallback`.
pub open spec fn last_usage_or(
    ds: Seq<Result<ChatStreamChunk, serde_json::Error>>,
    fallback: Option<u64>,
) -> Option<u64>
    decreases ds.len(),
{
    if ds.len() == 0 {
        fallback
    } else {
        match ds.last() {
            Ok(c) => match c.usage {
                Some(u) => Some(u.total_tokens),
                None => last_usage_or(ds.drop_last(), fallback),
            },
            Err(_) => last_usage_or(ds.drop_last(), fallback),
        }
    }
}

/// The token count that one accepted result reports: that of its chunk's
/// usage, whatever its choices carry; none for a chunk without usage or a
/// payload that did not decode.
pub open spec fn reported_tokens(d: Result<ChatStreamChunk, serde_json::Error>) -> Option<u64> {
    match d {
        Ok(c) => match c.usage {
            Some(u) => Some(u.total_tokens),
            None => None,
        },
        Err(_) => None,
    }
}

/// The count held against the budget is that of the last result that
/// reports one, whatever else its chunk carries; with no report it is the
/// fallback.
pub proof fn law_last_report_counts(
    ds: Seq<Result<ChatStreamChunk, serde_json::Error>>,
    fallback: Option<u64>,
    k: int,
)
    ensures
        0 <= k < ds.len() && reported_tokens(ds[k]) is Some && (forall|j: int|
            k < j < ds.len() ==> reported_tokens(#[trigger] ds[j]) is None) ==> last_usage_or(
            ds,
            fallback,
        ) == reported_tokens(ds[k]),
        (forall|j: int| 0 <= j < ds.len() ==> reported_tokens(#[trigger] ds[j]) is None)
            ==> last_usage_or(ds, fallback) == fallback,
    decreases ds.len(),
{
    if ds.len() > 0 {
        let d0 = ds.drop_last();
        law_last_report_counts(d0, fallback, k);
        if 0 <= k < ds.len() - 1 && reported_tokens(ds[k]) is Some && (forall|j: int|
            k < j < ds.len() ==> reported_tokens(#[trigger] ds[j]) is None) {
            assert(reported_tokens(ds[ds.len() - 1]) is None);
            assert(d0[k] == ds[k]);
            assert forall|j: int| k < j < d0.len() implies reported_tokens(#[trigger] d0[j])
                is None by {
                assert(d0[j] == ds[j]);
            }
        }
        if forall|j: int| 0 <= j < ds.len() ==> reported_tokens(#[trigger] ds[j]) is None {
            assert(reported_tokens(ds[ds.len() - 1]) is None);
            assert forall|j: int| 0 <= j < d0.len() implies reported_tokens(#[trigger] d0[j])
                is None by {
                assert(d0[j] == ds[j]);
            }
        }
    }
}

proof fn lemma_last_usage_concat(
    a: Seq<Result<ChatStreamChunk, serde_json::Error>>,
    b: Seq<Result<ChatStreamChunk, serde_json::Error>>,
    f: Option<u64>,
)
    ensures
        last_usage_or(a + b, f) == last_usage_or(b, last_usage_or(a, f)),
    decreases b.len(),
{
    if b.len() == 0 {
        assert(a + b =~= a);
    } else {
        assert((a + b).drop_last() =~= a + b.drop_last());
        assert((a + b).last() == b.last());
        lemma_last_usage_concat(a, b.drop_last(), f);
    }
}

/// Chunking does not change the payloads: whatever bytes were handed out
/// before (`consumed`, up to a line end), the payloads of the complete lines of
/// `pending + chunk`, appended to those of `consumed`, are the payloads of all
/// bytes up to that point; and what stays pending still ends no line.
pub proof fn law_chunking(consumed: Seq<u8>, pending: Seq<u8>, chunk: Seq<u8>)
    requires
        ends_line(consumed),
    ensures
        ({
            let b = pending + chunk;
            let c = complete_len(b) as int;
            &&& ends_line(consumed + b.take(c))
            &&& payloads(stream_lines(consumed)) + payloads(stream_lines(b.take(c))) == payloads(
                stream_lines(consumed + b.take(c)),
            )
            &&& (consumed + b.take(c)) + b.skip(c) == consumed + pending + chunk
        }),
        payloads(stream_lines(consumed)) + payloads(stream_lines(pending)) == payloads(
            stream_lines(consumed + pending),
        ),
{
    let b = pending + chunk;
    let c = complete_len(b) as int;
    lemma_complete_len(b);
    lemma_lines_concat(consumed, b.take(c));
    law_payloads_concat(stream_lines(consumed), stream_lines(b.take(c)));
    lemma_lines_concat(consumed, pending);
    law_payloads_concat(stream_lines(consumed), stream_lines(pending));
    if b.take(c).len() > 0 {
        assert((consumed + b.take(c)).last() == b.take(c).last());
    } else {
        assert(consumed + b.take(c) =~= consumed);
    }
    assert((consumed + b.take(c)) + b.skip(c) =~= consumed + pending + chunk);
}

/// The state of one streamed reply: the bytes of an unfinished line, the text
/// so far, and the last token count the server reported.
pub struct StreamState {
    buffer: Vec<u8>,
    answer: String,
    used: Option<u64>,
    fed: Ghost<Seq<u8>>,
    consumed: Ghost<Seq<u8>>,
    accepted: Ghost<Seq<Result<ChatStreamChunk, serde_json::Error>>>,
    paid: Ghost<Seq<Seq<char>>>,
    finished: Ghost<bool>,
}

impl StreamState {
    /// Every byte received so far.
    pub closed spec fn fed(&self) -> Seq<u8> {
        self.fed@
    }

    /// The bytes of an unfinished line, kept for the next piece.
    pub closed spec fn pending(&self) -> Seq<u8> {
        self.buffer@
    }

    /// Every payload handed out so far.
    pub closed spec fn handed(&self) -> Seq<Seq<char>> {
        payloads(stream_lines(self.consumed@))
    }

    /// Every decoded payload accepted so far.
    pub closed spec fn accepted(&self) -> Seq<Result<ChatStreamChunk, serde_json::Error>> {
        self.accepted@
    }

    /// The payloads whose decoded forms have been accepted, in order: the
    /// `i`-th accepted result is the decoding of the `i`-th of them.
    pub closed spec fn paid(&self) -> Seq<Seq<char>> {
        self.paid@
    }

    /// The payloads handed out whose decoded forms are still to be accepted.
    pub closed spec fn awaiting(&self) -> Seq<Seq<char>> {
        self.handed().skip(self.paid@.len() as int)
    }

    /// The end of the body has been taken.
    pub closed spec fn finished(&self) -> bool {
        self.finished@
    }

    /// The text of the reply so far.
    pub closed spec fn answer(&self) -> Seq<char> {
        self.answer@
    }

    /// The last token count the server reported.
    pub closed spec fn used(&self) -> Option<u64> {
        self.used
    }

    /// The state is consistent: the bytes received are those handed out
    /// (ending a line) followed by the pending ones; the text is what the
    /// accepted chunks render to; the token count is their last report; the
    /// accepted results answer a prefix of the payloads handed out, one each.
    pub closed spec fn wf(&self) -> bool {
        &&& self.fed@ == self.consumed@ + self.buffer@
        &&& (!self.finished@ ==> ends_line(self.consumed@))
        &&& (self.finished@ ==> self.buffer@.len() == 0)
        &&& self.paid@.len() == self.accepted@.len()
        &&& self.paid@.len() <= self.handed().len()
        &&& self.paid@ == self.handed().take(self.paid@.len() as int)
        &&& rendered(self.accepted@) == Ok::<Seq<char>, serde_json::Error>(self.answer@)
        &&& self.used == last_usage_or(self.accepted@, None)
    }

    /// The state before the first byte.
    pub fn new() -> (s: Self)
        ensures
            s.wf(),
            s.fed() == Seq::<u8>::empty(),
            s.pending() == Seq::<u8>::empty(),
            s.handed() == Seq::<Seq<char>>::empty(),
            s.accepted() == Seq::<Result<ChatStreamChunk, serde_json::Error>>::empty(),
            s.answer() == Seq::<char>::empty(),
            s.used() == None::<u64>,
            s.paid() == Seq::<Seq<char>>::empty(),
            s.awaiting() == Seq::<Seq<char>>::empty(),
            !s.finished(),
    {
        let s = StreamState {
            buffer: Vec::new(),
            answer: String::new(),
            used: None,
            fed: Ghost(Seq::empty()),
            consumed: Ghost(Seq::empty()),
            accepted: Ghost(Seq::empty()),
            paid: Ghost(Seq::empty()),
            finished: Ghost(false),
        };
        proof {
            lemma_payloads_empty();
            assert(s.consumed@ + s.buffer@ =~= Seq::<u8>::empty());
            assert(s.handed().take(0) =~= Seq::<Seq<char>>::empty());
            assert(s.handed().skip(0) =~= Seq::<Seq<char>>::empty());
        }
        s
    }

    /// Takes a piece of the body; returns the payloads of the lines it
    /// completes, in order.
    pub fn feed(&mut self, bytes: &[u8]) -> (r: Vec<String>)
        requires
            old(self).wf(),
            !old(self).finished(),
            old(self).awaiting().len() == 0,
        ensures
            final(self).awaiting() == views(r@),
            final(self).paid() == old(self).paid(),
            final(self).wf(),
            !final(self).finished(),
            final(self).fed() == old(self).fed() + bytes@,
            final(self).handed() == old(self).handed() + views(r@),
            final(self).handed() + payloads(stream_lines(final(self).pending())) == payloads(
                stream_lines(final(self).fed()),
            ),
            final(self).pending() == final(self).fed().skip(
                complete_len(final(self).fed()) as int,
            ),
            final(self).accepted() == old(self).accepted(),
            final(self).answer() == old(self).answer(),
            final(self).used() == old(self).used(),
    {
        let ghost pending = self.buffer@;
        let n = bytes.len();
        let mut piece: Vec<u8> = Vec::new();
        let mut i: usize = 0;
        while i < n
            invariant
                n == bytes@.len(),
                i <= n,
                piece@ == bytes@.take(i as int),
            decreases n - i,
        {
            piece.push(bytes[i]);
            assert(bytes@.take(i + 1) =~= bytes@.take(i as int).push(bytes@[i as int]));
            i = i + 1;
        }
        self.buffer.append(&mut piece);
        assert(bytes@.take(n as int) =~= bytes@);
        let ghost b = self.buffer@;
        let r = drain_payloads(&mut self.buffer, false);
        proof {
            let c = complete_len(b) as int;
            law_chunking(self.consumed@, pending, bytes@);
            lemma_complete_len(b);
            self.consumed@ = self.consumed@ + b.take(c);
            self.fed@ = self.fed@ + bytes@;
            assert(self.fed@ =~= self.consumed@ + self.buffer@);
            law_chunking(self.consumed@, self.buffer@, Seq::empty());
            assert forall|k: int| 0 <= k < self.buffer@.len() implies self.buffer@[k]
                != crate::render::NEWLINE by {
                assert(self.buffer@[k] == b[c + k]);
            }
            crate::render::lemma_complete_len_of_split(self.consumed@, self.buffer@);
            let h = self.handed();
            assert(h.take(self.paid@.len() as int) =~= self.paid@);
            assert(h.skip(self.paid@.len() as int) =~= views(r@));
        }
        r
    }

    /// Takes the end of the body; returns the payloads of the last line, if
    /// it had no newline. Afterwards every byte received has been handed out.
    pub fn finish(&mut self) -> (r: Vec<String>)
        requires
            old(self).wf(),
            !old(self).finished(),
            old(self).awaiting().len() == 0,
        ensures
            final(self).awaiting() == views(r@),
            final(self).paid() == old(self).paid(),
            final(self).wf(),
            final(self).finished(),
            final(self).fed() == old(self).fed(),
            final(self).pending() == Seq::<u8>::empty(),
            final(self).handed() == old(self).handed() + views(r@),
            final(self).handed() == payloads(stream_lines(final(self).fed())),
            final(self).accepted() == old(self).accepted(),
            final(self).answer() == old(self).answer(),
            final(self).used() == old(self).used(),
    {
        let ghost b = self.buffer@;
        let r = drain_payloads(&mut self.buffer, true);
        proof {
            law_chunking(self.consumed@, b, Seq::empty());
            assert(b + Seq::<u8>::empty() =~= b);
            self.consumed@ = self.consumed@ + b;
            self.finished@ = true;
            assert(self.fed@ =~= self.consumed@ + self.buffer@);
            let h = self.handed();
            assert(h.take(self.paid@.len() as int) =~= self.paid@);
            assert(h.skip(self.paid@.len() as int) =~= views(r@));
        }
        r
    }

    /// Takes the decoded payloads of one piece; returns their text and adds it
    /// to the reply. A payload that did not decode fails the reply and leaves
    /// the state as it was.
    #[verifier::loop_isolation(false)]
    pub fn accept(&mut self, decoded: Vec<Result<ChatStreamChunk, serde_json::Error>>) -> (r:
        Result<String, Error>)
        requires
            old(self).wf(),
            decoded@.len() == old(self).awaiting().len(),
        ensures
            final(self).wf(),
            final(self).finished() == old(self).finished(),
            final(self).fed() == old(self).fed(),
            final(self).pending() == old(self).pending(),
            final(self).handed() == old(self).handed(),
            match r {
                Ok(t) => {
                    &&& rendered(decoded@) == Ok::<Seq<char>, serde_json::Error>(t@)
                    &&& final(self).answer() == old(self).answer() + t@
                    &&& final(self).accepted() == old(self).accepted() + decoded@
                    &&& final(self).paid() == old(self).paid() + old(self).awaiting()
                    &&& final(self).awaiting() == Seq::<Seq<char>>::empty()
                    &&& final(self).used() == last_usage_or(decoded@, old(self).used())
                },
                Err(Error::Decode(e)) => {
                    &&& rendered(decoded@) == Err::<Seq<char>, serde_json::Error>(e)
                    &&& final(self).answer() == old(self).answer()
                    &&& final(self).accepted() == old(self).accepted()
                    &&& final(self).paid() == old(self).paid()
                    &&& final(self).used() == old(self).used()
                },
                Err(_) => false,
            },
    {
        let ghost ds = decoded@;
        let mut used = self.used;
        let n = decoded.len();
        let mut i: usize = 0;
        while i < n
            invariant
                n == ds.len(),
                decoded@ == ds,
                i <= n,
                used == last_usage_or(ds.take(i as int), self.used),
            decreases n - i,
        {
            assert(ds.take(i + 1).drop_last() =~= ds.take(i as int));
            assert(ds.take(i + 1).last() == ds[i as int]);
            match &decoded[i] {
                Ok(c) => match &c.usage {
                    Some(u) => {
                        used = Some(u.total_tokens);
                    },
                    None => {},
                },
                Err(_) => {},
            }
            i = i + 1;
        }
        assert(ds.take(n as int) =~= ds);
        match render(decoded) {
            Ok(t) => {
                proof {
                    law_render_concat(self.accepted@, ds);
                    lemma_last_usage_concat(self.accepted@, ds, None);
                    let h = self.handed();
                    let aw = h.skip(self.paid@.len() as int);
                    self.accepted@ = self.accepted@ + ds;
                    self.paid@ = self.paid@ + aw;
                    assert(self.paid@ =~= h);
                    assert(h.take(h.len() as int) =~= h);
                    assert(h.skip(h.len() as int) =~= Seq::<Seq<char>>::empty());
                }
                self.answer.append(t.as_str());
                self.used = used;
                Ok(t)
            },
            Err(e) => Err(e),
        }
    }

    /// The whole reply, once the body has ended; refused when the server
    /// reported more tokens than the budget allows.
    pub fn into_answer(self, budget: Option<i32>) -> (r: Result<String, Error>)
        requires
            self.wf(),
        ensures
            r is Ok <==> !over_budget(budget, self.used()),
            r matches Ok(t) ==> t@ == self.answer(),
            r matches Ok(t) ==> rendered(self.accepted()) == Ok::<Seq<char>, serde_json::Error>(
                t@,
            ),
            self.accepted().len() == self.paid().len(),
            self.finished() && self.awaiting().len() == 0 ==> self.paid() == payloads(
                stream_lines(self.fed()),
            ),
            r matches Err(e) ==> e matches Error::BudgetExceeded { used: u, budget: b } && Some(u)
                == self.used() && Some(b) == budget,
    {
        proof {
            if self.finished@ && self.awaiting().len() == 0 {
                assert(self.consumed@ =~= self.fed@);
                assert(self.handed().take(self.handed().len() as int) =~= self.handed());
            }
        }
        match check_budget(budget, self.used) {
            Ok(()) => Ok(self.answer),
            Err(e) => Err(e),
        }
    }
}

/// The budget is held against the count of the last accepted chunk that
/// reports a usage, whatever choices or content that chunk carries; with no
/// report, nothing is counted.
pub proof fn law_budget_counts_last_report(s: StreamState, k: int)
    requires
        s.wf(),
    ensures
        0 <= k < s.accepted().len() && reported_tokens(s.accepted()[k]) is Some && (forall|j: int|
            k < j < s.accepted().len() ==> reported_tokens(#[trigger] s.accepted()[j]) is None)
            ==> s.used() == reported_tokens(s.accepted()[k]),
        (forall|j: int|
            0 <= j < s.accepted().len() ==> reported_tokens(#[trigger] s.accepted()[j]) is None)
            ==> s.used() is None,
{
    law_last_report_counts(s.accepted(), None, k);
}

/// The reply does not depend on how the body was cut into pieces: two
/// finished streams of the same bytes, whose accepted results are one
/// decoding function applied to the payloads they were handed, have the
/// same answer, namely the rendering of that function over the payloads of
/// the whole body.
pub proof fn law_reply_independent_of_chunking(
    s1: StreamState,
    s2: StreamState,
    decode: spec_fn(Seq<char>) -> Result<ChatStreamChunk, serde_json::Error>,
)
    requires
        s1.wf(),
        s2.wf(),
        s1.finished(),
        s2.finished(),
        s1.awaiting().len() == 0,
        s2.awaiting().len() == 0,
        s1.fed() == s2.fed(),
        forall|i: int| 0 <= i < s1.accepted().len() ==> s1.accepted()[i] == decode(s1.paid()[i]),
        forall|i: int| 0 <= i < s2.accepted().len() ==> s2.accepted()[i] == decode(s2.paid()[i]),
    ensures
        s1.answer() == s2.answer(),
        rendered(payloads(stream_lines(s1.fed())).map_values(decode)) == Ok::<
            Seq<char>,
            serde_json::Error,
        >(s1.answer()),
{
    let all = payloads(stream_lines(s1.fed()));
    assert(s1.consumed@ =~= s1.fed@);
    assert(s2.consumed@ =~= s2.fed@);
    assert(s1.handed().take(s1.handed().len() as int) =~= s1.handed());
    assert(s2.handed().take(s2.handed().len() as int) =~= s2.handed());
    assert(s1.accepted() =~= all.map_values(decode));
    assert(s2.accepted() =~= all.map_values(decode));
}

proof fn lemma_payloads_empty()
    ensures
        payloads(stream_lines(Seq::empty())) == Seq::<Seq<char>>::empty(),
{
    lemma_lines_concat(Seq::empty(), Seq::empty());
    assert(Seq::<u8>::empty() + Seq::<u8>::empty() =~= Seq::<u8>::empty());
    assert(stream_lines(Seq::empty()) == Seq::<Seq<char>>::empty());
}

} // verus!
