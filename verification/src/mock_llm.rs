//! Mock LLM driver for benchmarking without API keys: pre-scripted responses
//! handed out in turn, cycling when all have been used.

use vstd::prelude::*;
use std::collections::VecDeque;
use std::time::Duration;
use serde_json::Value;
use crate::buffer_model::{wrap_add, lemma_wrapping_add_is_wrap};
use crate::clock::{millis_duration, duration_from_millis};

verus! {

/// `serde_json::Value` is carried through opaquely.
#[verifier::external_type_specification]
#[verifier::external_body]
pub struct ExJsonValue(Value);

/// `<Value as Clone>::clone`: a deep copy, equal to the original.
pub assume_specification [<serde_json::Value as std::clone::Clone>::clone] (v: &Value) -> (r: Value)
    ensures
        r == *v,
;

/// A mock tool call from the LLM.
#[derive(Debug, Clone)]
pub struct MockToolCall {
    pub name: String,
    pub input: Value,
}

/// A pre-scripted LLM response.
#[derive(Debug, Clone)]
pub struct MockResponse {
    pub text: String,
    pub tool_calls: Vec<MockToolCall>,
    pub input_tokens: u32,
    pub output_tokens: u32,
}

/// Two responses carry the same text, tool calls and token counts.
pub open spec fn same_response(a: MockResponse, b: MockResponse) -> bool {
    &&& a.text == b.text
    &&& a.tool_calls@ == b.tool_calls@
    &&& a.input_tokens == b.input_tokens
    &&& a.output_tokens == b.output_tokens
}

impl MockToolCall {
    /// A copy of the tool call.
    pub fn duplicate(&self) -> (r: Self)
        ensures
            r == *self,
    {
        MockToolCall { name: self.name.clone(), input: self.input.clone() }
    }
}

impl MockResponse {
    /// A copy of the response.
    pub fn duplicate(&self) -> (r: Self)
        ensures
            same_response(r, *self),
    {
        let mut calls: Vec<MockToolCall> = Vec::new();
        let mut i: usize = 0;
        while i < self.tool_calls.len()
            invariant
                i <= self.tool_calls.len(),
                calls@ == self.tool_calls@.take(i as int),
            decreases self.tool_calls.len() - i,
        {
            calls.push(self.tool_calls[i].duplicate());
            i = i + 1;
            assert(calls@ =~= self.tool_calls@.take(i as int));
        }
        assert(self.tool_calls@.take(self.tool_calls.len() as int) =~= self.tool_calls@);
        MockResponse {
            text: self.text.clone(),
            tool_calls: calls,
            input_tokens: self.input_tokens,
            output_tokens: self.output_tokens,
        }
    }
}

/// Mock LLM driver that returns pre-scripted responses.
pub struct MockLlmDriver {
    responses: VecDeque<MockResponse>,
    latency: Duration,
    calls_made: u64,
}

/// The response handed out when no response is configured.
pub open spec fn is_fallback_response(r: MockResponse) -> bool {
    &&& r.text@ == "Mock response (no responses configured)"@
    &&& r.tool_calls@.len() == 0
    &&& r.input_tokens == 10
    &&& r.output_tokens == 10
}

/// One call on a queue of scripted responses: the first response is handed
/// out and queued again (as a copy) at the end; an empty queue stays empty
/// and the fallback response is handed out.
pub open spec fn turn(before: Seq<MockResponse>, after: Seq<MockResponse>, r: MockResponse) -> bool {
    &&& before.len() > 0 ==> {
        &&& r == before[0]
        &&& after.len() == before.len()
        &&& after.drop_last() == before.drop_first()
        &&& same_response(after.last(), r)
    }
    &&& before.len() == 0 ==> is_fallback_response(r) && after.len() == 0
}

impl MockLlmDriver {
    /// The responses still to come, in order.
    pub closed spec fn queue(&self) -> Seq<MockResponse> {
        self.responses@
    }

    /// The simulated latency of one call.
    pub closed spec fn latency_spec(&self) -> Duration {
        self.latency
    }

    /// The number of calls made so far.
    pub closed spec fn calls(&self) -> u64 {
        self.calls_made
    }

    /// Create a driver that returns one text-only response.
    pub fn text_only(text: &str, latency: Duration) -> (r: Self)
        ensures
            r.queue().len() == 1,
            r.queue()[0].text@ == text@,
            r.queue()[0].tool_calls@.len() == 0,
            r.queue()[0].input_tokens == 100,
            r.queue()[0].output_tokens == 50,
            r.latency_spec() == latency,
            r.calls() == 0,
    {
        let mut queue: VecDeque<MockResponse> = VecDeque::new();
        queue.push_back(MockResponse {
            text: text.to_owned(),
            tool_calls: Vec::new(),
            input_tokens: 100,
            output_tokens: 50,
        });
        MockLlmDriver { responses: queue, latency, calls_made: 0 }
    }

    /// Create a driver with a sequence of responses (cycles when exhausted).
    pub fn with_responses(responses: Vec<MockResponse>, latency: Duration) -> (r: Self)
        ensures
            r.queue() == responses@,
            r.latency_spec() == latency,
            r.calls() == 0,
    {
        let mut queue: VecDeque<MockResponse> = VecDeque::new();
        let mut rest = responses;
        let ghost all = rest@;
        // Move the responses over in order.
        assert(queue@ + rest@ =~= all);
        while rest.len() > 0
            invariant
                queue@ + rest@ == all,
            decreases rest.len(),
        {
            let ghost before = rest@;
            let r = rest.remove(0);
            queue.push_back(r);
            assert(queue@ + rest@ =~= all) by {
                assert(before =~= seq![r] + rest@);
            }
        }
        assert(queue@ =~= all);
        MockLlmDriver { responses: queue, latency, calls_made: 0 }
    }

    /// Create a driver that first returns a tool call, then a text response.
    pub fn single_tool_then_text(tool_name: &str, tool_input: Value, final_text: &str) -> (r: Self)
        ensures
            r.queue().len() == 2,
            r.queue()[0].text@.len() == 0,
            r.queue()[0].tool_calls@.len() == 1,
            r.queue()[0].tool_calls@[0].name@ == tool_name@,
            r.queue()[0].tool_calls@[0].input == tool_input,
            r.queue()[0].input_tokens == 150,
            r.queue()[0].output_tokens == 30,
            r.queue()[1].text@ == final_text@,
            r.queue()[1].tool_calls@.len() == 0,
            r.queue()[1].input_tokens == 200,
            r.queue()[1].output_tokens == 50,
            r.latency_spec() == millis_duration(50),
            r.calls() == 0,
    {
        let mut calls: Vec<MockToolCall> = Vec::new();
        calls.push(MockToolCall { name: tool_name.to_owned(), input: tool_input });
        let mut responses: Vec<MockResponse> = Vec::new();
        responses.push(MockResponse { text: String::new(), tool_calls: calls, input_tokens: 150, output_tokens: 30 });
        responses.push(MockResponse {
            text: final_text.to_owned(),
            tool_calls: Vec::new(),
            input_tokens: 200,
            output_tokens: 50,
        });
        Self::with_responses(responses, duration_from_millis(50))
    }

    /// Create a driver that returns several tool calls at once, then a text
    /// response.
    pub fn parallel_tools(tools: Vec<(String, Value)>, final_text: &str) -> (r: Self)
        ensures
            r.queue().len() == 2,
            r.queue()[0].text@.len() == 0,
            r.queue()[0].tool_calls@.len() == tools@.len(),
            forall|i: int| 0 <= i < tools@.len() ==> (#[trigger] r.queue()[0].tool_calls@[i]).name == tools@[i].0
                && r.queue()[0].tool_calls@[i].input == tools@[i].1,
            r.queue()[0].input_tokens == 200,
            r.queue()[0].output_tokens == 80,
            r.queue()[1].text@ == final_text@,
            r.queue()[1].tool_calls@.len() == 0,
            r.queue()[1].input_tokens == 300,
            r.queue()[1].output_tokens == 50,
            r.latency_spec() == millis_duration(50),
            r.calls() == 0,
    {
        let ghost all = tools@;
        let mut rest = tools;
        let mut calls: Vec<MockToolCall> = Vec::new();
        while rest.len() > 0
            invariant
                calls@.len() + rest@.len() == all.len(),
                forall|i: int| 0 <= i < calls@.len() ==> (#[trigger] calls@[i]).name == all[i].0
                    && calls@[i].input == all[i].1,
                forall|i: int| 0 <= i < rest@.len() ==> #[trigger] rest@[i] == all[calls@.len() + i],
            decreases rest.len(),
        {
            let ghost before = rest@;
            let (name, input) = rest.remove(0);
            calls.push(MockToolCall { name, input });
            assert forall|i: int| 0 <= i < rest@.len() implies #[trigger] rest@[i] == all[calls@.len() + i] by {
                assert(rest@[i] == before[i + 1]);
            }
        }
        let mut responses: Vec<MockResponse> = Vec::new();
        responses.push(MockResponse { text: String::new(), tool_calls: calls, input_tokens: 200, output_tokens: 80 });
        responses.push(MockResponse {
            text: final_text.to_owned(),
            tool_calls: Vec::new(),
            input_tokens: 300,
            output_tokens: 50,
        });
        Self::with_responses(responses, duration_from_millis(50))
    }

    /// Hand out the next response (what a completion call returns after its
    /// simulated latency): the first queued response, which is also queued
    /// again at the end; without any configured response, a fixed fallback.
    pub fn next_response(&mut self) -> (r: MockResponse)
        ensures
            final(self).calls() == wrap_add(old(self).calls(), 1),
            final(self).latency_spec() == old(self).latency_spec(),
            turn(old(self).queue(), final(self).queue(), r),
    {
        proof {
            lemma_wrapping_add_is_wrap(self.calls_made, 1);
        }
        self.calls_made = self.calls_made.wrapping_add(1);
        match self.responses.pop_front() {
            Some(response) => {
                let again = response.duplicate();
                let ghost rest = self.responses@;
                self.responses.push_back(again);
                assert(self.responses@.drop_last() =~= rest);
                response
            },
            None => {
                proof {
                    reveal_strlit("Mock response (no responses configured)");
                }
                MockResponse {
                    text: "Mock response (no responses configured)".to_owned(),
                    tool_calls: Vec::new(),
                    input_tokens: 10,
                    output_tokens: 10,
                }
            },
        }
    }

    /// The simulated latency of one call.
    pub fn latency(&self) -> (r: Duration)
        ensures
            r == self.latency_spec(),
    {
        self.latency
    }

    /// Number of calls made so far.
    pub fn calls_made(&self) -> (r: u64)
        ensures
            r == self.calls(),
    {
        self.calls_made
    }
}

} // verus!

verus! {

/// Two response sequences agree response by response (up to copies).
pub open spec fn same_responses(a: Seq<MockResponse>, b: Seq<MockResponse>) -> bool {
    &&& a.len() == b.len()
    &&& forall|i: int| 0 <= i < a.len() ==> same_response(#[trigger] a[i], b[i])
}

/// The scripted responses after `k` turns: rotated left by `k` places.
pub open spec fn rotation(script: Seq<MockResponse>, k: nat) -> Seq<MockResponse>
    recommends
        script.len() > 0,
{
    let j = (k % script.len()) as int;
    script.subrange(j, script.len() as int) + script.subrange(0, j)
}

/// Scripted responses are handed out in turn and cycle when exhausted: when
/// the queue before a call holds the script rotated by `k`, the call hands
/// out script response `k mod n` and leaves the script rotated by `k + 1`
/// (`turn` is what `next_response` ensures of a call).
pub proof fn law_responses_cycle(
    script: Seq<MockResponse>,
    k: nat,
    before: Seq<MockResponse>,
    after: Seq<MockResponse>,
    r: MockResponse,
)
    requires
        script.len() > 0,
        same_responses(before, rotation(script, k)),
        turn(before, after, r),
    ensures
        same_response(r, script[(k % script.len()) as int]),
        same_responses(after, rotation(script, k + 1)),
{
    let n = script.len() as int;
    let j = (k % script.len()) as int;
    let rot = rotation(script, k);
    let next = rotation(script, k + 1);
    assert(rot[0] == script[j]);
    assert(same_response(before[0], rot[0]));
    vstd::arithmetic::div_mod::lemma_fundamental_div_mod(k as int, n);
    vstd::arithmetic::div_mod::lemma_mod_multiples_vanish(k as int / n, j + 1, n);
    assert(k + 1 == n * (k as int / n) + (j + 1));
    if j + 1 < n {
        vstd::arithmetic::div_mod::lemma_small_mod((j + 1) as nat, n as nat);
        assert(((k + 1) % script.len()) as int == j + 1);
    } else {
        vstd::arithmetic::div_mod::lemma_mod_self_0(n);
        assert(((k + 1) % script.len()) as int == 0);
    }
    assert forall|i: int| 0 <= i < after.len() implies same_response(#[trigger] after[i], next[i]) by {
        if i < after.len() - 1 {
            assert(after[i] == after.drop_last()[i]);
            assert(after[i] == before[i + 1]);
            assert(same_response(before[i + 1], rot[i + 1]));
            if j + 1 < n {
                if i + 1 < n - j {
                    assert(rot[i + 1] == script[j + i + 1]);
                    assert(next[i] == script[j + 1 + i]);
                } else {
                    assert(rot[i + 1] == script[i + 1 - (n - j)]);
                    assert(next[i] == script[i - (n - (j + 1))]);
                }
            } else {
                assert(rot[i + 1] == script[i]);
                assert(next[i] == script[i]);
            }
        } else {
            assert(after[i] == after.last());
            if j + 1 < n {
                assert(next[i] == script[i - (n - (j + 1))]);
                assert(next[i] == script[j]);
            } else {
                assert(next[i] == script[i]);
                assert(next[i] == script[j]);
            }
        }
    }
}


/// Over a run of calls on a driver made with the responses `script`
/// (`queues[j]` is the queue before call `j`, `outs[j]` what call `j`
/// handed out, `counts[j]` the calls made before call `j`): call `i` hands
/// out script response `i mod n`, or the fallback response when the script
/// is empty, and `i + 1` calls have then been counted (modulo 2^64).
pub proof fn law_calls_cycle_through_script(
    script: Seq<MockResponse>,
    queues: Seq<Seq<MockResponse>>,
    outs: Seq<MockResponse>,
    counts: Seq<u64>,
    i: int,
)
    requires
        queues.len() == outs.len() + 1,
        counts.len() == queues.len(),
        queues[0] == script,
        counts[0] == 0,
        forall|j: int| 0 <= j < outs.len() ==> turn(queues[j], queues[j + 1], #[trigger] outs[j]),
        forall|j: int| 0 <= j < outs.len() ==> #[trigger] counts[j + 1] == wrap_add(counts[j], 1),
        0 <= i < outs.len(),
    ensures
        script.len() > 0 ==> same_response(outs[i], script[i % (script.len() as int)]),
        script.len() == 0 ==> is_fallback_response(outs[i]),
        counts[i + 1] == (i + 1) % 0x1_0000_0000_0000_0000,
{
    lemma_run_prefix(script, queues, outs, counts, i);
    assert(turn(queues[i], queues[i + 1], outs[i]));
    if script.len() > 0 {
        law_responses_cycle(script, i as nat, queues[i], queues[i + 1], outs[i]);
    }
    assert(counts[i + 1] == wrap_add(counts[i], 1));
    vstd::arithmetic::div_mod::lemma_add_mod_noop(i, 1, 0x1_0000_0000_0000_0000);
    vstd::arithmetic::div_mod::lemma_small_mod(1, 0x1_0000_0000_0000_0000);
    vstd::arithmetic::div_mod::lemma_mod_twice(i, 0x1_0000_0000_0000_0000);
}

/// Before call `i` of a run, the queue is the script rotated by `i` (or
/// still empty), and `i` calls have been counted.
proof fn lemma_run_prefix(
    script: Seq<MockResponse>,
    queues: Seq<Seq<MockResponse>>,
    outs: Seq<MockResponse>,
    counts: Seq<u64>,
    i: int,
)
    requires
        queues.len() == outs.len() + 1,
        counts.len() == queues.len(),
        queues[0] == script,
        counts[0] == 0,
        forall|j: int| 0 <= j < outs.len() ==> turn(queues[j], queues[j + 1], #[trigger] outs[j]),
        forall|j: int| 0 <= j < outs.len() ==> #[trigger] counts[j + 1] == wrap_add(counts[j], 1),
        0 <= i <= outs.len(),
    ensures
        script.len() > 0 ==> same_responses(queues[i], rotation(script, i as nat)),
        script.len() == 0 ==> queues[i].len() == 0,
        counts[i] == i % 0x1_0000_0000_0000_0000,
    decreases i,
{
    if i == 0 {
        if script.len() > 0 {
            vstd::arithmetic::div_mod::lemma_small_mod(0, script.len());
            assert(rotation(script, 0) =~= script);
        }
        vstd::arithmetic::div_mod::lemma_small_mod(0, 0x1_0000_0000_0000_0000);
    } else {
        lemma_run_prefix(script, queues, outs, counts, i - 1);
        assert(turn(queues[i - 1], queues[i], outs[i - 1]));
        if script.len() > 0 {
            law_responses_cycle(script, (i - 1) as nat, queues[i - 1], queues[i], outs[i - 1]);
        }
        assert(counts[i] == wrap_add(counts[i - 1], 1));
        vstd::arithmetic::div_mod::lemma_add_mod_noop(i - 1, 1, 0x1_0000_0000_0000_0000);
        vstd::arithmetic::div_mod::lemma_small_mod(1, 0x1_0000_0000_0000_0000);
        vstd::arithmetic::div_mod::lemma_mod_twice(i - 1, 0x1_0000_0000_0000_0000);
    }
}

} // verus!
