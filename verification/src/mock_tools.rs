//! Mock tool implementations for benchmarking.
//!
//! Tools that simulate workload patterns without external dependencies.

use vstd::prelude::*;
use vstd::string::*;
use std::time::Duration;
use crate::clock::{millis_duration, duration_from_millis, instant_now, instant_elapsed};
use crate::decimal::{decimal, u64_to_decimal, law_decimal_reads_back};
use crate::proc_status::digits_value;

verus! {

/// Result of a mock tool execution.
#[derive(Debug, Clone)]
pub struct MockToolResult {
    pub output: String,
    pub success: bool,
    pub duration: Duration,
}

/// A no-op tool that returns immediately (measures dispatch overhead).
pub fn noop_tool() -> (r: MockToolResult)
    ensures
        r.output@ == seq!['o', 'k'],
        r.success,
        r.duration == millis_duration(0),
{
    proof { reveal_strlit("ok"); }
    MockToolResult { output: "ok".to_owned(), success: true, duration: duration_from_millis(0) }
}

} // verus!

verus! {

/// The sum 0 + 1 + ... + (n - 1).
pub open spec fn sum_below(n: nat) -> nat
    decreases n,
{
    if n == 0 { 0 } else { sum_below((n - 1) as nat) + (n - 1) as nat }
}

/// The sum of `0..n` in closed form: twice it is `n * (n - 1)`.
pub proof fn law_sum_below_closed_form(n: nat)
    ensures
        2 * sum_below(n) == n * (n - 1),
    decreases n,
{
    if n == 0 {
        assert(n * (n - 1) == 0) by (nonlinear_arith)
            requires n == 0;
    } else {
        let m = (n - 1) as nat;
        law_sum_below_closed_form(m);
        assert(2 * sum_below(n) == 2 * sum_below(m) + 2 * m);
        assert(m * (m - 1) + 2 * m == n * (n - 1)) by (nonlinear_arith)
            requires m == n - 1;
    }
}

/// Keeps the optimiser from removing the summation loop
/// (`std::hint::black_box`, whose result is discarded).
#[verifier::external_body]
fn keep_value(x: u64) {
    std::hint::black_box(x);
}

/// A CPU-bound tool (tests parallel execution benefit): sums `0..iterations`
/// with wrap-around and reports the sum and the time it took.
pub fn cpu_bound_tool(iterations: usize) -> (r: MockToolResult)
    ensures
        r.output@ == seq!['c', 'o', 'm', 'p', 'u', 't', 'e', 'd', ':', ' ']
            + decimal(sum_below(iterations as nat) % 0x1_0000_0000_0000_0000),
        r.success,
{
    let start = instant_now();
    let mut sum: u64 = 0;
    let mut i: usize = 0;
    while i < iterations
        invariant
            i <= iterations,
            sum == sum_below(i as nat) % 0x1_0000_0000_0000_0000,
        decreases iterations - i,
    {
        proof {
            vstd::arithmetic::div_mod::lemma_add_mod_noop(
                sum_below(i as nat) as int, i as int, 0x1_0000_0000_0000_0000);
            vstd::arithmetic::div_mod::lemma_small_mod(i as nat, 0x1_0000_0000_0000_0000);
            vstd::arithmetic::div_mod::lemma_mod_self_0(0x1_0000_0000_0000_0000);
            assert(sum_below((i + 1) as nat) == sum_below(i as nat) + i);
            if sum + i >= 0x1_0000_0000_0000_0000 {
                vstd::arithmetic::div_mod::lemma_mod_add_multiples_vanish(
                    (sum + i - 0x1_0000_0000_0000_0000) as int, 0x1_0000_0000_0000_0000);
                vstd::arithmetic::div_mod::lemma_small_mod(
                    (sum + i - 0x1_0000_0000_0000_0000) as nat, 0x1_0000_0000_0000_0000);
            } else {
                vstd::arithmetic::div_mod::lemma_small_mod((sum + i) as nat, 0x1_0000_0000_0000_0000);
            }
        }
        sum = sum.wrapping_add(i as u64);
        keep_value(sum);
        i = i + 1;
    }
    let duration = instant_elapsed(&start);
    proof { reveal_strlit("computed: "); }
    let mut output = "computed: ".to_owned();
    let digits = u64_to_decimal(sum);
    output.append(digits.as_str());
    MockToolResult { output, success: true, duration }
}

} // verus!

verus! {

/// A tool that produces a large output (tests reference passing benefit):
/// `output_size` times the letter `x`.
pub fn large_output_tool(output_size: usize) -> (r: MockToolResult)
    ensures
        r.output@ == Seq::new(output_size as nat, |i: int| 'x'),
        r.success,
        r.duration == millis_duration(0),
{
    let mut data = String::new();
    let mut i: usize = 0;
    proof {
        reveal_strlit("x");
    }
    while i < output_size
        invariant
            i <= output_size,
            data@ == Seq::new(i as nat, |k: int| 'x'),
        decreases output_size - i,
    {
        proof {
            reveal_strlit("x");
        }
        data.append("x");
        i = i + 1;
        assert(data@ =~= Seq::new(i as nat, |k: int| 'x'));
    }
    MockToolResult { output: data, success: true, duration: duration_from_millis(0) }
}

/// The output text of step `i` of a tool chain over `size` bytes.
pub open spec fn chain_step_text(i: nat, size: nat) -> Seq<char> {
    seq!['s', 't', 'e', 'p', '_'] + decimal(i) + seq!['_', 'o', 'u', 't', 'p', 'u', 't', '_']
        + decimal(size) + seq!['_', 'b', 'y', 't', 'e', 's']
}

/// Simulate a tool chain: each step processes the same buffer of
/// `data_size` bytes in place and reports it.
pub fn tool_chain(steps: usize, data_size: usize) -> (r: Vec<MockToolResult>)
    ensures
        r.len() == steps,
        forall|i: int| 0 <= i < steps ==> (#[trigger] r[i]).output@ == chain_step_text(i as nat, data_size as nat)
            && r[i].success && r[i].duration == millis_duration(0),
        forall|i: int| 0 <= i < steps ==> (#[trigger] r[i]).output@
            == seq!['s', 't', 'e', 'p', '_'] + decimal(i as nat) + seq!['_', 'o', 'u', 't', 'p', 'u', 't', '_']
                + decimal(data_size as nat) + seq!['_', 'b', 'y', 't', 'e', 's'],
{
    let mut results: Vec<MockToolResult> = Vec::with_capacity(steps);
    let mut data: Vec<u8> = vec![0u8; data_size];
    let mut i: usize = 0;
    while i < steps
        invariant
            i <= steps,
            data.len() == data_size,
            results.len() == i,
            forall|k: int| 0 <= k < i ==> (#[trigger] results[k]).output@ == chain_step_text(k as nat, data_size as nat)
                && results[k].success && results[k].duration == millis_duration(0),
        decreases steps - i,
    {
        // Process the data in place.
        let delta: u8 = #[verifier::truncate] (i as u8);
        let mut j: usize = 0;
        while j < data.len()
            invariant
                j <= data.len(),
                data.len() == data_size,
            decreases data.len() - j,
        {
            let byte = data[j].wrapping_add(delta);
            data.set(j, byte);
            j = j + 1;
        }
        proof {
            reveal_strlit("step_");
            reveal_strlit("_output_");
            reveal_strlit("_bytes");
        }
        let mut output = "step_".to_owned();
        let step_digits = u64_to_decimal(i as u64);
        output.append(step_digits.as_str());
        output.append("_output_");
        let size_digits = u64_to_decimal(data.len() as u64);
        output.append(size_digits.as_str());
        output.append("_bytes");
        proof {
            assert(output@ =~= chain_step_text(i as nat, data_size as nat));
        }
        results.push(MockToolResult { output, success: true, duration: duration_from_millis(0) });
        i = i + 1;
    }
    results
}

/// Each step of a tool chain reports the whole buffer: the size field of
/// its output is the decimal text of the data size, and reads back as it.
pub proof fn law_chain_step_reports_size(i: nat, size: nat)
    ensures
        ({
            let t = chain_step_text(i, size);
            let start: int = 13 + decimal(i).len() as int;
            let end: int = start + decimal(size).len() as int;
            &&& t.len() == end + 6
            &&& t.subrange(start, end) == decimal(size)
            &&& digits_value(t.subrange(start, end)) == size
            &&& t.subrange(5, 5 + decimal(i).len() as int) == decimal(i)
            &&& digits_value(t.subrange(5, 5 + decimal(i).len() as int)) == i
        }),
{
    law_decimal_reads_back(i);
    law_decimal_reads_back(size);
    let t = chain_step_text(i, size);
    let start: int = 13 + decimal(i).len() as int;
    assert(t.subrange(start, start + decimal(size).len() as int) =~= decimal(size));
    assert(t.subrange(5, 5 + decimal(i).len() as int) =~= decimal(i));
}

/// The CPU-bound tool reports the sum `0 + 1 + ... + (iterations - 1)`
/// (that is, `iterations * (iterations - 1) / 2`), modulo 2^64: the digits
/// after `"computed: "` read back as that number.
pub proof fn law_cpu_bound_reports_sum(iterations: nat, output: Seq<char>)
    requires
        output == seq!['c', 'o', 'm', 'p', 'u', 't', 'e', 'd', ':', ' ']
            + decimal(sum_below(iterations) % 0x1_0000_0000_0000_0000),
    ensures
        digits_value(output.subrange(10, output.len() as int))
            == (iterations * (iterations - 1) / 2) % 0x1_0000_0000_0000_0000,
{
    let v = sum_below(iterations) % 0x1_0000_0000_0000_0000;
    law_decimal_reads_back(v);
    law_sum_below_closed_form(iterations);
    assert(output.subrange(10, output.len() as int) =~= decimal(v));
    assert(sum_below(iterations) == iterations * (iterations - 1) / 2);
}

} // verus!
