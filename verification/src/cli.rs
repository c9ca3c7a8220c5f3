//! The decisions of a command-line run: option checks, the order of scanned hosts, what
//! is shown, and how the run ends.
use vstd::prelude::*;
use crate::scanner::{HostDiscoveryResult, HostState, ScanConfig, ScanResult, Transport, UdpState};
use crate::target::texts;
use crate::text::{
    chars_of, less_chars, lemma_text_less_total, lemma_text_less_trans,
    string_from, text_less,
};
use crate::{PscanError, rejects_with};

verus! {

/// The run options that are checked before anything else happens.
pub struct RunOptions {
    pub targets_given: bool,
    pub target_file_given: bool,
    pub concurrency: usize,
    pub result_buffer: usize,
    pub timeout_ms: u64,
    pub fingerprint_timeout_ms: u64,
    pub service_detection: bool,
    pub udp: bool,
}

/// Why options are rejected, checked in this order: no target source, zero concurrency,
/// a zero result buffer, a zero timeout, and service detection over UDP.
pub open spec fn option_problem(o: RunOptions) -> Option<Seq<char>> {
    if !o.targets_given && !o.target_file_given {
        Some("provide --target or --target-file"@)
    } else if o.concurrency == 0 {
        Some("concurrency must be greater than zero"@)
    } else if o.result_buffer == 0 {
        Some("result buffer must be greater than zero"@)
    } else if o.timeout_ms == 0 || o.fingerprint_timeout_ms == 0 {
        Some("timeouts must be greater than zero"@)
    } else if o.service_detection && o.udp {
        Some("--service-detection currently applies to TCP only"@)
    } else {
        None
    }
}

fn reject(m: &str) -> (e: PscanError)
    ensures
        rejects_with(e, m@),
{
    PscanError::InvalidInput(string_from(&chars_of(m)))
}

/// Checks the run options.
pub fn validate_cli(o: &RunOptions) -> (r: crate::Result<()>)
    ensures
        match option_problem(*o) {
            Some(m) => r matches Err(e) && rejects_with(e, m),
            None => r is Ok,
        },
{
    if !o.targets_given && !o.target_file_given {
        return Err(reject("provide --target or --target-file"));
    }
    if o.concurrency == 0 {
        return Err(reject("concurrency must be greater than zero"));
    }
    if o.result_buffer == 0 {
        return Err(reject("result buffer must be greater than zero"));
    }
    if o.timeout_ms == 0 || o.fingerprint_timeout_ms == 0 {
        return Err(reject("timeouts must be greater than zero"));
    }
    if o.service_detection && o.udp {
        return Err(reject("--service-detection currently applies to TCP only"));
    }
    Ok(())
}

/// How a run ended.
#[derive(Debug, Clone, Copy, PartialEq, Eq, Structural)]
pub enum RunOutcome {
    Completed,
    Cancelled,
    ResolutionFailure,
}

/// A cancelled run is reported as such; otherwise a run in which some target did not
/// resolve is a resolution failure.
pub fn run_outcome(cancelled: bool, has_failures: bool) -> (r: RunOutcome)
    ensures
        r == if cancelled {
            RunOutcome::Cancelled
        } else if has_failures {
            RunOutcome::ResolutionFailure
        } else {
            RunOutcome::Completed
        },
{
    if cancelled {
        RunOutcome::Cancelled
    } else if has_failures {
        RunOutcome::ResolutionFailure
    } else {
        RunOutcome::Completed
    }
}

/// The process exit status of an outcome: 0, 130 after an interrupt, 2 when a target did
/// not resolve.
pub fn exit_code(outcome: RunOutcome) -> (r: u8)
    ensures
        r == match outcome {
            RunOutcome::Completed => 0u8,
            RunOutcome::Cancelled => 130u8,
            RunOutcome::ResolutionFailure => 2u8,
        },
{
    match outcome {
        RunOutcome::Completed => 0,
        RunOutcome::Cancelled => 130,
        RunOutcome::ResolutionFailure => 2,
    }
}

/// A scan record that reports an open port: a UDP port that answered, or a TCP port
/// that accepted the connection. Closed and open|filtered ports are not open.
pub open spec fn reports_open(r: ScanResult) -> bool {
    match r.udp_state {
        Some(state) => state == UdpState::Open,
        None => r.open,
    }
}

/// Whether a scan record is shown: open ports always, closed and open|filtered ones on
/// request.
pub fn shows_scan(result: &ScanResult, show_closed: bool) -> (r: bool)
    ensures
        r == (reports_open(*result) || show_closed),
{
    let open = match result.udp_state {
        Some(state) => state == UdpState::Open,
        None => result.open,
    };
    open || show_closed
}

/// Whether a discovery record is shown: live hosts always, others on request.
pub fn shows_host(state: HostState, show_closed: bool) -> (r: bool)
    ensures
        r == (state == HostState::Alive || show_closed),
{
    state == HostState::Alive || show_closed
}

/// What a run does next.
#[derive(Debug, Clone, Copy, PartialEq, Eq, Structural)]
pub enum RunStage {
    /// Discover which hosts are alive.
    Discover,
    /// Scan the ports of the current targets.
    Scan,
    /// Flush what was written and end.
    Finish,
}

/// After name resolution: end when nothing resolved; discover hosts first when `--ping`
/// or `--ping-only` asks for it; otherwise scan every resolved host unless the run was
/// cancelled.
pub fn stage_after_resolution(resolved: usize, ping: bool, ping_only: bool, cancelled: bool) -> (r:
    RunStage)
    ensures
        r == if resolved == 0 {
            RunStage::Finish
        } else if ping || ping_only {
            RunStage::Discover
        } else if cancelled {
            RunStage::Finish
        } else {
            RunStage::Scan
        },
{
    if resolved == 0 {
        RunStage::Finish
    } else if ping || ping_only {
        RunStage::Discover
    } else if cancelled {
        RunStage::Finish
    } else {
        RunStage::Scan
    }
}

/// After host discovery: scan the live hosts, unless only discovery was asked for, the
/// run was cancelled, or no host is alive.
pub fn stage_after_discovery(alive: usize, ping_only: bool, cancelled: bool) -> (r: RunStage)
    ensures
        r == if !ping_only && !cancelled && alive > 0 {
            RunStage::Scan
        } else {
            RunStage::Finish
        },
{
    if !ping_only && !cancelled && alive > 0 {
        RunStage::Scan
    } else {
        RunStage::Finish
    }
}

/// The addresses of the live hosts among discovery results, in order.
pub open spec fn alive_addresses(rs: Seq<HostDiscoveryResult>) -> Seq<Seq<char>>
    decreases rs.len(),
{
    if rs.len() == 0 {
        Seq::empty()
    } else if rs.last().state == HostState::Alive {
        alive_addresses(rs.drop_last()).push(rs.last().ip@)
    } else {
        alive_addresses(rs.drop_last())
    }
}

/// The addresses of the hosts that discovery found alive, which are then scanned.
pub fn alive_hosts(results: &[HostDiscoveryResult]) -> (r: Vec<String>)
    ensures
        texts(r@) == alive_addresses(results@),
{
    let mut out: Vec<String> = Vec::new();
    let mut i: usize = 0;
    while i < results.len()
        invariant
            0 <= i <= results@.len(),
            texts(out@) == alive_addresses(results@.subrange(0, i as int)),
        decreases results@.len() - i,
    {
        let ghost before = out@;
        assert(results@.subrange(0, i + 1).drop_last() =~= results@.subrange(0, i as int));
        if results[i].state == HostState::Alive {
            out.push(results[i].ip.clone());
            assert(texts(out@) =~= texts(before).push(results@[i as int].ip@));
        }
        i = i + 1;
    }
    assert(results@.subrange(0, results@.len() as int) =~= results@);
    out
}

/// The settings of the port scan of a run: service detection only over TCP, a rate
/// limit only when one above zero was given, and the transport the run asked for.
pub fn scan_config(
    options: &RunOptions,
    rate: u32,
    connect_timeout: std::time::Duration,
    fingerprint_timeout: std::time::Duration,
) -> (r: ScanConfig)
    ensures
        r.concurrency == options.concurrency,
        r.result_buffer == options.result_buffer,
        r.connect_timeout == connect_timeout,
        r.fingerprint_timeout == fingerprint_timeout,
        r.service_detection == (options.service_detection && !options.udp),
        r.rate_limit == if rate > 0 {
            Some(rate)
        } else {
            None
        },
        r.transport == if options.udp {
            Transport::Udp
        } else {
            Transport::Tcp
        },
{
    ScanConfig {
        concurrency: options.concurrency,
        connect_timeout,
        fingerprint_timeout,
        service_detection: options.service_detection && !options.udp,
        rate_limit: if rate > 0 {
            Some(rate)
        } else {
            None
        },
        result_buffer: options.result_buffer,
        transport: if options.udp {
            Transport::Udp
        } else {
            Transport::Tcp
        },
    }
}

/// `v` is in strictly increasing text order.
pub open spec fn strictly_sorted(v: Seq<Seq<char>>) -> bool {
    forall|i: int, j: int| 0 <= i < j < v.len() ==> text_less(#[trigger] v[i], #[trigger] v[j], 0)
}

/// The texts of `items` in increasing order, each once (a sort followed by a dedup).
pub fn sorted_distinct(items: Vec<String>) -> (r: Vec<String>)
    ensures
        strictly_sorted(texts(r@)),
        forall|t: Seq<char>| texts(items@).contains(t) <==> texts(r@).contains(t),
{
    let mut out: Vec<String> = Vec::new();
    let mut n: usize = 0;
    while n < items.len()
        invariant
            0 <= n <= items@.len(),
            strictly_sorted(texts(out@)),
            forall|t: Seq<char>| texts(items@.subrange(0, n as int)).contains(t) <==> texts(
                out@,
            ).contains(t),
        decreases items@.len() - n,
    {
        let x = items[n].clone();
        let xc = chars_of(x.as_str());
        let mut k: usize = 0;
        while k < out.len() && less_chars(&chars_of(out[k].as_str()), &xc)
            invariant
                0 <= k <= out@.len(),
                xc@ == x@,
                forall|i: int| 0 <= i < k ==> text_less(#[trigger] texts(out@)[i], x@, 0),
            decreases out@.len() - k,
        {
            k = k + 1;
        }
        let ghost before = texts(out@);
        let ghost prefix = texts(items@.subrange(0, n as int));
        assert(texts(items@.subrange(0, n + 1)) == prefix.push(x@)) by {
            assert(items@.subrange(0, n + 1) == items@.subrange(0, n as int).push(items@[n as int]));
        }
        if k < out.len() && crate::text::chars_eq(&chars_of(out[k].as_str()), &xc) {
            proof {
                assert(before[k as int] == x@);
                assert forall|t: Seq<char>| prefix.push(x@).contains(t) <==> before.contains(t) by {
                    if t == x@ {
                        assert(before[k as int] == t);
                    }
                    if prefix.push(x@).contains(t) && t != x@ {
                        let w = choose|w: int| 0 <= w < prefix.push(x@).len() && prefix.push(x@)[w] == t;
                        assert(prefix[w] == t);
                    }
                    if prefix.contains(t) {
                        let w = choose|w: int| 0 <= w < prefix.len() && prefix[w] == t;
                        assert(prefix.push(x@)[w] == t);
                    }
                }
            }
        } else {
            proof {
                if k < before.len() {
                    assert(!text_less(before[k as int], x@, 0));
                    assert(before[k as int] != x@);
                    assert(x@.subrange(0, x@.len() as int) =~= x@);
                    assert(before[k as int].subrange(0, before[k as int].len() as int) =~= before[k as int]);
                    lemma_text_less_total(x@, before[k as int], 0);
                }
                assert forall|m: int| k <= m < before.len() implies text_less(x@, #[trigger] before[m], 0) by {
                    if m > k {
                        assert(text_less(before[k as int], before[m], 0));
                        lemma_text_less_trans(x@, before[k as int], before[m], 0);
                    }
                }
            }
            out.insert(k, x);
            proof {
                let after = texts(out@);
                assert(after =~= before.insert(k as int, x@));
                assert forall|i: int, j: int| 0 <= i < j < after.len() implies text_less(
                    #[trigger] after[i],
                    #[trigger] after[j],
                    0,
                ) by {
                    if j < k {
                        assert(after[i] == before[i] && after[j] == before[j]);
                    } else if j == k {
                        assert(after[i] == before[i]);
                    } else if i == k {
                        assert(after[j] == before[j - 1]);
                    } else if i < k {
                        assert(after[i] == before[i] && after[j] == before[j - 1]);
                        assert(text_less(x@, before[j - 1], 0));
                        lemma_text_less_trans(before[i], x@, before[j - 1], 0);
                    } else {
                        assert(after[i] == before[i - 1] && after[j] == before[j - 1]);
                    }
                }
                assert forall|t: Seq<char>| prefix.push(x@).contains(t) <==> after.contains(t) by {
                    assert(prefix.contains(t) <==> before.contains(t));
                    if t == x@ {
                        assert(after[k as int] == t);
                        assert(prefix.push(x@)[prefix.len() as int] == t);
                    } else {
                        if after.contains(t) {
                            let w = choose|w: int| 0 <= w < after.len() && after[w] == t;
                            if w < k {
                                assert(before[w] == t);
                            } else {
                                assert(before[w - 1] == t);
                            }
                            assert(before.contains(t));
                            let v = choose|v: int| 0 <= v < prefix.len() && prefix[v] == t;
                            assert(prefix.push(x@)[v] == t);
                        }
                        if prefix.push(x@).contains(t) {
                            let w = choose|w: int| 0 <= w < prefix.push(x@).len() && prefix.push(x@)[w] == t;
                            assert(prefix[w] == t);
                            assert(prefix.contains(t));
                            let v = choose|v: int| 0 <= v < before.len() && before[v] == t;
                            if v < k {
                                assert(after[v] == t);
                            } else {
                                assert(after[v + 1] == t);
                            }
                        }
                    }
                }
            }
        }
        n = n + 1;
    }
    assert(items@.subrange(0, items@.len() as int) =~= items@);
    out
}

} // verus!
