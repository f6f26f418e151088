//! The benchmark driver's verifiable half: assembling a response body
//! from its chunks, decoding and parsing it, and the bookkeeping that
//! decides when the run is over and whether a summary is owed.

use crate::codec::all_ascii_bytes;
use crate::codec::all_digit_bytes;
use crate::codec::ascii_chars_of;
use crate::codec::ascii_to_string;
use crate::codec::lemma_ascii_utf8;
use crate::codec::render_u64;
use crate::codec::lemma_digits_shape;
use crate::codec::lemma_render_parse_round_trip;
use crate::codec::parse_i32;
use crate::codec::spec_digits;
use crate::codec::spec_parse_i32;
use crate::codec::utf8_to_string;
use crate::counter::index;
use crate::counter::HitCount;
use vstd::prelude::*;
use vstd::slice::slice_to_vec;
use vstd::string::StringExecFns;
use vstd::utf8::valid_utf8;

verus! {

/// How many timed requests one benchmark run issues, after its single
/// untimed warm-up call.
pub const TIMED_REQUESTS: u64 = 100000;

/// The fixed TCP port the service listens on and the driver targets.
pub const PORT: u16 = 8080;

/// The text of the driver's request target: the service's root on the
/// loopback host, at the fixed port.
pub open spec fn spec_target() -> Seq<char> {
    "http://localhost:"@ + ascii_chars_of(spec_digits(PORT as nat))
}

/// Build the driver's request target.
pub fn target_uri_text() -> (r: String)
    ensures
        r@ == spec_target(),
{
    let mut s = String::from_str("http://localhost:");
    let digits = render_u64(PORT as u64);
    proof {
        lemma_digits_shape(PORT as nat);
        assert(all_digit_bytes(digits@));
        assert(all_ascii_bytes(digits@));
    }
    let digits_text = ascii_to_string(&digits);
    s.append(digits_text.as_str());
    s
}

/// Everything that can cut a benchmark run short, one variant per stage
/// of a request: building the target, carrying it over the wire,
/// decoding the body, and reading the number out of it.
#[derive(Clone, Copy, Debug, PartialEq, Eq, Structural)]
pub enum RequestError {
    Uri,
    Transport,
    Utf8,
    Parse,
}

/// The views of the chunks of a response body, in arrival order.
pub open spec fn chunk_views(chunks: Seq<Vec<u8>>) -> Seq<Seq<u8>> {
    chunks.map_values(|c: Vec<u8>| c@)
}

/// One byte sequence out of many chunks, in arrival order.
pub open spec fn spec_concat(chunks: Seq<Seq<u8>>) -> Seq<u8>
    decreases chunks.len(),
{
    if chunks.len() == 0 {
        Seq::empty()
    } else {
        spec_concat(chunks.drop_last()) + chunks.last()
    }
}

/// Concatenate the chunks of a response body in arrival order.
pub fn concat_chunks(chunks: &Vec<Vec<u8>>) -> (r: Vec<u8>)
    ensures
        r@ == spec_concat(chunk_views(chunks@)),
{
    let mut out: Vec<u8> = Vec::new();
    let mut i: usize = 0;
    while i < chunks.len()
        invariant
            i <= chunks@.len(),
            out@ == spec_concat(chunk_views(chunks@).take(i as int)),
        decreases chunks@.len() - i,
    {
        let ghost pre = out@;
        out.extend_from_slice(chunks[i].as_slice());
        proof {
            let views = chunk_views(chunks@);
            assert(views.take(i + 1).drop_last() =~= views.take(i as int));
            assert(views.take(i + 1).last() == chunks@[i as int]@);
            assert(out@ =~= spec_concat(views.take(i + 1)));
        }
        i = i + 1;
    }
    proof {
        assert(chunk_views(chunks@).take(chunks@.len() as int) =~= chunk_views(chunks@));
    }
    out
}

/// Decode a response body as UTF-8 text and read it as a base-10
/// integer, rejecting each stage exactly where the stage's input is bad.
pub fn decode_and_parse(body: &Vec<u8>) -> (r: Result<i32, RequestError>)
    ensures
        !valid_utf8(body@) ==> r == Err::<i32, RequestError>(RequestError::Utf8),
        valid_utf8(body@) && spec_parse_i32(body@) is None ==> r == Err::<i32, RequestError>(
            RequestError::Parse,
        ),
        valid_utf8(body@) ==> (spec_parse_i32(body@) matches Some(v) ==> r == Ok::<
            i32,
            RequestError,
        >(v)),
{
    match utf8_to_string(body) {
        None => Err(RequestError::Utf8),
        Some(_) => match parse_i32(body) {
            Some(v) => Ok(v),
            None => Err(RequestError::Parse),
        },
    }
}

/// One whole round trip over loopback, with the wire replaced by the
/// bytes themselves: the service serves a hit, the driver decodes and
/// parses the body, and gets back exactly the number the service
/// incremented to.
pub fn loopback_exchange(hit_count: &mut HitCount) -> (r: Result<i32, RequestError>)
    requires
        old(hit_count).count < 0x7fff_ffff,
    ensures
        final(hit_count).count == old(hit_count).count + 1,
        r == Ok::<i32, RequestError>((old(hit_count).count + 1) as i32),
{
    let s = index(hit_count);
    let body = slice_to_vec(s.as_str().as_bytes());
    proof {
        let v = hit_count.count as nat;
        lemma_digits_shape(v);
        lemma_ascii_utf8(spec_digits(v));
        assert(body@ == spec_digits(v));
        lemma_render_parse_round_trip(hit_count.count);
    }
    decode_and_parse(&body)
}

/// The whole benchmark run with the wire replaced by the bytes
/// themselves: one warm-up exchange, then the timed exchanges, each
/// advancing the driver by its outcome. Exactly one warm-up plus
/// `TIMED_REQUESTS` increments land on the counter, and the run
/// finishes in the phase that owes its summary.
pub fn run_benchmark_model(hit_count: &mut HitCount) -> (r: DriverPhase)
    requires
        old(hit_count).count + TIMED_REQUESTS + 1 <= 0x7fff_ffff,
    ensures
        final(hit_count).count == old(hit_count).count + TIMED_REQUESTS + 1,
        r is Done,
{
    let warm = loopback_exchange(hit_count);
    let mut phase = driver_step(DriverPhase::Warmup, warm.is_ok());
    let mut completed: u64 = 0;
    while completed < TIMED_REQUESTS
        invariant
            completed <= TIMED_REQUESTS,
            old(hit_count).count + TIMED_REQUESTS + 1 <= 0x7fff_ffff,
            hit_count.count == old(hit_count).count + 1 + completed,
            phase == (if completed < TIMED_REQUESTS {
                DriverPhase::Timing { completed }
            } else {
                DriverPhase::Done
            }),
        decreases TIMED_REQUESTS - completed,
    {
        let r = loopback_exchange(hit_count);
        phase = driver_step(phase, r.is_ok());
        completed = completed + 1;
    }
    phase
}

/// Where one benchmark run stands: before the warm-up call, in the
/// timed calls with a tally of completed ones, finished, or failed.
#[derive(Clone, Copy, Debug, PartialEq, Eq, Structural)]
pub enum DriverPhase {
    Warmup,
    Timing { completed: u64 },
    Done,
    Failed,
}

/// The tally of completed timed calls never reaches the target while
/// the run is still timing.
pub open spec fn phase_wf(p: DriverPhase) -> bool {
    p matches DriverPhase::Timing { completed } ==> completed < TIMED_REQUESTS
}

/// The driver's next phase once a call has come back: a failed call
/// ends the run for good; a successful one moves the warm-up into the
/// timed calls, tallies a timed call, and finishes the run on the last.
pub open spec fn spec_step(p: DriverPhase, call_ok: bool) -> DriverPhase {
    if !call_ok {
        DriverPhase::Failed
    } else {
        match p {
            DriverPhase::Warmup => DriverPhase::Timing { completed: 0 },
            DriverPhase::Timing { completed } => if completed + 1 == TIMED_REQUESTS {
                DriverPhase::Done
            } else {
                DriverPhase::Timing { completed: (completed + 1) as u64 }
            },
            DriverPhase::Done => DriverPhase::Done,
            DriverPhase::Failed => DriverPhase::Failed,
        }
    }
}

/// Advance the driver by the outcome of one call.
pub fn driver_step(p: DriverPhase, call_ok: bool) -> (r: DriverPhase)
    requires
        phase_wf(p),
    ensures
        r == spec_step(p, call_ok),
        phase_wf(r),
{
    if !call_ok {
        DriverPhase::Failed
    } else {
        match p {
            DriverPhase::Warmup => DriverPhase::Timing { completed: 0 },
            DriverPhase::Timing { completed } => {
                if completed + 1 == TIMED_REQUESTS {
                    DriverPhase::Done
                } else {
                    DriverPhase::Timing { completed: completed + 1 }
                }
            },
            DriverPhase::Done => DriverPhase::Done,
            DriverPhase::Failed => DriverPhase::Failed,
        }
    }
}

/// A summary is owed exactly when the run has finished all its calls.
pub fn should_report(p: &DriverPhase) -> (r: bool)
    ensures
        r <==> *p is Done,
{
    match p {
        DriverPhase::Done => true,
        _ => false,
    }
}

/// The phase a run reaches after a sequence of call outcomes, starting
/// before the warm-up call.
pub open spec fn spec_run(events: Seq<bool>) -> DriverPhase
    decreases events.len(),
{
    if events.len() == 0 {
        DriverPhase::Warmup
    } else {
        spec_step(spec_run(events.drop_last()), events.last())
    }
}

/// Once a run has failed, no later outcome revives it.
proof fn lemma_failed_absorbs(events: Seq<bool>, j: int)
    requires
        0 <= j <= events.len(),
        spec_run(events.take(j)) is Failed,
    ensures
        spec_run(events) is Failed,
    decreases events.len() - j,
{
    if j == events.len() {
        assert(events.take(j) =~= events);
    } else {
        assert(events.take(j + 1).drop_last() =~= events.take(j));
        assert(events.take(j + 1).last() == events[j]);
        lemma_failed_absorbs(events, j + 1);
    }
}

/// A fault on any call leaves the whole run failed, never finished: the
/// driver reports no summary after a dropped call, wherever it happened.
pub proof fn lemma_fault_means_no_summary(events: Seq<bool>, i: int)
    requires
        0 <= i < events.len(),
        !events[i],
    ensures
        spec_run(events) is Failed,
        !(spec_run(events) is Done),
{
    assert(events.take(i + 1).drop_last() =~= events.take(i));
    assert(events.take(i + 1).last() == events[i]);
    assert(spec_run(events.take(i + 1)) is Failed);
    lemma_failed_absorbs(events, i + 1);
}

/// After `j` successful calls, one warm-up and `j - 1` timed ones are
/// behind the driver.
proof fn lemma_clean_prefix(events: Seq<bool>, j: int)
    requires
        1 <= j <= TIMED_REQUESTS,
        j <= events.len(),
        forall|i: int| 0 <= i < events.len() ==> events[i],
    ensures
        spec_run(events.take(j)) == (DriverPhase::Timing { completed: (j - 1) as u64 }),
    decreases j,
{
    assert(events.take(j).drop_last() =~= events.take(j - 1));
    assert(events.take(j).last() == events[j - 1]);
    if j > 1 {
        lemma_clean_prefix(events, j - 1);
    }
}

/// A run of one warm-up call and exactly `TIMED_REQUESTS` timed calls,
/// none of which fails, finishes and owes its summary.
pub proof fn lemma_clean_run_reports(events: Seq<bool>)
    requires
        events.len() == TIMED_REQUESTS + 1,
        forall|i: int| 0 <= i < events.len() ==> events[i],
    ensures
        spec_run(events) is Done,
{
    lemma_clean_prefix(events, TIMED_REQUESTS as int);
    assert(events.drop_last() =~= events.take(TIMED_REQUESTS as int));
    assert(events.last() == events[TIMED_REQUESTS as int]);
}

} // verus!
