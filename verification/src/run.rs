//! The host's side of one run of the skill, as a state machine: from the
//! state and what the last call into the skill gave back, the next state
//! and the next call to make. The host copies the log and the filter into
//! buffers that the skill allocates, calls `analyze`, frees both inputs
//! whatever `analyze` did, reads the result buffer when it is not empty,
//! and frees it with its length, or with 1 for the empty placeholder.
use vstd::prelude::*;
use vstd::utf8::encode_utf8;

use crate::host::{outcome_view, read_result, result_location, spec_read_result, RunError, Stage};
use crate::mission::{Best, BestView, spec_find_longest};
use crate::skill::{lemma_skill_agrees_with_native, spec_analyze, spec_pack};
use crate::text::contains_char;

verus! {

/// Where a run stands.
pub enum RunState {
    AllocLog { log_len: u32, filter_len: u32 },
    WriteLog { log_ptr: u32, log_len: u32, filter_len: u32 },
    AllocFilter { log_ptr: u32, log_len: u32, filter_len: u32 },
    WriteFilter { log_ptr: u32, log_len: u32, filter_ptr: u32, filter_len: u32 },
    Analyzing { log_ptr: u32, log_len: u32, filter_ptr: u32, filter_len: u32 },
    FreeLog { filter_ptr: u32, filter_len: u32, answer: Option<u64> },
    FreeFilter { answer: Option<u64> },
    ReadResult { ptr: u32, len: u32 },
    FreeResult { len: u32, bytes: Vec<u8> },
    Done,
}

/// What the last call into the skill gave back.
pub enum RunEvent {
    Allocated(u32),
    Written,
    Analyzed(u64),
    ResultRead(Vec<u8>),
    Freed,
    Trapped,
}

/// The next thing for the host to do.
pub enum RunAction {
    /// Ask the skill for a buffer of this many bytes.
    Alloc(u32),
    /// Copy the log into the skill's memory at this address.
    WriteLog(u32),
    /// Copy the filter into the skill's memory at this address.
    WriteFilter(u32),
    /// Call `analyze(log_ptr, log_len, filter_ptr, filter_len)`.
    Analyze(u32, u32, u32, u32),
    /// Free the skill's buffer at this address of this many bytes.
    Dealloc(u32, u32),
    /// Read this many bytes of the skill's memory from this address.
    Read(u32, u32),
    /// The run is over, with this outcome.
    Finish(Result<Option<Best>, RunError>),
}

/// The contents of a `RunState`.
pub enum RunStateView {
    AllocLog { log_len: u32, filter_len: u32 },
    WriteLog { log_ptr: u32, log_len: u32, filter_len: u32 },
    AllocFilter { log_ptr: u32, log_len: u32, filter_len: u32 },
    WriteFilter { log_ptr: u32, log_len: u32, filter_ptr: u32, filter_len: u32 },
    Analyzing { log_ptr: u32, log_len: u32, filter_ptr: u32, filter_len: u32 },
    FreeLog { filter_ptr: u32, filter_len: u32, answer: Option<u64> },
    FreeFilter { answer: Option<u64> },
    ReadResult { ptr: u32, len: u32 },
    FreeResult { len: u32, bytes: Seq<u8> },
    Done,
}

/// The contents of a `RunEvent`.
pub enum RunEventView {
    Allocated(u32),
    Written,
    Analyzed(u64),
    ResultRead(Seq<u8>),
    Freed,
    Trapped,
}

/// The contents of a `RunAction`.
pub enum RunActionView {
    Alloc(u32),
    WriteLog(u32),
    WriteFilter(u32),
    Analyze(u32, u32, u32, u32),
    Dealloc(u32, u32),
    Read(u32, u32),
    Finish(Result<Option<BestView>, RunError>),
}

impl View for RunState {
    type V = RunStateView;

    open spec fn view(&self) -> RunStateView {
        match self {
            RunState::AllocLog { log_len, filter_len } => RunStateView::AllocLog {
                log_len: *log_len,
                filter_len: *filter_len,
            },
            RunState::WriteLog { log_ptr, log_len, filter_len } => RunStateView::WriteLog {
                log_ptr: *log_ptr,
                log_len: *log_len,
                filter_len: *filter_len,
            },
            RunState::AllocFilter { log_ptr, log_len, filter_len } => RunStateView::AllocFilter {
                log_ptr: *log_ptr,
                log_len: *log_len,
                filter_len: *filter_len,
            },
            RunState::WriteFilter { log_ptr, log_len, filter_ptr, filter_len } =>
                RunStateView::WriteFilter {
                log_ptr: *log_ptr,
                log_len: *log_len,
                filter_ptr: *filter_ptr,
                filter_len: *filter_len,
            },
            RunState::Analyzing { log_ptr, log_len, filter_ptr, filter_len } =>
                RunStateView::Analyzing {
                log_ptr: *log_ptr,
                log_len: *log_len,
                filter_ptr: *filter_ptr,
                filter_len: *filter_len,
            },
            RunState::FreeLog { filter_ptr, filter_len, answer } => RunStateView::FreeLog {
                filter_ptr: *filter_ptr,
                filter_len: *filter_len,
                answer: *answer,
            },
            RunState::FreeFilter { answer } => RunStateView::FreeFilter { answer: *answer },
            RunState::ReadResult { ptr, len } => RunStateView::ReadResult { ptr: *ptr, len: *len },
            RunState::FreeResult { len, bytes } => RunStateView::FreeResult {
                len: *len,
                bytes: bytes@,
            },
            RunState::Done => RunStateView::Done,
        }
    }
}

impl View for RunEvent {
    type V = RunEventView;

    open spec fn view(&self) -> RunEventView {
        match self {
            RunEvent::Allocated(p) => RunEventView::Allocated(*p),
            RunEvent::Written => RunEventView::Written,
            RunEvent::Analyzed(x) => RunEventView::Analyzed(*x),
            RunEvent::ResultRead(b) => RunEventView::ResultRead(b@),
            RunEvent::Freed => RunEventView::Freed,
            RunEvent::Trapped => RunEventView::Trapped,
        }
    }
}

impl View for RunAction {
    type V = RunActionView;

    open spec fn view(&self) -> RunActionView {
        match self {
            RunAction::Alloc(n) => RunActionView::Alloc(*n),
            RunAction::WriteLog(p) => RunActionView::WriteLog(*p),
            RunAction::WriteFilter(p) => RunActionView::WriteFilter(*p),
            RunAction::Analyze(a, b, c, d) => RunActionView::Analyze(*a, *b, *c, *d),
            RunAction::Dealloc(p, n) => RunActionView::Dealloc(*p, *n),
            RunAction::Read(p, n) => RunActionView::Read(*p, *n),
            RunAction::Finish(r) => RunActionView::Finish(outcome_view(*r)),
        }
    }
}

/// The end of a run, with an outcome.
pub open spec fn finish(r: Result<Option<BestView>, RunError>) -> (RunStateView, RunActionView) {
    (RunStateView::Done, RunActionView::Finish(r))
}

/// What follows once both inputs are freed, from what `analyze` gave
/// back: its trap, its error answer, a zero address, or the result buffer
/// to read, or to free at once where it is empty.
pub open spec fn after_inputs_freed(answer: Option<u64>) -> (RunStateView, RunActionView) {
    match answer {
        None => finish(Err(RunError::Trap(Stage::Analyze))),
        Some(packed) => if packed == 0 {
            finish(Err(RunError::ErrorSentinel))
        } else if packed < 0x1_0000_0000 {
            finish(Err(RunError::NullPointer))
        } else {
            let ptr = (packed / 0x1_0000_0000) as u32;
            let len = (packed % 0x1_0000_0000) as u32;
            if len > 0 {
                (RunStateView::ReadResult { ptr, len }, RunActionView::Read(ptr, len))
            } else {
                (
                    RunStateView::FreeResult { len, bytes: Seq::empty() },
                    RunActionView::Dealloc(ptr, if len == 0 { 1 } else { len }),
                )
            }
        },
    }
}

/// The protocol of a run: the next state and action, from the state and
/// the event.
pub open spec fn spec_run_step(s: RunStateView, e: RunEventView) -> (RunStateView, RunActionView) {
    match s {
        RunStateView::AllocLog { log_len, filter_len } => match e {
            RunEventView::Allocated(p) => if p == 0 {
                finish(Err(RunError::LogAllocFailed))
            } else {
                (RunStateView::WriteLog { log_ptr: p, log_len, filter_len }, RunActionView::WriteLog(p))
            },
            RunEventView::Trapped => finish(Err(RunError::Trap(Stage::AllocLog))),
            _ => finish(Err(RunError::UnexpectedEvent)),
        },
        RunStateView::WriteLog { log_ptr, log_len, filter_len } => match e {
            RunEventView::Written => (
                RunStateView::AllocFilter { log_ptr, log_len, filter_len },
                RunActionView::Alloc(filter_len),
            ),
            RunEventView::Trapped => finish(Err(RunError::Trap(Stage::WriteLog))),
            _ => finish(Err(RunError::UnexpectedEvent)),
        },
        RunStateView::AllocFilter { log_ptr, log_len, filter_len } => match e {
            RunEventView::Allocated(q) => if q == 0 {
                finish(Err(RunError::FilterAllocFailed))
            } else {
                (
                    RunStateView::WriteFilter { log_ptr, log_len, filter_ptr: q, filter_len },
                    RunActionView::WriteFilter(q),
                )
            },
            RunEventView::Trapped => finish(Err(RunError::Trap(Stage::AllocFilter))),
            _ => finish(Err(RunError::UnexpectedEvent)),
        },
        RunStateView::WriteFilter { log_ptr, log_len, filter_ptr, filter_len } => match e {
            RunEventView::Written => (
                RunStateView::Analyzing { log_ptr, log_len, filter_ptr, filter_len },
                RunActionView::Analyze(log_ptr, log_len, filter_ptr, filter_len),
            ),
            RunEventView::Trapped => finish(Err(RunError::Trap(Stage::WriteFilter))),
            _ => finish(Err(RunError::UnexpectedEvent)),
        },
        RunStateView::Analyzing { log_ptr, log_len, filter_ptr, filter_len } => match e {
            RunEventView::Analyzed(packed) => (
                RunStateView::FreeLog { filter_ptr, filter_len, answer: Some(packed) },
                RunActionView::Dealloc(log_ptr, log_len),
            ),
            RunEventView::Trapped => (
                RunStateView::FreeLog { filter_ptr, filter_len, answer: None },
                RunActionView::Dealloc(log_ptr, log_len),
            ),
            _ => finish(Err(RunError::UnexpectedEvent)),
        },
        RunStateView::FreeLog { filter_ptr, filter_len, answer } => match e {
            RunEventView::Freed | RunEventView::Trapped => (
                RunStateView::FreeFilter { answer },
                RunActionView::Dealloc(filter_ptr, filter_len),
            ),
            _ => finish(Err(RunError::UnexpectedEvent)),
        },
        RunStateView::FreeFilter { answer } => match e {
            RunEventView::Freed | RunEventView::Trapped => after_inputs_freed(answer),
            _ => finish(Err(RunError::UnexpectedEvent)),
        },
        RunStateView::ReadResult { ptr, len } => match e {
            RunEventView::ResultRead(bytes) => (
                RunStateView::FreeResult { len, bytes },
                RunActionView::Dealloc(ptr, if len == 0 { 1 } else { len }),
            ),
            RunEventView::Trapped => finish(Err(RunError::Trap(Stage::ReadResult))),
            _ => finish(Err(RunError::UnexpectedEvent)),
        },
        RunStateView::FreeResult { len, bytes } => match e {
            RunEventView::Freed | RunEventView::Trapped => finish(spec_read_result(len, bytes)),
            _ => finish(Err(RunError::UnexpectedEvent)),
        },
        RunStateView::Done => finish(Err(RunError::UnexpectedEvent)),
    }
}

/// The first state and action of a run with a log and a filter of these
/// lengths.
pub fn run_start(log_len: u32, filter_len: u32) -> (r: (RunState, RunAction))
    ensures
        r.0@ == (RunStateView::AllocLog { log_len, filter_len }),
        r.1@ == RunActionView::Alloc(log_len),
{
    (RunState::AllocLog { log_len, filter_len }, RunAction::Alloc(log_len))
}

fn finish_with(r: Result<Option<Best>, RunError>) -> (out: (RunState, RunAction))
    ensures
        (out.0@, out.1@) == finish(outcome_view(r)),
{
    (RunState::Done, RunAction::Finish(r))
}

fn fail(e: RunError) -> (out: (RunState, RunAction))
    ensures
        (out.0@, out.1@) == finish(Err(e)),
{
    finish_with(Err(e))
}

/// The next state and action of a run.
pub fn run_step(state: RunState, event: RunEvent) -> (r: (RunState, RunAction))
    ensures
        (r.0@, r.1@) == spec_run_step(state@, event@),
{
    match state {
        RunState::AllocLog { log_len, filter_len } => match event {
            RunEvent::Allocated(p) => if p == 0 {
                fail(RunError::LogAllocFailed)
            } else {
                (RunState::WriteLog { log_ptr: p, log_len, filter_len }, RunAction::WriteLog(p))
            },
            RunEvent::Trapped => fail(RunError::Trap(Stage::AllocLog)),
            _ => fail(RunError::UnexpectedEvent),
        },
        RunState::WriteLog { log_ptr, log_len, filter_len } => match event {
            RunEvent::Written => (
                RunState::AllocFilter { log_ptr, log_len, filter_len },
                RunAction::Alloc(filter_len),
            ),
            RunEvent::Trapped => fail(RunError::Trap(Stage::WriteLog)),
            _ => fail(RunError::UnexpectedEvent),
        },
        RunState::AllocFilter { log_ptr, log_len, filter_len } => match event {
            RunEvent::Allocated(q) => if q == 0 {
                fail(RunError::FilterAllocFailed)
            } else {
                (
                    RunState::WriteFilter { log_ptr, log_len, filter_ptr: q, filter_len },
                    RunAction::WriteFilter(q),
                )
            },
            RunEvent::Trapped => fail(RunError::Trap(Stage::AllocFilter)),
            _ => fail(RunError::UnexpectedEvent),
        },
        RunState::WriteFilter { log_ptr, log_len, filter_ptr, filter_len } => match event {
            RunEvent::Written => (
                RunState::Analyzing { log_ptr, log_len, filter_ptr, filter_len },
                RunAction::Analyze(log_ptr, log_len, filter_ptr, filter_len),
            ),
            RunEvent::Trapped => fail(RunError::Trap(Stage::WriteFilter)),
            _ => fail(RunError::UnexpectedEvent),
        },
        RunState::Analyzing { log_ptr, log_len, filter_ptr, filter_len } => match event {
            RunEvent::Analyzed(packed) => (
                RunState::FreeLog { filter_ptr, filter_len, answer: Some(packed) },
                RunAction::Dealloc(log_ptr, log_len),
            ),
            RunEvent::Trapped => (
                RunState::FreeLog { filter_ptr, filter_len, answer: None },
                RunAction::Dealloc(log_ptr, log_len),
            ),
            _ => fail(RunError::UnexpectedEvent),
        },
        RunState::FreeLog { filter_ptr, filter_len, answer } => match event {
            RunEvent::Freed | RunEvent::Trapped => (
                RunState::FreeFilter { answer },
                RunAction::Dealloc(filter_ptr, filter_len),
            ),
            _ => fail(RunError::UnexpectedEvent),
        },
        RunState::FreeFilter { answer } => match event {
            RunEvent::Freed | RunEvent::Trapped => match answer {
                None => fail(RunError::Trap(Stage::Analyze)),
                Some(packed) => match result_location(packed) {
                    Err(e) => fail(e),
                    Ok((ptr, len)) => {
                        assert(ptr == packed / 0x1_0000_0000 && len == packed % 0x1_0000_0000);
                        if len > 0 {
                            (RunState::ReadResult { ptr, len }, RunAction::Read(ptr, len))
                        } else {
                            (
                                RunState::FreeResult { len, bytes: Vec::new() },
                                RunAction::Dealloc(ptr, 1),
                            )
                        }
                    },
                },
            },
            _ => fail(RunError::UnexpectedEvent),
        },
        RunState::ReadResult { ptr, len } => match event {
            RunEvent::ResultRead(bytes) => {
                let n = if len == 0 {
                    1
                } else {
                    len
                };
                (RunState::FreeResult { len, bytes }, RunAction::Dealloc(ptr, n))
            },
            RunEvent::Trapped => fail(RunError::Trap(Stage::ReadResult)),
            _ => fail(RunError::UnexpectedEvent),
        },
        RunState::FreeResult { len, bytes } => match event {
            RunEvent::Freed | RunEvent::Trapped => finish_with(read_result(len, bytes.as_slice())),
            _ => fail(RunError::UnexpectedEvent),
        },
        RunState::Done => fail(RunError::UnexpectedEvent),
    }
}

/// The state and last action after a sequence of events.
pub open spec fn run_trace(s: RunStateView, events: Seq<RunEventView>) -> (RunStateView, RunActionView)
    decreases events.len(),
{
    if events.len() == 0 {
        finish(Err(RunError::UnexpectedEvent))
    } else if events.len() == 1 {
        spec_run_step(s, events[0])
    } else {
        run_trace(spec_run_step(s, events[0]).0, events.drop_first())
    }
}

/// The events of a run in which every allocation succeeds, no call traps,
/// and `analyze` answers `packed` with the result bytes `result`.
pub open spec fn clean_run(log_ptr: u32, filter_ptr: u32, packed: u64, result: Seq<u8>) -> Seq<
    RunEventView,
> {
    let head = seq![
        RunEventView::Allocated(log_ptr),
        RunEventView::Written,
        RunEventView::Allocated(filter_ptr),
        RunEventView::Written,
        RunEventView::Analyzed(packed),
        RunEventView::Freed,
        RunEventView::Freed,
    ];
    if result.len() > 0 {
        head + seq![RunEventView::ResultRead(result), RunEventView::Freed]
    } else {
        head + seq![RunEventView::Freed]
    }
}

/// Law: a run in which the skill answers as `analyze` does, every
/// allocation succeeds and no call traps, ends with what `find_longest`
/// finds in the log natively, for a filter `destination|status` whose
/// parts hold no `|`.
pub proof fn lemma_run_matches_native(
    log: Seq<char>,
    dest: Seq<char>,
    status: Seq<char>,
    log_ptr: u32,
    filter_ptr: u32,
    result_ptr: u32,
)
    requires
        !contains_char(dest, '|'),
        !contains_char(status, '|'),
        log_ptr != 0,
        filter_ptr != 0,
        result_ptr != 0,
        encode_utf8(log).len() <= u32::MAX,
        encode_utf8(dest + seq!['|'] + status).len() <= u32::MAX,
        encode_utf8(
            spec_analyze(encode_utf8(log), encode_utf8(dest + seq!['|'] + status))->0,
        ).len() <= u32::MAX,
    ensures
        ({
            let answer = encode_utf8(
                spec_analyze(encode_utf8(log), encode_utf8(dest + seq!['|'] + status))->0,
            );
            let packed = spec_pack(result_ptr, answer.len() as u32);
            let start = RunStateView::AllocLog {
                log_len: encode_utf8(log).len() as u32,
                filter_len: encode_utf8(dest + seq!['|'] + status).len() as u32,
            };
            run_trace(start, clean_run(log_ptr, filter_ptr, packed, answer)).1
                == RunActionView::Finish(
                Ok(spec_find_longest(log, dest, status)),
            )
        }),
{
    lemma_skill_agrees_with_native(log, dest, status);
    let answer = encode_utf8(
        spec_analyze(encode_utf8(log), encode_utf8(dest + seq!['|'] + status))->0,
    );
    let n = answer.len() as u32;
    let packed = spec_pack(result_ptr, n);
    assert(packed as int == result_ptr as int * 0x1_0000_0000 + n as int);
    assert(packed / 0x1_0000_0000 == result_ptr);
    assert(packed % 0x1_0000_0000 == n);
    let events = clean_run(log_ptr, filter_ptr, packed, answer);
    reveal_with_fuel(run_trace, 10);
    let lb = encode_utf8(log).len() as u32;
    let fb = encode_utf8(dest + seq!['|'] + status).len() as u32;
    let s0 = RunStateView::AllocLog { log_len: lb, filter_len: fb };
    let s1 = spec_run_step(s0, events[0]).0;
    let s2 = spec_run_step(s1, events[1]).0;
    let s3 = spec_run_step(s2, events[2]).0;
    let s4 = spec_run_step(s3, events[3]).0;
    let s5 = spec_run_step(s4, events[4]).0;
    let s6 = spec_run_step(s5, events[5]).0;
    let s7 = spec_run_step(s6, events[6]).0;
    assert(s7 == after_inputs_freed(Some(packed)).0);
    if n > 0 {
        assert(s7 == (RunStateView::ReadResult { ptr: result_ptr, len: n }));
        let s8 = spec_run_step(s7, events[7]).0;
        assert(s8 == (RunStateView::FreeResult { len: n, bytes: answer }));
        assert(events.drop_first().drop_first().drop_first().drop_first().drop_first().drop_first().drop_first().drop_first()
            =~= seq![RunEventView::Freed]);
    } else {
        assert(events.drop_first().drop_first().drop_first().drop_first().drop_first().drop_first().drop_first()
            =~= seq![RunEventView::Freed]);
    }
}

/// A state that remembers the log and filter lengths a run started with.
pub open spec fn holds_lengths(s: RunStateView, log_len: u32, filter_len: u32) -> bool {
    match s {
        RunStateView::AllocLog { log_len: l, filter_len: f } => l == log_len && f == filter_len,
        RunStateView::WriteLog { log_len: l, filter_len: f, .. } => l == log_len && f == filter_len,
        RunStateView::AllocFilter { log_len: l, filter_len: f, .. } => l == log_len && f
            == filter_len,
        RunStateView::WriteFilter { log_len: l, filter_len: f, .. } => l == log_len && f
            == filter_len,
        RunStateView::Analyzing { log_len: l, filter_len: f, .. } => l == log_len && f
            == filter_len,
        RunStateView::FreeLog { filter_len: f, .. } => f == filter_len,
        _ => true,
    }
}

proof fn lemma_step_lengths(s: RunStateView, e: RunEventView, log_len: u32, filter_len: u32)
    requires
        holds_lengths(s, log_len, filter_len),
    ensures
        holds_lengths(spec_run_step(s, e).0, log_len, filter_len),
        spec_run_step(s, e).1 matches RunActionView::Analyze(_, l, _, f) ==> l == log_len && f
            == filter_len,
        spec_run_step(s, e).1 matches RunActionView::Alloc(n) ==> n == filter_len,
{
}

proof fn lemma_trace_lengths(s: RunStateView, events: Seq<RunEventView>, log_len: u32, filter_len: u32)
    requires
        holds_lengths(s, log_len, filter_len),
    ensures
        holds_lengths(run_trace(s, events).0, log_len, filter_len),
        run_trace(s, events).1 matches RunActionView::Analyze(_, l, _, f) ==> l == log_len && f
            == filter_len,
        run_trace(s, events).1 matches RunActionView::Alloc(n) ==> n == filter_len,
    decreases events.len(),
{
    if events.len() > 0 {
        lemma_step_lengths(s, events[0], log_len, filter_len);
        if events.len() > 1 {
            lemma_trace_lengths(spec_run_step(s, events[0]).0, events.drop_first(), log_len, filter_len);
        }
    }
}

/// Law: whatever the skill gives back, every `analyze` call of a run
/// carries exactly the log and filter lengths that the run started with,
/// and the only buffer asked for after the first is one of the filter's
/// length.
pub proof fn lemma_run_lengths(log_len: u32, filter_len: u32, events: Seq<RunEventView>)
    ensures
        run_trace(RunStateView::AllocLog { log_len, filter_len }, events).1 matches
            RunActionView::Analyze(_, l, _, f) ==> l == log_len && f == filter_len,
        run_trace(RunStateView::AllocLog { log_len, filter_len }, events).1 matches
            RunActionView::Alloc(n) ==> n == filter_len,
{
    lemma_trace_lengths(RunStateView::AllocLog { log_len, filter_len }, events, log_len, filter_len);
}

/// Every action of a run after its start, one for each event in turn.
pub open spec fn run_actions(s: RunStateView, events: Seq<RunEventView>) -> Seq<RunActionView>
    decreases events.len(),
{
    if events.len() == 0 {
        Seq::empty()
    } else {
        seq![spec_run_step(s, events[0]).1] + run_actions(
            spec_run_step(s, events[0]).0,
            events.drop_first(),
        )
    }
}

/// Law: in a run where every allocation succeeds and no call traps, the
/// host writes the log and the filter into the buffers it was given, calls
/// `analyze` on them with their lengths, frees both inputs, then reads a
/// nonempty result and frees it with its length, or frees the empty
/// placeholder with length 1, and finishes with what it read.
pub proof fn lemma_clean_run_actions(
    log_len: u32,
    filter_len: u32,
    log_ptr: u32,
    filter_ptr: u32,
    result_ptr: u32,
    result: Seq<u8>,
)
    requires
        log_ptr != 0,
        filter_ptr != 0,
        result_ptr != 0,
        result.len() <= u32::MAX,
    ensures
        ({
            let n = result.len() as u32;
            let inputs = seq![
                RunActionView::WriteLog(log_ptr),
                RunActionView::Alloc(filter_len),
                RunActionView::WriteFilter(filter_ptr),
                RunActionView::Analyze(log_ptr, log_len, filter_ptr, filter_len),
                RunActionView::Dealloc(log_ptr, log_len),
                RunActionView::Dealloc(filter_ptr, filter_len),
            ];
            run_actions(
                RunStateView::AllocLog { log_len, filter_len },
                clean_run(log_ptr, filter_ptr, spec_pack(result_ptr, n), result),
            ) == if n > 0 {
                inputs + seq![
                    RunActionView::Read(result_ptr, n),
                    RunActionView::Dealloc(result_ptr, n),
                    RunActionView::Finish(spec_read_result(n, result)),
                ]
            } else {
                inputs + seq![
                    RunActionView::Dealloc(result_ptr, 1),
                    RunActionView::Finish(Ok(None)),
                ]
            }
        }),
{
    let n = result.len() as u32;
    let packed = spec_pack(result_ptr, n);
    assert(packed as int == result_ptr as int * 0x1_0000_0000 + n as int);
    assert(packed / 0x1_0000_0000 == result_ptr);
    assert(packed % 0x1_0000_0000 == n);
    let ev = clean_run(log_ptr, filter_ptr, packed, result);
    reveal_with_fuel(run_actions, 11);
    let e1 = ev.drop_first();
    let e2 = e1.drop_first();
    let e3 = e2.drop_first();
    let e4 = e3.drop_first();
    let e5 = e4.drop_first();
    let e6 = e5.drop_first();
    let e7 = e6.drop_first();
    if n > 0 {
        assert(e7 =~= seq![RunEventView::ResultRead(result), RunEventView::Freed]);
        assert(e7.drop_first().drop_first() =~= Seq::<RunEventView>::empty());
    } else {
        assert(result =~= Seq::<u8>::empty());
        assert(e7 =~= seq![RunEventView::Freed]);
        assert(e7.drop_first() =~= Seq::<RunEventView>::empty());
    }
    assert(run_actions(RunStateView::AllocLog { log_len, filter_len }, ev) =~= if n > 0 {
        seq![
            RunActionView::WriteLog(log_ptr),
            RunActionView::Alloc(filter_len),
            RunActionView::WriteFilter(filter_ptr),
            RunActionView::Analyze(log_ptr, log_len, filter_ptr, filter_len),
            RunActionView::Dealloc(log_ptr, log_len),
            RunActionView::Dealloc(filter_ptr, filter_len),
            RunActionView::Read(result_ptr, n),
            RunActionView::Dealloc(result_ptr, n),
            RunActionView::Finish(spec_read_result(n, result)),
        ]
    } else {
        seq![
            RunActionView::WriteLog(log_ptr),
            RunActionView::Alloc(filter_len),
            RunActionView::WriteFilter(filter_ptr),
            RunActionView::Analyze(log_ptr, log_len, filter_ptr, filter_len),
            RunActionView::Dealloc(log_ptr, log_len),
            RunActionView::Dealloc(filter_ptr, filter_len),
            RunActionView::Dealloc(result_ptr, 1),
            RunActionView::Finish(Ok(None)),
        ]
    });
}

/// Law: where `analyze` traps, the host still frees the log and the filter
/// buffers, with their lengths, before it gives up with the trap.
pub proof fn lemma_trap_frees_inputs(
    log_len: u32,
    filter_len: u32,
    log_ptr: u32,
    filter_ptr: u32,
    after_log: RunEventView,
    after_filter: RunEventView,
)
    requires
        log_ptr != 0,
        filter_ptr != 0,
        after_log is Freed || after_log is Trapped,
        after_filter is Freed || after_filter is Trapped,
    ensures
        run_actions(
            RunStateView::AllocLog { log_len, filter_len },
            seq![
                RunEventView::Allocated(log_ptr),
                RunEventView::Written,
                RunEventView::Allocated(filter_ptr),
                RunEventView::Written,
                RunEventView::Trapped,
                after_log,
                after_filter,
            ],
        ) == seq![
            RunActionView::WriteLog(log_ptr),
            RunActionView::Alloc(filter_len),
            RunActionView::WriteFilter(filter_ptr),
            RunActionView::Analyze(log_ptr, log_len, filter_ptr, filter_len),
            RunActionView::Dealloc(log_ptr, log_len),
            RunActionView::Dealloc(filter_ptr, filter_len),
            RunActionView::Finish(Err(RunError::Trap(Stage::Analyze))),
        ],
{
    let ev = seq![
        RunEventView::Allocated(log_ptr),
        RunEventView::Written,
        RunEventView::Allocated(filter_ptr),
        RunEventView::Written,
        RunEventView::Trapped,
        after_log,
        after_filter,
    ];
    reveal_with_fuel(run_actions, 9);
    let e6 = ev.drop_first().drop_first().drop_first().drop_first().drop_first().drop_first();
    assert(e6 =~= seq![after_filter]);
    assert(e6.drop_first() =~= Seq::<RunEventView>::empty());
    assert(run_actions(RunStateView::AllocLog { log_len, filter_len }, ev) =~= seq![
        RunActionView::WriteLog(log_ptr),
        RunActionView::Alloc(filter_len),
        RunActionView::WriteFilter(filter_ptr),
        RunActionView::Analyze(log_ptr, log_len, filter_ptr, filter_len),
        RunActionView::Dealloc(log_ptr, log_len),
        RunActionView::Dealloc(filter_ptr, filter_len),
        RunActionView::Finish(Err(RunError::Trap(Stage::Analyze))),
    ]);
}

} // verus!
