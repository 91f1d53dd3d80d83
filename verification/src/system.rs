//! System results and the system iteration clock.
use vstd::prelude::*;

verus! {

/// An error a system returns.
#[verifier::external_type_specification]
#[verifier::external_body]
pub struct ExAnyhowError(anyhow::Error);

/// Whether or not a system should continue execution.
#[derive(Clone, Copy, Debug, PartialEq, Eq, Structural)]
pub enum ShouldContinue {
    Yes,
    No,
}

/// A system result meaning everything is ok and the system should run again
/// next frame.
pub fn ok() -> (r: Result<ShouldContinue, anyhow::Error>)
    ensures
        r matches Ok(ShouldContinue::Yes),
{
    Ok(ShouldContinue::Yes)
}

/// A system result meaning everything is ok, but the system should not be
/// run again.
pub fn end() -> (r: Result<ShouldContinue, anyhow::Error>)
    ensures
        r matches Ok(ShouldContinue::No),
{
    Ok(ShouldContinue::No)
}

/// A system result meaning an error occured and the system should not run
/// again.
pub fn err(error: anyhow::Error) -> (r: Result<ShouldContinue, anyhow::Error>)
    ensures
        r == Err::<ShouldContinue, anyhow::Error>(error),
{
    Err(error)
}

/// The system iteration counter, which stamps component changes.
pub struct SystemClock {
    iteration: u64,
}

impl View for SystemClock {
    type V = u64;

    /// The current iteration.
    closed spec fn view(&self) -> u64 {
        self.iteration
    }
}

impl SystemClock {
    /// A clock at iteration 0.
    pub fn new() -> (c: Self)
        ensures
            c@ == 0,
    {
        SystemClock { iteration: 0 }
    }
}

/// The current system iteration, which stamps component changes.
pub fn current_iteration(clock: &SystemClock) -> (i: u64)
    ensures
        i == clock@,
{
    clock.iteration
}

/// Advance the iteration by one, wrapping around at the end of the range,
/// and return the previous one.
pub fn increment_current_iteration(clock: &mut SystemClock) -> (prev: u64)
    ensures
        prev == old(clock)@,
        final(clock)@ == (if old(clock)@ == u64::MAX { 0 } else { old(clock)@ + 1 }),
{
    let prev = clock.iteration;
    clock.iteration = clock.iteration.wrapping_add(1);
    prev
}

/// The systems that run again after a batch: those that returned
/// `Ok(ShouldContinue::Yes)`, in batch order.
pub open spec fn running_systems<S>(results: Seq<(S, Result<ShouldContinue, anyhow::Error>)>) -> Seq<S>
    decreases results.len(),
{
    if results.len() == 0 {
        Seq::empty()
    } else {
        let rest = running_systems(results.drop_last());
        match results.last().1 {
            Ok(ShouldContinue::Yes) => rest.push(results.last().0),
            _ => rest,
        }
    }
}

/// The errors that the systems of a batch returned, in batch order.
pub open spec fn system_errors<S>(results: Seq<(S, Result<ShouldContinue, anyhow::Error>)>) -> Seq<anyhow::Error>
    decreases results.len(),
{
    if results.len() == 0 {
        Seq::empty()
    } else {
        let rest = system_errors(results.drop_last());
        match results.last().1 {
            Err(e) => rest.push(e),
            _ => rest,
        }
    }
}

/// Sort the outcomes of a batch of systems: the systems that run again,
/// and the errors of those that failed; systems that ended are dropped.
pub fn batch_outcome<S>(results: Vec<(S, Result<ShouldContinue, anyhow::Error>)>) -> (r: (Vec<S>, Vec<anyhow::Error>))
    ensures
        r.0@ == running_systems(results@),
        r.1@ == system_errors(results@),
{
    let ghost all = results@;
    let mut rev: Vec<(S, Result<ShouldContinue, anyhow::Error>)> = Vec::new();
    let mut results = results;
    while results.len() > 0
        invariant
            results@ == all.take(results@.len() as int),
            rev@.len() + results@.len() == all.len(),
            forall|j: int| 0 <= j < rev@.len() ==> #[trigger] rev@[j] == all[all.len() - 1 - j],
        decreases results@.len(),
    {
        let x = results.pop().unwrap();
        rev.push(x);
        proof {
            assert(results@ =~= all.take(results@.len() as int));
        }
    }
    let mut running: Vec<S> = Vec::new();
    let mut errors: Vec<anyhow::Error> = Vec::new();
    let ghost n = all.len();
    while rev.len() > 0
        invariant
            rev@.len() <= n,
            n == all.len(),
            forall|j: int| 0 <= j < rev@.len() ==> #[trigger] rev@[j] == all[n - 1 - j],
            running@ == running_systems(all.take(n - rev@.len())),
            errors@ == system_errors(all.take(n - rev@.len())),
        decreases rev@.len(),
    {
        let ghost done = n - rev@.len();
        let (system, outcome) = rev.pop().unwrap();
        proof {
            assert(all.take(done + 1).drop_last() =~= all.take(done));
            assert(all.take(done + 1).last() == all[done]);
        }
        match outcome {
            Ok(ShouldContinue::Yes) => {
                running.push(system);
            },
            Ok(ShouldContinue::No) => {},
            Err(e) => {
                errors.push(e);
            },
        }
    }
    proof {
        assert(all.take(n as int) =~= all);
    }
    (running, errors)
}

/// What an error's `Display` writes: its outermost message.
pub uninterp spec fn error_text(e: anyhow::Error) -> Seq<char>;

/// `ToString::to_string` on an `anyhow::Error`: the text its `Display`
/// writes, which depends on the error alone.
#[verifier::external_body]
fn error_message(e: &anyhow::Error) -> (s: String)
    ensures
        s@ == error_text(*e),
{
    e.to_string()
}

/// The error that `anyhow::Error::context` gives: `prev` with `msg` as its
/// new outermost context.
pub uninterp spec fn error_context(prev: anyhow::Error, msg: Seq<char>) -> anyhow::Error;

/// `anyhow::Error::context`: `prev` with `msg` added as its outermost
/// context; the result depends on the two arguments alone.
#[verifier::external_body]
fn with_context(prev: anyhow::Error, msg: String) -> (r: anyhow::Error)
    ensures
        r == error_context(prev, msg@),
{
    prev.context(msg)
}

/// The context that a later error adds to a batch's first error: "and "
/// followed by the later error's message.
pub open spec fn and_text(err: anyhow::Error) -> Seq<char> {
    seq!['a', 'n', 'd', ' '] + error_text(err)
}

/// The error that stands for a non-empty batch of errors: the first one,
/// with each later one, in order, added as context by `and_text`.
pub open spec fn combined(errors: Seq<anyhow::Error>) -> anyhow::Error
    decreases errors.len(),
{
    if errors.len() <= 1 {
        errors[0]
    } else {
        error_context(combined(errors.drop_last()), and_text(errors.last()))
    }
}

/// "and " followed by `msg`.
pub fn and_message(msg: String) -> (s: String)
    ensures
        s@ == seq!['a', 'n', 'd', ' '] + msg@,
{
    let mut s = String::from_str("and ");
    proof {
        reveal_strlit("and ");
        assert(s@ =~= seq!['a', 'n', 'd', ' ']);
    }
    s.append(msg.as_str());
    s
}

/// The result of a batch with the given errors: `Ok` when there are none,
/// the error itself when there is one, and otherwise the first error with
/// each later one added as context, in order.
pub fn combine_errors(errors: Vec<anyhow::Error>) -> (r: Result<(), anyhow::Error>)
    ensures
        errors@.len() == 0 ==> r is Ok,
        errors@.len() > 0 ==> r == Err::<(), anyhow::Error>(combined(errors@)),
{
    let ghost n = errors@.len();
    let mut rev: Vec<anyhow::Error> = Vec::new();
    let mut errors = errors;
    let ghost all = errors@;
    while errors.len() > 0
        invariant
            errors@ == all.take(errors@.len() as int),
            rev@.len() + errors@.len() == all.len(),
            forall|j: int| 0 <= j < rev@.len() ==> #[trigger] rev@[j] == all[all.len() - 1 - j],
        decreases errors@.len(),
    {
        let x = errors.pop().unwrap();
        rev.push(x);
        proof {
            assert(errors@ =~= all.take(errors@.len() as int));
        }
    }
    let mut r: Result<(), anyhow::Error> = Ok(());
    while rev.len() > 0
        invariant
            n == all.len(),
            rev@.len() <= n,
            forall|j: int| 0 <= j < rev@.len() ==> #[trigger] rev@[j] == all[n - 1 - j],
            rev@.len() == n ==> r is Ok,
            rev@.len() < n ==> r == Err::<(), anyhow::Error>(combined(all.take(n - rev@.len()))),
        decreases rev@.len(),
    {
        let ghost k = n - rev@.len();
        let e = rev.pop().unwrap();
        proof {
            assert(e == all[k]);
            let t = all.take(k + 1);
            assert(t.drop_last() =~= all.take(k));
            assert(t.last() == e);
        }
        r = match r {
            Ok(()) => Err(e),
            Err(prev) => {
                let msg = error_message(&e);
                let text = and_message(msg);
                Err(with_context(prev, text))
            },
        };
    }
    proof {
        assert(all.take(n as int) =~= all);
    }
    r
}

} // verus!
