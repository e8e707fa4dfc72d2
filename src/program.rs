//! Outcome of compiling a kernel and linking a program: the driver's status
//! decides, and its info log is the diagnostic carried by the error.

use vstd::prelude::*;

verus! {

/// Why a program could not be built; each carries the driver's log.
pub enum BuildError {
    Compile(Vec<u8>),
    Link(Vec<u8>),
}

/// Which build step a status belongs to.
#[derive(Clone, Copy, PartialEq, Eq, Structural, Debug)]
pub enum BuildStep {
    Compile,
    Link,
}

/// Index of the first zero byte of `raw`, or its length where it has none.
pub open spec fn first_zero(raw: Seq<u8>) -> int
    decreases raw.len(),
{
    if raw.len() == 0 {
        0
    } else if raw[0] == 0 {
        0
    } else {
        1 + first_zero(raw.drop_first())
    }
}

/// The text of an info log as the driver fills it: the bytes before the
/// first zero byte.
pub open spec fn log_text_spec(raw: Seq<u8>) -> Seq<u8> {
    raw.take(first_zero(raw))
}

proof fn lemma_first_zero_skip(raw: Seq<u8>, i: int)
    requires
        0 <= i <= raw.len(),
        forall|k: int| 0 <= k < i ==> raw[k] != 0,
    ensures
        first_zero(raw) == i + first_zero(raw.skip(i)),
        0 <= first_zero(raw.skip(i)) <= raw.len() - i,
    decreases i,
{
    if i == 0 {
        assert(raw.skip(0) =~= raw);
        lemma_first_zero_bounds(raw);
    } else {
        assert(raw.drop_first().skip(i - 1) =~= raw.skip(i));
        lemma_first_zero_skip(raw.drop_first(), i - 1);
    }
}

proof fn lemma_first_zero_bounds(raw: Seq<u8>)
    ensures
        0 <= first_zero(raw) <= raw.len(),
    decreases raw.len(),
{
    if raw.len() > 0 {
        lemma_first_zero_bounds(raw.drop_first());
    }
}

/// The bytes of `raw` before its first zero byte.
pub fn log_text(raw: &Vec<u8>) -> (r: Vec<u8>)
    ensures
        r@ == log_text_spec(raw@),
{
    let mut r: Vec<u8> = Vec::new();
    let mut i: usize = 0;
    while i < raw.len()
        invariant
            i <= raw@.len(),
            r@ == raw@.take(i as int),
            forall|k: int| 0 <= k < i ==> raw@[k] != 0,
        decreases raw@.len() - i,
    {
        if raw[i] == 0 {
            proof {
                lemma_first_zero_skip(raw@, i as int);
            }
            return r;
        }
        r.push(raw[i]);
        i = i + 1;
        assert(r@ =~= raw@.take(i as int));
    }
    proof {
        lemma_first_zero_skip(raw@, i as int);
        assert(raw@.take(i as int) =~= raw@);
    }
    r
}

/// A zero status is a failure of `step`, reported with the log's text;
/// any other status is success.
pub fn check_status(step: BuildStep, status: i32, log: &Vec<u8>) -> (r: Result<(), BuildError>)
    ensures
        r is Ok <==> status != 0,
        r matches Err(BuildError::Compile(t)) ==> step == BuildStep::Compile,
        r matches Err(BuildError::Link(t)) ==> step == BuildStep::Link,
        r matches Err(BuildError::Compile(t)) ==> t@ == log_text_spec(log@),
        r matches Err(BuildError::Link(t)) ==> t@ == log_text_spec(log@),
{
    if status != 0 {
        return Ok(());
    }
    let text = log_text(log);
    match step {
        BuildStep::Compile => Err(BuildError::Compile(text)),
        BuildStep::Link => Err(BuildError::Link(text)),
    }
}

} // verus!
