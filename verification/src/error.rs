//! Structured errors, execution limits, and the cooperative work budget.
use vstd::prelude::*;

verus! {

/// Classification of every failure the library reports.
#[derive(Clone, Copy, Debug, PartialEq, Eq, Structural)]
pub enum ErrorCode {
    MalformedInput,
    DomainViolation,
    UnknownFunction,
    UnsupportedOperation,
    UnsupportedNumericMode,
    NotFound,
    ResourceLimit,
    InsufficientObservations,
    NonConvergence,
    Internal,
}

/// An error with its code, a human-readable explanation, and the path of the
/// argument at fault (such as `weights[1]`) where there is one.
#[derive(Debug)]
pub struct EngineError {
    pub code: ErrorCode,
    pub message: &'static str,
    pub path: Option<String>,
}

impl EngineError {
    pub fn new(code: ErrorCode, message: &'static str) -> (r: EngineError)
        ensures
            r.code == code,
            r.message == message,
            r.path is None,
    {
        EngineError { code, message, path: None }
    }

    pub fn malformed(message: &'static str) -> (r: EngineError)
        ensures
            r.code == ErrorCode::MalformedInput,
            r.message == message,
            r.path is None,
    {
        EngineError { code: ErrorCode::MalformedInput, message, path: None }
    }

    pub fn domain(message: &'static str) -> (r: EngineError)
        ensures
            r.code == ErrorCode::DomainViolation,
            r.message == message,
            r.path is None,
    {
        EngineError { code: ErrorCode::DomainViolation, message, path: None }
    }

    /// The same error, located at the argument `path`.
    pub fn with_path(self, path: String) -> (r: EngineError)
        ensures
            r.code == self.code,
            r.message == self.message,
            r.path == Some(path),
    {
        EngineError { code: self.code, message: self.message, path: Some(path) }
    }
}

/// How numeric results may be represented.
#[derive(Clone, Copy, Debug, PartialEq, Eq, Structural)]
pub enum NumericMode {
    /// Only exact results are accepted.
    Exact,
    /// Exact where possible, approximate otherwise.
    Auto,
    /// Binary64 results are accepted.
    Scientific,
}

/// Work limits for one request.
#[derive(Clone, Copy, Debug)]
pub struct Limits {
    /// Upper bound on the number of expression nodes one walk may visit.
    pub max_operations: u64,
    /// Upper bound on a derivative order or series length.
    pub max_series_terms: u64,
}

impl Limits {
    /// The default limits used for interactive requests.
    pub fn conservative() -> (r: Limits)
        ensures
            r.max_operations == 1_000_000,
            r.max_series_terms == 100,
    {
        Limits { max_operations: 1_000_000, max_series_terms: 100 }
    }
}

/// A cooperative work budget shared by every recursive expression walk.
pub struct Budget {
    used: u64,
    max: u64,
}

impl Budget {
    /// Operations counted so far.
    pub closed spec fn spent(&self) -> int {
        self.used as int
    }

    /// The largest count that is still within the budget.
    pub closed spec fn limit(&self) -> int {
        self.max as int
    }

    pub fn new(max_operations: u64) -> (r: Budget)
        ensures
            r.spent() == 0,
            r.limit() == max_operations,
    {
        Budget { used: 0, max: max_operations }
    }

    /// Count one operation; fails with `ResourceLimit` once the count exceeds
    /// the limit.
    pub fn tick(&mut self) -> (r: Result<(), EngineError>)
        ensures
            final(self).limit() == old(self).limit(),
            final(self).spent() == if old(self).spent() < u64::MAX {
                old(self).spent() + 1
            } else {
                old(self).spent()
            },
            r is Ok <==> final(self).spent() <= final(self).limit(),
            r matches Err(e) ==> e.code == ErrorCode::ResourceLimit,
    {
        self.used = self.used.saturating_add(1);
        if self.used > self.max {
            return Err(EngineError::new(ErrorCode::ResourceLimit, "symbolic operation budget exceeded"));
        }
        Ok(())
    }
}

/// The result failed because the work budget ran out.
pub open spec fn exhausted<T>(r: Result<T, EngineError>) -> bool {
    r matches Err(e) && e.code == ErrorCode::ResourceLimit
}

/// Accounting of a walk that may cost up to `cost` operations: the limit is
/// unchanged, the count never decreases, a walk that completes spends at most
/// `cost`, and a walk started with room for `cost` operations does not run out.
pub open spec fn budget_ok(before: Budget, after: Budget, cost: int, ran_out: bool) -> bool {
    &&& after.limit() == before.limit()
    &&& before.spent() <= after.spent()
    &&& !ran_out ==> after.spent() <= before.spent() + cost
    &&& before.spent() + cost <= before.limit() ==> !ran_out
}

} // verus!
