//! The error taxonomy of the engine. Every subsystem returns a typed
//! result; no error is silently downgraded or swallowed.

use vstd::prelude::*;

verus! {

/// Classifies every failure the engine can surface.
///
/// `Network` is transient and eligible for bounded retry; `HttpStatus`,
/// `ChecksumMismatch` and `AmbiguousSelection` are fatal; `AlreadyInstalled`
/// is non-fatal and short-circuits an install; `PortableConflict` is
/// rejected before any state mutation; `LockContention` reports that
/// another operation holds the per-package advisory lock.
#[derive(Clone, Copy, PartialEq, Eq, Structural, Debug)]
pub enum SoarError {
    Config,
    Database,
    Network,
    HttpStatus(u16),
    ChecksumMismatch,
    PackageNotFound,
    AmbiguousPackage,
    AlreadyInstalled,
    PortableConflict,
    LockContention,
    AmbiguousSelection,
    NoCandidate,
}

impl SoarError {
    /// Transient errors may be retried by the download orchestrator;
    /// everything else is fatal on first occurrence.
    pub fn is_transient(&self) -> (r: bool)
        ensures
            r == (*self == SoarError::Network),
    {
        match self {
            SoarError::Network => true,
            _ => false,
        }
    }

    /// A short stable label for the presentation layer.
    pub fn label(&self) -> &'static str {
        match self {
            SoarError::Config => "config error",
            SoarError::Database => "database error",
            SoarError::Network => "network error",
            SoarError::HttpStatus(_) => "http status error",
            SoarError::ChecksumMismatch => "checksum mismatch",
            SoarError::PackageNotFound => "package not found",
            SoarError::AmbiguousPackage => "ambiguous package",
            SoarError::AlreadyInstalled => "already installed",
            SoarError::PortableConflict => "portable options conflict",
            SoarError::LockContention => "lock contention",
            SoarError::AmbiguousSelection => "ambiguous selection",
            SoarError::NoCandidate => "no candidate",
        }
    }
}

/// Decides whether a failed transfer attempt is retried: only transient
/// network errors are retried, and only while fewer than `max_attempts`
/// attempts have been made.
pub fn should_retry(err: &SoarError, attempts_made: u64, max_attempts: u64) -> (r: bool)
    ensures
        r == (*err == SoarError::Network && attempts_made < max_attempts),
{
    err.is_transient() && attempts_made < max_attempts
}

/// What to do about a transfer destination that may already exist.
#[derive(Clone, Copy, PartialEq, Eq, Structural, Debug)]
pub enum FetchDecision {
    /// Short-circuit: the existing file is used without verification.
    UseExisting,
    /// Perform the transfer (clobbering any existing destination).
    Transfer,
}

/// The skip/overwrite policy of a fetch: `skip_existing` short-circuits
/// only when the destination already exists and is nonempty, and
/// `force_overwrite` bypasses the short-circuit entirely.
pub fn fetch_decision(
    dest_exists: bool,
    dest_nonempty: bool,
    skip_existing: bool,
    force_overwrite: bool,
) -> (r: FetchDecision)
    ensures
        r == (if skip_existing && !force_overwrite && dest_exists && dest_nonempty {
            FetchDecision::UseExisting
        } else {
            FetchDecision::Transfer
        }),
{
    if skip_existing && !force_overwrite && dest_exists && dest_nonempty {
        FetchDecision::UseExisting
    } else {
        FetchDecision::Transfer
    }
}

/// The retry delay after a number of attempts: the base doubled per
/// attempt, never above the cap.
pub open spec fn spec_backoff(base: u64, attempt: u64, cap: u64) -> u64
    decreases attempt,
{
    if attempt == 0 {
        if base < cap {
            base
        } else {
            cap
        }
    } else {
        let p = spec_backoff(base, (attempt - 1) as u64, cap);
        if p >= cap {
            cap
        } else if p * 2 < cap {
            (p * 2) as u64
        } else {
            cap
        }
    }
}

/// Capped exponential backoff, as the retry policy applies it.
pub fn backoff_delay(base: u64, attempt: u64, cap: u64) -> (r: u64)
    ensures
        r == spec_backoff(base, attempt, cap),
        r <= cap,
{
    let mut r: u64 = if base < cap {
        base
    } else {
        cap
    };
    let mut i: u64 = 0;
    while i < attempt
        invariant
            i <= attempt,
            r == spec_backoff(base, i, cap),
            r <= cap,
        decreases attempt - i,
    {
        if r >= cap {
            r = cap;
        } else if r <= (cap - 1) / 2 {
            r = r * 2;
        } else {
            r = cap;
        }
        i += 1;
    }
    r
}

} // verus!
