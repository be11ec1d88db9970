//! Run-capacity estimation for the external sort: process resource limits
//! and live memory telemetry, progressively capped so that a run never asks
//! for more memory than the process may hold or the machine can spare, with
//! a caller-supplied floor guaranteeing forward progress.
use vstd::prelude::*;

use sysinfo::SystemExt;

verus! {

#[verifier::external_type_specification]
#[verifier::external_body]
pub struct ExSystem(sysinfo::System);

/// Relies on `sysinfo::System::new_all` (via `SystemExt`): a snapshot of the
/// machine's memory telemetry, refreshed at creation.  Nothing is assumed of
/// the values it will report.
#[verifier::external_body]
fn system_snapshot() -> sysinfo::System {
    sysinfo::System::new_all()
}

/// Relies on `sysinfo::SystemExt::total_memory`: the machine's total memory
/// in bytes; nothing is assumed of the value.
#[verifier::external_body]
fn system_total_memory(sys: &sysinfo::System) -> u64 {
    sys.total_memory()
}

/// Relies on `sysinfo::SystemExt::used_memory`: the memory in use in bytes;
/// nothing is assumed of the value.
#[verifier::external_body]
fn system_used_memory(sys: &sysinfo::System) -> u64 {
    sys.used_memory()
}

/// Relies on `rlimit::getrlimit` with `Resource::DATA`: the soft limit on
/// the process's data segment, where the platform reports one.
#[verifier::external_body]
fn get_resource_limit_data() -> Option<u64> {
    rlimit::getrlimit(rlimit::Resource::DATA).ok().map(|lim| lim.0)
}

/// Relies on `rlimit::getrlimit` with `Resource::AS`: the soft limit on the
/// process's mapped address space, where the platform reports one.
#[verifier::external_body]
fn get_resource_limit_as() -> Option<u64> {
    rlimit::getrlimit(rlimit::Resource::AS).ok().map(|lim| lim.0)
}

/// Relies on `rlimit::getrlimit` with `Resource::RSS`: the soft limit on the
/// process's resident set size, where the platform reports one.
#[verifier::external_body]
fn get_resource_limit_rss() -> Option<u64> {
    rlimit::getrlimit(rlimit::Resource::RSS).ok().map(|lim| lim.0)
}

/// `(available, total)` memory of a fresh telemetry snapshot; available is
/// what is not in use, never above the total.
pub fn get_memory_info() -> (r: (u64, u64))
    ensures
        r.0 <= r.1,
{
    let sys = system_snapshot();
    let total = system_total_memory(&sys);
    let used = system_used_memory(&sys);
    let available = if used <= total {
        total - used
    } else {
        0
    };
    (available, total)
}

/// The run-capacity formula: the minimum of the data-segment and
/// address-space limits where reported, halved as a safety margin, capped to
/// 15/16 of the resident-set limit where reported, capped to 3/4 of total
/// memory, capped to the larger of available memory and an eighth of total,
/// and finally floored at `min_sort_size`.
pub open spec fn sort_size_formula(
    data_limit: Option<u64>,
    as_limit: Option<u64>,
    rss_limit: Option<u64>,
    available: u64,
    total: u64,
    min_sort_size: u64,
) -> u64 {
    let s0 = u64::MAX;
    let s1 = if data_limit is Some && data_limit->0 < s0 { data_limit->0 } else { s0 };
    let s2 = if as_limit is Some && as_limit->0 < s1 { as_limit->0 } else { s1 };
    let s3 = (s2 / 2) as u64;
    let s4 = if rss_limit is Some && ((rss_limit->0 / 16) * 15) < s3 {
        ((rss_limit->0 / 16) * 15) as u64
    } else {
        s3
    };
    let memory = if available >= (total / 8) as u64 { available } else { (total / 8) as u64 };
    let s5 = if ((total / 4) * 3) < s4 { ((total / 4) * 3) as u64 } else { s4 };
    let s6 = if memory < s5 { memory } else { s5 };
    if s6 >= min_sort_size { s6 } else { min_sort_size }
}

/// Computes the run capacity from the given limits and telemetry, exactly by
/// the formula; the result never falls below the floor.
pub fn compute_sort_size(
    data_limit: Option<u64>,
    as_limit: Option<u64>,
    rss_limit: Option<u64>,
    available: u64,
    total: u64,
    min_sort_size: u64,
) -> (r: u64)
    ensures
        r == sort_size_formula(data_limit, as_limit, rss_limit, available, total, min_sort_size),
        r >= min_sort_size,
{
    let mut size: u64 = u64::MAX;
    if let Some(limit) = data_limit {
        if limit < size {
            size = limit;
        }
    }
    if let Some(limit) = as_limit {
        if limit < size {
            size = limit;
        }
    }
    size = size / 2;
    if let Some(limit) = rss_limit {
        proof {
            assert(limit / 16 <= u64::MAX / 16);
            assert((limit / 16) * 15 <= (u64::MAX / 16) * 15);
        }
        let capped = limit / 16 * 15;
        if capped < size {
            size = capped;
        }
    }
    let eighth = total / 8;
    let memory = if available >= eighth {
        available
    } else {
        eighth
    };
    proof {
        assert(total / 4 <= u64::MAX / 4);
        assert((total / 4) * 3 <= (u64::MAX / 4) * 3);
    }
    let three_quarters = total / 4 * 3;
    if three_quarters < size {
        size = three_quarters;
    }
    if memory < size {
        size = memory;
    }
    if size >= min_sort_size {
        size
    } else {
        min_sort_size
    }
}

/// Estimates the external sort's run capacity from the process's resource
/// limits and the machine's memory telemetry, floored at `min_sort_size`.
pub fn get_default_sort_size(min_sort_size: u64) -> (r: u64)
    ensures
        r >= min_sort_size,
{
    let data_limit = get_resource_limit_data();
    let as_limit = get_resource_limit_as();
    let rss_limit = get_resource_limit_rss();
    let (available, total) = get_memory_info();
    compute_sort_size(data_limit, as_limit, rss_limit, available, total, min_sort_size)
}

} // verus!
