//! What is known of each origin, and rates over time.

use crate::num::imax;
use crate::text::{clone_opt, opt_view};
use vstd::prelude::*;
use vstd::string::*;

verus! {

/// What is known of one origin URL.
#[derive(Debug, Clone)]
pub struct UrlHealth {
    pub url: String,
    pub last_status: Option<u16>,
    pub last_error: Option<String>,
    pub last_latency_ms: Option<u64>,
    pub bytes_contributed: u64,
    pub successful_requests: u64,
    pub failed_requests: u64,
    pub current_speed_bps: u64,
    pub last_used_at: Option<u64>,
    /// Requests currently in flight against this URL.
    pub in_flight_requests: u32,
    /// Size of the volume this URL belongs to, once it is known.
    pub volume_size: Option<u64>,
}

/// The record that is kept of one origin URL.
#[derive(Debug)]
pub struct UrlHealthAcc {
    pub url: String,
    pub last_status: Option<u16>,
    pub last_error: Option<String>,
    /// 0 until the first answer.
    pub last_latency_ms: u64,
    pub bytes_contributed: u64,
    pub successful_requests: u64,
    pub failed_requests: u64,
    /// 0 until the first use.
    pub last_used_at: u64,
    /// Bytes since the last tick.
    pub window_bytes: u64,
    pub current_speed_bps: u64,
    pub in_flight_requests: u32,
    /// The validator that this very URL was seen to serve. Copies of the same
    /// content often differ in it, so each URL is compared with itself alone.
    pub observed_etag: Option<String>,
    /// How often the URL has contradicted its own validator.
    pub etag_mismatches: u32,
}

#[verifier::ext_equal]
pub ghost struct HealthView {
    pub url: Seq<char>,
    pub last_status: Option<u16>,
    pub last_error: Option<Seq<char>>,
    pub last_latency_ms: u64,
    pub bytes_contributed: u64,
    pub successful_requests: u64,
    pub failed_requests: u64,
    pub last_used_at: u64,
    pub window_bytes: u64,
    pub current_speed_bps: u64,
    pub in_flight_requests: u32,
    pub observed_etag: Option<Seq<char>>,
    pub etag_mismatches: u32,
}

impl View for UrlHealthAcc {
    type V = HealthView;

    open spec fn view(&self) -> HealthView {
        HealthView {
            url: self.url@,
            last_status: self.last_status,
            last_error: opt_view(self.last_error),
            last_latency_ms: self.last_latency_ms,
            bytes_contributed: self.bytes_contributed,
            successful_requests: self.successful_requests,
            failed_requests: self.failed_requests,
            last_used_at: self.last_used_at,
            window_bytes: self.window_bytes,
            current_speed_bps: self.current_speed_bps,
            in_flight_requests: self.in_flight_requests,
            observed_etag: opt_view(self.observed_etag),
            etag_mismatches: self.etag_mismatches,
        }
    }
}

impl HealthView {
    /// Nothing is known yet.
    pub open spec fn fresh(url: Seq<char>) -> HealthView {
        HealthView {
            url,
            last_status: None,
            last_error: None,
            last_latency_ms: 0,
            bytes_contributed: 0,
            successful_requests: 0,
            failed_requests: 0,
            last_used_at: 0,
            window_bytes: 0,
            current_speed_bps: 0,
            in_flight_requests: 0,
            observed_etag: None,
            etag_mismatches: 0,
        }
    }
}

/// A record as it is shown. A latency or a time of 0 is not known yet.
pub open spec fn shown_as(u: UrlHealth, h: HealthView, volume_size: Option<u64>) -> bool {
    &&& u.url@ == h.url
    &&& u.last_status == h.last_status
    &&& opt_view(u.last_error) == h.last_error
    &&& u.last_latency_ms == if h.last_latency_ms == 0 {
        None
    } else {
        Some(h.last_latency_ms)
    }
    &&& u.bytes_contributed == h.bytes_contributed
    &&& u.successful_requests == h.successful_requests
    &&& u.failed_requests == h.failed_requests
    &&& u.current_speed_bps == h.current_speed_bps
    &&& u.last_used_at == if h.last_used_at == 0 {
        None
    } else {
        Some(h.last_used_at)
    }
    &&& u.in_flight_requests == h.in_flight_requests
    &&& u.volume_size == volume_size
}

pub open spec fn wrap64(n: int) -> u64 {
    (n % 0x1_0000_0000_0000_0000) as u64
}

/// Bytes over nanoseconds, as bytes per second. Less than a millisecond counts as
/// one; what does not fit a machine word is its largest value.
pub open spec fn per_second(bytes: int, elapsed_ns: int) -> int {
    crate::num::imin(bytes * 1_000_000_000 / imax(elapsed_ns, 1_000_000), u64::MAX as int)
}

pub fn rate(bytes: u64, elapsed_ns: u64) -> (out: u64)
    ensures
        out == per_second(bytes as int, elapsed_ns as int),
{
    let ns: u64 = if elapsed_ns < 1_000_000 {
        1_000_000
    } else {
        elapsed_ns
    };
    let wide: u128 = crate::num::wide_mul(bytes, 1_000_000_000);
    let q: u128 = wide / (ns as u128);
    if q > 0xffff_ffff_ffff_ffff {
        0xffff_ffff_ffff_ffff
    } else {
        q as u64
    }
}

impl Clone for UrlHealthAcc {
    fn clone(&self) -> (out: Self)
        ensures
            out@ == self@,
    {
        UrlHealthAcc {
            url: self.url.clone(),
            last_status: self.last_status,
            last_error: clone_opt(&self.last_error),
            last_latency_ms: self.last_latency_ms,
            bytes_contributed: self.bytes_contributed,
            successful_requests: self.successful_requests,
            failed_requests: self.failed_requests,
            last_used_at: self.last_used_at,
            window_bytes: self.window_bytes,
            current_speed_bps: self.current_speed_bps,
            in_flight_requests: self.in_flight_requests,
            observed_etag: clone_opt(&self.observed_etag),
            etag_mismatches: self.etag_mismatches,
        }
    }
}

impl UrlHealthAcc {
    pub fn new(url: String) -> (out: Self)
        ensures
            out@ == HealthView::fresh(url@),
    {
        UrlHealthAcc {
            url,
            last_status: None,
            last_error: None,
            last_latency_ms: 0,
            bytes_contributed: 0,
            successful_requests: 0,
            failed_requests: 0,
            last_used_at: 0,
            window_bytes: 0,
            current_speed_bps: 0,
            in_flight_requests: 0,
            observed_etag: None,
            etag_mismatches: 0,
        }
    }

    /// The record as it is shown; the size of the volume is for the caller to add.
    pub fn snapshot(&self) -> (out: UrlHealth)
        ensures
            shown_as(out, self@, None),
    {
        UrlHealth {
            url: self.url.clone(),
            last_status: self.last_status,
            last_error: clone_opt(&self.last_error),
            last_latency_ms: if self.last_latency_ms == 0 {
                None
            } else {
                Some(self.last_latency_ms)
            },
            bytes_contributed: self.bytes_contributed,
            successful_requests: self.successful_requests,
            failed_requests: self.failed_requests,
            current_speed_bps: self.current_speed_bps,
            last_used_at: if self.last_used_at == 0 {
                None
            } else {
                Some(self.last_used_at)
            },
            in_flight_requests: self.in_flight_requests,
            volume_size: None,
        }
    }

    /// A request was answered.
    pub fn record_success(&mut self, status: u16, latency_ms: u64, now: u64)
        ensures
            final(self)@ == (HealthView {
                last_status: Some(status),
                last_error: None,
                last_latency_ms: latency_ms,
                successful_requests: wrap64(old(self)@.successful_requests + 1),
                last_used_at: now,
                ..old(self)@
            }),
    {
        self.last_status = Some(status);
        self.last_error = None;
        self.last_latency_ms = latency_ms;
        self.successful_requests = self.successful_requests.wrapping_add(1);
        self.last_used_at = now;
    }

    /// A request failed.
    pub fn record_failure(&mut self, status: Option<u16>, err: &str, now: u64)
        ensures
            final(self)@ == (HealthView {
                last_status: status,
                last_error: Some(err@),
                failed_requests: wrap64(old(self)@.failed_requests + 1),
                last_used_at: now,
                ..old(self)@
            }),
    {
        self.last_status = status;
        self.last_error = Some(err.to_owned());
        self.failed_requests = self.failed_requests.wrapping_add(1);
        self.last_used_at = now;
    }

    /// Bytes came in.
    pub fn record_bytes(&mut self, n: u64)
        ensures
            final(self)@ == (HealthView {
                bytes_contributed: wrap64(old(self)@.bytes_contributed + n),
                window_bytes: wrap64(old(self)@.window_bytes + n),
                ..old(self)@
            }),
    {
        self.bytes_contributed = self.bytes_contributed.wrapping_add(n);
        self.window_bytes = self.window_bytes.wrapping_add(n);
    }

    /// A request begins.
    pub fn begin_request(&mut self)
        ensures
            final(self)@ == (HealthView {
                in_flight_requests: ((old(self)@.in_flight_requests + 1) % 0x1_0000_0000) as u32,
                ..old(self)@
            }),
    {
        self.in_flight_requests = self.in_flight_requests.wrapping_add(1);
    }

    /// A request has ended.
    pub fn end_request(&mut self)
        ensures
            final(self)@ == (HealthView {
                in_flight_requests: ((old(self)@.in_flight_requests + 0xffff_ffff)
                    % 0x1_0000_0000) as u32,
                ..old(self)@
            }),
    {
        self.in_flight_requests = self.in_flight_requests.wrapping_sub(1);
    }

    /// Closes the window: its bytes become the current speed.
    pub fn tick(&mut self, elapsed_ns: u64)
        ensures
            final(self)@ == (HealthView {
                window_bytes: 0,
                current_speed_bps: per_second(
                    old(self)@.window_bytes as int,
                    elapsed_ns as int,
                ) as u64,
                ..old(self)@
            }),
    {
        self.current_speed_bps = rate(self.window_bytes, elapsed_ns);
        self.window_bytes = 0;
    }
}

/// The latest rates, oldest first.
#[derive(Debug)]
pub struct ThroughputSampler {
    pub samples: Vec<u64>,
    pub capacity: usize,
}

pub open spec fn sum(l: Seq<u64>) -> int
    decreases l.len(),
{
    if l.len() == 0 {
        0
    } else {
        sum(l.drop_last()) + l.last()
    }
}

impl ThroughputSampler {
    pub open spec fn wf(self) -> bool {
        0 < self.capacity && self.samples@.len() <= self.capacity
    }

    pub fn new(capacity: usize) -> (out: Self)
        requires
            capacity > 0,
        ensures
            out.wf(),
            out.capacity == capacity,
            out.samples@.len() == 0,
    {
        ThroughputSampler { samples: Vec::new(), capacity }
    }

    /// Takes a rate in; the oldest one goes where there is no room.
    pub fn push(&mut self, bps: u64)
        requires
            old(self).wf(),
        ensures
            final(self).wf(),
            final(self).capacity == old(self).capacity,
            final(self).samples@ == (if old(self).samples@.len() >= old(self).capacity {
                old(self).samples@.drop_first()
            } else {
                old(self).samples@
            }).push(bps),
    {
        if self.samples.len() >= self.capacity {
            let ghost before = self.samples@;
            self.samples.remove(0);
            assert(self.samples@ =~= before.drop_first());
        }
        self.samples.push(bps);
    }

    /// The mean of the last `n` rates, or of all where there are fewer.
    pub fn recent_mean(&self, n: usize) -> (out: u64)
        ensures
            ({
                let l = self.samples@;
                let tail = l.skip(imax(l.len() - n, 0));
                out == if tail.len() == 0 {
                    0
                } else {
                    sum(tail) / tail.len() as int
                }
            }),
    {
        let len: usize = self.samples.len();
        if len == 0 || n == 0 {
            return 0;
        }
        let from: usize = if len > n {
            len - n
        } else {
            0
        };
        let ghost tail = self.samples@.skip(from as int);
        let mut total: u128 = 0;
        let mut i: usize = from;
        assert(tail.take(0) =~= Seq::empty());
        while i < len
            invariant
                from <= i <= len,
                len == self.samples@.len(),
                tail == self.samples@.skip(from as int),
                total == sum(tail.take(i - from)),
                total <= (i - from) * 0xffff_ffff_ffff_ffff,
            decreases len - i,
        {
            proof {
                assert(tail.take(i - from + 1).drop_last() =~= tail.take(i - from));
                assert(tail[i - from] == self.samples@[i as int]);
                assert((i - from) * 0xffff_ffff_ffff_ffff + 0xffff_ffff_ffff_ffff == (i - from + 1)
                    * 0xffff_ffff_ffff_ffff) by (nonlinear_arith);
                assert((i - from + 1) * 0xffff_ffff_ffff_ffff <= 0xffff_ffff_ffff_ffff
                    * 0xffff_ffff_ffff_ffff) by (nonlinear_arith)
                    requires
                        0 <= i - from,
                        i < len,
                        len <= 0xffff_ffff_ffff_ffff,
                ;
            }
            total = total + self.samples[i] as u128;
            i = i + 1;
        }
        assert(tail.take(tail.len() as int) =~= tail);
        let count: u128 = (len - from) as u128;
        proof {
            assert(total / count <= 0xffff_ffff_ffff_ffff) by (nonlinear_arith)
                requires
                    count > 0,
                    total <= count * 0xffff_ffff_ffff_ffff,
            ;
        }
        (total / count) as u64
    }

    pub fn snapshot(&self) -> (out: Vec<u64>)
        ensures
            out@ == self.samples@,
    {
        let mut out: Vec<u64> = Vec::new();
        let mut i: usize = 0;
        while i < self.samples.len()
            invariant
                i <= self.samples@.len(),
                out@ == self.samples@.take(i as int),
            decreases self.samples.len() - i,
        {
            out.push(self.samples[i]);
            assert(self.samples@.take(i as int).push(self.samples@[i as int])
                =~= self.samples@.take(i + 1));
            i = i + 1;
        }
        assert(self.samples@.take(self.samples@.len() as int) =~= self.samples@);
        out
    }

    /// The latest rate.
    pub fn current(&self) -> (out: u64)
        ensures
            out == if self.samples@.len() == 0 {
                0
            } else {
                self.samples@.last()
            },
    {
        if self.samples.len() == 0 {
            0
        } else {
            self.samples[self.samples.len() - 1]
        }
    }
}

} // verus!
