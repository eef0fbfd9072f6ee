//! The title bar: what is monitored, and what the monitor itself uses.

use vstd::prelude::*;
use vstd::arithmetic::power2::{
    lemma2_to64, lemma2_to64_rest, lemma_pow2_adds, lemma_pow2_pos, lemma_pow2_strictly_increases,
    pow2,
};
use crate::app::{App, SelfStats};
use crate::float::{
    bit_length, doubled, lemma_bit_length, lemma_length_between, lemma_nearest_exponent,
    lemma_pow2_128, nearest, of_int, quotient, Float, Soft, DOUBLE,
};
use crate::format::{
    bytes_number, bytes_shown, bytes_text, data_rate_shown, fixed, fixed_text, format_bytes,
    format_data_rate, rate_number, rate_text,
};
use crate::number::{decimal, decimal_text};
use crate::rate::{duration_in_seconds, lemma_packed_unpacked, Rate, INFINITE};
use crate::slurm::coordinator::CoordinatorState;
use crate::table::in_order;
use crate::ui::layout::{blank, byte_len, count_bytes, lemma_space_bytes, spaces};

verus! {

/// The integer nearest to a number, the greater of two that are equally near.
pub open spec fn nearest_up(f: Float) -> nat {
    if f.exp >= 0 {
        f.mant * pow2(f.exp as nat)
    } else {
        let d = pow2((-f.exp) as nat);
        (2 * f.mant + d) / (2 * d)
    }
}

/// A rate as a 32-bit integer; none is zero, and what is too great is the greatest.
pub open spec fn rounded(r: Rate) -> u32 {
    if r.pending() {
        0
    } else if r.bits == INFINITE {
        u32::MAX
    } else if nearest_up(r.value()) > u32::MAX {
        u32::MAX
    } else {
        nearest_up(r.value()) as u32
    }
}

/// A rate as a 32-bit integer.
pub fn round_rate(r: Rate) -> (n: u32)
    ensures
        n == rounded(r),
{
    if r.is_pending() {
        return 0;
    }
    if r.bits == INFINITE {
        return u32::MAX;
    }
    let f = r.soft();
    proof {
        lemma_packed_unpacked(r.bits);
        lemma_pow2_128();
        lemma2_to64();
        lemma2_to64_rest();
    }
    if f.exp >= 0 {
        proof {
            if f.exp < 104 {
                lemma_pow2_strictly_increases(f.exp as nat, 104);
            }
            lemma_pow2_adds(24, 104);
            lemma_pow2_pos(f.exp as nat);
            let p = pow2(f.exp as nat);
            let m = f.mant as nat;
            assert(m * p <= pow2(24) * pow2(104) - 1) by (nonlinear_arith)
                requires
                    m < pow2(24),
                    0 < p <= pow2(104),
            ;
        }
        let n: u128 = doubled(f.mant as u128, f.exp as u32);
        if n > 0xffff_ffff {
            u32::MAX
        } else {
            n as u32
        }
    } else {
        let k: u32 = (-f.exp) as u32;
        if k >= 64 {
            proof {
                if k > 64 {
                    lemma_pow2_strictly_increases(64, k as nat);
                }
                let d = pow2(k as nat);
                vstd::arithmetic::div_mod::lemma_fundamental_div_mod_converse(
                    2 * f.mant + d,
                    2 * d as int,
                    0,
                    2 * f.mant + d,
                );
            }
            0
        } else {
            proof {
                lemma_pow2_strictly_increases(k as nat, 64);
                lemma_pow2_pos(k as nat);
            }
            let d: u128 = doubled(1, k);
            let n: u128 = (2 * f.mant as u128 + d) / (2 * d);
            if n > 0xffff_ffff {
                u32::MAX
            } else {
                n as u32
            }
        }
    }
}

/// An interval in seconds, in double precision.
pub open spec fn interval_seconds(ms: u64) -> Float {
    duration_in_seconds(ms as nat / 1000, (ms as nat % 1000) * 1_000_000, DOUBLE as nat)
}

/// The refreshes per second that an interval makes.
pub open spec fn refreshes_shown(ms: u64) -> Seq<char> {
    if ms == 0 {
        "inf"@
    } else {
        fixed(
            quotient(of_int(1, DOUBLE as nat), interval_seconds(ms), DOUBLE as nat),
            false,
        )
    }
}

fn seconds_of(ms: u64) -> (r: Soft)
    ensures
        r@ == interval_seconds(ms),
        r.ready(DOUBLE, 2000),
        ms > 0 ==> r.mant > 0 && r.exp >= -170,
{
    let whole = Soft::of(ms / 1000, DOUBLE);
    let nanos: u64 = (ms % 1000) * 1_000_000;
    let top = Soft::of(nanos, DOUBLE);
    let bottom = Soft::of(1_000_000_000, DOUBLE);
    let part = top.div(bottom, DOUBLE);
    let r = whole.plus(part, DOUBLE);
    proof {
        if ms > 0 {
            lemma_pow2_128();
            reveal_with_fuel(bit_length, 2);
            lemma_zero_exponent((ms / 1000) as nat);
            lemma_zero_exponent(nanos as nat);
            lemma_zero_part(top@, bottom@);
            if ms / 1000 > 0 {
                lemma_bit_length((ms / 1000) as nat);
                lemma_nearest_exponent((ms / 1000) as nat, 1, 53);
            }
            lemma_nearest_exponent(1_000_000_000, 1, 53);
            lemma2_to64();
            lemma_length_between(1_000_000_000, 30);
            if nanos > 0 {
                lemma_bit_length(nanos as nat);
                lemma_nearest_exponent(nanos as nat, 1, 53);
                lemma_length_between(top.mant as nat, 53);
                lemma_length_between(bottom.mant as nat, 53);
                lemma_nearest_exponent(top.mant as nat, bottom.mant as nat, 53);
            }
            assert(whole.exp >= -110 && part.exp >= -110);
            let total = if whole.exp >= part.exp {
                crate::float::aligned(whole@, part@)
            } else {
                crate::float::aligned(part@, whole@)
            };
            if total > 0 {
                lemma_nearest_exponent(total, 1, 53);
            } else {
                reveal(nearest);
            }
        }
    }
    r
}

proof fn lemma_zero_exponent(n: nat)
    ensures
        n == 0 ==> of_int(n, 53).exp == 0 && of_int(n, 53).mant == 0,
{
    reveal(nearest);
}

proof fn lemma_zero_part(a: Float, b: Float)
    ensures
        a.mant == 0 ==> quotient(a, b, 53).exp == 0,
{
    reveal(nearest);
}

/// The refreshes per second that an interval makes.
pub fn refreshes_text(ms: u64) -> (r: String)
    ensures
        r@ == refreshes_shown(ms),
{
    if ms == 0 {
        return "inf".to_string();
    }
    let one = Soft::of(1, DOUBLE);
    let seconds = seconds_of(ms);
    let hz = one.div(seconds, DOUBLE);
    proof {
        lemma_pow2_128();
        lemma2_to64();
        lemma2_to64_rest();
        reveal_with_fuel(bit_length, 2);
        lemma_nearest_exponent(1, 1, 53);
        lemma_length_between(one.mant as nat, 53);
        lemma_length_between(seconds.mant as nat, 53);
        lemma_nearest_exponent(one.mant as nat, seconds.mant as nat, 53);
        if hz.exp >= 0 {
            assert(hz.exp <= 70);
            if hz.exp < 70 {
                lemma_pow2_strictly_increases(hz.exp as nat, 70);
            }
            lemma_pow2_pos(hz.exp as nat);
            lemma_pow2_adds(53, 70);
            lemma_pow2_strictly_increases(123, 128);
            let m = hz.mant as nat;
            let q = pow2(hz.exp as nat);
            assert(m * q <= pow2(53) * pow2(70)) by (nonlinear_arith)
                requires
                    m < pow2(53),
                    0 < q <= pow2(70),
            ;
        }
    }
    fixed_text(hz, false)
}

/// What the monitor itself uses.
pub open spec fn self_stats_shown(stats: SelfStats, interval: u64) -> Seq<char> {
    refreshes_shown(interval) + "Hz "@ + decimal(rounded(stats.fps) as nat) + "fps "@ + rate_number(
        stats.refresh_time_ms,
        0,
        true,
    ) + "ms  cpu:"@ + rate_number(stats.cpu_percent, 0, true) + "% mem:"@ + bytes_shown(
        stats.memory_bytes,
    ) + " "@
}

/// What the monitor of one machine itself uses.
pub fn self_stats_text(stats: &SelfStats, interval: u64) -> (r: String)
    ensures
        r@ == self_stats_shown(*stats, interval),
{
    let mut out = refreshes_text(interval);
    out.append("Hz ");
    out.append(decimal_text(round_rate(stats.fps) as u128).as_str());
    out.append("fps ");
    out.append(rate_text(stats.refresh_time_ms, 0, true).as_str());
    out.append("ms  cpu:");
    out.append(rate_text(stats.cpu_percent, 0, true).as_str());
    out.append("% mem:");
    out.append(format_bytes(stats.memory_bytes).as_str());
    out.append(" ");
    out
}

/// What is left of a line between two texts.
pub open spec fn gap_of(width: u16, left: Seq<char>, right: Seq<char>) -> nat {
    let used = byte_len(left) + byte_len(right);
    if used < width {
        (width - used) as nat
    } else {
        0
    }
}

/// What is left of a line between two texts.
pub fn gap(width: u16, left: &str, right: &str) -> (r: usize)
    ensures
        r == gap_of(width, left@, right@),
{
    let a: u128 = count_bytes(left);
    let b: u128 = count_bytes(right);
    if a >= width as u128 {
        0
    } else if b >= width as u128 - a {
        0
    } else {
        (width as u128 - a - b) as usize
    }
}

/// The title bar: its title, the gap and what the monitor itself uses
#[derive(Debug)]
pub struct TitleBar {
    pub title: String,
    pub padding: String,
    pub stats: String,
}

pub struct TitleBarView {
    pub title: Seq<char>,
    pub padding: Seq<char>,
    pub stats: Seq<char>,
}

impl View for TitleBar {
    type V = TitleBarView;

    open spec fn view(&self) -> TitleBarView {
        TitleBarView { title: self.title@, padding: self.padding@, stats: self.stats@ }
    }
}

/// The title bar of one machine's view; its gap is at most 256 wide.
pub open spec fn local_title(stats: SelfStats, interval: u64, width: u16) -> TitleBarView {
    let title = " jam - cgroup/process tree "@;
    let shown = self_stats_shown(stats, interval);
    let n = gap_of(width, title, shown);
    TitleBarView {
        title,
        padding: spaces(
            if n < 256 {
                n
            } else {
                256
            },
        ),
        stats: shown,
    }
}

/// The title bar of one machine's view.
pub fn render_title(app: &App, width: u16) -> (r: TitleBar)
    ensures
        r@ == local_title(app@.self_stats, app@.refresh_interval, width),
{
    let title = " jam - cgroup/process tree ".to_string();
    let stats = self_stats_text(&app.self_stats, app.refresh_interval);
    let n = gap(width, title.as_str(), stats.as_str());
    let padding = if n < 256 {
        blank(n)
    } else {
        blank(256)
    };
    TitleBar { title, padding, stats }
}

/// The title of a job's view.
pub open spec fn job_title(
    job_id: u32,
    name: Seq<char>,
    connected: nat,
    total: nat,
) -> Seq<char> {
    " jam - Job "@ + decimal(job_id as nat) + " ("@ + name + ") | Nodes: "@ + decimal(connected)
        + "/"@ + decimal(total) + " "@
}

/// What the coordinator itself uses and receives.
pub open spec fn job_stats_shown(stats: SelfStats, compact: bool, data_rate: Rate) -> Seq<char> {
    (if compact {
        "[C]"@
    } else {
        "[D]"@
    }) + " "@ + rate_number(stats.fps, 0, false) + "fps "@ + data_rate_shown(data_rate) + " "@
        + rate_number(stats.cpu_percent, 0, true) + "% "@ + bytes_number(
        stats.memory_bytes,
        20,
        true,
    ) + "Mi "@
}

fn job_stats_text(stats: &SelfStats, compact: bool, data_rate: Rate) -> (r: String)
    ensures
        r@ == job_stats_shown(*stats, compact, data_rate),
{
    let mut out = if compact {
        "[C]".to_string()
    } else {
        "[D]".to_string()
    };
    out.append(" ");
    out.append(rate_text(stats.fps, 0, false).as_str());
    out.append("fps ");
    out.append(format_data_rate(data_rate).as_str());
    out.append(" ");
    out.append(rate_text(stats.cpu_percent, 0, true).as_str());
    out.append("% ");
    out.append(bytes_text(stats.memory_bytes, 20, true).as_str());
    out.append("Mi ");
    out
}

fn job_title_text(job_id: u32, name: &str, connected: usize, total: usize) -> (r: String)
    ensures
        r@ == job_title(job_id, name@, connected as nat, total as nat),
{
    let mut out = " jam - Job ".to_string();
    out.append(decimal_text(job_id as u128).as_str());
    out.append(" (");
    out.append(name);
    out.append(") | Nodes: ");
    out.append(decimal_text(connected as u128).as_str());
    out.append("/");
    out.append(decimal_text(total as u128).as_str());
    out.append(" ");
    out
}

/// The title bar of a job's view.
pub fn render_job_title(state: &CoordinatorState, width: u16) -> (r: TitleBar)
    requires
        state.wf(),
    ensures
        ({
            let v = state@;
            let title = job_title(
                v.job_info.job_id,
                v.job_info.name,
                v.connected_count as nat,
                v.node_status.len(),
            );
            let stats = job_stats_shown(
                v.self_stats,
                v.compact_mode,
                v.data_rate_of(in_order(v.node_stats.dom())),
            );
            r@ == (TitleBarView {
                title,
                padding: spaces(gap_of(width, title, stats)),
                stats,
            })
        }),
{
    let title = job_title_text(
        state.job_info.job_id,
        state.job_info.name.as_str(),
        state.connected_nodes(),
        state.total_nodes(),
    );
    let stats = job_stats_text(&state.self_stats, state.compact_mode, state.total_data_rate());
    let padding = blank(gap(width, title.as_str(), stats.as_str()));
    TitleBar { title, padding, stats }
}

/// The gap brings the stats to the end of the line, where both texts fit in it.
pub proof fn title_fills_the_line(width: u16, title: Seq<char>, stats: Seq<char>)
    requires
        byte_len(title) + byte_len(stats) <= width,
    ensures
        byte_len(title) + byte_len(spaces(gap_of(width, title, stats))) + byte_len(stats) == width,
{
    lemma_space_bytes(gap_of(width, title, stats));
}

}
