//! Resource-pressure signals, their quantization into a pressure tier, and the time
//! budget broker that splits a global budget over parse, layout and render.
use vstd::prelude::*;
use vstd::string::StringExecFns;

verus! {

/// Where a pressure report came from.
#[derive(Debug, Clone, Copy, PartialEq, Eq, Default, Structural)]
pub enum MermaidPressureSource {
    #[default]
    Unavailable,
    Native,
    Wasm,
}

impl MermaidPressureSource {
    /// The source's name.
    pub open spec fn source_text(self) -> Seq<char> {
        match self {
            MermaidPressureSource::Unavailable => "unavailable"@,
            MermaidPressureSource::Native => "native"@,
            MermaidPressureSource::Wasm => "wasm"@,
        }
    }

    /// The source's name.
    pub fn as_str(self) -> (s: &'static str)
        ensures
            s@ == self.source_text(),
    {
        match self {
            MermaidPressureSource::Unavailable => "unavailable",
            MermaidPressureSource::Native => "native",
            MermaidPressureSource::Wasm => "wasm",
        }
    }
}

/// Coarse pressure level.
#[derive(Debug, Clone, Copy, PartialEq, Eq, Default, Structural)]
pub enum MermaidPressureTier {
    #[default]
    Unknown,
    Nominal,
    Elevated,
    High,
    Critical,
}

/// Tier of a score in permille: below 350 nominal, below 650 elevated, below 850 high,
/// otherwise critical; unknown without telemetry.
pub open spec fn tier_of(score_permille: u16, telemetry_available: bool) -> MermaidPressureTier {
    if !telemetry_available {
        MermaidPressureTier::Unknown
    } else if score_permille < 350 {
        MermaidPressureTier::Nominal
    } else if score_permille < 650 {
        MermaidPressureTier::Elevated
    } else if score_permille < 850 {
        MermaidPressureTier::High
    } else {
        MermaidPressureTier::Critical
    }
}

impl MermaidPressureTier {
    /// The tier's name.
    pub open spec fn tier_text(self) -> Seq<char> {
        match self {
            MermaidPressureTier::Unknown => "unknown"@,
            MermaidPressureTier::Nominal => "nominal"@,
            MermaidPressureTier::Elevated => "elevated"@,
            MermaidPressureTier::High => "high"@,
            MermaidPressureTier::Critical => "critical"@,
        }
    }

    /// The tier's name.
    pub fn as_str(self) -> (s: &'static str)
        ensures
            s@ == self.tier_text(),
    {
        match self {
            MermaidPressureTier::Unknown => "unknown",
            MermaidPressureTier::Nominal => "nominal",
            MermaidPressureTier::Elevated => "elevated",
            MermaidPressureTier::High => "high",
            MermaidPressureTier::Critical => "critical",
        }
    }

    /// The tier of a quantized score.
    pub fn from_quantized_score(score_permille: u16, telemetry_available: bool) -> (t: Self)
        ensures
            t == tier_of(score_permille, telemetry_available),
    {
        if !telemetry_available {
            return MermaidPressureTier::Unknown;
        }
        if score_permille <= 349 {
            MermaidPressureTier::Nominal
        } else if score_permille <= 649 {
            MermaidPressureTier::Elevated
        } else if score_permille <= 849 {
            MermaidPressureTier::High
        } else {
            MermaidPressureTier::Critical
        }
    }
}

/// The pressure observed on one platform, quantized.
#[derive(Debug, Clone, PartialEq, Eq, Default)]
pub struct MermaidPressureReport {
    pub source: MermaidPressureSource,
    pub telemetry_available: bool,
    pub conservative_fallback: bool,
    pub tier: MermaidPressureTier,
    pub quantized_score_permille: u16,
    pub cpu_pressure_permille: Option<u16>,
    pub memory_pressure_permille: Option<u16>,
    pub io_pressure_permille: Option<u16>,
    pub available_parallelism: Option<usize>,
    pub rss_mib: Option<u64>,
    pub frame_budget_ms: Option<u16>,
    pub frame_time_ms: Option<u16>,
    pub event_loop_lag_ms: Option<u16>,
    pub worker_saturation_permille: Option<u16>,
    pub notes: Vec<String>,
}

/// The contents of a list of strings.
pub open spec fn texts(v: Seq<String>) -> Seq<Seq<char>> {
    v.map_values(|s: String| s@)
}

/// The largest of the present values, 0 when none is present.
pub open spec fn max_present(s: Seq<Option<u16>>) -> u16
    decreases s.len(),
{
    if s.len() == 0 {
        0
    } else {
        let rest = max_present(s.drop_last());
        match s.last() {
            Some(v) => if v > rest { v } else { rest },
            None => rest,
        }
    }
}

fn max_present_exec(s: &Vec<Option<u16>>) -> (m: u16)
    ensures
        m == max_present(s@),
{
    let mut m: u16 = 0;
    let mut i: usize = 0;
    while i < s.len()
        invariant
            i <= s.len(),
            m == max_present(s@.take(i as int)),
        decreases s.len() - i,
    {
        proof {
            assert(s@.take(i + 1).drop_last() =~= s@.take(i as int));
        }
        match s[i] {
            Some(v) => {
                if v > m {
                    m = v;
                }
            },
            None => {},
        }
        i = i + 1;
    }
    proof {
        assert(s@.take(i as int) =~= s@);
    }
    m
}

/// Pressure of the available parallelism: fewer cores, more pressure.
pub open spec fn parallelism_pressure(parallelism: usize) -> u16 {
    if parallelism <= 1 {
        900
    } else if parallelism == 2 {
        700
    } else if parallelism <= 4 {
        450
    } else if parallelism <= 8 {
        250
    } else {
        100
    }
}

/// Pressure of the resident set size in MiB.
pub open spec fn rss_pressure(rss_mib: u64) -> u16 {
    if rss_mib <= 255 {
        120
    } else if rss_mib <= 511 {
        320
    } else if rss_mib <= 1023 {
        560
    } else if rss_mib <= 2047 {
        760
    } else {
        920
    }
}

/// Pressure signals sampled on a native platform.
#[derive(Debug, Clone, Copy, PartialEq, Eq, Default, Structural)]
pub struct MermaidNativePressureSignals {
    pub cpu_pressure_permille: Option<u16>,
    pub memory_pressure_permille: Option<u16>,
    pub io_pressure_permille: Option<u16>,
    pub available_parallelism: Option<usize>,
    pub rss_mib: Option<u64>,
}

impl MermaidNativePressureSignals {
    /// The derived pressures of the five signals.
    pub open spec fn pressures(self) -> Seq<Option<u16>> {
        seq![
            self.cpu_pressure_permille,
            self.memory_pressure_permille,
            self.io_pressure_permille,
            match self.available_parallelism { Some(p) => Some(parallelism_pressure(p)), None => None },
            match self.rss_mib { Some(r) => Some(rss_pressure(r)), None => None },
        ]
    }

    /// Whether any signal was observed.
    pub open spec fn any_observed(self) -> bool {
        self.cpu_pressure_permille is Some || self.memory_pressure_permille is Some
            || self.io_pressure_permille is Some || self.available_parallelism is Some
            || self.rss_mib is Some
    }

    /// The notes of the report: missing telemetry, missing parallelism, missing rss.
    pub open spec fn report_notes(self) -> Seq<Seq<char>> {
        let a: Seq<Seq<char>> = if !self.any_observed() {
            seq!["native telemetry unavailable; pressure tier is unknown and callers should use a conservative policy"@]
        } else {
            Seq::empty()
        };
        let b = if self.available_parallelism is None { a.push("available parallelism probe unavailable"@) } else { a };
        if self.rss_mib is None { b.push("rss probe unavailable"@) } else { b }
    }

    /// Quantize the signals: the score is the highest derived pressure (0 when none is
    /// observed), and the tier follows from the score.
    pub fn into_report(self) -> (r: MermaidPressureReport)
        ensures
            r.quantized_score_permille == max_present(self.pressures()),
            r.telemetry_available == self.any_observed(),
            r.conservative_fallback == !self.any_observed(),
            r.source == (if self.any_observed() { MermaidPressureSource::Native } else { MermaidPressureSource::Unavailable }),
            r.tier == tier_of(r.quantized_score_permille, r.telemetry_available),
            r.cpu_pressure_permille == self.cpu_pressure_permille,
            r.memory_pressure_permille == self.memory_pressure_permille,
            r.io_pressure_permille == self.io_pressure_permille,
            r.available_parallelism == self.available_parallelism,
            r.rss_mib == self.rss_mib,
            r.frame_budget_ms is None,
            r.frame_time_ms is None,
            r.event_loop_lag_ms is None,
            r.worker_saturation_permille is None,
            texts(r.notes@) == self.report_notes(),
    {
        let parallelism_pressure: Option<u16> = match self.available_parallelism {
            Some(parallelism) => Some(if parallelism <= 1 {
                900
            } else if parallelism == 2 {
                700
            } else if parallelism <= 4 {
                450
            } else if parallelism <= 8 {
                250
            } else {
                100
            }),
            None => None,
        };
        let rss_pressure: Option<u16> = match self.rss_mib {
            Some(rss_mib) => Some(if rss_mib <= 255 {
                120
            } else if rss_mib <= 511 {
                320
            } else if rss_mib <= 1023 {
                560
            } else if rss_mib <= 2047 {
                760
            } else {
                920
            }),
            None => None,
        };
        let signals = vec![
            self.cpu_pressure_permille,
            self.memory_pressure_permille,
            self.io_pressure_permille,
            parallelism_pressure,
            rss_pressure,
        ];
        proof {
            assert(signals@ =~= self.pressures());
        }
        let quantized_score_permille = max_present_exec(&signals);
        let telemetry_available = self.cpu_pressure_permille.is_some() || self.memory_pressure_permille.is_some()
            || self.io_pressure_permille.is_some() || self.available_parallelism.is_some() || self.rss_mib.is_some();
        let mut notes: Vec<String> = Vec::new();
        if !telemetry_available {
            notes.push(String::from_str(
                "native telemetry unavailable; pressure tier is unknown and callers should use a conservative policy",
            ));
        }
        if self.available_parallelism.is_none() {
            notes.push(String::from_str("available parallelism probe unavailable"));
        }
        if self.rss_mib.is_none() {
            notes.push(String::from_str("rss probe unavailable"));
        }
        proof {
            assert(texts(notes@) =~= self.report_notes());
        }
        MermaidPressureReport {
            source: if telemetry_available { MermaidPressureSource::Native } else { MermaidPressureSource::Unavailable },
            telemetry_available,
            conservative_fallback: !telemetry_available,
            tier: MermaidPressureTier::from_quantized_score(quantized_score_permille, telemetry_available),
            quantized_score_permille,
            cpu_pressure_permille: self.cpu_pressure_permille,
            memory_pressure_permille: self.memory_pressure_permille,
            io_pressure_permille: self.io_pressure_permille,
            available_parallelism: self.available_parallelism,
            rss_mib: self.rss_mib,
            frame_budget_ms: None,
            frame_time_ms: None,
            event_loop_lag_ms: None,
            worker_saturation_permille: None,
            notes,
        }
    }
}

/// Pressure signals sampled in a browser.
#[derive(Debug, Clone, Copy, PartialEq, Eq, Default, Structural)]
pub struct MermaidWasmPressureSignals {
    pub frame_budget_ms: Option<u16>,
    pub frame_time_ms: Option<u16>,
    pub event_loop_lag_ms: Option<u16>,
    pub worker_saturation_permille: Option<u16>,
}

impl MermaidWasmPressureSignals {
    /// Frame time as permille of a positive frame budget, capped at 1000.
    pub open spec fn frame_pressure(self) -> Option<u16> {
        match (self.frame_budget_ms, self.frame_time_ms) {
            (Some(budget), Some(frame_time)) => if budget > 0 {
                let scaled = (frame_time * 1000) / (budget as int);
                Some((if scaled < 1000 { scaled } else { 1000 }) as u16)
            } else {
                None
            },
            _ => None,
        }
    }

    /// Event-loop lag at 50 permille per millisecond, capped at 1000.
    pub open spec fn lag_pressure(self) -> Option<u16> {
        match self.event_loop_lag_ms {
            Some(lag) => Some((if lag * 50 < 1000 { lag * 50 } else { 1000 }) as u16),
            None => None,
        }
    }

    /// The derived pressures of the three signals.
    pub open spec fn pressures(self) -> Seq<Option<u16>> {
        seq![
            self.frame_pressure(),
            self.lag_pressure(),
            match self.worker_saturation_permille { Some(w) => Some(if w < 1000 { w } else { 1000u16 }), None => None },
        ]
    }

    /// Whether any signal was observed.
    pub open spec fn any_observed(self) -> bool {
        self.frame_budget_ms is Some || self.frame_time_ms is Some || self.event_loop_lag_ms is Some
            || self.worker_saturation_permille is Some
    }

    /// The notes of the report.
    pub open spec fn report_notes(self) -> Seq<Seq<char>> {
        if !self.any_observed() {
            seq!["wasm telemetry unavailable; pressure tier is unknown and callers should use a conservative policy"@]
        } else if self.frame_budget_ms is None || self.frame_time_ms is None {
            seq!["frame budget telemetry incomplete; using event-loop and worker proxies only"@]
        } else {
            Seq::empty()
        }
    }

    /// Quantize the signals: the score is the highest derived pressure (0 when none is
    /// observed), and the tier follows from the score.
    pub fn into_report(self) -> (r: MermaidPressureReport)
        ensures
            r.quantized_score_permille == max_present(self.pressures()),
            r.telemetry_available == self.any_observed(),
            r.conservative_fallback == !self.any_observed(),
            r.source == (if self.any_observed() { MermaidPressureSource::Wasm } else { MermaidPressureSource::Unavailable }),
            r.tier == tier_of(r.quantized_score_permille, r.telemetry_available),
            r.cpu_pressure_permille is None,
            r.memory_pressure_permille is None,
            r.io_pressure_permille is None,
            r.available_parallelism is None,
            r.rss_mib is None,
            r.frame_budget_ms == self.frame_budget_ms,
            r.frame_time_ms == self.frame_time_ms,
            r.event_loop_lag_ms == self.event_loop_lag_ms,
            r.worker_saturation_permille == self.worker_saturation_permille,
            texts(r.notes@) == self.report_notes(),
    {
        let frame_pressure: Option<u16> = match (self.frame_budget_ms, self.frame_time_ms) {
            (Some(budget), Some(frame_time)) => {
                if budget > 0 {
                    let scaled: u32 = ((frame_time as u32) * 1000) / (budget as u32);
                    Some(if scaled < 1000 { scaled as u16 } else { 1000 })
                } else {
                    None
                }
            },
            _ => None,
        };
        let lag_pressure: Option<u16> = match self.event_loop_lag_ms {
            Some(lag_ms) => {
                let scaled: u32 = (lag_ms as u32) * 50;
                Some(if scaled < 1000 { scaled as u16 } else { 1000 })
            },
            None => None,
        };
        let worker: Option<u16> = match self.worker_saturation_permille {
            Some(value) => Some(if value < 1000 { value } else { 1000 }),
            None => None,
        };
        let signals = vec![frame_pressure, lag_pressure, worker];
        proof {
            assert(signals@ =~= self.pressures());
        }
        let quantized_score_permille = max_present_exec(&signals);
        let telemetry_available = self.frame_budget_ms.is_some() || self.frame_time_ms.is_some()
            || self.event_loop_lag_ms.is_some() || self.worker_saturation_permille.is_some();
        let mut notes: Vec<String> = Vec::new();
        if !telemetry_available {
            notes.push(String::from_str(
                "wasm telemetry unavailable; pressure tier is unknown and callers should use a conservative policy",
            ));
        } else if self.frame_budget_ms.is_none() || self.frame_time_ms.is_none() {
            notes.push(String::from_str(
                "frame budget telemetry incomplete; using event-loop and worker proxies only",
            ));
        }
        proof {
            assert(texts(notes@) =~= self.report_notes());
        }
        MermaidPressureReport {
            source: if telemetry_available { MermaidPressureSource::Wasm } else { MermaidPressureSource::Unavailable },
            telemetry_available,
            conservative_fallback: !telemetry_available,
            tier: MermaidPressureTier::from_quantized_score(quantized_score_permille, telemetry_available),
            quantized_score_permille,
            cpu_pressure_permille: None,
            memory_pressure_permille: None,
            io_pressure_permille: None,
            available_parallelism: None,
            rss_mib: None,
            frame_budget_ms: self.frame_budget_ms,
            frame_time_ms: self.frame_time_ms,
            event_loop_lag_ms: self.event_loop_lag_ms,
            worker_saturation_permille: self.worker_saturation_permille,
            notes,
        }
    }
}

} // verus!

verus! {

/// Position of a tier from nominal (1) to critical (4); unknown is 0.
pub open spec fn tier_rank(t: MermaidPressureTier) -> nat {
    match t {
        MermaidPressureTier::Unknown => 0,
        MermaidPressureTier::Nominal => 1,
        MermaidPressureTier::Elevated => 2,
        MermaidPressureTier::High => 3,
        MermaidPressureTier::Critical => 4,
    }
}

/// With telemetry, a higher score never gives a lower tier.
pub proof fn law_tier_monotone(s1: u16, s2: u16)
    requires
        s1 <= s2,
    ensures
        tier_rank(tier_of(s1, true)) <= tier_rank(tier_of(s2, true)),
        tier_rank(tier_of(s1, true)) >= 1,
{
}

/// The quantized score is the highest observed signal: no present signal exceeds it,
/// and it is one of them (or 0 when none is present).
pub proof fn law_score_is_highest_signal(s: Seq<Option<u16>>)
    ensures
        forall|i: int| 0 <= i < s.len() && (#[trigger] s[i]) is Some ==> s[i]->0 <= max_present(s),
        max_present(s) == 0 || exists|i: int| 0 <= i < s.len() && #[trigger] s[i] == Some(max_present(s)),
    decreases s.len(),
{
    if s.len() > 0 {
        law_score_is_highest_signal(s.drop_last());
        assert forall|i: int| 0 <= i < s.len() && (#[trigger] s[i]) is Some implies s[i]->0 <= max_present(s) by {
            if i < s.len() - 1 {
                assert(s.drop_last()[i] == s[i]);
            }
        }
        if max_present(s) != 0 {
            if max_present(s) == max_present(s.drop_last()) {
                let i = choose|i: int| 0 <= i < s.drop_last().len() && #[trigger] s.drop_last()[i] == Some(max_present(s.drop_last()));
                assert(s[i] == Some(max_present(s)));
            } else {
                assert(s[s.len() - 1] == Some(max_present(s)));
            }
        }
    }
}

} // verus!
