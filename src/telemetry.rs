//! The snapshot that one telemetry line decodes to, and its mathematical view.
use vstd::prelude::*;

verus! {

/// Memory in use and in total, in megabytes.
#[derive(Clone, Copy, Debug, PartialEq, Eq)]
pub struct Ram {
    pub used_mb: u32,
    pub total_mb: u32,
}

/// Swap in use and in total, in megabytes.
#[derive(Clone, Copy, Debug, PartialEq, Eq)]
pub struct Swap {
    pub used_mb: u32,
    pub total_mb: u32,
}

/// One CPU core: its load in percent and its clock in MHz.
#[derive(Clone, Copy, Debug, PartialEq, Eq)]
pub struct CpuCore {
    pub load: u8,
    pub freq_mhz: u32,
}

/// One accelerator engine and its load in percent.
#[derive(Clone, Debug, PartialEq, Eq)]
pub struct Engine {
    pub name: String,
    pub load: u8,
}

/// One thermal sensor. `temp_c` holds the reading in degrees Celsius as the
/// decimal floating-point text it was read from, unit letters removed
/// (`39.5`, `-4`, `1e2`); it always parses as an `f32`.
#[derive(Clone, Debug, PartialEq, Eq)]
pub struct Thermal {
    pub name: String,
    pub temp_c: String,
}

/// Everything decoded from one line.
#[derive(Clone, Debug, PartialEq, Eq)]
pub struct Telemetry {
    pub ram: Option<Ram>,
    pub swap: Option<Swap>,
    pub cpu: Vec<CpuCore>,
    pub engines: Vec<Engine>,
    pub thermals: Vec<Thermal>,
}

pub struct EngineView {
    pub name: Seq<char>,
    pub load: u8,
}

pub struct ThermalView {
    pub name: Seq<char>,
    pub temp_c: Seq<char>,
}

pub struct TelemetryView {
    pub ram: Option<Ram>,
    pub swap: Option<Swap>,
    pub cpu: Seq<CpuCore>,
    pub engines: Seq<EngineView>,
    pub thermals: Seq<ThermalView>,
}

impl View for Engine {
    type V = EngineView;

    open spec fn view(&self) -> EngineView {
        EngineView { name: self.name@, load: self.load }
    }
}

impl View for Thermal {
    type V = ThermalView;

    open spec fn view(&self) -> ThermalView {
        ThermalView { name: self.name@, temp_c: self.temp_c@ }
    }
}

impl View for Telemetry {
    type V = TelemetryView;

    open spec fn view(&self) -> TelemetryView {
        TelemetryView {
            ram: self.ram,
            swap: self.swap,
            cpu: self.cpu@,
            engines: self.engines@.map_values(|e: Engine| e@),
            thermals: self.thermals@.map_values(|t: Thermal| t@),
        }
    }
}

/// The snapshot with nothing in it.
pub open spec fn empty_view() -> TelemetryView {
    TelemetryView { ram: None, swap: None, cpu: seq![], engines: seq![], thermals: seq![] }
}

impl Telemetry {
    /// An empty snapshot.
    pub fn new() -> (t: Telemetry)
        ensures
            t@ == empty_view(),
    {
        let t = Telemetry {
            ram: None,
            swap: None,
            cpu: Vec::new(),
            engines: Vec::new(),
            thermals: Vec::new(),
        };
        assert(t@.engines =~= seq![]);
        assert(t@.thermals =~= seq![]);
        t
    }

    /// Whether nothing at all was decoded.
    pub fn is_empty(&self) -> (r: bool)
        ensures
            r == (self@ == empty_view()),
    {
        let r = self.ram.is_none() && self.swap.is_none() && self.cpu.len() == 0
            && self.engines.len() == 0 && self.thermals.len() == 0;
        if r {
            assert(self@.cpu =~= seq![]);
            assert(self@.engines =~= seq![]);
            assert(self@.thermals =~= seq![]);
        } else {
            assert(self@.engines.len() == self.engines@.len());
            assert(self@.thermals.len() == self.thermals@.len());
        }
        r
    }
}

impl Default for Telemetry {
    fn default() -> (t: Telemetry)
        ensures
            t@ == empty_view(),
    {
        Telemetry::new()
    }
}

} // verus!
