//! The parsed circuit: nets, component instances, subcircuit definitions and
//! simulation settings.
use vstd::prelude::*;
use crate::literal::{Decimal, SpecDecimal};

verus! {

/// A terminal connection point.
#[derive(Debug, Clone, Copy, PartialEq, Eq, Structural)]
pub enum Node {
    Ground,
    Vdd,
    /// The net at this index of `Circuit::nodes`.
    Net(usize),
}

/// Mathematical view of a `Model`.
pub enum SpecModel {
    Resistor(SpecDecimal),
    Capacitor(SpecDecimal),
    Inductor(SpecDecimal),
    VoltageSource(SpecDecimal),
    CurrentSource(SpecDecimal),
    Subcircuit,
}

/// The device of a component and its value.
#[derive(Debug)]
pub enum Model {
    Resistor(Decimal),
    Capacitor(Decimal),
    Inductor(Decimal),
    VoltageSource(Decimal),
    CurrentSource(Decimal),
    /// An invocation of the subcircuit named in `Component::callee`.
    Subcircuit,
}

impl View for Model {
    type V = SpecModel;

    open spec fn view(&self) -> SpecModel {
        match self {
            Model::Resistor(v) => SpecModel::Resistor(v@),
            Model::Capacitor(v) => SpecModel::Capacitor(v@),
            Model::Inductor(v) => SpecModel::Inductor(v@),
            Model::VoltageSource(v) => SpecModel::VoltageSource(v@),
            Model::CurrentSource(v) => SpecModel::CurrentSource(v@),
            Model::Subcircuit => SpecModel::Subcircuit,
        }
    }
}

#[derive(Debug, Clone, Copy, PartialEq, Eq, Structural)]
pub enum SimulationType {
    OP,
    DC,
    AC,
    TRAN,
}

/// Mathematical view of `SimulationParams`.
pub struct SpecSimParams {
    pub sim_type: Option<SimulationType>,
    pub time_step: Option<SpecDecimal>,
    pub stop_time: Option<SpecDecimal>,
    pub start_freq: Option<SpecDecimal>,
    pub stop_freq: Option<SpecDecimal>,
}

pub open spec fn decimal_view(d: Option<Decimal>) -> Option<SpecDecimal> {
    match d {
        Some(x) => Some(x@),
        None => None,
    }
}

/// Settings from the simulation directives; each is set at most once.
#[derive(Debug)]
pub struct SimulationParams {
    pub sim_type: Option<SimulationType>,
    pub time_step: Option<Decimal>,
    pub stop_time: Option<Decimal>,
    pub start_freq: Option<Decimal>,
    pub stop_freq: Option<Decimal>,
}

impl View for SimulationParams {
    type V = SpecSimParams;

    open spec fn view(&self) -> SpecSimParams {
        SpecSimParams {
            sim_type: self.sim_type,
            time_step: decimal_view(self.time_step),
            stop_time: decimal_view(self.stop_time),
            start_freq: decimal_view(self.start_freq),
            stop_freq: decimal_view(self.stop_freq),
        }
    }
}

pub open spec fn no_params() -> SpecSimParams {
    SpecSimParams { sim_type: None, time_step: None, stop_time: None, start_freq: None, stop_freq: None }
}

pub struct SpecComponent {
    pub name: Seq<char>,
    pub terminals: Seq<Node>,
    pub model: SpecModel,
    pub callee: Seq<char>,
    pub owner: Option<usize>,
}

/// A device instance: its name, its terminals in order, its model, the
/// subcircuit it invokes (empty for a device) and the subcircuit definition
/// whose body declares it, if any.
#[derive(Debug)]
pub struct Component {
    pub name: String,
    pub terminals: Vec<Node>,
    pub model: Model,
    pub callee: String,
    pub owner: Option<usize>,
}

impl View for Component {
    type V = SpecComponent;

    open spec fn view(&self) -> SpecComponent {
        SpecComponent {
            name: self.name@,
            terminals: self.terminals@,
            model: self.model@,
            callee: self.callee@,
            owner: self.owner,
        }
    }
}

pub struct SpecSubcircuit {
    pub name: Seq<char>,
    pub ports: Seq<Node>,
    pub line: nat,
    pub column: nat,
}

/// A subcircuit definition: its name, its ports, and where `.subckt` stands.
#[derive(Debug)]
pub struct Subcircuit {
    pub name: String,
    pub ports: Vec<Node>,
    pub line: usize,
    pub column: usize,
}

impl View for Subcircuit {
    type V = SpecSubcircuit;

    open spec fn view(&self) -> SpecSubcircuit {
        SpecSubcircuit { name: self.name@, ports: self.ports@, line: self.line as nat, column: self.column as nat }
    }
}

pub struct SpecCircuit {
    pub nodes: Seq<Seq<char>>,
    pub components: Seq<SpecComponent>,
    pub subcircuits: Seq<SpecSubcircuit>,
    pub sim_params: SpecSimParams,
}

pub open spec fn empty_circuit() -> SpecCircuit {
    SpecCircuit { nodes: seq![], components: seq![], subcircuits: seq![], sim_params: no_params() }
}

#[derive(Debug)]
pub struct Circuit {
    /// The names of the numbered nets; `Node::Net(i)` is `nodes[i]`.
    pub nodes: Vec<String>,
    pub components: Vec<Component>,
    pub subcircuits: Vec<Subcircuit>,
    pub sim_params: SimulationParams,
}

impl View for Circuit {
    type V = SpecCircuit;

    open spec fn view(&self) -> SpecCircuit {
        SpecCircuit {
            nodes: self.nodes@.map_values(|s: String| s@),
            components: self.components@.map_values(|c: Component| c@),
            subcircuits: self.subcircuits@.map_values(|s: Subcircuit| s@),
            sim_params: self.sim_params@,
        }
    }
}

impl Circuit {
    pub fn new() -> (r: Self)
        ensures
            r@ == empty_circuit(),
    {
        let r = Circuit {
            nodes: Vec::new(),
            components: Vec::new(),
            subcircuits: Vec::new(),
            sim_params: SimulationParams {
                sim_type: None,
                time_step: None,
                stop_time: None,
                start_freq: None,
                stop_freq: None,
            },
        };
        assert(r@.nodes =~= seq![]);
        assert(r@.components =~= seq![]);
        assert(r@.subcircuits =~= seq![]);
        r
    }
}

} // verus!
