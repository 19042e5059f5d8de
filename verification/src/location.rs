//! Ports of the nodes of a dataflow graph.
use vstd::prelude::*;
use crate::order::{Key, Value};

verus! {

/// An output port of a node.
#[derive(Clone, Copy, Debug, PartialEq, Eq, PartialOrd, Ord, Hash)]
pub struct Source {
    /// Index of the node.
    pub node: usize,
    /// Index of the output port.
    pub port: usize,
}

/// An input port of a node.
#[derive(Clone, Copy, Debug, PartialEq, Eq, PartialOrd, Ord, Hash)]
pub struct Target {
    /// Index of the node.
    pub node: usize,
    /// Index of the input port.
    pub port: usize,
}

/// A port of either kind. Input ports sort ahead of output ports.
#[derive(Clone, Copy, Debug, PartialEq, Eq, PartialOrd, Ord, Hash)]
pub enum Port {
    /// An input port.
    Target(usize),
    /// An output port.
    Source(usize),
}

/// A port of a node.
#[derive(Clone, Copy, Debug, PartialEq, Eq, PartialOrd, Ord, Hash)]
pub struct Location {
    /// Index of the node.
    pub node: usize,
    /// The port.
    pub port: Port,
}

impl Source {
    /// The output port `port` of node `node`.
    pub fn new(node: usize, port: usize) -> (r: Self)
        ensures
            r == (Source { node, port }),
    {
        Source { node, port }
    }
}

impl Target {
    /// The input port `port` of node `node`.
    pub fn new(node: usize, port: usize) -> (r: Self)
        ensures
            r == (Target { node, port }),
    {
        Target { node, port }
    }
}

impl Location {
    /// The location of the input port `port` of node `node`.
    pub fn new_target(node: usize, port: usize) -> (r: Self)
        ensures
            r == (Location { node, port: Port::Target(port) }),
    {
        Location { node, port: Port::Target(port) }
    }

    /// The location of the output port `port` of node `node`.
    pub fn new_source(node: usize, port: usize) -> (r: Self)
        ensures
            r == (Location { node, port: Port::Source(port) }),
    {
        Location { node, port: Port::Source(port) }
    }

    /// The location of an input port.
    pub open spec fn of_target(target: Target) -> Location {
        Location { node: target.node, port: Port::Target(target.port) }
    }

    /// The location of an output port.
    pub open spec fn of_source(source: Source) -> Location {
        Location { node: source.node, port: Port::Source(source.port) }
    }

    /// The location of an input port.
    pub fn from_target(target: Target) -> (r: Self)
        ensures
            r == Location::of_target(target),
    {
        Location { node: target.node, port: Port::Target(target.port) }
    }

    /// The location of an output port.
    pub fn from_source(source: Source) -> (r: Self)
        ensures
            r == Location::of_source(source),
    {
        Location { node: source.node, port: Port::Source(source.port) }
    }

    /// Whether the location is an input port.
    pub fn is_target(&self) -> (r: bool)
        ensures
            r == (self.port is Target),
    {
        match self.port {
            Port::Target(_) => true,
            Port::Source(_) => false,
        }
    }

    /// Whether the location is an output port.
    pub fn is_source(&self) -> (r: bool)
        ensures
            r == (self.port is Source),
    {
        match self.port {
            Port::Target(_) => false,
            Port::Source(_) => true,
        }
    }
}

impl Value for Source {
    fn same(&self, other: &Self) -> (r: bool) {
        self.node == other.node && self.port == other.port
    }

    fn duplicate(&self) -> (r: Self) {
        Source { node: self.node, port: self.port }
    }
}

impl Key for Source {
    open spec fn before(self, other: Self) -> bool {
        self.node < other.node || (self.node == other.node && self.port < other.port)
    }

    proof fn before_irreflexive(a: Self) {
    }

    proof fn before_transitive(a: Self, b: Self, c: Self) {
    }

    proof fn before_total(a: Self, b: Self) {
    }

    fn precedes(&self, other: &Self) -> (r: bool) {
        self.node < other.node || (self.node == other.node && self.port < other.port)
    }
}

impl Value for Target {
    fn same(&self, other: &Self) -> (r: bool) {
        self.node == other.node && self.port == other.port
    }

    fn duplicate(&self) -> (r: Self) {
        Target { node: self.node, port: self.port }
    }
}

impl Key for Target {
    open spec fn before(self, other: Self) -> bool {
        self.node < other.node || (self.node == other.node && self.port < other.port)
    }

    proof fn before_irreflexive(a: Self) {
    }

    proof fn before_transitive(a: Self, b: Self, c: Self) {
    }

    proof fn before_total(a: Self, b: Self) {
    }

    fn precedes(&self, other: &Self) -> (r: bool) {
        self.node < other.node || (self.node == other.node && self.port < other.port)
    }
}

impl Value for Port {
    fn same(&self, other: &Self) -> (r: bool) {
        match (*self, *other) {
            (Port::Target(a), Port::Target(b)) => a == b,
            (Port::Source(a), Port::Source(b)) => a == b,
            _ => false,
        }
    }

    fn duplicate(&self) -> (r: Self) {
        match *self {
            Port::Target(a) => Port::Target(a),
            Port::Source(a) => Port::Source(a),
        }
    }
}

impl Key for Port {
    open spec fn before(self, other: Self) -> bool {
        match (self, other) {
            (Port::Target(a), Port::Target(b)) => a < b,
            (Port::Target(_), Port::Source(_)) => true,
            (Port::Source(_), Port::Target(_)) => false,
            (Port::Source(a), Port::Source(b)) => a < b,
        }
    }

    proof fn before_irreflexive(a: Self) {
    }

    proof fn before_transitive(a: Self, b: Self, c: Self) {
    }

    proof fn before_total(a: Self, b: Self) {
    }

    fn precedes(&self, other: &Self) -> (r: bool) {
        match (*self, *other) {
            (Port::Target(a), Port::Target(b)) => a < b,
            (Port::Target(_), Port::Source(_)) => true,
            (Port::Source(_), Port::Target(_)) => false,
            (Port::Source(a), Port::Source(b)) => a < b,
        }
    }
}

impl Value for Location {
    fn same(&self, other: &Self) -> (r: bool) {
        self.node == other.node && self.port.same(&other.port)
    }

    fn duplicate(&self) -> (r: Self) {
        Location { node: self.node, port: self.port.duplicate() }
    }
}

/// Locations sort by node, then by port.
impl Key for Location {
    open spec fn before(self, other: Self) -> bool {
        self.node < other.node || (self.node == other.node && self.port.before(other.port))
    }

    proof fn before_irreflexive(a: Self) {
    }

    proof fn before_transitive(a: Self, b: Self, c: Self) {
    }

    proof fn before_total(a: Self, b: Self) {
    }

    fn precedes(&self, other: &Self) -> (r: bool) {
        self.node < other.node || (self.node == other.node && self.port.precedes(&other.port))
    }
}

} // verus!
