//! The values that the network simulator's command line is parsed into.

use vstd::prelude::*;

verus! {

/// A parsed invocation: the subcommand to run.
#[derive(Debug, Clone)]
pub struct Cli {
    pub command: SubCommands,
}

/// Start the simulator.
#[derive(Debug, Clone)]
pub struct StartCommand {
    /// The number of validators for the network.
    pub validators: u64,
    /// Whether the validators join one after another instead of at once.
    pub staggered: bool,
    pub verbose: bool,
    /// The endpoint of the network runner to connect to.
    pub grpc_endpoint: Option<String>,
}

/// Partition the network.
#[derive(Debug, Clone)]
pub struct PartitionCommand {
    /// The percentage of validators that will be partitioned.
    pub amount: u8,
    /// Whether the validators become partitioned one after another.
    pub staggered: bool,
    pub verbose: bool,
}

/// Reconnect partitioned validators.
#[derive(Debug, Clone)]
pub struct ReconnectCommand {
    /// The nodes to reconnect, by node id.
    pub nodes: Vec<u64>,
    /// Whether the validators rejoin one after another.
    pub staggered: bool,
    pub verbose: bool,
}

/// Add a node to the network.
#[derive(Debug, Clone)]
pub struct AddNodeCommand {
    pub verbose: bool,
}

/// Report the health of the network and of consensus.
#[derive(Debug, Clone)]
pub struct HealthCommand {
    pub verbose: bool,
}

#[derive(Debug, Clone)]
pub enum SubCommands {
    /// Starts the network with a number of validators.
    Start(StartCommand),
    /// Adds a node to the network.
    AddNode(AddNodeCommand),
    /// Simulates a network partition.
    Partition(PartitionCommand),
    /// Reconnects the validators after they have become partitioned.
    Reconnect(ReconnectCommand),
    /// Outputs the overall network and consensus health.
    Health(HealthCommand),
}

} // verus!
