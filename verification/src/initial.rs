use crate::layout::{decimal_digits, push_decimal};
use vstd::prelude::*;
use vstd::string::*;

verus! {

/// The name of the strategy that replicates within one data centre.
pub const SIMPLE_STRATEGY: &'static str = "SimpleStrategy";

/// The name of the strategy that replicates across data centres.
pub const NETWORK_TOPOLOGY_STRATEGY: &'static str = "NetworkTopologyStrategy";

/// How the keyspace of the migrations is replicated.
#[derive(Clone, Copy, Debug, PartialEq, Eq, Structural)]
pub enum ReplicationStrategy {
    Simple,
    NetworkTopology,
}

impl ReplicationStrategy {
    /// The name of the strategy, as the database knows it.
    pub open spec fn spec_name(&self) -> Seq<char> {
        match self {
            ReplicationStrategy::Simple => "SimpleStrategy"@,
            ReplicationStrategy::NetworkTopology => "NetworkTopologyStrategy"@,
        }
    }

    /// The strategy that `val` names, if it names one.
    pub fn from_str(val: &str) -> (r: Option<Self>)
        ensures
            r == if val@ == "SimpleStrategy"@ {
                Some(ReplicationStrategy::Simple)
            } else if val@ == "NetworkTopologyStrategy"@ {
                Some(ReplicationStrategy::NetworkTopology)
            } else {
                None
            },
    {
        let given = String::from_str(val);
        if given == String::from_str(SIMPLE_STRATEGY) {
            Some(ReplicationStrategy::Simple)
        } else if given == String::from_str(NETWORK_TOPOLOGY_STRATEGY) {
            Some(ReplicationStrategy::NetworkTopology)
        } else {
            None
        }
    }

    /// The name of the strategy, as the database knows it.
    pub fn name(&self) -> (n: &'static str)
        ensures
            n@ == self.spec_name(),
    {
        match self {
            ReplicationStrategy::Simple => SIMPLE_STRATEGY,
            ReplicationStrategy::NetworkTopology => NETWORK_TOPOLOGY_STRATEGY,
        }
    }
}

impl Default for ReplicationStrategy {
    fn default() -> (r: Self)
        ensures
            r == ReplicationStrategy::Simple,
    {
        ReplicationStrategy::Simple
    }
}

/// The up script of the first migration: it creates the keyspace and, in
/// it, the history table.
pub open spec fn initial_up_text(keyspace: Seq<char>, strategy: Seq<char>, factor: nat) -> Seq<
    char,
> {
    "-- This file is automatically @generated by Vemigrate CLI.\ncreate keyspace if not exists "@
        + keyspace + " with replication = { 'class' : '"@ + strategy
        + "', 'replication_factor': "@ + decimal_digits(factor)
        + " };\ncreate table if not exists "@ + keyspace
        + ".migrations (\n    id bigint,\n    up boolean,\n    primary key(id)\n);"@
}

/// The down script of the first migration: it drops the history table and
/// the keyspace.
pub open spec fn initial_down_text(keyspace: Seq<char>) -> Seq<char> {
    "-- This file is automatically @generated by Vemigrate CLI.\ndrop table if exists "@
        + keyspace + ".migrations;\ndrop keyspace if exists "@ + keyspace + ";"@
}

/// Writes the up script of the first migration for `keyspace`.
pub fn initial_migration_up(
    keyspace: &str,
    replication_strategy: ReplicationStrategy,
    replication_factor: u64,
) -> (script: String)
    ensures
        script@ == initial_up_text(
            keyspace@,
            replication_strategy.spec_name(),
            replication_factor as nat,
        ),
{
    let mut script = String::from_str(
        "-- This file is automatically @generated by Vemigrate CLI.\ncreate keyspace if not exists ",
    );
    script.append(keyspace);
    script.append(" with replication = { 'class' : '");
    script.append(replication_strategy.name());
    script.append("', 'replication_factor': ");
    push_decimal(&mut script, replication_factor);
    script.append(" };\ncreate table if not exists ");
    script.append(keyspace);
    script.append(".migrations (\n    id bigint,\n    up boolean,\n    primary key(id)\n);");
    script
}

/// Writes the down script of the first migration for `keyspace`.
pub fn initial_migration_down(keyspace: &str) -> (script: String)
    ensures
        script@ == initial_down_text(keyspace@),
{
    let mut script = String::from_str(
        "-- This file is automatically @generated by Vemigrate CLI.\ndrop table if exists ",
    );
    script.append(keyspace);
    script.append(".migrations;\ndrop keyspace if exists ");
    script.append(keyspace);
    script.append(";");
    script
}

} // verus!
