//! A factory of belts, machines, sources and sinks, simulated in whole numbers
//! of ticks and cells.
//!
//! Nothing is done per tick and node: a node is handled only when something
//! happens to it. A node that can go on later is on a timing wheel, one that is
//! blocked waits for the node that blocks it, and what lies on a belt moves only
//! when someone looks.

pub mod balance;
pub mod belts;
pub mod building;
pub mod cells;
pub mod deeds;
pub mod digest;
pub mod emission;
pub mod flags;
pub mod history;
pub mod ids;
pub mod jam;
pub mod lines;
pub mod model;
pub mod motion;
pub mod order;
pub mod placing;
pub mod prompt;
pub mod queues;
pub mod rest;
pub mod running;
pub mod scenario;
pub mod seqs;
pub mod settle;
pub mod stages;
pub mod telling;
pub mod ticks;
pub mod timers;
pub mod timing;
pub mod trace;
pub mod valid;
pub mod waits;
pub mod world;
pub mod worth;

pub use ids::{idx_of, kind_of, mkid, K_BELT, K_MACH, K_SINK, K_SRC, NONE};
pub use scenario::{build, cfg_for, churn_gate, Scenario};
pub use world::{Belt, Capacities, Machine, Sink, Source, World};
