//! A swarm of point agents that share a pool of missions: each agent claims
//! the nearest unclaimed target, resolves contested claims by a local distance
//! comparison, and steers toward its target under a damped-acceleration law.
//!
//! All quantities are integers: positions in micro-units of the world, time in
//! ticks of one millisecond, velocities in micro-units per tick and
//! accelerations in micro-units per tick squared.

pub mod agent;
pub mod consts;
pub mod geometry;
pub mod kinematics;
pub mod missions;
pub mod system;
pub mod world;

pub use agent::{Agent, AgentMessage, LocalView, Message};
pub use geometry::{squared_distance, Vec2};
pub use kinematics::Kinematics;
pub use missions::{Mission, MissionManager, MissionMessage};
pub use system::{ConnectionManager, SystemManager};
pub use world::{init_agent_kinematics, init_grid, Cell, Grid};
