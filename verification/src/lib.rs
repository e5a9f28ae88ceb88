//! Dependency-ordered task scheduling, and a walker over npm packages that is built on it.

pub mod counting;
pub mod deadlock;
pub mod dependency;
pub mod f_graph;
pub mod graph_node;
pub mod hash_graph;
pub mod hash_runner;
pub mod heap_node;
pub mod key;
pub mod names;
pub mod node;
pub mod package;
pub mod resolver;
pub mod run;
pub mod schedule;
pub mod scheduler;
pub mod task_graph;
pub mod task_queue;
pub mod task_runner;
pub mod text;
pub mod walk;
pub mod walker;

pub use f_graph::FGraph;
pub use graph_node::GraphNode;
