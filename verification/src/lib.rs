//! A layered network of threshold neurons whose weights are evolved by
//! mutation and crossover, with a fixed binary model format.
//!
//! The network reads a bit-packed input, passes it through its layers and
//! gives a bit-packed output. Every number of the network is a double, held
//! as its bit pattern; sums and comparisons are computed on the patterns and
//! proved against the values that the patterns stand for. Whatever is drawn
//! at random, the weights of a new network, the outcome of a mutation, the
//! swaps of a crossover, is handed in by the caller: each operation is a
//! function of its arguments and says what it does with every draw.
//!
//! - [`double`] and [`arith`]: doubles and their arithmetic.
//! - [`bits`]: bit-packed vectors.
//! - [`neuron`]: connections, neurons and layers.
//! - [`topology`] and [`network`]: the shape of a network, the network and
//!   its operations.
//! - [`wire`], [`format`] and [`codec`]: the model format.
//! - [`error`]: the failures.

pub mod arith;
pub mod bits;
pub mod codec;
pub mod double;
pub mod error;
pub mod format;
pub mod network;
pub mod neuron;
pub mod topology;
pub mod wire;
