//! Dense matrices and a small feed-forward network trained by
//! backpropagation, generic over the element type.
//!
//! The arithmetic on elements (adding, subtracting, multiplying, the activation
//! function, reading and writing a number) is handed in as pure closures;
//! the structure around it (shapes, accumulation order, the literal text
//! format, the forward and backward passes and the training loop) is what
//! the contracts here state and prove.
pub mod literal;
pub mod matrix;
pub mod neural_network;
pub mod scalar_fn;

pub use matrix::{Matrix, MatrixError, MatrixModel};
pub use neural_network::{NetworkModel, NeuralNetwork, ScalarOps, TrainingData};
