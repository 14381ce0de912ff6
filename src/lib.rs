//! Metaheuristics for the travelling salesman problem over a dense distance
//! matrix: a GRASP engine and a genetic algorithm, with verified contracts.

pub mod ag;
pub mod aleatorio;
pub mod grafo;
pub mod grasp;
pub mod leitura;
pub mod taxa;
