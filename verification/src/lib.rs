//! Discrete probabilistic graphical models: factors over finite-domain
//! variables, directed and undirected models built from them, exact inference
//! by variable elimination and approximate inference by sampling.
//!
//! The library is generic in the type of a table entry. The caller supplies
//! the arithmetic of that type through the [`weight::Arithmetic`] trait, and
//! random entries through the [`weight::Chance`] trait; the library decides
//! where each entry comes from and where it goes. Its contracts hold for
//! every arithmetic whose operations are functions of their arguments, and
//! for every draw.

pub mod estimators;
pub mod factor;
pub mod inference;
pub mod init;
pub mod layout;
pub mod model;
pub mod rows;
pub mod samplers;
pub mod scope;
pub mod util;
pub mod variable;
pub mod weight;

pub use factor::{Factor, Table};
pub use init::Initialization;
pub use model::Model;
pub use model::directed::{DirectedModel, DirectedModelBuilder};
pub use model::undirected::{UndirectedModel, UndirectedModelBuilder};
pub use util::JeromeError;
pub use variable::{all_assignments, Arena, Assignment, Variable};
pub use weight::{Arithmetic, Chance};
