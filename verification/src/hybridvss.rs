//! The asynchronous protocol: parameters, polynomials over the evaluation
//! domain, commitments, the state machine of one participant as a pure
//! function and as the handlers that run it, the reconstruction of the
//! secret, what holds of all of these, and the wire format of the messages.

pub mod bivariate;
pub mod commitment;
pub mod domain;
pub mod exactness;
pub mod laws;
pub mod model;
pub mod params;
pub mod poly;
pub mod rec;
pub mod sh;
pub mod wire;

pub use params::{Params, ParamsError};
