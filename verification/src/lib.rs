//! A knowledge-graph store: facts in, convergent state out.
//!
//! Writes go to an append-only [`changelog`], framed as [`wal`] records. They are folded to a state
//! that depends on the writes alone, not on their order, their source or how often they came
//! ([`fold`]). The [`engine`] keeps the two together and observes the state as snapshots, which the
//! reads work on: points, instants, confidence and hops ([`query`]), rules ([`conformance`],
//! [`completeness`]) that can be kept up to date ([`incremental`], [`live`]), vectors ([`vector`],
//! [`hybrid`], [`ivf`]) and composed reads ([`ir`]). The [`catalog`] holds the ontology, [`access`]
//! the label filter, [`calendar`] the civil frame, [`import`] and [`cli`] the way in from tables and
//! command lines.
//!
//! What each function does is stated over mathematical models; what holds of several together is
//! stated by public proof functions whose names begin with `law_`.
pub mod access;
pub mod calendar;
pub mod catalog;
pub mod changelog;
pub mod cli;
pub mod codec;
pub mod completeness;
pub mod conformance;
pub mod engine;
pub mod fact;
pub mod fold;
pub mod hash;
pub mod hybrid;
pub mod import;
pub mod incremental;
pub mod ir;
pub mod ivf;
pub mod live;
pub mod objkey;
pub mod order;
pub mod ordmap;
pub mod query;
pub mod rank;
pub mod text;
pub mod vector;
pub mod version;
pub mod wal;
