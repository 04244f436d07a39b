//! Control of a magnetic coil cage: what turns a commanded field and a sensor's
//! packets into what the coils are sent, with the geomagnetic model and the
//! satellites that a command can follow.
//!
//! Numbers travel as IEEE 754 patterns ([`double`]); what is calculated with them
//! is rounded as the standard says ([`arithmetic`], [`accuracy`], [`nearness`], [`order`],
//! [`whole`], [`decimal`]). Sines and arc tangents are the caller's functions ([`angle`]).
//!
//! - The loop: [`serial`], [`sensor`], [`kalman`], [`calculation`], [`intake`],
//!   [`pid`], [`control`], [`packet`], [`controller`], [`links`].
//! - The command: [`setpoint`], [`profile`], [`ramp`], [`source`].
//! - The model and the sky: [`geomagnetism`], [`propagation`], [`satellite`],
//!   [`horizon`], [`track`], [`tracking`], [`spacetrack`], [`tle_store`], [`search`].
//! - Around it: [`config`], [`csv_log`], [`magson`], [`map_grid`], [`contour`],
//!   [`history`], [`netcfg`], [`panel`], [`cage`], with [`text`] and [`natural`]
//!   underneath.

pub mod accuracy;
pub mod angle;
pub mod arithmetic;
pub mod cage;
pub mod calculation;
pub mod config;
pub mod contour;
pub mod control;
pub mod controller;
pub mod csv_log;
pub mod decimal;
pub mod double;
pub mod geomagnetism;
pub mod history;
pub mod horizon;
pub mod intake;
pub mod kalman;
pub mod links;
pub mod magson;
pub mod map_grid;
pub mod natural;
pub mod nearness;
pub mod netcfg;
pub mod order;
pub mod packet;
pub mod panel;
pub mod pid;
pub mod profile;
pub mod propagation;
pub mod ramp;
pub mod satellite;
pub mod search;
pub mod sensor;
pub mod serial;
pub mod setpoint;
pub mod source;
pub mod spacetrack;
pub mod text;
pub mod tle_store;
pub mod track;
pub mod tracking;
pub mod whole;
