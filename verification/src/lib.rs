//! Fleet Commander: a space battle for many players, as far as it can be proved.
//!
//! The server's side is the simulation ([`world`], [`damage`], [`pilot`], [`collisions`],
//! [`tick`]) and the talk with a client ([`session`]).  The client's side is its phases and
//! controls ([`phase`], [`controls`], [`client`], [`link`]), and what it draws and plays
//! ([`frame`], [`sounds`]).  [`sprites`] paints the placeholder textures.  Numbers are single
//! precision numbers held in integers ([`single`]); what only the platform can compute comes
//! through an [`oracle`].  [`soundness`], [`crew`], [`rules`] and [`play`] state what
//! holds of the whole.
//!
//! [`exact`] says which real number a single precision number stands for, and that every operation
//! is exact up to one rounding.  On it rest the laws of motion and of the rules in real numbers:
//! [`physics`], [`motion`] and [`bounce`] for what moves, [`contact`] and [`aim`] for what meets
//! what, [`gauges`], [`fates`] and [`board`] for what becomes of the players, and [`view`] and
//! [`shapes`] for what they see.
pub mod aim;
pub mod board;
pub mod bounce;
pub mod bounds;
pub mod canvas;
pub mod client;
pub mod collisions;
pub mod contact;
pub mod controls;
pub mod crew;
pub mod damage;
pub mod exact;
pub mod fates;
pub mod frame;
pub mod game;
pub mod gauges;
pub mod helm;
pub mod hud;
pub mod impact;
pub mod link;
pub mod motion;
pub mod net;
pub mod oracle;
pub mod order;
pub mod paint;
pub mod phase;
pub mod physics;
pub mod pilot;
pub mod play;
pub mod precision;
pub mod protocol;
pub mod ray;
pub mod rounding;
pub mod rules;
pub mod scene;
pub mod screens;
pub mod session;
pub mod shapes;
pub mod single;
pub mod soundness;
pub mod sounds;
pub mod sprites;
pub mod stars;
pub mod table;
pub mod text;
pub mod tick;
pub mod view;
pub mod whole;
pub mod world;
