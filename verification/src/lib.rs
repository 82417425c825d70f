//! A verified UNO rules library: cards and decks, the local Holiday game engine,
//! the networked classic engine, its wire protocol, rooms, and reliability helpers.

pub mod card_art;
pub mod cli;
pub mod local_core;
pub mod protocol_laws;
pub mod text;
pub mod uno_core;
pub mod uno_net;
pub mod uno_protocol;
pub mod uno_room;
