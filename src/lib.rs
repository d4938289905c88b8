//! A poker dealing engine: cards and decks, hand evaluation, the shared
//! betting-round state machine, and the three table variants (five card
//! draw, seven card stud, Texas hold'em), with the small wire and lobby
//! rules the server applies around them.
pub mod card;
pub mod deck;
pub mod eval;
pub mod player;
pub mod betting;
pub mod table;
pub mod five_card_draw;
pub mod seven_card_stud;
pub mod texas_holdem;
pub mod orchestrator;
pub mod protocol;
pub mod stats;
pub mod lobby;
pub mod client;
pub mod commands;
