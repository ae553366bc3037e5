pub mod asking;
pub mod binary64;
pub mod brands;
pub mod cli;
pub mod color;
pub mod decimal;
pub mod drawn;
pub mod figures;
pub mod flows;
pub mod forms;
pub mod grid;
pub mod hardware;
pub mod heat;
pub mod idle;
pub mod layout;
pub mod marks;
pub mod memory;
pub mod network;
pub mod order;
pub mod peaks;
pub mod rates;
pub mod render;
pub mod rounds;
pub mod sections;
pub mod seen;
pub mod sources;
pub mod span;
pub mod state;
pub mod storage;
pub mod strobes;
pub mod table;
pub mod telling;
pub mod text;
pub mod thermal;
pub mod tints;
pub mod units;
pub mod warmth;
pub mod watch;
