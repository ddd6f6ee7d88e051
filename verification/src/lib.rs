//! Simulated stock quotes: the quote record and its wire and text formats,
//! the streaming command, ticker lists, the publish-subscribe bus, the price
//! feed, and the client's receive decisions.
pub mod bytes;
pub mod command;
pub mod decimal;
pub mod float_text;
pub mod market_data;
pub mod prices;
pub mod receiver;
pub mod stock_quote;
pub mod subscription;
pub mod text;
pub mod ticker_laws;
pub mod ticker_loader;
pub mod watchdog;
