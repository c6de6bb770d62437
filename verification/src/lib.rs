//! Verified core of a small hotspot manager: interface discovery logic,
//! routing-table parsing, prompt decisions, Wi-Fi QR payload escaping and
//! terminal rendering of QR symbols.
pub mod text;
pub mod escape;
pub mod netif;
pub mod qr;
pub mod setup;
