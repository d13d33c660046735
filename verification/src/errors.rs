use vstd::prelude::*;

verus! {

/// A record of a raw set table lacked a required field, so the whole
/// classification of that set is abandoned rather than producing an
/// incomplete pool.
#[derive(Debug)]
pub struct CatalogError {
    /// Name of the first card whose record is malformed.
    pub card_name: String,
}

/// Fatal conditions the engine surfaces to its caller. Every one is returned
/// as a typed result; none is swallowed.
#[derive(Debug)]
pub enum DraftError {
    /// A raw set table was malformed; carries the offending record.
    Catalog(CatalogError),
    /// A configured set identifier has no catalog entry.
    UnknownSet(String),
    /// A rarity pool lacks enough distinct cards to fill a pack slot.
    InsufficientPool,
}

} // verus!
