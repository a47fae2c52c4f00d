
mod element;
mod order;
mod wide;

pub use element::Element;
pub use order::{IterWithTag, OmError, OrderMaintenance};
