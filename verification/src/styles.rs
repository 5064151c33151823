//! Style catalog entries.
pub mod latent_style;

pub use self::latent_style::{LatentStyle, LatentStyleView};
