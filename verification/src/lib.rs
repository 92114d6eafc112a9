//! Streaming grapheme colorizer: recolors a byte stream of text with a
//! cyclically varying foreground color (a continuous hue sweep or a striped
//! palette), character cluster by character cluster, while passing the text
//! itself through unchanged and stripping terminal escape sequences that were
//! already embedded in the input.

pub mod color;
pub mod colorizer;
pub mod decode;
pub mod driver;
pub mod filter;
pub mod fixed_point;
pub mod flag;
pub mod laws;
pub mod segment;

pub use color::Color;
pub use colorizer::Ansi;
pub use colorizer::AnsiColor;
pub use colorizer::Bits24;
pub use colorizer::ColorCode;
pub use colorizer::ColorType;
pub use colorizer::Colorizer;
pub use colorizer::QueerCatFrequency;
pub use colorizer::TerminalResetter;
pub use driver::QueerCat;
pub use filter::EscapeSkipper;
pub use fixed_point::ColorV;
pub use fixed_point::Extended;
pub use flag::ColorMethod;
pub use flag::Flag;
pub use flag::FlagChoice;
