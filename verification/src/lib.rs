//! The host's side of the protocol that Klipper microcontrollers speak.
//!
//! From the wire up: [`encoding`] has the arguments of messages, [`frame`] the frames that carry
//! messages, [`queue`] and [`transport`] the link that gets frames across, [`messages`] and
//! [`dictionary`] the messages that a microcontroller declares, and [`identify`] and [`mcu`] the
//! conversation with it. [`text`] and [`string_map`] help with strings.
pub mod dictionary;
pub mod encoding;
pub mod frame;
pub mod identify;
pub mod mcu;
pub mod messages;
pub mod queue;
pub mod string_map;
pub mod text;
pub mod transport;

pub use dictionary::DictionaryError;
pub use encoding::MessageDecodeError;
pub use mcu::McuConnectionError;
pub use messages::EncodedMessage;
