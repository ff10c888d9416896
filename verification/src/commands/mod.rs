//! Commands and the keymap.
//!
//! ```text
//! physical input -> keymap -> command -> command bus -> operation
//! ```
//!
//! A keymap maps a chord to a command id, never to a function, which is what
//! makes every command reachable from a menu, a palette, a script or a test
//! without a key event.

pub mod bus;
pub mod ids;
pub mod keymap;


pub use bus::{CommandBus, DispatchError, Handler};
pub use ids::{Command, CommandCategory, CommandId, CommandRegistry};
pub use keymap::{Key, KeyChord, Keymap, KeymapError, Modifiers};

