//! A minimal on-chain program: a single `initialize` instruction that writes
//! one greeting line naming the program's own identifier to the host log and
//! always succeeds. The program holds no persistent state.

mod base58;
mod program;

pub use base58::base58_encode;
pub use base58::base58_of;
pub use program::declared_id;
pub use program::declared_id_bytes;
pub use program::greeting;
pub use program::greeting_text;
pub use program::initialize;
pub use program::lemma_initialize_idempotent;
pub use program::lemma_log_line_shape;
pub use program::Context;
pub use program::Initialize;
pub use program::ProgramId;
