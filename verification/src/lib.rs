//! Generator of straight-line instruction fragments for a stack machine with
//! no native shift or bitwise opcodes.  The one gadget family here is the
//! logical right shift of a 32-bit word held on the stack as four 8-bit limbs
//! (least-significant limb deepest, most-significant on top), by a constant
//! amount in [0, 31].  Shifting is synthesized from a ring-rotation primitive
//! followed by per-limb masking through a resident AND lookup table.
//!
//! Every fragment is modelled by a small formal semantics (`machine`), and the
//! emitters are proved against it: running an emitted fragment on the limbs of
//! `v` leaves the limbs of `v >> s`.

pub mod machine;
pub mod masks;
pub mod shr;
