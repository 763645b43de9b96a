//! A registry of metadata configuration records stored at program-derived
//! addresses: address derivation, the record layout, and the creation
//! instruction, each with its contract; `legacy` holds the first generation
//! of the record and its creation instruction.

pub mod derivation;
pub mod layout;
pub mod registry;
pub mod legacy;
