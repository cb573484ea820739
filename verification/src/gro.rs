//! Plumbing for a state holder driven over callback channels. Only the
//! one-shot driver lives here; spawning threads around it is the caller's
//! concern.

pub mod ross;
