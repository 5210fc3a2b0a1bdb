//! Generates synthetic process records and contrasts two orderings of them:
//! a FIFO queue, drained in generation order, and a min-heap, drained in
//! ascending priority order.
pub mod demo;
pub mod min_heap;
pub mod record;
pub mod sample;
pub mod text;
