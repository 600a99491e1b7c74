/// Clusterings of positions: the ways to say which tuples are played side by side.
pub mod adjacency;
/// How many clusterings there are: the Bell numbers.
pub mod counting;
/// The shapes that a number of cards can take.
pub mod decomposition;
/// Small cases, written out.
pub mod examples;
/// Tables that keep what was computed before.
pub mod memo;
/// Cards in the order that a trump context gives them.
pub mod ordered_card;
/// The partitions of a number of cards into tuples.
pub mod partitions;
/// The shapes that may follow a shape.
pub mod refinement;
/// Runs: the ways to arrange tuples of given sizes at adjacent ranks.
pub mod runs;
/// Tuple sizes, runs and shapes, their totals and their order.
pub mod sizes;
/// Stable sorting and the removal of repeats.
pub mod sorting;
/// How the views of nested vectors follow what is done to the vectors.
pub mod views;
