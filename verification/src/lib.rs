pub mod backward_reach;
pub mod multiset;
pub mod petrinet;
