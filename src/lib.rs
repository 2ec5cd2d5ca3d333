pub mod network;
pub mod diagonal;
pub mod filters;
pub mod perimeter;
pub mod shortcuts;
pub mod per_neighborhood;
