pub mod heap;
pub mod maxflow;
pub mod mcmf;
pub mod mincost;
pub mod reduced;
pub mod search;
pub mod sums;
pub mod wrapper;
