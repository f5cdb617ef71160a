//! Algorithms on strings (Z-function, prefix function) and on flow networks,
//! together with the programs built on top of them.

pub mod capacity;
pub mod graph;
pub mod grid;
pub mod strings;

pub use strings::{calc_pfun, calc_pfun_inplace, calc_zfun, calc_zfun_inplace, ceil2, ilog2};
pub use capacity::Capacity;
pub use graph::{Edge, Graph};
pub mod task_u;
pub mod task_q;
pub mod task_r;
pub mod task_m;
pub mod task_k;
pub mod task_j;
pub mod task_g;
pub mod task_h;
pub mod task_a;
pub mod task_b;
pub mod task_c;
pub mod task_d;
pub mod task_f;
pub mod task_e;
pub mod task_n;
pub mod task_o;
pub mod task_p;
pub mod task_l;
