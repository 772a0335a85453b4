pub mod announced;
pub mod apply;
pub mod arrives;
pub mod assign;
pub mod bitvec;
pub mod bundles;
pub mod carried;
pub mod carry;
pub mod cfg;
pub mod code_range;
pub mod copied;
pub mod copies;
pub mod data;
pub mod demands;
pub mod dom;
pub mod fixed;
pub mod fixup;
pub mod flow;
pub mod frame;
pub mod func;
pub mod graph;
pub mod groups;
pub mod halfmove;
pub mod handed;
pub mod held;
pub mod hot;
pub mod index;
pub mod lists;
pub mod live;
pub mod liveness;
pub mod locate;
pub mod meets;
pub mod merge;
pub mod minimal;
pub mod moves;
pub mod names;
pub mod needed;
pub mod operands;
pub mod order;
pub mod parts;
pub mod place;
pub mod points;
pub mod probe;
pub mod probed;
pub mod process;
pub mod props;
pub mod queue;
pub mod reached;
pub mod reg;
pub mod requirement;
pub mod reserved;
pub mod resolve;
pub mod run;
pub mod served;
pub mod settle;
pub mod setup;
pub mod slots;
pub mod small;
pub mod sort;
pub mod spans;
pub mod spill;
pub mod split;
pub mod table;
pub mod tree;
pub mod undo;
pub mod uses;
