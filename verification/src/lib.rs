//! The middle of a method compiler: from bytecode to intermediate code, its passes, register allocation,
//! stack maps and deoptimization metadata.

pub mod apart;
pub mod apart_graft;
pub mod apart_root;
pub mod boxes;
pub mod classify;
pub mod convert;
pub mod copies;
pub mod copyprop;
pub mod depths;
pub mod effect;
pub mod endings;
pub mod faithful;
pub mod faithful_blocks;
pub mod faithful_bodies;
pub mod faithful_branch;
pub mod faithful_dispatch;
pub mod faithful_method;
pub mod faithful_root;
pub mod faithful_sends;
pub mod faithful_splice;
pub mod faithful_walk;
pub mod fconst;
pub mod flow;
pub mod graft;
pub mod instr;
pub mod intervals;
pub mod ir;
pub mod kinds;
pub mod laws;
pub mod leb;
pub mod loc;
pub mod machine;
pub mod meaning;
pub mod nmethod;
pub mod oopmap;
pub mod ops;
pub mod order;
pub mod osr;
pub mod passes;
pub mod progress;
pub mod promote;
pub mod reach;
pub mod rebuilt;
pub mod reduce;
pub mod regalloc;
pub mod renaming;
pub mod root;
pub mod scopes;
pub mod sound;
pub mod sound_convert;
pub mod sound_graft;
pub mod sound_passes;
pub mod sound_returns;
pub mod sound_root;
pub mod sound_splice;
pub mod splice;
pub mod splice_promote;
pub mod tidy;
pub mod total;
pub mod translates;
pub mod translator;
pub mod typed;
pub mod typed_trees;
pub mod unboxed;
pub mod unboxed_passes;
pub mod values;
pub mod world;
