//! An entity component system whose storage bookkeeping is verified.
pub mod archetype;
pub mod btree;
pub mod bundle;
pub mod components;
pub mod concat;
pub mod entity;
pub mod entry;
pub mod join;
pub mod laws;
pub mod par_groups;
pub mod query;
pub mod range_store;
pub mod sparse;
pub mod storage;
pub mod system;
pub mod tracking;
pub mod tuple_join;
pub mod type_list;
pub mod vec_storage;
pub mod world;
