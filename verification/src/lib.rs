//! A Hebbian knowledge graph: concepts, weighted relations, text learning and
//! graph-based question answering, with its contracts proved by Verus.

pub mod text;
pub mod table;
pub mod brain;
pub mod brain_laws;
pub mod sort;
pub mod filter;
pub mod nlp;
pub mod nlp_laws;
pub mod learner;
pub mod learner_laws;
pub mod response_generator;
pub mod inference;
pub mod inference_laws;
pub mod observer;
pub mod repl;
pub mod file_reader;
pub mod lm;
pub mod lm_laws;
pub mod crawler;
pub mod crawler_laws;
