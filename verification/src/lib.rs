//! A vector space model search core: an inverted index over tokenized
//! documents and the ranking of documents against free-text queries.

pub mod indexing;
pub mod posting_list;
pub mod query;
pub mod ranking;
pub mod retrieve_tokens;
pub mod vocabulary;
pub mod words;
