//! Verified core of the name-record service: parsing the uploaded name file,
//! merging records with what the table already stores, shaping the stored
//! items, answering queries, and the decisions of the web front end.
pub mod text;
pub mod record;
pub mod parse;
pub mod store;
pub mod laws;
pub mod server;
pub mod client;

pub use client::{fetch_reply, viewer_reply, App, Command, Msg, Request, Viewer, ViewerMsg};
pub use parse::{lines_have_names, parse_input_file};
pub use record::{NameTable, Record};
pub use server::{error_reply, hello, names_fallback, unload_reply, CORS};
pub use store::{
    build_item, combine_record, combine_tables, found_by_last_name, mentions_full_name_key, merge_query_results,
    names_splittable, upload_items,
};
