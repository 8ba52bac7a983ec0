pub mod chars;
pub mod doc;
pub mod error;
pub mod keyfile;
pub mod laws;
pub mod netdef;
pub mod parse;
pub mod parser;
pub mod state;
pub mod utils;
pub mod value;
pub mod yaml;

pub use error::LibNetplanError;
pub use error::NetplanErrorDomains;
pub use error::NetplanResult;
