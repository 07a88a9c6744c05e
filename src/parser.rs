pub mod byte_parser;
pub mod newick;
pub mod nexus;
pub mod numeral;
pub mod parsing_error;
