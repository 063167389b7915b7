pub mod checker;
pub mod errors;
pub mod laws;
pub mod models;
pub mod parser;
pub mod scraper;
pub mod text;

pub use checker::check_winners;
pub use checker::MatchResult;
pub use errors::ParseError;
pub use models::Bond;
pub use models::Winner;
pub use parser::check_for_duplicates;
pub use parser::check_for_overlaps;
pub use parser::parse_bond_number;
pub use parser::parse_bonds;
pub use parser::ranges_overlap;
pub use scraper::get_month;
pub use scraper::get_winners;
