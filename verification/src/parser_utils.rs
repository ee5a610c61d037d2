pub mod character_class;
pub mod common_parsing_functions;
pub mod decimal_text;
pub mod number_parsing;
pub mod parser_errors;
pub mod round_trip;
pub mod spanned;
