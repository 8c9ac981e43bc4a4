pub mod civil;
pub mod point_time;
pub mod parse_date_string;
pub mod rrule;
pub mod rrule_set;
pub mod text;
pub mod zone;

pub use civil::Date;
