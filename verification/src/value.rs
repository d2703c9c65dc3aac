pub mod map;
pub mod num;
pub mod prefix;
pub mod value;
