pub mod bf;
pub mod machine;
pub mod pairing;
pub mod program;
pub mod reply;
