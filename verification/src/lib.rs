pub mod diakritikos;
pub mod episemos;
pub mod metaphrastees;
pub mod paideia;
pub mod phonetikos;
pub mod phonologia;
pub mod suntaxis;
pub mod text;
pub mod zographia;
