pub mod gobackn;
pub mod loss;
pub mod packet;
pub mod selective_repeat;
