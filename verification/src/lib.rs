pub mod connect_four;
pub mod min;
pub mod sorts;
