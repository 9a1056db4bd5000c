pub mod matrix_mapper;
pub mod queries;
