pub mod restore;
pub mod restore_laws;
pub mod run;
pub mod validation;
