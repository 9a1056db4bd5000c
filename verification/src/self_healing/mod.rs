pub mod router;
