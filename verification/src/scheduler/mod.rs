pub mod layering;
pub mod recorder;
pub mod wavefront;
pub mod work_stealing;
