pub mod capsule;

pub use capsule::Capsule;
pub use capsule::CapsuleMetadata;
