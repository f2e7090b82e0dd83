//! What holds of the library as a whole, stated over what goes in and what
//! comes out.

pub mod bundling;
pub mod desktop;
pub mod emptying;
pub mod guarding;
pub mod handing;
pub mod marking;
pub mod owned;
pub mod planning;
pub mod records;
pub mod spelling;
pub mod tables;
pub mod trashing;
pub mod volumes;
pub mod wording;
pub mod working;
