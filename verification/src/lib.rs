//! Software implementation of IEEE 754 binary16 ("half precision")
//! arithmetic on plain 16-bit integers, with round-to-nearest-ties-to-even
//! results proved correct against an exact rational-number model.

mod add;
mod div;
mod eq;
mod from;
mod model;
mod mul;
mod mul_add;
mod neg;
mod ord;
mod round;
mod rounding;
mod soft_float16;
mod sub;

pub use mul_add::MulAdd;
pub use round::RoundTiesEven;
pub use soft_float16::SoftFloat16;
