//! Static routes and policy-routing rules: a small definition language and
//! the order in which its entries are applied to the kernel's routing tables.

pub mod addr;
pub mod number;
pub mod reconcile;
pub mod route;
pub mod rule;
pub mod text;
pub mod token;
pub mod value;
