//! Pure query functions over an in-memory fleet of car records:
//! filtering, summing, stable de-duplication, quantified checks,
//! reverse search and maximum selection, each with a full contract.

pub mod car;
pub mod laws;
pub mod order;
pub mod queries;

pub use car::Car;
pub use queries::all_electric;
pub use queries::any_electric;
pub use queries::last_non_electric;
pub use queries::most_expensive;
pub use queries::only_electric;
pub use queries::total_cost;
pub use queries::unique_brands;
pub use queries::unique_brands2;
pub use queries::unique_brands3;
