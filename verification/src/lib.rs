//! Regional Internet Registry delegation records: address ranges and their
//! decomposition into CIDR blocks, the reading of delegation files, and a
//! sorted table that finds the delegation of an address.
//!
//! Every function of the library is verified against its contract; the few
//! calls into other crates stand behind wrappers whose contracts say what is
//! taken on trust.

pub mod addr;
pub mod bits;
pub mod cidr;
pub mod country;
pub mod error;
pub mod notation;
pub mod order;
pub mod parse;
pub mod range;
pub mod record;
pub mod registry;
pub mod report;
pub mod rir;
pub mod status;
pub mod sync;
pub mod table;
pub mod text;

pub use addr::IpAddress;
pub use cidr::{Ipv4Cidr, Ipv6Cidr};
pub use country::Country;
pub use error::Error;
pub use parse::parse;
pub use range::{Ipv4AddrsIter, Ipv4CidrIter, Ipv4Range};
pub use record::{IpBlock, ParseOutcome, Record};
pub use registry::Registry;
pub use status::Status;
pub use table::{build, lookup, Entry, LookupTable};
