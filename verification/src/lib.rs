//! Deny-list DNS blocking: turning names into hashed wire form, recognising DNS
//! queries in frames, and reporting what was blocked.
pub mod blocker;
pub mod blocking;
pub mod dedup;
pub mod deny;
pub mod event;
pub mod hash;
pub mod interfaces;
pub mod packet;
pub mod report;
pub mod session;
pub mod text;
pub mod wire;

pub use crate::blocker::{run_blocker, Blocker, Outcome, Step};
pub use crate::dedup::{check_domain, SeenDomains, LOG_DEDUP_WINDOW};
pub use crate::deny::{load_deny_map, DenyEntry, DenyPlan};
pub use crate::event::{
    validate_block_event, BlockEvent, DNS_TYPE_A, DNS_TYPE_AAAA, MAX_DOMAIN_LEN,
};
pub use crate::hash::{fnv1a_64, FNV_OFFSET, FNV_PRIME};
pub use crate::interfaces::list_interfaces;
pub use crate::packet::{dnsblk, Action, Verdict};
pub use crate::report::{qtype_name, WorkerMsg};
pub use crate::session::{is_root, Reaction, Received, Session};
pub use crate::wire::{domain_to_wire, wire_to_domain};
