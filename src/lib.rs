pub mod callback_args;
pub mod contract;
pub mod data_request;
pub mod errors;
pub mod fee_config;
pub mod helpers;
pub mod log_keys;
pub mod oracle_config;
pub mod requester_handler;
pub mod resolution_window;
pub mod sums;
pub mod types;

pub use callback_args::{ChallengeDataRequestArgs, NewDataRequestArgs, Source, StakeDataRequestArgs};
pub use contract::Contract;
pub use data_request::DataRequest;
pub use requester_handler::Requester;
