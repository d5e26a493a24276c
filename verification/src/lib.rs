pub mod config;
pub mod correlate;
pub mod error;
pub mod handlers;
pub mod queue;
pub mod supervisor;

pub use config::GrokConfig;
pub use handlers::MessageHandler;
pub use correlate::InboundEvent;
pub use correlate::PendingEntry;
pub use correlate::ResponseCorrelator;
pub use error::GrokError;
pub use error::SubmitError;
pub use queue::PriorityQueue;
pub use queue::Request;
pub use queue::RequestPriority;
pub use supervisor::Completion;
pub use supervisor::DispatchAction;
pub use supervisor::FeedResult;
pub use supervisor::Outcome;
pub use supervisor::Supervisor;
