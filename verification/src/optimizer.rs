pub mod blueprint;
pub mod builder;
pub mod flow;
pub mod layout;
pub mod loads;
pub mod network;
pub mod smart_home;
