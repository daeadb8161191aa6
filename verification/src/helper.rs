pub mod stack_proxy;
