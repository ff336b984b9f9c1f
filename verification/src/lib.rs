pub mod text;
pub mod numbers;
pub mod http;
pub mod css;
pub mod sheet;
pub mod cascade;
pub mod style;
pub mod layout;
pub mod dom;
pub mod resolve;
pub mod js;
pub mod bridge;
