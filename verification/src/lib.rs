//! A minimal HTTP edge service core: routing, client-IP extraction,
//! header introspection, ISO-8601 time formatting, and a uniform
//! cross-origin (CORS) policy, all on plain request/response values.

pub mod headers;
pub mod http;
pub mod json;
pub mod text;
pub mod time;
