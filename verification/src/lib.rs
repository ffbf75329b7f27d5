//! Verified core of a mixture-of-experts inference engine.

pub mod accuracy;
pub mod attention;
pub mod attention_laws;
pub mod bf16;
pub mod bytes;
pub mod cache;
pub mod chars;
pub mod chat;
pub mod config;
pub mod constants;
pub mod device;
pub mod device_laws;
pub mod dtype;
pub mod embed;
pub mod engine;
pub mod error;
pub mod float;
pub mod forward;
pub mod fp4;
pub mod fp8;
pub mod generate;
pub mod grid;
pub mod http;
pub mod http_laws;
pub mod hub;
pub mod int4;
pub mod int8;
pub mod json;
pub mod linear;
pub mod linear_laws;
pub mod logits;
pub mod math;
pub mod model;
pub mod model_laws;
pub mod moe;
pub mod moe_laws;
pub mod nibble;
pub mod ready;
pub mod rope;
pub mod rounding;
pub mod storage_laws;
pub mod text;
pub mod topk;
pub mod vocab;
pub mod weights;
