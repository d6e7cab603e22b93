//! Verified core of the ZeroClaw runtime helpers: MQTT topic and broker
//! handling, the `mqtt_publish` tool's argument checks and rate limiter, and
//! the OpenClaw memory import logic.

pub mod text;
pub mod mqtt_bus;
pub mod mqtt_publish;
pub mod migration;
