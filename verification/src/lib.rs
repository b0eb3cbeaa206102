//! Decision logic of Kubernetes device plugins and of Dynamic Resource
//! Allocation (DRA) drivers.

pub mod allocation;
pub mod allocation_laws;
pub mod claim;
pub mod claim_laws;
pub mod device;
pub mod device_plugin;
pub mod device_plugin_laws;
pub mod device_status;
pub mod device_status_laws;
pub mod dra;
pub mod driver_laws;
pub mod duration;
pub mod health;
pub mod json;
pub mod kube_api;
pub mod lifecycle;
pub mod naming_laws;
pub mod ordered_map;
pub mod path;
pub mod permissions;
pub mod plugin_service;
pub mod plugin_service_laws;
pub mod probe;
pub mod publication_laws;
pub mod record;
pub mod record_laws;
pub mod registration;
pub mod resource_health;
pub mod resource_slice;
pub mod resource_slice_laws;
pub mod slice_api;
pub mod socket_name;
pub mod static_driver;
pub mod static_plugin;
pub mod status_report_laws;
pub mod text;
pub mod text_laws;
pub mod unix_socket;
pub mod validation;
