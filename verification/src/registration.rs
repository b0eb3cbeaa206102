//! The registration of a DRA driver with kubelet.
//!
//! A driver serves its registration on a socket of its own; kubelet finds the
//! socket, connects and asks. The driver never has to try again.

use crate::path::{join_path, join_text};
use crate::plugin_service::DRA_PLUGIN_SERVICE;
use crate::record::{copy_all, views};
use crate::socket_name::{sanitize_socket_name, socket_name};
use vstd::prelude::*;
use vstd::string::*;

verus! {

/// Where kubelet looks for the registration sockets of plugins.
pub const KUBELET_PLUGINS_REGISTRY_PATH: &'static str = "/var/lib/kubelet/plugins_registry/";

/// The end of the name of a registration socket.
pub const REGISTRATION_SOCKET_SUFFIX: &'static str = "-reg.sock";

/// Room for the driver's part of the name of a registration socket: what the
/// longest path leaves beside kubelet's directory and the end of the name.
pub const REGISTRATION_NAME_BUDGET: usize = 64;

/// The type of plugin that a DRA driver is.
pub const DRA_PLUGIN_TYPE: &'static str = "DRAPlugin";

/// What a driver tells kubelet of itself.
#[derive(Clone, Debug, PartialEq, Eq)]
pub struct PluginInfo {
    pub type_: String,
    pub name: String,
    pub endpoint: String,
    pub supported_versions: Vec<String>,
}

/// What a [`PluginInfo`] says.
pub struct PluginInfoModel {
    pub type_: Seq<char>,
    pub name: Seq<char>,
    pub endpoint: Seq<char>,
    pub supported_versions: Seq<Seq<char>>,
}

impl View for PluginInfo {
    type V = PluginInfoModel;

    open spec fn view(&self) -> PluginInfoModel {
        PluginInfoModel {
            type_: self.type_@,
            name: self.name@,
            endpoint: self.endpoint@,
            supported_versions: views(self.supported_versions@),
        }
    }
}

/// What a driver tells kubelet of itself: its name, the socket of its service,
/// and the service that it implements.
pub open spec fn dra_plugin_info(
    driver_name: Seq<char>,
    plugin_endpoint: Seq<char>,
) -> PluginInfoModel {
    PluginInfoModel {
        type_: DRA_PLUGIN_TYPE@,
        name: driver_name,
        endpoint: plugin_endpoint,
        supported_versions: seq![DRA_PLUGIN_SERVICE@],
    }
}

/// The name of a driver's registration socket.
pub open spec fn registration_socket_name(driver_name: Seq<char>) -> Seq<char> {
    socket_name(driver_name, REGISTRATION_NAME_BUDGET as nat) + REGISTRATION_SOCKET_SUFFIX@
}

/// The path of a driver's registration socket.
pub open spec fn registration_socket_path(driver_name: Seq<char>) -> Seq<char> {
    join_text(KUBELET_PLUGINS_REGISTRY_PATH@, registration_socket_name(driver_name))
}

/// What a driver serves on its registration socket.
#[derive(Debug)]
pub struct DraRegistrationServer {
    socket_path: String,
    plugin_info: PluginInfo,
}

impl DraRegistrationServer {
    /// The path of the registration socket.
    pub closed spec fn listens_at(self) -> Seq<char> {
        self.socket_path@
    }

    /// What kubelet is told.
    pub closed spec fn info(self) -> PluginInfoModel {
        self.plugin_info@
    }

    /// The registration of a driver whose service listens at an endpoint.
    pub fn new(driver_name: &str, plugin_endpoint: &str) -> (server: DraRegistrationServer)
        ensures
            server.listens_at() == registration_socket_path(driver_name@),
            server.info() == dra_plugin_info(driver_name@, plugin_endpoint@),
    {
        let socket_path = join_path(
            KUBELET_PLUGINS_REGISTRY_PATH,
            DraRegistrationServer::socket_name(driver_name).as_str(),
        );
        let mut supported_versions: Vec<String> = Vec::new();
        supported_versions.push(DRA_PLUGIN_SERVICE.to_owned());
        let plugin_info = PluginInfo {
            type_: DRA_PLUGIN_TYPE.to_owned(),
            name: driver_name.to_owned(),
            endpoint: plugin_endpoint.to_owned(),
            supported_versions,
        };
        proof {
            assert(plugin_info@.supported_versions =~= seq![DRA_PLUGIN_SERVICE@]);
        }
        DraRegistrationServer { socket_path, plugin_info }
    }

    /// The name of a driver's registration socket.
    pub fn socket_name(driver_name: &str) -> (name: String)
        ensures
            name@ == registration_socket_name(driver_name@),
    {
        let mut name = sanitize_socket_name(driver_name, REGISTRATION_NAME_BUDGET);
        name.append(REGISTRATION_SOCKET_SUFFIX);
        name
    }

    /// The path of the registration socket, for whoever removes the file once
    /// the server has stopped.
    pub fn socket_path(&self) -> (path: &str)
        ensures
            path@ == self.listens_at(),
    {
        self.socket_path.as_str()
    }

    /// What kubelet is told when it asks.
    pub fn get_info(&self) -> (info: PluginInfo)
        ensures
            info@ == self.info(),
    {
        PluginInfo {
            type_: self.plugin_info.type_.clone(),
            name: self.plugin_info.name.clone(),
            endpoint: self.plugin_info.endpoint.clone(),
            supported_versions: copy_all(&self.plugin_info.supported_versions),
        }
    }
}

} // verus!
