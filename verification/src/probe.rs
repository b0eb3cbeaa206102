//! A probe whether a DRA driver is alive.

use crate::path::{join_path, path_model, same_path};
use crate::plugin_service::{plugin_socket_path, plugin_socket_text};
use crate::registration::{
    registration_socket_path, DraRegistrationServer, PluginInfo, PluginInfoModel, DRA_PLUGIN_TYPE,
    KUBELET_PLUGINS_REGISTRY_PATH,
};
use crate::text::{debug_quoted, debug_text, same_text};
use vstd::prelude::*;
use vstd::string::*;

verus! {

/// How long a probe waits for an answer, in seconds.
pub const PROBE_TIMEOUT_SECONDS: u64 = 5;

/// A probe of one driver on its node that changes nothing.
///
/// It asks the registration socket for the driver's information, checks it, and
/// then asks the service to prepare no claims at all.
#[derive(Clone, Debug)]
pub struct DraPluginLivenessProbe {
    registration_socket_path: String,
    plugin_socket_path: String,
}

/// Whether a driver's information is that of the probed one: it is a DRA driver,
/// and its service listens at the expected path, however that is spelled.
pub open spec fn probe_verdict(
    registration_path: Seq<char>,
    plugin_path: Seq<char>,
    info: PluginInfoModel,
) -> Result<(), Seq<char>> {
    if info.type_ != DRA_PLUGIN_TYPE@ {
        Err(
            "registration socket "@ + registration_path + " reported plugin type "@ + debug_text(
                info.type_,
            ) + ", not DRAPlugin"@,
        )
    } else if path_model(info.endpoint) != path_model(plugin_path) {
        Err(
            "registration socket "@ + registration_path + " advertised "@ + info.endpoint
                + ", expected "@ + plugin_path,
        )
    } else {
        Ok(())
    }
}

impl DraPluginLivenessProbe {
    /// The registration socket.
    pub closed spec fn asks(self) -> Seq<char> {
        self.registration_socket_path@
    }

    /// The socket of the service.
    pub closed spec fn expects(self) -> Seq<char> {
        self.plugin_socket_path@
    }

    /// A probe of a driver at the usual paths.
    #[must_use]
    pub fn new(driver_name: &str) -> (probe: DraPluginLivenessProbe)
        ensures
            probe.asks() == registration_socket_path(driver_name@),
            probe.expects() == plugin_socket_text(driver_name@),
    {
        let registration = join_path(
            KUBELET_PLUGINS_REGISTRY_PATH,
            DraRegistrationServer::socket_name(driver_name).as_str(),
        );
        DraPluginLivenessProbe::with_socket_paths(
            registration.as_str(),
            plugin_socket_path(driver_name).as_str(),
        )
    }

    /// A probe at other paths.
    #[must_use]
    pub fn with_socket_paths(registration_socket_path: &str, plugin_socket_path: &str) -> (probe:
        DraPluginLivenessProbe)
        ensures
            probe.asks() == registration_socket_path@,
            probe.expects() == plugin_socket_path@,
    {
        DraPluginLivenessProbe {
            registration_socket_path: registration_socket_path.to_owned(),
            plugin_socket_path: plugin_socket_path.to_owned(),
        }
    }

    /// The registration socket.
    pub fn registration_socket_path(&self) -> (path: &str)
        ensures
            path@ == self.asks(),
    {
        self.registration_socket_path.as_str()
    }

    /// The socket of the service.
    pub fn plugin_socket_path(&self) -> (path: &str)
        ensures
            path@ == self.expects(),
    {
        self.plugin_socket_path.as_str()
    }

    /// Checks what the registration socket told; a refusal comes with the
    /// reason.
    pub fn check(&self, info: &PluginInfo) -> (result: Result<(), String>)
        ensures
            (match result {
                Ok(()) => Ok(()),
                Err(message) => Err(message@),
            }) == probe_verdict(self.asks(), self.expects(), info@),
    {
        if !same_text(info.type_.as_str(), DRA_PLUGIN_TYPE) {
            let mut message = "registration socket ".to_owned();
            message.append(self.registration_socket_path.as_str());
            message.append(" reported plugin type ");
            message.append(debug_quoted(info.type_.as_str()).as_str());
            message.append(", not DRAPlugin");
            return Err(message);
        }
        if !same_path(info.endpoint.as_str(), self.plugin_socket_path.as_str()) {
            let mut message = "registration socket ".to_owned();
            message.append(self.registration_socket_path.as_str());
            message.append(" advertised ");
            message.append(info.endpoint.as_str());
            message.append(", expected ");
            message.append(self.plugin_socket_path.as_str());
            return Err(message);
        }
        Ok(())
    }
}

/// The message where a socket cannot be reached.
pub fn connect_error(service: &str, socket_path: &str, error: &str) -> (message: String)
    ensures
        message@ == "connect to "@ + service@ + " socket "@ + socket_path@ + ": "@ + error@,
{
    let mut message = "connect to ".to_owned();
    message.append(service);
    message.append(" socket ");
    message.append(socket_path);
    message.append(": ");
    message.append(error);
    message
}

/// The message where a call fails.
pub fn rpc_error(operation: &str, error: &str) -> (message: String)
    ensures
        message@ == operation@ + " probe failed: "@ + error@,
{
    let mut message = operation.to_owned();
    message.append(" probe failed: ");
    message.append(error);
    message
}

/// A driver that is registered as usual passes the probe at the usual paths.
pub proof fn law_registered_driver_is_alive(driver_name: Seq<char>)
    ensures
        probe_verdict(
            registration_socket_path(driver_name),
            plugin_socket_text(driver_name),
            crate::registration::dra_plugin_info(driver_name, plugin_socket_text(driver_name)),
        ) is Ok,
{
}

} // verus!
