//! The components of a DRA driver, how they start and how they end.

use crate::claim::ClaimResolver;
use crate::device_plugin::ServerExit;
use crate::dra::DraDriver;
use crate::path::{join_path, join_text};
use crate::plugin_service::{
    plugin_socket_path, plugin_socket_text, DraPluginService, KUBELET_PLUGINS_PATH,
};
use crate::registration::{dra_plugin_info, registration_socket_path, DraRegistrationServer};
use crate::resource_slice::ResourceSlicePublisher;
use vstd::prelude::*;
use vstd::string::*;

verus! {

/// The message for a server that ended.
pub open spec fn component_message(component: Seq<char>, result: ServerExit) -> Seq<char> {
    match result {
        Ok(Ok(())) => component + " exited unexpectedly"@,
        Ok(Err(error)) => component + " failed: "@ + error@,
        Err(reason) => component + " panicked: "@ + reason@,
    }
}

/// Tells of a server that ended: none of them is meant to.
pub fn component_error(component: &str, result: ServerExit) -> (message: String)
    ensures
        message@ == component_message(component@, result),
{
    let mut message = component.to_owned();
    match result {
        Ok(Ok(())) => {
            message.append(" exited unexpectedly");
        },
        Ok(Err(error)) => {
            message.append(" failed: ");
            message.append(error.as_str());
        },
        Err(reason) => {
            message.append(" panicked: ");
            message.append(reason.as_str());
        },
    }
    message
}

/// The message for a publisher that ended.
pub open spec fn publisher_message(result: Result<(), String>) -> Seq<char> {
    match result {
        Ok(()) => "ResourceSlice publisher exited unexpectedly"@,
        Err(reason) => "ResourceSlice publisher panicked: "@ + reason@,
    }
}

/// Tells of a publisher that ended.
pub fn publisher_error(result: Result<(), String>) -> (message: String)
    ensures
        message@ == publisher_message(result),
{
    match result {
        Ok(()) => "ResourceSlice publisher exited unexpectedly".to_owned(),
        Err(reason) => {
            let mut message = "ResourceSlice publisher panicked: ".to_owned();
            message.append(reason.as_str());
            message
        },
    }
}

/// A component of a driver.
#[derive(Clone, Copy, Debug, PartialEq, Eq, Structural)]
pub enum Component {
    Registration,
    Service,
    Publisher,
}

/// The component that ended first, and how.
pub enum ComponentExit {
    Registration(ServerExit),
    Service(ServerExit),
    Publisher(Result<(), String>),
}

impl ComponentExit {
    /// The component that ended.
    pub open spec fn component(self) -> Component {
        match self {
            ComponentExit::Registration(_) => Component::Registration,
            ComponentExit::Service(_) => Component::Service,
            ComponentExit::Publisher(_) => Component::Publisher,
        }
    }
}

/// The message for the component that ended first.
pub open spec fn exit_message(exit: ComponentExit) -> Seq<char> {
    match exit {
        ComponentExit::Registration(result) => component_message("registration server"@, result),
        ComponentExit::Service(result) => component_message("DRAPlugin service"@, result),
        ComponentExit::Publisher(result) => publisher_message(result),
    }
}

/// Decides what follows the first component that ends: the others are stopped,
/// then the driver ends with an error.
pub fn wait_for_component_exit(exit: ComponentExit) -> (shutdown: (Vec<Component>, String))
    ensures
        forall|component: Component|
            shutdown.0@.contains(component) <==> component != exit.component(),
        shutdown.0@.len() == 2,
        shutdown.1@ == exit_message(exit),
{
    let mut stopped: Vec<Component> = Vec::new();
    match exit {
        ComponentExit::Registration(result) => {
            stopped.push(Component::Service);
            stopped.push(Component::Publisher);
            proof {
                assert(stopped@[0] == Component::Service && stopped@[1] == Component::Publisher);
            }
            (stopped, component_error("registration server", result))
        },
        ComponentExit::Service(result) => {
            stopped.push(Component::Registration);
            stopped.push(Component::Publisher);
            proof {
                assert(stopped@[0] == Component::Registration && stopped@[1]
                    == Component::Publisher);
            }
            (stopped, component_error("DRAPlugin service", result))
        },
        ComponentExit::Publisher(result) => {
            stopped.push(Component::Registration);
            stopped.push(Component::Service);
            proof {
                assert(stopped@[0] == Component::Registration && stopped@[1] == Component::Service);
            }
            (stopped, publisher_error(result))
        },
    }
}

/// What follows the start of a component: the next one, waiting once all run, or
/// the end where it failed to start.
#[derive(Clone, Copy, Debug, PartialEq, Eq, Structural)]
pub enum StartStep {
    Start(Component),
    Wait,
    /// Stop the registration server where it runs, and report the failure.
    Fail { stop_registration: bool },
}

/// Decides what follows the start of a component. Registration comes first, then
/// the service, then the publisher. A service that fails to start takes the
/// registration down with it.
pub fn component_started(component: Component, started: bool) -> (step: StartStep)
    ensures
        step == match (component, started) {
            (Component::Registration, true) => StartStep::Start(Component::Service),
            (Component::Service, true) => StartStep::Start(Component::Publisher),
            (Component::Publisher, true) => StartStep::Wait,
            (Component::Registration, false) => StartStep::Fail { stop_registration: false },
            (_, false) => StartStep::Fail { stop_registration: true },
        },
{
    match (component, started) {
        (Component::Registration, true) => StartStep::Start(Component::Service),
        (Component::Service, true) => StartStep::Start(Component::Publisher),
        (Component::Publisher, true) => StartStep::Wait,
        (Component::Registration, false) => StartStep::Fail { stop_registration: false },
        (_, false) => StartStep::Fail { stop_registration: true },
    }
}

/// A DRA driver: its registration, its service and its publisher.
pub struct DraPlugin<D: DraDriver> {
    driver_name: String,
    registration: DraRegistrationServer,
    service: DraPluginService<D>,
    publisher: ResourceSlicePublisher,
}

impl<D: DraDriver> DraPlugin<D> {
    /// The name of the driver.
    pub closed spec fn name(self) -> Seq<char> {
        self.driver_name@
    }

    /// The registration.
    pub closed spec fn registers_by(self) -> DraRegistrationServer {
        self.registration
    }

    /// The service.
    pub closed spec fn serves_by(self) -> DraPluginService<D> {
        self.service
    }

    /// The publisher.
    pub closed spec fn publishes_by(self) -> ResourceSlicePublisher {
        self.publisher
    }

    /// Puts the components of a driver on a node together.
    pub fn new(driver_name: &str, node_name: &str, driver: D) -> (plugin: DraPlugin<D>)
        ensures
            plugin.name() == driver_name@,
            plugin.registers_by().listens_at() == registration_socket_path(driver_name@),
            plugin.registers_by().info() == dra_plugin_info(
                driver_name@,
                plugin_socket_text(driver_name@),
            ),
            plugin.serves_by().backend() == driver,
            plugin.publishes_by().driver() == driver_name@,
            plugin.publishes_by().node() == node_name@,
    {
        let endpoint = plugin_socket_path(driver_name);
        DraPlugin {
            driver_name: driver_name.to_owned(),
            registration: DraRegistrationServer::new(driver_name, endpoint.as_str()),
            service: DraPluginService::new(ClaimResolver::new(), driver),
            publisher: ResourceSlicePublisher::new(driver_name, node_name),
        }
    }

    /// The directory of the driver, which it creates before it starts.
    pub fn plugin_dir(&self) -> (path: String)
        ensures
            path@ == join_text(KUBELET_PLUGINS_PATH@, self.name()),
    {
        join_path(KUBELET_PLUGINS_PATH, self.driver_name.as_str())
    }

    /// The path of the driver's socket.
    pub fn plugin_socket_path(&self) -> (path: String)
        ensures
            path@ == plugin_socket_text(self.name()),
    {
        plugin_socket_path(self.driver_name.as_str())
    }

    /// The registration.
    pub fn registration(&self) -> (registration: &DraRegistrationServer)
        ensures
            *registration == self.registers_by(),
    {
        &self.registration
    }

    /// The service.
    pub fn service(&self) -> (service: &DraPluginService<D>)
        ensures
            *service == self.serves_by(),
    {
        &self.service
    }

    /// The publisher.
    pub fn publisher(&self) -> (publisher: &ResourceSlicePublisher)
        ensures
            *publisher == self.publishes_by(),
    {
        &self.publisher
    }
}

} // verus!
