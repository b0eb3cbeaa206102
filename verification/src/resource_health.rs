//! The optional service that tells kubelet of the health of devices.

use crate::device_plugin::{RpcCode, RpcStatus, RpcStatusModel};
use crate::record::views;
use vstd::prelude::*;
use vstd::string::*;

verus! {

/// The health of a device, where it is known.
#[derive(Clone, Copy, Debug, PartialEq, Eq, Structural)]
pub enum ResourceHealthStatus {
    Unknown,
    Healthy,
    Unhealthy,
}

/// The health of one device of a pool.
#[derive(Clone, Debug, PartialEq, Eq)]
pub struct DraDeviceHealth {
    pub pool_name: String,
    pub device_name: String,
    pub health: ResourceHealthStatus,
    pub last_updated_time: i64,
    pub health_check_timeout_seconds: i64,
    pub message: String,
}

/// What a [`DraDeviceHealth`] says.
pub struct DeviceHealthModel {
    pub pool_name: Seq<char>,
    pub device_name: Seq<char>,
    pub health: ResourceHealthStatus,
    pub last_updated_time: i64,
    pub health_check_timeout_seconds: i64,
    pub message: Seq<char>,
}

impl View for DraDeviceHealth {
    type V = DeviceHealthModel;

    open spec fn view(&self) -> DeviceHealthModel {
        DeviceHealthModel {
            pool_name: self.pool_name@,
            device_name: self.device_name@,
            health: self.health,
            last_updated_time: self.last_updated_time,
            health_check_timeout_seconds: self.health_check_timeout_seconds,
            message: self.message@,
        }
    }
}

/// A snapshot of the health of devices.
#[derive(Clone, Debug, PartialEq, Eq)]
pub struct ResourceHealthReport {
    pub devices: Vec<DraDeviceHealth>,
}

impl View for ResourceHealthReport {
    type V = Seq<DeviceHealthModel>;

    open spec fn view(&self) -> Seq<DeviceHealthModel> {
        views(self.devices@)
    }
}

/// Why a backend stopped to watch the health of its devices.
#[derive(Clone, Debug, PartialEq, Eq)]
pub enum ResourceHealthError {
    MonitorFailed(String),
}

impl View for ResourceHealthError {
    type V = Seq<char>;

    open spec fn view(&self) -> Seq<char> {
        match *self {
            ResourceHealthError::MonitorFailed(reason) => reason@,
        }
    }
}

impl ResourceHealthError {
    /// The failure as it is shown.
    pub fn to_string(&self) -> (text: String)
        ensures
            text@ == "resource health monitor failed: "@ + self@,
    {
        match self {
            ResourceHealthError::MonitorFailed(reason) => {
                let mut text = "resource health monitor failed: ".to_owned();
                text.append(reason.as_str());
                text
            },
        }
    }
}

/// The health of a device as kubelet is told of it, by number.
#[derive(Clone, Copy, Debug, PartialEq, Eq, Structural)]
pub enum HealthStatus {
    Unknown,
    Healthy,
    Unhealthy,
}

impl HealthStatus {
    /// The number of the health in kubelet's protocol.
    pub fn number(&self) -> (number: i32)
        ensures
            number == match *self {
                HealthStatus::Unknown => 0i32,
                HealthStatus::Healthy => 1i32,
                HealthStatus::Unhealthy => 2i32,
            },
    {
        match self {
            HealthStatus::Unknown => 0,
            HealthStatus::Healthy => 1,
            HealthStatus::Unhealthy => 2,
        }
    }
}

/// Which device a health is about.
#[derive(Clone, Debug, PartialEq, Eq)]
pub struct DeviceIdentifier {
    pub pool_name: String,
    pub device_name: String,
}

/// The health of one device as kubelet is told of it.
#[derive(Clone, Debug, PartialEq, Eq)]
pub struct DeviceHealth {
    pub device: Option<DeviceIdentifier>,
    pub health: HealthStatus,
    pub last_updated_time: i64,
    pub health_check_timeout_seconds: i64,
    pub message: String,
}

/// What a [`DeviceHealth`] says.
pub struct HealthMessageModel {
    pub device: Option<(Seq<char>, Seq<char>)>,
    pub health: HealthStatus,
    pub last_updated_time: i64,
    pub health_check_timeout_seconds: i64,
    pub message: Seq<char>,
}

impl View for DeviceHealth {
    type V = HealthMessageModel;

    open spec fn view(&self) -> HealthMessageModel {
        HealthMessageModel {
            device: match self.device {
                Some(device) => Some((device.pool_name@, device.device_name@)),
                None => None,
            },
            health: self.health,
            last_updated_time: self.last_updated_time,
            health_check_timeout_seconds: self.health_check_timeout_seconds,
            message: self.message@,
        }
    }
}

/// One report as kubelet gets it.
#[derive(Clone, Debug, PartialEq, Eq)]
pub struct NodeWatchResourcesResponse {
    pub devices: Vec<DeviceHealth>,
}

impl View for NodeWatchResourcesResponse {
    type V = Seq<HealthMessageModel>;

    open spec fn view(&self) -> Seq<HealthMessageModel> {
        views(self.devices@)
    }
}

/// The health of one device as kubelet is told of it.
pub open spec fn health_message(device: DeviceHealthModel) -> HealthMessageModel {
    HealthMessageModel {
        device: Some((device.pool_name, device.device_name)),
        health: match device.health {
            ResourceHealthStatus::Unknown => HealthStatus::Unknown,
            ResourceHealthStatus::Healthy => HealthStatus::Healthy,
            ResourceHealthStatus::Unhealthy => HealthStatus::Unhealthy,
        },
        last_updated_time: device.last_updated_time,
        health_check_timeout_seconds: device.health_check_timeout_seconds,
        message: device.message,
    }
}

/// A report as kubelet is told of it.
pub open spec fn report_message(report: Seq<DeviceHealthModel>) -> Seq<HealthMessageModel> {
    Seq::new(report.len(), |i: int| health_message(report[i]))
}

/// Turns the health of a device into what kubelet is told of it.
pub fn device_to_wire(device: DraDeviceHealth) -> (message: DeviceHealth)
    ensures
        message@ == health_message(device@),
{
    let health = match device.health {
        ResourceHealthStatus::Unknown => HealthStatus::Unknown,
        ResourceHealthStatus::Healthy => HealthStatus::Healthy,
        ResourceHealthStatus::Unhealthy => HealthStatus::Unhealthy,
    };
    DeviceHealth {
        device: Some(
            DeviceIdentifier { pool_name: device.pool_name, device_name: device.device_name },
        ),
        health,
        last_updated_time: device.last_updated_time,
        health_check_timeout_seconds: device.health_check_timeout_seconds,
        message: device.message,
    }
}

/// Turns a report into what kubelet is told of it.
pub fn report_to_wire(report: ResourceHealthReport) -> (response: NodeWatchResourcesResponse)
    ensures
        response@ == report_message(report@),
{
    let ghost given = report.devices@;
    let mut devices: Vec<DeviceHealth> = Vec::new();
    for device in it: report.devices
        invariant
            it.seq() == given,
            devices@.len() == it.index(),
            forall|j: int|
                0 <= j < it.index() ==> (#[trigger] devices@[j])@ == health_message(given[j]@),
    {
        devices.push(device_to_wire(device));
    }
    let response = NodeWatchResourcesResponse { devices };
    proof {
        assert(response@ =~= report_message(report@));
    }
    response
}

/// How a backend's watch ended: it stopped, it failed, or it broke off with a
/// reason.
pub type WatchResult = Result<Result<(), ResourceHealthError>, String>;

/// The end of a stream: kubelet is told to connect again, and why.
pub open spec fn completion(result: WatchResult) -> RpcStatusModel {
    RpcStatusModel {
        code: RpcCode::Unavailable,
        message: match result {
            Ok(Ok(())) => "resource health reporter stopped"@,
            Ok(Err(error)) => "resource health monitor failed: "@ + error@,
            Err(reason) => "resource health reporter panicked: "@ + reason@,
        },
    }
}

/// Ends a stream.
pub fn watch_completion(result: WatchResult) -> (status: RpcStatus)
    ensures
        status@ == completion(result),
{
    let message = match result {
        Ok(Ok(())) => "resource health reporter stopped".to_owned(),
        Ok(Err(error)) => error.to_string(),
        Err(reason) => {
            let mut message = "resource health reporter panicked: ".to_owned();
            message.append(reason.as_str());
            message
        },
    };
    RpcStatus { code: RpcCode::Unavailable, message }
}

/// What happens to an open watch: the backend reports, or its watch has ended
/// with reports that were not handed on yet.
pub enum WatchEvent {
    Report(ResourceHealthReport),
    Ended { buffered: Vec<ResourceHealthReport>, result: WatchResult },
}

/// What kubelet gets: a report, or the end of the stream.
#[derive(Debug, PartialEq, Eq)]
pub enum WatchMessage {
    Report(NodeWatchResourcesResponse),
    End(RpcStatus),
}

/// What a [`WatchMessage`] says.
pub enum MessageModel {
    Report(Seq<HealthMessageModel>),
    End(RpcStatusModel),
}

impl View for WatchMessage {
    type V = MessageModel;

    open spec fn view(&self) -> MessageModel {
        match *self {
            WatchMessage::Report(response) => MessageModel::Report(response@),
            WatchMessage::End(status) => MessageModel::End(status@),
        }
    }
}

/// What kubelet gets for an event: a report is handed on; at the end every
/// buffered report is handed on first, in its order, and then the end.
pub open spec fn event_messages(event: WatchEvent) -> Seq<MessageModel> {
    match event {
        WatchEvent::Report(report) => seq![MessageModel::Report(report_message(report@))],
        WatchEvent::Ended { buffered, result } => Seq::new(
            buffered@.len(),
            |i: int| MessageModel::Report(report_message(buffered@[i]@)),
        ).push(MessageModel::End(completion(result))),
    }
}

/// The service between kubelet and a backend that may report health.
#[derive(Clone, Copy, Debug)]
pub struct DraResourceHealthService {
    supported: bool,
}

/// The answer of a backend that does not report health.
pub open spec fn unsupported_status() -> RpcStatusModel {
    RpcStatusModel {
        code: RpcCode::Unimplemented,
        message: "resource health reporting is not supported by this backend"@,
    }
}

impl DraResourceHealthService {
    /// Whether the backend reports health.
    pub closed spec fn reports(self) -> bool {
        self.supported
    }

    /// A service for a backend that reports health.
    pub fn new() -> (service: DraResourceHealthService)
        ensures
            service.reports(),
    {
        DraResourceHealthService { supported: true }
    }

    /// A service that declines to report health, so that kubelet stops asking.
    pub fn unsupported() -> (service: DraResourceHealthService)
        ensures
            !service.reports(),
    {
        DraResourceHealthService { supported: false }
    }

    /// Opens a watch, unless the backend does not report health.
    pub fn watch_stream(&self) -> (result: Result<HealthWatch, RpcStatus>)
        ensures
            match result {
                Ok(watch) => self.reports() && watch.is_open(),
                Err(status) => !self.reports() && status@ == unsupported_status(),
            },
    {
        if self.supported {
            Ok(HealthWatch { open: true })
        } else {
            Err(
                RpcStatus {
                    code: RpcCode::Unimplemented,
                    message: "resource health reporting is not supported by this backend".to_owned(),
                },
            )
        }
    }
}

/// An open or finished watch of kubelet.
#[derive(Clone, Copy, Debug)]
pub struct HealthWatch {
    open: bool,
}

impl HealthWatch {
    /// Whether kubelet still listens and the backend still watches.
    pub closed spec fn is_open(self) -> bool {
        self.open
    }

    /// Whether the stream is to go on.
    pub fn goes_on(&self) -> (open: bool)
        ensures
            open == self.is_open(),
    {
        self.open
    }

    /// Hands an event on: the messages for kubelet, in their order. The end of
    /// the backend's watch ends the stream; a stream that has ended gets
    /// nothing.
    pub fn handle(&mut self, event: WatchEvent) -> (messages: Vec<WatchMessage>)
        ensures
            views(messages@) == if old(self).is_open() {
                event_messages(event)
            } else {
                Seq::empty()
            },
            final(self).is_open() == (old(self).is_open() && event is Report),
    {
        let mut messages: Vec<WatchMessage> = Vec::new();
        if !self.open {
            proof {
                assert(views(messages@) =~= Seq::empty());
            }
            return messages;
        }
        match event {
            WatchEvent::Report(report) => {
                messages.push(WatchMessage::Report(report_to_wire(report)));
                proof {
                    assert(views(messages@) =~= event_messages(event));
                }
            },
            WatchEvent::Ended { buffered, result } => {
                let ghost given = buffered@;
                for report in it: buffered
                    invariant
                        it.seq() == given,
                        messages@.len() == it.index(),
                        forall|j: int|
                            0 <= j < it.index() ==> (#[trigger] messages@[j])@
                                == MessageModel::Report(report_message(given[j]@)),
                {
                    messages.push(WatchMessage::Report(report_to_wire(report)));
                }
                messages.push(WatchMessage::End(watch_completion(result)));
                self.open = false;
                proof {
                    assert(views(messages@) =~= event_messages(event));
                }
            },
        }
        messages
    }

    /// Ends the stream because kubelet is gone. Tells whether the backend's
    /// watch still runs and is to be stopped.
    pub fn receiver_gone(&mut self) -> (stop_backend: bool)
        ensures
            stop_backend == old(self).is_open(),
            !final(self).is_open(),
    {
        let running = self.open;
        self.open = false;
        running
    }
}

/// What kubelet gets over a whole watch, given what happens to it.
pub open spec fn transcript(events: Seq<WatchEvent>) -> Seq<MessageModel>
    decreases events.len(),
{
    if events.len() == 0 {
        Seq::empty()
    } else if events[0] is Report {
        event_messages(events[0]) + transcript(events.drop_first())
    } else {
        event_messages(events[0])
    }
}

/// The reports that a backend made over a whole watch, in their order.
pub open spec fn reports_made(events: Seq<WatchEvent>) -> Seq<Seq<DeviceHealthModel>>
    decreases events.len(),
{
    if events.len() == 0 {
        Seq::empty()
    } else {
        match events[0] {
            WatchEvent::Report(report) => seq![report@] + reports_made(events.drop_first()),
            WatchEvent::Ended { buffered, result } => views(buffered@),
        }
    }
}

/// Every report that the backend made reaches kubelet, once and in its order,
/// before the stream ends.
pub proof fn law_every_report_is_handed_on(events: Seq<WatchEvent>, i: int)
    requires
        0 <= i < reports_made(events).len(),
    ensures
        i < transcript(events).len(),
        transcript(events)[i] == MessageModel::Report(report_message(reports_made(events)[i])),
        transcript(events).len() <= reports_made(events).len() + 1,
    decreases events.len(),
{
    lemma_transcript_length(events);
    match events[0] {
        WatchEvent::Report(report) => {
            let rest = events.drop_first();
            if i > 0 {
                law_every_report_is_handed_on(rest, i - 1);
            }
        },
        WatchEvent::Ended { buffered, result } => {},
    }
}

proof fn lemma_transcript_length(events: Seq<WatchEvent>)
    ensures
        reports_made(events).len() <= transcript(events).len() <= reports_made(events).len() + 1,
    decreases events.len(),
{
    if events.len() > 0 && events[0] is Report {
        lemma_transcript_length(events.drop_first());
    }
}

} // verus!
