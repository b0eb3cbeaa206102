# k8s-device-plugin

The decisions of Kubernetes node plugins, verified with Verus: what a classic
device plugin lists, allocates and answers, and how a Dynamic Resource
Allocation (DRA) driver registers, publishes its devices, resolves and prepares
claims, reports device status and health, and is probed.

- `src/` is the library. It does no I/O: what needs a socket, the API server or a
  timer is a step that the caller performs and answers.
- `tests/` runs the library on concrete values.
- `app/` is the runtime around it: gRPC over Unix sockets, the Kubernetes API,
  timers and the node programs.

## Modules

| Modules | Subject |
|---|---|
| `text`, `record`, `ordered_map`, `duration`, `path`, `json` | values that the rest is built on |
| `device`, `health`, `permissions`, `validation`, `socket_name`, `unix_socket`, `allocation` | devices, their validation, sockets and backends |
| `device_plugin`, `static_plugin` | the classic device plugin service, its registration and a fixed backend |
| `dra`, `kube_api`, `slice_api`, `static_driver` | what DRA drivers offer and prepare, the API objects, and a driver with a fixed pool |
| `claim`, `plugin_service` | resolving and preparing claims |
| `resource_slice` | publishing devices as ResourceSlices |
| `device_status` | publishing device status in ResourceClaims |
| `resource_health`, `registration`, `probe`, `lifecycle` | health watches, registration, liveness and the driver's components |

Modules whose names end in `_laws` state what holds across several functions.

## Trusted

The contracts of `serde_json` calls in `json` and of two `std` functions in
`text` are believed, not proved.
