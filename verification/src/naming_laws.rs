//! Which names and paths are accepted, and which ones sockets get, told character
//! by character.

use crate::device_plugin::plugin_socket_name;
use crate::path::path_model;
use crate::plugin_service::plugin_socket_text;
use crate::probe::probe_verdict;
use crate::registration::{dra_plugin_info, registration_socket_path, PluginInfo};
use crate::socket_name::{fnv1a64_of, hash_suffix, socket_name};
use crate::text::{debug_text, ends_with_text, hex_text, split_text};
use crate::unix_socket::{recovery, IoErrorKind, RecoveryStep};
use crate::validation::{
    device_id_verdict, is_dns_label, is_dns_subdomain, is_reserved_domain, path_verdict,
    refusal_text, resource_name_verdict, verdict, ValidationError,
};
use vstd::prelude::*;
use vstd::utf8::*;

verus! {

/// A label has between one and 63 bytes, all of them lower-case letters, digits
/// or hyphens, with no hyphen at either end.
pub proof fn law_labels(s: Seq<char>)
    ensures
        is_dns_label(s) <==> {
            &&& s.len() > 0
            &&& encode_utf8(s).len() <= 63
            &&& forall|i: int|
                0 <= i < s.len() ==> ('a' <= #[trigger] s[i] <= 'z' || '0' <= s[i] <= '9' || s[i]
                    == '-')
            &&& s[0] != '-'
            &&& s[s.len() - 1] != '-'
        },
{
    if s.len() > 0 {
        assert(forall|i: int|
            0 <= i < s.len() ==> (crate::validation::is_label_char(#[trigger] s[i]) <==> ('a'
                <= s[i] <= 'z' || '0' <= s[i] <= '9' || s[i] == '-')));
    }
}

/// A subdomain has at most 253 bytes and consists of labels between dots.
pub proof fn law_subdomains(s: Seq<char>)
    ensures
        is_dns_subdomain(s) <==> {
            &&& s.len() > 0
            &&& encode_utf8(s).len() <= 253
            &&& forall|i: int|
                0 <= i < split_text(s, '.').len() ==> is_dns_label(#[trigger] split_text(s, '.')[i])
        },
{
}

/// The reserved domains are `kubernetes.io` and all that end with it behind a
/// dot.
pub proof fn law_reserved_domains(domain: Seq<char>, start: Seq<char>)
    ensures
        is_reserved_domain("kubernetes.io"@),
        is_reserved_domain(start + ".kubernetes.io"@),
        is_reserved_domain(domain) ==> domain == "kubernetes.io"@ || exists|before: Seq<char>|
            domain == before + ".kubernetes.io"@,
{
    let end = ".kubernetes.io"@;
    assert((start + end).skip((start + end).len() - end.len()) =~= end);
    if is_reserved_domain(domain) && domain != "kubernetes.io"@ {
        let before = domain.take(domain.len() - end.len());
        assert(ends_with_text(domain, end));
        assert(domain =~= before + end);
    }
}

/// A resource name is refused for the first of these that holds: it is empty, it
/// has not exactly one slash, what stands before the slash is no subdomain, what
/// stands behind it is no label, or the domain is reserved.
pub proof fn law_resource_names_are_refused_for_a_reason(
    name: Seq<char>,
    result: Result<(), ValidationError>,
)
    requires
        verdict(result) == resource_name_verdict(name),
    ensures
        ({
            let parts = split_text(name, '/');
            match result {
                Ok(()) => name.len() > 0 && parts.len() == 2 && is_dns_subdomain(parts[0])
                    && is_dns_label(parts[1]) && !is_reserved_domain(parts[0]),
                Err(ValidationError::EmptyResourceName) => name.len() == 0,
                Err(ValidationError::MalformedResourceName(told)) => name.len() > 0 && parts.len()
                    != 2 && told@ == name,
                Err(ValidationError::InvalidResourceDomain(told)) => name.len() > 0 && parts.len()
                    == 2 && !is_dns_subdomain(parts[0]) && told@ == parts[0],
                Err(ValidationError::InvalidResourceNameSuffix(told)) => name.len() > 0
                    && parts.len() == 2 && is_dns_subdomain(parts[0]) && !is_dns_label(parts[1])
                    && told@ == parts[1],
                Err(ValidationError::ReservedResourceDomain(told)) => name.len() > 0 && parts.len()
                    == 2 && is_dns_subdomain(parts[0]) && is_dns_label(parts[1])
                    && is_reserved_domain(parts[0]) && told@ == parts[0],
                Err(_) => false,
            }
        }),
{
}

/// An id is accepted exactly with one to 63 characters, a path exactly where it
/// starts at the root; what is refused is told.
pub proof fn law_ids_and_paths_are_refused_for_a_reason(
    text: Seq<char>,
    as_id: Result<(), ValidationError>,
    as_path: Result<(), ValidationError>,
)
    requires
        verdict(as_id) == device_id_verdict(text),
        verdict(as_path) == path_verdict(text),
    ensures
        match as_id {
            Ok(()) => 1 <= text.len() <= 63,
            Err(ValidationError::EmptyDeviceId) => text.len() == 0,
            Err(ValidationError::DeviceIdTooLong(told)) => text.len() > 63 && told@ == text,
            Err(_) => false,
        },
        match as_path {
            Ok(()) => text.len() > 0 && text[0] == '/',
            Err(ValidationError::EmptyPath) => text.len() == 0,
            Err(ValidationError::RelativePath(told)) => text.len() > 0 && text[0] != '/' && told@
                == text,
            Err(_) => false,
        },
{
}

/// Each refusal is shown by its own text, with what was refused.
pub proof fn law_refusals_are_shown_by_their_text(error: ValidationError, text: Seq<char>)
    requires
        text == refusal_text(error@),
    ensures
        match error {
            ValidationError::EmptyResourceName => text == "resource name must not be empty"@,
            ValidationError::MalformedResourceName(name) => text == "resource name "@ + debug_text(
                name@,
            ) + " must have the form \"<domain>/<name>\""@,
            ValidationError::InvalidResourceDomain(domain) => text == "resource name domain "@
                + debug_text(domain@) + " is not a valid DNS subdomain"@,
            ValidationError::InvalidResourceNameSuffix(suffix) => text == "resource name suffix "@
                + debug_text(suffix@) + " is not a valid DNS label"@,
            ValidationError::ReservedResourceDomain(domain) => text == "resource name domain "@
                + debug_text(domain@) + " is reserved for kubernetes.io"@,
            ValidationError::EmptyDeviceId => text == "device id must not be empty"@,
            ValidationError::DeviceIdTooLong(id) => text == "device id "@ + debug_text(id@)
                + " exceeds the "@ + seq!['6', '3'] + "-character limit"@,
            ValidationError::EmptyPath => text == "path must not be empty"@,
            ValidationError::RelativePath(path) => text == "path "@ + debug_text(path@)
                + " must be absolute"@,
        },
{
    reveal_with_fuel(crate::text::decimal_text, 3);
    assert(crate::text::decimal_text(63) =~= seq!['6', '3']);
}

/// A socket is named by as much of the name as fits, each character by itself
/// where it is a letter, a digit, `-` or `_` and by `_` otherwise, and by the
/// hash of the whole name in 16 hexadecimal digits behind a hyphen.
pub proof fn law_sockets_are_named_after_their_names(name: Seq<char>, max_len: nat, i: int)
    requires
        max_len >= 17,
    ensures
        ({
            let socket = socket_name(name, max_len);
            let kept = if name.len() <= max_len - 17 {
                name.len() as int
            } else {
                max_len - 17
            };
            &&& socket.len() == kept + 17
            &&& socket[kept] == '-'
            &&& socket.skip(kept + 1) == hex_text(fnv1a64_of(encode_utf8(name)) as nat, 16)
            &&& 0 <= i < kept ==> socket[i] == if 'a' <= name[i] <= 'z' || 'A' <= name[i] <= 'Z'
                || '0' <= name[i] <= '9' || name[i] == '-' || name[i] == '_' {
                name[i]
            } else {
                '_'
            }
        }),
{
    let socket = socket_name(name, max_len);
    let kept = if name.len() <= max_len - 17 {
        name.len() as int
    } else {
        max_len - 17
    };
    let digits = hex_text(fnv1a64_of(encode_utf8(name)) as nat, 16);
    crate::text::lemma_hex_digits(fnv1a64_of(encode_utf8(name)) as nat, 16);
    assert(hash_suffix(name) == seq!['-'] + digits);
    assert(socket.skip(kept + 1) =~= digits);
}

/// The hash starts at its basis, mixes in one byte after the other and multiplies
/// by its prime.
pub proof fn law_bytes_are_hashed_one_by_one(bytes: Seq<u8>, byte: u8)
    ensures
        fnv1a64_of(Seq::empty()) == 0xcbf29ce484222325u64,
        fnv1a64_of(bytes.push(byte)) == (fnv1a64_of(bytes) ^ (byte as u64)).wrapping_mul(
            0x100000001b3u64,
        ),
{
    assert(bytes.push(byte).drop_last() =~= bytes);
}

/// Plugins and drivers have their sockets in kubelet's directories.
pub proof fn law_sockets_have_their_places(name: Seq<char>)
    requires
        name.len() > 0,
        name[0] != '/',
        name.last() != '/',
    ensures
        plugin_socket_name(name) == socket_name(name, 75),
        plugin_socket_text(name) == "/var/lib/kubelet/plugins/"@ + name + "/"@ + "plugin.sock"@,
        registration_socket_path(name) == "/var/lib/kubelet/plugins_registry/"@ + socket_name(
            name,
            64,
        ) + "-reg.sock"@,
{
    reveal_strlit("/var/lib/kubelet/plugins/");
    reveal_strlit("plugin.sock");
    reveal_strlit("/");
    crate::device_plugin_laws::law_registration_sockets_fit(name);
    let base = "/var/lib/kubelet/plugins/"@ + name;
    assert(base.last() == name.last());
    assert("/"@ =~= seq!['/']);
    assert(registration_socket_path(name) =~= "/var/lib/kubelet/plugins_registry/"@ + socket_name(
        name,
        64,
    ) + "-reg.sock"@);
}

/// A driver tells kubelet its own name, the path of its service, that it is a DRA
/// driver, and the one service that it serves.
pub proof fn law_drivers_tell_who_they_are(
    driver_name: Seq<char>,
    endpoint: Seq<char>,
    info: PluginInfo,
)
    requires
        info@ == dra_plugin_info(driver_name, endpoint),
    ensures
        info.type_@ == "DRAPlugin"@,
        info.name@ == driver_name,
        info.endpoint@ == endpoint,
        info.supported_versions@.len() == 1,
        info.supported_versions@[0]@ == "v1.DRAPlugin"@,
{
    let told = info@.supported_versions;
    assert(told.len() == info.supported_versions@.len());
    assert(told[0] == info.supported_versions@[0]@);
}

/// A probe passes exactly where the socket answers for a DRA driver whose service
/// listens at the expected path; otherwise it tells what was wrong.
pub proof fn law_probes_tell_what_is_wrong(
    registration_path: Seq<char>,
    plugin_path: Seq<char>,
    info: PluginInfo,
)
    ensures
        probe_verdict(registration_path, plugin_path, info@) == if info.type_@ != "DRAPlugin"@ {
            Err(
                "registration socket "@ + registration_path + " reported plugin type "@
                    + debug_text(info.type_@) + ", not DRAPlugin"@,
            )
        } else if path_model(info.endpoint@) != path_model(plugin_path) {
            Err(
                "registration socket "@ + registration_path + " advertised "@ + info.endpoint@
                    + ", expected "@ + plugin_path,
            )
        } else {
            Ok(())
        },
{
}

/// What follows an attempt to connect to an occupied path: a peer that accepts is
/// left alone, a refused connection frees the path, one without a path binds, and
/// any other failure is told with its cause.
pub proof fn law_occupied_paths_are_resolved(
    socket_path: Seq<char>,
    failure: Option<(IoErrorKind, Seq<char>)>,
    step: RecoveryStep,
)
    requires
        step@ == recovery(socket_path, failure),
    ensures
        match (failure, step) {
            (None, RecoveryStep::Refuse(kind, message)) => kind == IoErrorKind::AddrInUse
                && message@ == "refusing to replace an active Unix socket at "@ + socket_path,
            (Some((IoErrorKind::ConnectionRefused, _)), RecoveryStep::RemoveAndBind) => true,
            (Some((IoErrorKind::NotFound, _)), RecoveryStep::Bind) => true,
            (Some((kind, error)), RecoveryStep::Refuse(told, message)) => {
                &&& kind != IoErrorKind::ConnectionRefused
                &&& kind != IoErrorKind::NotFound
                &&& told == kind
                &&& message@ == "cannot determine whether Unix socket at "@ + socket_path
                    + " is stale: "@ + error
            },
            _ => false,
        },
{
}

/// Without room for the whole hash a socket is named by as much of it as fits.
pub proof fn law_short_sockets_keep_the_start_of_the_hash(name: Seq<char>, max_len: nat)
    requires
        max_len < 17,
    ensures
        socket_name(name, max_len) == (seq!['-'] + hex_text(
            fnv1a64_of(encode_utf8(name)) as nat,
            16,
        )).take(max_len as int),
        crate::socket_name::MAX_SOCKET_PATH_LEN == 107,
{
}

} // verus!
