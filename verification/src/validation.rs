//! Checks of names, ids and paths.

use crate::path::{is_absolute, is_absolute_text};
use crate::record::views;
use crate::text::{
    debug_quoted, debug_text, decimal, decimal_text, ends_with, ends_with_text, same_text, split,
    split_text,
};
use vstd::prelude::*;
use vstd::string::*;
use vstd::utf8::*;

verus! {

/// The longest id of a device, in characters.
pub const MAX_DEVICE_ID_LEN: usize = 63;

/// The longest DNS label, in bytes.
pub const MAX_DNS_LABEL_LEN: usize = 63;

/// The longest DNS subdomain, in bytes.
pub const MAX_DNS_SUBDOMAIN_LEN: usize = 253;

/// The domain that is reserved for kubelet.
pub const RESERVED_RESOURCE_DOMAIN: &'static str = "kubernetes.io";

/// The end of a domain below the reserved one.
pub const RESERVED_SUBDOMAIN_END: &'static str = ".kubernetes.io";

/// Why a name, an id or a path is refused.
#[derive(Clone, Debug, PartialEq, Eq)]
pub enum ValidationError {
    EmptyResourceName,
    MalformedResourceName(String),
    InvalidResourceDomain(String),
    InvalidResourceNameSuffix(String),
    ReservedResourceDomain(String),
    EmptyDeviceId,
    DeviceIdTooLong(String),
    EmptyPath,
    RelativePath(String),
}

/// What a [`ValidationError`] says.
pub enum Refusal {
    EmptyResourceName,
    MalformedResourceName(Seq<char>),
    InvalidResourceDomain(Seq<char>),
    InvalidResourceNameSuffix(Seq<char>),
    ReservedResourceDomain(Seq<char>),
    EmptyDeviceId,
    DeviceIdTooLong(Seq<char>),
    EmptyPath,
    RelativePath(Seq<char>),
}

impl View for ValidationError {
    type V = Refusal;

    open spec fn view(&self) -> Refusal {
        match *self {
            ValidationError::EmptyResourceName => Refusal::EmptyResourceName,
            ValidationError::MalformedResourceName(name) => Refusal::MalformedResourceName(name@),
            ValidationError::InvalidResourceDomain(domain) => Refusal::InvalidResourceDomain(
                domain@,
            ),
            ValidationError::InvalidResourceNameSuffix(suffix) => {
                Refusal::InvalidResourceNameSuffix(suffix@)
            },
            ValidationError::ReservedResourceDomain(domain) => Refusal::ReservedResourceDomain(
                domain@,
            ),
            ValidationError::EmptyDeviceId => Refusal::EmptyDeviceId,
            ValidationError::DeviceIdTooLong(id) => Refusal::DeviceIdTooLong(id@),
            ValidationError::EmptyPath => Refusal::EmptyPath,
            ValidationError::RelativePath(path) => Refusal::RelativePath(path@),
        }
    }
}

/// A refusal as it is shown.
pub open spec fn refusal_text(refusal: Refusal) -> Seq<char> {
    match refusal {
        Refusal::EmptyResourceName => "resource name must not be empty"@,
        Refusal::MalformedResourceName(name) => "resource name "@ + debug_text(name)
            + " must have the form \"<domain>/<name>\""@,
        Refusal::InvalidResourceDomain(domain) => "resource name domain "@ + debug_text(domain)
            + " is not a valid DNS subdomain"@,
        Refusal::InvalidResourceNameSuffix(suffix) => "resource name suffix "@ + debug_text(suffix)
            + " is not a valid DNS label"@,
        Refusal::ReservedResourceDomain(domain) => "resource name domain "@ + debug_text(domain)
            + " is reserved for kubernetes.io"@,
        Refusal::EmptyDeviceId => "device id must not be empty"@,
        Refusal::DeviceIdTooLong(id) => "device id "@ + debug_text(id) + " exceeds the "@
            + decimal_text(MAX_DEVICE_ID_LEN as nat) + "-character limit"@,
        Refusal::EmptyPath => "path must not be empty"@,
        Refusal::RelativePath(path) => "path "@ + debug_text(path) + " must be absolute"@,
    }
}

fn quoted_between(before: &str, text: &str, after: &str) -> (message: String)
    ensures
        message@ == before@ + debug_text(text@) + after@,
{
    let mut message = before.to_owned();
    message.append(debug_quoted(text).as_str());
    message.append(after);
    message
}

impl ValidationError {
    /// The refusal as it is shown.
    pub fn to_string(&self) -> (text: String)
        ensures
            text@ == refusal_text(self@),
    {
        match self {
            ValidationError::EmptyResourceName => "resource name must not be empty".to_owned(),
            ValidationError::MalformedResourceName(name) => quoted_between(
                "resource name ",
                name.as_str(),
                " must have the form \"<domain>/<name>\"",
            ),
            ValidationError::InvalidResourceDomain(domain) => quoted_between(
                "resource name domain ",
                domain.as_str(),
                " is not a valid DNS subdomain",
            ),
            ValidationError::InvalidResourceNameSuffix(suffix) => quoted_between(
                "resource name suffix ",
                suffix.as_str(),
                " is not a valid DNS label",
            ),
            ValidationError::ReservedResourceDomain(domain) => quoted_between(
                "resource name domain ",
                domain.as_str(),
                " is reserved for kubernetes.io",
            ),
            ValidationError::EmptyDeviceId => "device id must not be empty".to_owned(),
            ValidationError::DeviceIdTooLong(id) => {
                let mut text = quoted_between("device id ", id.as_str(), " exceeds the ");
                text.append(decimal(MAX_DEVICE_ID_LEN as u64).as_str());
                text.append("-character limit");
                text
            },
            ValidationError::EmptyPath => "path must not be empty".to_owned(),
            ValidationError::RelativePath(path) => quoted_between(
                "path ",
                path.as_str(),
                " must be absolute",
            ),
        }
    }
}

/// The outcome of a check, over views.
pub open spec fn verdict(result: Result<(), ValidationError>) -> Result<(), Refusal> {
    match result {
        Ok(()) => Ok(()),
        Err(error) => Err(error@),
    }
}

/// A character that may stand in a DNS label.
pub open spec fn is_label_char(c: char) -> bool {
    'a' <= c <= 'z' || '0' <= c <= '9' || c == '-'
}

/// A DNS label: lower-case letters, digits and inner hyphens, at least one of
/// them and not too many.
pub open spec fn is_dns_label(s: Seq<char>) -> bool {
    &&& s.len() > 0
    &&& encode_utf8(s).len() <= MAX_DNS_LABEL_LEN
    &&& forall|i: int| 0 <= i < s.len() ==> is_label_char(#[trigger] s[i])
    &&& s[0] != '-'
    &&& s.last() != '-'
}

/// A DNS subdomain: labels with dots between them.
pub open spec fn is_dns_subdomain(s: Seq<char>) -> bool {
    &&& s.len() > 0
    &&& encode_utf8(s).len() <= MAX_DNS_SUBDOMAIN_LEN
    &&& forall|i: int|
        0 <= i < split_text(s, '.').len() ==> is_dns_label(#[trigger] split_text(s, '.')[i])
}

/// The reserved domain, or one below it.
pub open spec fn is_reserved_domain(domain: Seq<char>) -> bool {
    domain == RESERVED_RESOURCE_DOMAIN@ || ends_with_text(domain, RESERVED_SUBDOMAIN_END@)
}

/// Whether a name is that of an extended resource: a DNS subdomain that is not
/// reserved and a DNS label, with exactly one slash between them.
pub open spec fn resource_name_verdict(name: Seq<char>) -> Result<(), Refusal> {
    let parts = split_text(name, '/');
    if name.len() == 0 {
        Err(Refusal::EmptyResourceName)
    } else if parts.len() != 2 {
        Err(Refusal::MalformedResourceName(name))
    } else if !is_dns_subdomain(parts[0]) {
        Err(Refusal::InvalidResourceDomain(parts[0]))
    } else if !is_dns_label(parts[1]) {
        Err(Refusal::InvalidResourceNameSuffix(parts[1]))
    } else if is_reserved_domain(parts[0]) {
        Err(Refusal::ReservedResourceDomain(parts[0]))
    } else {
        Ok(())
    }
}

/// Whether a text is a DNS label.
pub fn is_valid_dns_label(s: &str) -> (valid: bool)
    ensures
        valid == is_dns_label(s@),
{
    if s.is_empty() || s.as_bytes().len() > MAX_DNS_LABEL_LEN {
        return false;
    }
    let mut first = true;
    let mut hyphen = false;
    for c in it: s.chars()
        invariant
            it.seq() == s@,
            first == (it.index() == 0),
            forall|j: int| 0 <= j < it.index() ==> is_label_char(#[trigger] s@[j]),
            it.index() > 0 ==> s@[0] != '-' && hyphen == (s@[it.index() - 1] == '-'),
    {
        proof {
            assert(s@[it.index()] == c);
        }
        if !(('a' <= c && c <= 'z') || ('0' <= c && c <= '9') || c == '-') {
            return false;
        }
        if first && c == '-' {
            return false;
        }
        first = false;
        hyphen = c == '-';
    }
    !hyphen
}

/// Whether a text is a DNS subdomain.
pub fn is_valid_dns_subdomain(s: &str) -> (valid: bool)
    ensures
        valid == is_dns_subdomain(s@),
{
    if s.is_empty() || s.as_bytes().len() > MAX_DNS_SUBDOMAIN_LEN {
        return false;
    }
    let labels = split(s, '.');
    let mut i: usize = 0;
    while i < labels.len()
        invariant
            i <= labels@.len(),
            views(labels@) == split_text(s@, '.'),
            forall|j: int| 0 <= j < i ==> is_dns_label(#[trigger] split_text(s@, '.')[j]),
        decreases labels@.len() - i,
    {
        proof {
            assert(split_text(s@, '.')[i as int] == labels@[i as int]@);
        }
        if !is_valid_dns_label(labels[i].as_str()) {
            return false;
        }
        i += 1;
    }
    proof {
        assert(split_text(s@, '.').len() == labels@.len());
    }
    true
}

/// Checks the name of an extended resource, such as `example.com/widget`.
pub fn validate_resource_name(name: &str) -> (result: Result<(), ValidationError>)
    ensures
        verdict(result) == resource_name_verdict(name@),
{
    if name.is_empty() {
        return Err(ValidationError::EmptyResourceName);
    }
    let parts = split(name, '/');
    proof {
        assert(split_text(name@, '/').len() == parts@.len());
    }
    if parts.len() != 2 {
        return Err(ValidationError::MalformedResourceName(name.to_owned()));
    }
    let domain = parts[0].as_str();
    let suffix = parts[1].as_str();
    proof {
        assert(split_text(name@, '/')[0] == domain@);
        assert(split_text(name@, '/')[1] == suffix@);
    }
    if !is_valid_dns_subdomain(domain) {
        return Err(ValidationError::InvalidResourceDomain(domain.to_owned()));
    }
    if !is_valid_dns_label(suffix) {
        return Err(ValidationError::InvalidResourceNameSuffix(suffix.to_owned()));
    }
    if same_text(domain, RESERVED_RESOURCE_DOMAIN) || ends_with(domain, RESERVED_SUBDOMAIN_END) {
        return Err(ValidationError::ReservedResourceDomain(domain.to_owned()));
    }
    Ok(())
}

/// Whether an id can be that of a device: not empty, and not too long.
pub open spec fn device_id_verdict(id: Seq<char>) -> Result<(), Refusal> {
    if id.len() == 0 {
        Err(Refusal::EmptyDeviceId)
    } else if id.len() > MAX_DEVICE_ID_LEN {
        Err(Refusal::DeviceIdTooLong(id))
    } else {
        Ok(())
    }
}

/// Checks the id of a device.
pub fn validate_device_id(id: &str) -> (result: Result<(), ValidationError>)
    ensures
        verdict(result) == device_id_verdict(id@),
{
    if id.is_empty() {
        return Err(ValidationError::EmptyDeviceId);
    }
    if id.unicode_len() > MAX_DEVICE_ID_LEN {
        return Err(ValidationError::DeviceIdTooLong(id.to_owned()));
    }
    Ok(())
}

/// Whether a path is absolute.
pub open spec fn path_verdict(path: Seq<char>) -> Result<(), Refusal> {
    if path.len() == 0 {
        Err(Refusal::EmptyPath)
    } else if !is_absolute_text(path) {
        Err(Refusal::RelativePath(path))
    } else {
        Ok(())
    }
}

/// Checks that a path on the host or in a container is absolute.
pub fn validate_absolute_path(path: &str) -> (result: Result<(), ValidationError>)
    ensures
        verdict(result) == path_verdict(path@),
{
    if path.is_empty() {
        return Err(ValidationError::EmptyPath);
    }
    if !is_absolute(path) {
        return Err(ValidationError::RelativePath(path.to_owned()));
    }
    Ok(())
}

/// An accepted resource name is an unreserved domain and a label, with the only
/// slash between them.
pub proof fn law_accepted_resource_names(name: Seq<char>)
    requires
        resource_name_verdict(name) is Ok,
    ensures
        ({
            let domain = split_text(name, '/')[0];
            let suffix = split_text(name, '/')[1];
            &&& name == domain + seq!['/'] + suffix
            &&& !domain.contains('/')
            &&& !suffix.contains('/')
            &&& is_dns_subdomain(domain)
            &&& is_dns_label(suffix)
            &&& !is_reserved_domain(domain)
        }),
{
    let parts = split_text(name, '/');
    lemma_split_joins(name, '/');
    reveal_with_fuel(joined, 3);
    assert(parts.drop_last().last() == parts[0]);
    assert(name =~= parts[0] + seq!['/'] + parts[1]);
}

/// Pieces with a separator between them.
spec fn joined(pieces: Seq<Seq<char>>, separator: char) -> Seq<char>
    decreases pieces.len(),
{
    if pieces.len() == 0 {
        Seq::empty()
    } else if pieces.len() == 1 {
        pieces[0]
    } else {
        joined(pieces.drop_last(), separator) + seq![separator] + pieces.last()
    }
}

proof fn lemma_split_joins(s: Seq<char>, separator: char)
    ensures
        split_text(s, separator).len() >= 1,
        joined(split_text(s, separator), separator) == s,
        forall|i: int|
            0 <= i < split_text(s, separator).len() ==> !(#[trigger] split_text(
                s,
                separator,
            )[i]).contains(separator),
    decreases s.len(),
{
    if s.len() == 0 {
        assert(joined(split_text(s, separator), separator) =~= s);
    } else {
        let rest = s.drop_last();
        let pieces = split_text(rest, separator);
        let all = split_text(s, separator);
        lemma_split_joins(rest, separator);
        if s.last() == separator {
            assert(all.drop_last() =~= pieces);
            assert(joined(all, separator) =~= rest.push(separator));
        } else {
            assert(all.drop_last() =~= pieces.drop_last());
            assert(joined(all, separator) =~= rest.push(s.last()));
            assert forall|i: int| 0 <= i < all.len() implies !(#[trigger] all[i]).contains(
                separator,
            ) by {
                if i < all.len() - 1 {
                    assert(all[i] == pieces[i]);
                } else {
                    let piece = pieces[pieces.len() - 1];
                    assert(!piece.contains(separator));
                    assert(all[i] == piece.push(s.last()));
                    if all[i].contains(separator) {
                        let k = all[i].index_of(separator);
                        assert(piece[k] == separator);
                        assert(piece.contains(separator));
                    }
                }
            }
        }
        assert(rest.push(s.last()) =~= s);
    }
}

proof fn lemma_split_keeps_chars(s: Seq<char>, separator: char, i: int) -> (k: int)
    requires
        0 <= i < s.len(),
        s[i] != separator,
    ensures
        0 <= k < split_text(s, separator).len(),
        split_text(s, separator)[k].contains(s[i]),
    decreases s.len(),
{
    lemma_split_joins(s.drop_last(), separator);
    let rest = s.drop_last();
    let pieces = split_text(rest, separator);
    let all = split_text(s, separator);
    if i < rest.len() {
        let k = lemma_split_keeps_chars(rest, separator, i);
        if s.last() != separator && k == pieces.len() - 1 {
            let longer = pieces[k].push(s.last());
            assert(all[k] == longer);
            assert(longer[pieces[k].index_of(s[i])] == s[i]);
        } else {
            assert(all[k] == pieces[k]);
        }
        k
    } else {
        let k = all.len() - 1;
        let longer = pieces.last().push(s.last());
        assert(all[k] == longer);
        assert(longer[longer.len() - 1] == s[i]);
        k
    }
}

proof fn lemma_split_of_joined(domain: Seq<char>, suffix: Seq<char>, separator: char)
    requires
        !domain.contains(separator),
        !suffix.contains(separator),
    ensures
        split_text(domain + seq![separator] + suffix, separator) == seq![domain, suffix],
    decreases suffix.len(),
{
    let whole = domain + seq![separator] + suffix;
    if suffix.len() == 0 {
        lemma_split_of_one(domain, separator);
        assert(whole.drop_last() =~= domain);
        assert(whole.last() == separator);
        assert(suffix =~= Seq::empty());
        assert(seq![domain].push(Seq::empty()) =~= seq![domain, suffix]);
    } else {
        let shorter = suffix.drop_last();
        assert(suffix.contains(suffix[suffix.len() - 1]));
        if shorter.contains(separator) {
            assert(suffix[shorter.index_of(separator)] == separator);
        }
        lemma_split_of_joined(domain, shorter, separator);
        assert(whole.drop_last() =~= domain + seq![separator] + shorter);
        assert(whole.last() == suffix.last());
        assert(shorter.push(suffix.last()) =~= suffix);
        assert(seq![domain, shorter].drop_last().push(suffix) =~= seq![domain, suffix]);
    }
}

proof fn lemma_split_of_one(s: Seq<char>, separator: char)
    requires
        !s.contains(separator),
    ensures
        split_text(s, separator) == seq![s],
    decreases s.len(),
{
    if s.len() > 0 {
        let shorter = s.drop_last();
        assert(s.contains(s[s.len() - 1]));
        if shorter.contains(separator) {
            assert(s[shorter.index_of(separator)] == separator);
        }
        lemma_split_of_one(shorter, separator);
        assert(shorter.push(s.last()) =~= s);
        assert(seq![shorter].drop_last().push(s) =~= seq![s]);
    } else {
        assert(s =~= Seq::empty());
    }
}

/// Every unreserved DNS subdomain and every DNS label make an accepted resource
/// name.
pub proof fn law_valid_resource_names_are_accepted(domain: Seq<char>, suffix: Seq<char>)
    requires
        is_dns_subdomain(domain),
        !is_reserved_domain(domain),
        is_dns_label(suffix),
    ensures
        resource_name_verdict(domain + seq!['/'] + suffix) is Ok,
{
    if suffix.contains('/') {
        let i = suffix.index_of('/');
        assert(is_label_char(suffix[i]));
    }
    if domain.contains('/') {
        let i = domain.index_of('/');
        let k = lemma_split_keeps_chars(domain, '.', i);
        let label = split_text(domain, '.')[k];
        assert(is_dns_label(label));
        assert(is_label_char(label[label.index_of('/')]));
    }
    lemma_split_of_joined(domain, suffix, '/');
    let name = domain + seq!['/'] + suffix;
    assert(split_text(name, '/')[0] == domain);
    assert(split_text(name, '/')[1] == suffix);
}

} // verus!
