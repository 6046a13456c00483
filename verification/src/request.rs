//! Validation of what the owner asks for: scan requests, NAS connections and
//! the permanent-erase confirmation.
use vstd::prelude::*;
use crate::model::{NasConnectRequest, ScanRequest};
use crate::text::{decimal, is_white_space, lemma_trimmed_empty, owned, push_decimal, str_eq, trim_str, trimmed};

verus! {

pub const NO_SOURCES: &'static str = "Select at least one local, external, or NAS source before scanning.";
pub const NO_CATEGORIES: &'static str = "Select at least one file category before scanning.";
pub const BLANK_SOURCE: &'static str = "A source path may not be blank.";

/// Some source is blank once white space is trimmed.
pub open spec fn has_blank_source(sources: Seq<String>) -> bool {
    exists|i: int| 0 <= i < sources.len() && trimmed((#[trigger] sources[i])@).len() == 0
}

/// Why a scan request is refused, if it is: no source, no category, or a
/// blank source, checked in that order.
pub open spec fn request_error(r: ScanRequest) -> Option<Seq<char>> {
    if r.sources@.len() == 0 {
        Some(NO_SOURCES@)
    } else if r.selected_types@.len() == 0 {
        Some(NO_CATEGORIES@)
    } else if has_blank_source(r.sources@) {
        Some(BLANK_SOURCE@)
    } else {
        None
    }
}

/// A source that is nothing but white space.
pub open spec fn all_white_space(s: Seq<char>) -> bool {
    forall|k: int| 0 <= k < s.len() ==> is_white_space(#[trigger] s[k])
}

/// A request with sources and categories is refused as naming a blank
/// source exactly when one of its sources, whichever (the first included),
/// is white space alone; otherwise it is accepted.
pub proof fn lemma_blank_source_refused(r: ScanRequest)
    requires
        r.sources@.len() > 0,
        r.selected_types@.len() > 0,
    ensures
        (exists|i: int| 0 <= i < r.sources@.len() && all_white_space(#[trigger] r.sources@[i]@)) ==> request_error(r)
            == Some(BLANK_SOURCE@),
        (forall|i: int| 0 <= i < r.sources@.len() ==> !all_white_space(#[trigger] r.sources@[i]@)) ==> request_error(
            r,
        ) is None,
{
    assert forall|i: int| 0 <= i < r.sources@.len() implies (trimmed(#[trigger] r.sources@[i]@).len() == 0
        <==> all_white_space(r.sources@[i]@)) by {
        lemma_trimmed_empty(r.sources@[i]@);
    }
}

/// Checks a scan request before anything is walked.
pub fn validate_request(request: &ScanRequest) -> (r: Result<(), String>)
    ensures
        r is Ok <==> request_error(*request) is None,
        r matches Err(e) ==> request_error(*request) == Some(e@),
{
    if request.sources.len() == 0 {
        return Err(owned(NO_SOURCES));
    }
    if request.selected_types.len() == 0 {
        return Err(owned(NO_CATEGORIES));
    }
    let mut i: usize = 0;
    while i < request.sources.len()
        invariant
            i <= request.sources@.len(),
            request.sources@.len() != 0,
            request.selected_types@.len() != 0,
            forall|k: int| 0 <= k < i ==> trimmed((#[trigger] request.sources@[k])@).len() != 0,
        decreases request.sources@.len() - i,
    {
        let t = trim_str(request.sources[i].as_str());
        if t.is_empty() {
            assert(trimmed(request.sources@[i as int]@).len() == 0);
            return Err(owned(BLANK_SOURCE));
        }
        i = i + 1;
    }
    Ok(())
}

pub const NAS_CREDENTIALS_REQUIRED: &'static str = "NAS credentials are required to connect this source.";
pub const NAS_NOT_UNC: &'static str = "NAS paths must use a UNC path such as \\server\\share.";
pub const NAS_UNAVAILABLE: &'static str = "Native NAS connection is available only in the Windows build.";
pub const NAS_STATUS_PREFIX: &'static str = "Windows could not connect the NAS source (error ";
pub const NAS_STATUS_SUFFIX: &'static str = ").";

/// A NAS request names a user and gives a password.
pub open spec fn has_nas_credentials(r: NasConnectRequest) -> bool {
    trimmed(r.username@).len() != 0 && r.password@.len() != 0
}

/// Checks that a NAS request carries credentials.
pub fn check_nas_credentials(request: &NasConnectRequest) -> (r: Result<(), String>)
    ensures
        r is Ok <==> has_nas_credentials(*request),
        r matches Err(e) ==> e@ == NAS_CREDENTIALS_REQUIRED@,
{
    let user = trim_str(request.username.as_str());
    if user.is_empty() || request.password.as_str().is_empty() {
        return Err(owned(NAS_CREDENTIALS_REQUIRED));
    }
    Ok(())
}

/// The UTF-16 code units of one character.
pub open spec fn utf16_units(c: char) -> Seq<u16> {
    let v = c as u32;
    if v < 0x10000 {
        seq![v as u16]
    } else {
        seq![(0xD800 + (v - 0x10000) / 0x400) as u16, (0xDC00 + (v - 0x10000) % 0x400) as u16]
    }
}

/// std's `encode_utf16` of a text.
pub open spec fn utf16(s: Seq<char>) -> Seq<u16>
    decreases s.len(),
{
    if s.len() == 0 {
        Seq::empty()
    } else {
        utf16(s.drop_last()) + utf16_units(s.last())
    }
}

/// A text as a NUL-terminated UTF-16 string, as Windows' wide APIs take it.
pub fn wide(value: &str) -> (w: Vec<u16>)
    ensures
        w@ == utf16(value@).push(0u16),
{
    let mut w: Vec<u16> = Vec::new();
    let n = value.unicode_len();
    let mut i: usize = 0;
    assert(value@.take(0) =~= Seq::<char>::empty());
    while i < n
        invariant
            n == value@.len(),
            i <= n,
            w@ == utf16(value@.take(i as int)),
        decreases n - i,
    {
        let c = value.get_char(i);
        let v: u32 = c as u32;
        if v < 0x10000 {
            w.push(v as u16);
        } else {
            let x: u32 = v - 0x10000;
            w.push((0xD800 + x / 0x400) as u16);
            w.push((0xDC00 + x % 0x400) as u16);
        }
        assert(value@.take(i + 1).drop_last() =~= value@.take(i as int));
        i = i + 1;
        assert(w@ =~= utf16(value@.take(i as int)));
    }
    assert(value@.take(n as int) =~= value@);
    w.push(0u16);
    w
}

/// The arguments of a Windows NAS connection.
#[derive(Debug, Clone)]
pub struct NasConnection {
    pub remote: Vec<u16>,
    pub username: Vec<u16>,
    pub password: Vec<u16>,
    pub update_profile: bool,
}

/// A UNC path: it begins with two backslashes.
pub open spec fn is_unc(path: Seq<char>) -> bool {
    path.len() >= 2 && path[0] == '\\' && path[1] == '\\'
}

/// Prepares a NAS connection: the share must be a UNC path; the share, user
/// and password are handed over as wide strings, and whether Windows should
/// remember the connection.
pub fn connect_nas(request: &NasConnectRequest) -> (r: Result<NasConnection, String>)
    ensures
        r is Ok <==> is_unc(request.unc_path@),
        r matches Err(e) ==> e@ == NAS_NOT_UNC@,
        r matches Ok(c) ==> {
            &&& c.remote@ == utf16(request.unc_path@).push(0u16)
            &&& c.username@ == utf16(request.username@).push(0u16)
            &&& c.password@ == utf16(request.password@).push(0u16)
            &&& c.update_profile == request.remember_connection
        },
{
    let p = request.unc_path.as_str();
    let n = p.unicode_len();
    if n < 2 || p.get_char(0) != '\\' || p.get_char(1) != '\\' {
        return Err(owned(NAS_NOT_UNC));
    }
    Ok(NasConnection {
        remote: wide(p),
        username: wide(request.username.as_str()),
        password: wide(request.password.as_str()),
        update_profile: request.remember_connection,
    })
}

/// Checks the credentials, then prepares the connection.
pub fn connect_nas_source(request: &NasConnectRequest) -> (r: Result<NasConnection, String>)
    ensures
        !has_nas_credentials(*request) ==> (r matches Err(e) && e@ == NAS_CREDENTIALS_REQUIRED@),
        has_nas_credentials(*request) ==> (r is Ok <==> is_unc(request.unc_path@)),
        has_nas_credentials(*request) && !is_unc(request.unc_path@) ==> (r matches Err(e) && e@ == NAS_NOT_UNC@),
        r matches Ok(c) ==> {
            &&& c.remote@ == utf16(request.unc_path@).push(0u16)
            &&& c.username@ == utf16(request.username@).push(0u16)
            &&& c.password@ == utf16(request.password@).push(0u16)
            &&& c.update_profile == request.remember_connection
        },
{
    check_nas_credentials(request)?;
    connect_nas(request)
}

/// What Windows' answer to a connection means: success on status 0, else
/// an error that names the status.
pub fn nas_status(status: u32) -> (r: Result<(), String>)
    ensures
        r is Ok <==> status == 0,
        r matches Err(e) ==> e@ == NAS_STATUS_PREFIX@ + decimal(status as nat) + NAS_STATUS_SUFFIX@,
{
    if status == 0 {
        return Ok(());
    }
    let mut e = owned(NAS_STATUS_PREFIX);
    push_decimal(&mut e, status as u64);
    e.append(NAS_STATUS_SUFFIX);
    Err(e)
}

pub const PURGE_CONFIRMATION: &'static str = "ERASE LUMASIFT QUARANTINE";
pub const PURGE_REFUSED: &'static str = "Permanent erase requires the exact confirmation: ERASE LUMASIFT QUARANTINE";

/// Permanent erase goes ahead only on the exact confirmation (surrounding
/// white space aside).
pub fn check_purge_confirmation(confirmation: &str) -> (r: Result<(), String>)
    ensures
        r is Ok <==> trimmed(confirmation@) == PURGE_CONFIRMATION@,
        r matches Err(e) ==> e@ == PURGE_REFUSED@,
{
    if !str_eq(trim_str(confirmation), PURGE_CONFIRMATION) {
        return Err(owned(PURGE_REFUSED));
    }
    Ok(())
}

} // verus!
