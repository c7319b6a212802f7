//! The ClientHello message of TLS: finding the server name in its body.

use crate::bytes;
use crate::sniff;
use crate::text;
use vstd::prelude::*;
use vstd::slice::slice_subrange;
use vstd::utf8::*;

verus! {

#[derive(Debug, Clone, Copy, PartialEq, Eq, Structural)]
pub enum TlsSniffError {
    PeekEmpty,
    InsufficientPrefix,
    ProtocolNotMatched,
    TlsNoSni,
    ParseError,
    InvalidHostname,
    TooLargeClientHello,
}

/// The number in the first two bytes.
pub fn be_u16(b: &[u8]) -> (r: Result<u16, TlsSniffError>)
    ensures
        b@.len() < 2 ==> r == Err::<u16, TlsSniffError>(TlsSniffError::ParseError),
        b@.len() >= 2 ==> (r matches Ok(v) && v == bytes::u16_at(b@, 0)),
{
    if b.len() < 2 {
        return Err(TlsSniffError::ParseError);
    }
    Ok((b[0] as u16) * 256 + b[1] as u16)
}

/// The number in the first three bytes.
pub fn be_u24(b: &[u8]) -> (r: Result<usize, TlsSniffError>)
    ensures
        b@.len() < 3 ==> r == Err::<usize, TlsSniffError>(TlsSniffError::ParseError),
        b@.len() >= 3 ==> (r matches Ok(v) && v == b@[0] * 65536 + b@[1] * 256 + b@[2]),
{
    if b.len() < 3 {
        return Err(TlsSniffError::ParseError);
    }
    Ok((b[0] as usize) * 65536 + (b[1] as usize) * 256 + b[2] as usize)
}

/// What the extensions of a ClientHello tell about the target.
pub struct Extensions {
    /// An Encrypted Client Hello extension is present.
    pub ech: bool,
    /// The host name in the (outer) server name extension.
    pub sni: Option<String>,
}

/// The view of [`Extensions`].
pub struct ExtensionsView {
    pub ech: bool,
    pub sni: Option<Seq<char>>,
}

impl View for Extensions {
    type V = ExtensionsView;

    open spec fn view(&self) -> ExtensionsView {
        ExtensionsView {
            ech: self.ech,
            sni: match self.sni {
                Some(s) => Some(s@),
                None => None,
            },
        }
    }
}

/// The type of the server name extension.
pub const EXT_SERVER_NAME: u16 = 0x0000;

/// The two types under which Encrypted Client Hello has been sent.
pub open spec fn is_ech_extension(ext_type: int) -> bool {
    ext_type == 0xfe0d || ext_type == 0xff07
}

/// The host name that the bytes of a name entry give: valid UTF-8, a host name
/// once in lower case.
pub open spec fn host_of_name(name: Seq<u8>) -> Result<Seq<char>, TlsSniffError> {
    if valid_utf8(name) && sniff::is_hostname(text::lowered(decode_utf8(name))) {
        Ok(text::lowered(decode_utf8(name)))
    } else {
        Err(TlsSniffError::InvalidHostname)
    }
}

/// The host name in a list of name entries, each a type byte, a two-byte length
/// and the name. Entries of a type other than 0 are passed over; the last
/// host name counts. `found` is what came before the list.
pub open spec fn host_in_name_list(list: Seq<u8>, found: Option<Seq<char>>) -> Result<
    Option<Seq<char>>,
    TlsSniffError,
>
    decreases list.len(),
{
    if list.len() == 0 {
        Ok(found)
    } else if list.len() < 3 || 3 + bytes::u16_at(list, 1) > list.len() {
        Err(TlsSniffError::ParseError)
    } else {
        let end = 3 + bytes::u16_at(list, 1);
        if list[0] != 0 {
            host_in_name_list(list.skip(end), found)
        } else {
            match host_of_name(list.subrange(3, end)) {
                Ok(host) => host_in_name_list(list.skip(end), Some(host)),
                Err(e) => Err(e),
            }
        }
    }
}

/// The host name in the data of a server name extension: the length of the
/// list, which fills the rest, and the list.
pub open spec fn host_in_server_name(data: Seq<u8>, found: Option<Seq<char>>) -> Result<
    Option<Seq<char>>,
    TlsSniffError,
> {
    if data.len() < 2 || bytes::u16_at(data, 0) + 2 != data.len() {
        Err(TlsSniffError::ParseError)
    } else {
        host_in_name_list(data.skip(2), found)
    }
}

/// What a block of extensions tells, after `seen`. Each extension is a two-byte
/// type, a two-byte length and its data.
pub open spec fn scan_extensions(block: Seq<u8>, seen: ExtensionsView) -> Result<
    ExtensionsView,
    TlsSniffError,
>
    decreases block.len(),
{
    if block.len() == 0 {
        Ok(seen)
    } else if block.len() < 4 || 4 + bytes::u16_at(block, 2) > block.len() {
        Err(TlsSniffError::ParseError)
    } else {
        let end = 4 + bytes::u16_at(block, 2);
        let ext_type = bytes::u16_at(block, 0);
        if is_ech_extension(ext_type) {
            scan_extensions(block.skip(end), ExtensionsView { ech: true, sni: seen.sni })
        } else if ext_type == EXT_SERVER_NAME {
            match host_in_server_name(block.subrange(4, end), seen.sni) {
                Ok(sni) => scan_extensions(
                    block.skip(end),
                    ExtensionsView { ech: seen.ech, sni },
                ),
                Err(e) => Err(e),
            }
        } else {
            scan_extensions(block.skip(end), seen)
        }
    }
}

/// What the body of a ClientHello tells about the target. The body is a version
/// (2 bytes), a random value (32 bytes), a session id with a one-byte length,
/// cipher suites with a two-byte length that is even and not zero, compression
/// methods with a one-byte length that is not zero, and then nothing, or
/// extensions with a two-byte length.
pub open spec fn scan_client_hello(body: Seq<u8>) -> Result<ExtensionsView, TlsSniffError> {
    let suites_at = 35 + body[34];
    let suites_len = bytes::u16_at(body, suites_at);
    let methods_at = suites_at + 2 + suites_len;
    let ext_at = methods_at + 1 + body[methods_at];
    let ext_len = bytes::u16_at(body, ext_at);
    if body.len() < 35 || suites_at + 2 > body.len() || suites_len == 0 || suites_len % 2 != 0
        || methods_at + 1 > body.len() || body[methods_at] == 0 || ext_at > body.len() {
        Err(TlsSniffError::ParseError)
    } else if ext_at == body.len() {
        Err(TlsSniffError::TlsNoSni)
    } else if ext_at + 2 > body.len() || ext_at + 2 + ext_len > body.len() {
        Err(TlsSniffError::ParseError)
    } else {
        scan_extensions(
            body.subrange(ext_at + 2, ext_at + 2 + ext_len),
            ExtensionsView { ech: false, sni: None },
        )
    }
}

/// The server name in the body of a ClientHello. With Encrypted Client Hello
/// the true name cannot be read, so there is none.
pub open spec fn sni_of_client_hello(body: Seq<u8>) -> Result<Seq<char>, TlsSniffError> {
    match scan_client_hello(body) {
        Err(e) => Err(e),
        Ok(exts) => match exts.sni {
            Some(host) if !exts.ech => Ok(host),
            _ => Err(TlsSniffError::TlsNoSni),
        },
    }
}

/// The server name that a ClientHello shows in the clear: as
/// [`sni_of_client_hello`], but the outer name of an Encrypted Client Hello
/// counts.
pub open spec fn outer_sni_of_client_hello(body: Seq<u8>) -> Result<Seq<char>, TlsSniffError> {
    match scan_client_hello(body) {
        Err(e) => Err(e),
        Ok(exts) => match exts.sni {
            Some(host) => Ok(host),
            None => Err(TlsSniffError::TlsNoSni),
        },
    }
}

pub open spec fn opt_text(o: Option<String>) -> Option<Seq<char>> {
    match o {
        Some(s) => Some(s@),
        None => None,
    }
}

fn read_name(name: &[u8]) -> (r: Result<String, TlsSniffError>)
    ensures
        sniff::text_result(r) == host_of_name(name@),
{
    match text::chars_of_utf8(name) {
        Some(chars) => {
            let host = text::lower_chars(chars.as_slice());
            if sniff::hostname_chars_valid(host.as_slice()) {
                Ok(text::string_of(host.as_slice()))
            } else {
                Err(TlsSniffError::InvalidHostname)
            }
        },
        None => Err(TlsSniffError::InvalidHostname),
    }
}

fn read_name_list(data: &[u8], found: Option<String>) -> (r: Result<Option<String>, TlsSniffError>)
    requires
        data@.len() >= 2,
    ensures
        (match r {
            Ok(o) => Ok(opt_text(o)),
            Err(e) => Err(e),
        }) == host_in_name_list(data@.skip(2), opt_text(found)),
{
    let mut last = found;
    let mut p: usize = 2;
    while p < data.len()
        invariant
            2 <= p <= data.len(),
            host_in_name_list(data@.skip(p as int), opt_text(last)) == host_in_name_list(
                data@.skip(2),
                opt_text(found),
            ),
        decreases data.len() - p,
    {
        let ghost list = data@.skip(p as int);
        if data.len() - p < 3 {
            return Err(TlsSniffError::ParseError);
        }
        let name_type = data[p];
        let name_len: usize = (data[p + 1] as usize) * 256 + data[p + 2] as usize;
        assert(name_len == bytes::u16_at(list, 1));
        if data.len() - p - 3 < name_len {
            return Err(TlsSniffError::ParseError);
        }
        let end: usize = p + 3 + name_len;
        assert(list.skip(3 + name_len) =~= data@.skip(end as int));
        if name_type == 0 {
            let name = slice_subrange(data, p + 3, end);
            assert(name@ =~= list.subrange(3, 3 + name_len));
            match read_name(name) {
                Ok(host) => {
                    last = Some(host);
                },
                Err(e) => {
                    return Err(e);
                },
            }
        }
        p = end;
    }
    Ok(last)
}

fn read_extensions(block: &[u8]) -> (r: Result<Extensions, TlsSniffError>)
    ensures
        (match r {
            Ok(x) => Ok(x@),
            Err(e) => Err(e),
        }) == scan_extensions(block@, ExtensionsView { ech: false, sni: None }),
{
    let mut seen = Extensions { ech: false, sni: None };
    let mut off: usize = 0;
    assert(block@.skip(0) =~= block@);
    while off < block.len()
        invariant
            off <= block.len(),
            scan_extensions(block@.skip(off as int), seen@) == scan_extensions(
                block@,
                (ExtensionsView { ech: false, sni: None }),
            ),
        decreases block.len() - off,
    {
        let ghost rest = block@.skip(off as int);
        if block.len() - off < 4 {
            return Err(TlsSniffError::ParseError);
        }
        let ext_type: u16 = (block[off] as u16) * 256 + block[off + 1] as u16;
        let ext_len: usize = (block[off + 2] as usize) * 256 + block[off + 3] as usize;
        assert(ext_type == bytes::u16_at(rest, 0));
        assert(ext_len == bytes::u16_at(rest, 2));
        if block.len() - off - 4 < ext_len {
            return Err(TlsSniffError::ParseError);
        }
        let end: usize = off + 4 + ext_len;
        assert(rest.skip(4 + ext_len) =~= block@.skip(end as int));
        if ext_type == 0xfe0d || ext_type == 0xff07 {
            seen = Extensions { ech: true, sni: seen.sni };
        } else if ext_type == EXT_SERVER_NAME {
            let data = slice_subrange(block, off + 4, end);
            assert(data@ =~= rest.subrange(4, 4 + ext_len));
            if data.len() < 2 || (data[0] as usize) * 256 + data[1] as usize + 2 != data.len() {
                return Err(TlsSniffError::ParseError);
            }
            let ech = seen.ech;
            match read_name_list(data, seen.sni) {
                Ok(sni) => {
                    seen = Extensions { ech, sni };
                },
                Err(e) => {
                    return Err(e);
                },
            }
        }
        off = end;
    }
    Ok(seen)
}

/// Walks the body of a ClientHello and reports what it tells about the target.
pub fn scan_client_hello_body(body: &[u8]) -> (r: Result<Extensions, TlsSniffError>)
    ensures
        (match r {
            Ok(x) => Ok(x@),
            Err(e) => Err(e),
        }) == scan_client_hello(body@),
{
    if body.len() < 35 {
        return Err(TlsSniffError::ParseError);
    }
    let suites_at: usize = 35 + body[34] as usize;
    if body.len() < suites_at || body.len() - suites_at < 2 {
        return Err(TlsSniffError::ParseError);
    }
    let suites_len: usize = (body[suites_at] as usize) * 256 + body[suites_at + 1] as usize;
    if suites_len == 0 || suites_len % 2 != 0 || body.len() - suites_at - 2 < suites_len {
        return Err(TlsSniffError::ParseError);
    }
    let methods_at: usize = suites_at + 2 + suites_len;
    if methods_at == body.len() || body[methods_at] == 0 || body.len() - methods_at - 1
        < body[methods_at] as usize {
        return Err(TlsSniffError::ParseError);
    }
    let ext_at: usize = methods_at + 1 + body[methods_at] as usize;
    if ext_at == body.len() {
        return Err(TlsSniffError::TlsNoSni);
    }
    if body.len() - ext_at < 2 {
        return Err(TlsSniffError::ParseError);
    }
    let ext_len: usize = (body[ext_at] as usize) * 256 + body[ext_at + 1] as usize;
    if body.len() - ext_at - 2 < ext_len {
        return Err(TlsSniffError::ParseError);
    }
    let block = slice_subrange(body, ext_at + 2, ext_at + 2 + ext_len);
    read_extensions(block)
}

/// The server name in the body of a ClientHello, in lower case.
pub fn parse_sni_from_client_hello_body(body: &[u8]) -> (r: Result<String, TlsSniffError>)
    ensures
        sniff::text_result(r) == sni_of_client_hello(body@),
{
    match scan_client_hello_body(body) {
        Ok(exts) => match exts.sni {
            Some(host) => if exts.ech {
                Err(TlsSniffError::TlsNoSni)
            } else {
                Ok(host)
            },
            None => Err(TlsSniffError::TlsNoSni),
        },
        Err(e) => Err(e),
    }
}

/// The server name that the body of a ClientHello shows in the clear, in lower
/// case.
pub fn parse_outer_sni_from_client_hello_body(body: &[u8]) -> (r: Result<String, TlsSniffError>)
    ensures
        sniff::text_result(r) == outer_sni_of_client_hello(body@),
{
    match scan_client_hello_body(body) {
        Ok(exts) => match exts.sni {
            Some(host) => Ok(host),
            None => Err(TlsSniffError::TlsNoSni),
        },
        Err(e) => Err(e),
    }
}

proof fn lemma_name_list_hosts(list: Seq<u8>, found: Option<Seq<char>>)
    requires
        found matches Some(h) ==> is_lower_hostname(h),
    ensures
        host_in_name_list(list, found) matches Ok(Some(h)) ==> is_lower_hostname(h),
    decreases list.len(),
{
    if list.len() >= 3 && 3 + bytes::u16_at(list, 1) <= list.len() {
        let end = 3 + bytes::u16_at(list, 1);
        if list[0] != 0 {
            lemma_name_list_hosts(list.skip(end), found);
        } else if let Ok(host) = host_of_name(list.subrange(3, end)) {
            text::lowered_idempotent(decode_utf8(list.subrange(3, end)));
            lemma_name_list_hosts(list.skip(end), Some(host));
        }
    }
}

proof fn lemma_extension_hosts(block: Seq<u8>, seen: ExtensionsView)
    requires
        seen.sni matches Some(h) ==> is_lower_hostname(h),
    ensures
        scan_extensions(block, seen) matches Ok(x) ==> (x.sni matches Some(h)
            ==> is_lower_hostname(h)),
    decreases block.len(),
{
    if block.len() >= 4 && 4 + bytes::u16_at(block, 2) <= block.len() {
        let end = 4 + bytes::u16_at(block, 2);
        let data = block.subrange(4, end);
        if is_ech_extension(bytes::u16_at(block, 0)) {
            lemma_extension_hosts(block.skip(end), ExtensionsView { ech: true, sni: seen.sni });
        } else if bytes::u16_at(block, 0) == EXT_SERVER_NAME {
            if data.len() >= 2 {
                lemma_name_list_hosts(data.skip(2), seen.sni);
            }
            if let Ok(sni) = host_in_server_name(data, seen.sni) {
                lemma_extension_hosts(block.skip(end), ExtensionsView { ech: seen.ech, sni });
            }
        } else {
            lemma_extension_hosts(block.skip(end), seen);
        }
    }
}

/// A host name without capitals.
pub open spec fn is_lower_hostname(h: Seq<char>) -> bool {
    sniff::is_hostname(h) && text::lowered(h) == h
}

/// Whatever a ClientHello holds, a name taken from it is a host name in lower
/// case.
pub proof fn sni_is_a_lower_case_hostname(body: Seq<u8>)
    ensures
        sni_of_client_hello(body) matches Ok(h) ==> is_lower_hostname(h),
        outer_sni_of_client_hello(body) matches Ok(h) ==> is_lower_hostname(h),
{
    let suites_at = 35 + body[34];
    let methods_at = suites_at + 2 + bytes::u16_at(body, suites_at);
    let ext_at = methods_at + 1 + body[methods_at];
    let ext_len = bytes::u16_at(body, ext_at);
    lemma_extension_hosts(
        body.subrange(ext_at + 2, ext_at + 2 + ext_len),
        ExtensionsView { ech: false, sni: None },
    );
}

/// A ClientHello with an Encrypted Client Hello extension gives no server name,
/// whatever its outer name is.
pub proof fn ech_hides_the_server_name(body: Seq<u8>)
    requires
        scan_client_hello(body) matches Ok(x) && x.ech,
    ensures
        sni_of_client_hello(body) == Err::<Seq<char>, TlsSniffError>(TlsSniffError::TlsNoSni),
{
}

// ---------------------------------------------------------------------------
// ClientHello messages as they are written
// ---------------------------------------------------------------------------

/// Name entries as they are written: a type, a length in two bytes and the name.
pub open spec fn written_names(entries: Seq<(u8, Seq<u8>)>) -> Seq<u8>
    decreases entries.len(),
{
    if entries.len() == 0 {
        Seq::empty()
    } else {
        seq![entries[0].0] + bytes::two(entries[0].1.len() as int) + entries[0].1 + written_names(
            entries.drop_first(),
        )
    }
}

/// Extensions as they are written: a type and a length, two bytes each, and the
/// data.
pub open spec fn written_extensions(exts: Seq<(int, Seq<u8>)>) -> Seq<u8>
    decreases exts.len(),
{
    if exts.len() == 0 {
        Seq::empty()
    } else {
        bytes::two(exts[0].0) + bytes::two(exts[0].1.len() as int) + exts[0].1 + written_extensions(
            exts.drop_first(),
        )
    }
}

/// The data of a server name extension as it is written.
pub open spec fn written_server_name(entries: Seq<(u8, Seq<u8>)>) -> Seq<u8> {
    bytes::two(written_names(entries).len() as int) + written_names(entries)
}

/// The body of a ClientHello up to its extensions as it is written: version and
/// random value, then session id, cipher suites and compression methods, each
/// behind its length.
pub open spec fn written_head(
    version: Seq<u8>,
    random: Seq<u8>,
    session: Seq<u8>,
    suites: Seq<u8>,
    methods: Seq<u8>,
) -> Seq<u8> {
    version + random + seq![session.len() as u8] + session + bytes::two(suites.len() as int) + suites
        + seq![methods.len() as u8] + methods
}

/// The parts of a ClientHello have lengths that can be written.
pub open spec fn can_be_written(
    version: Seq<u8>,
    random: Seq<u8>,
    session: Seq<u8>,
    suites: Seq<u8>,
    methods: Seq<u8>,
) -> bool {
    &&& version.len() == 2
    &&& random.len() == 32
    &&& session.len() <= 255
    &&& 0 < suites.len() <= 65535 && suites.len() % 2 == 0
    &&& 0 < methods.len() <= 255
}

proof fn lemma_two(n: int, s: Seq<u8>, i: int)
    requires
        0 <= n < 65536,
        0 <= i,
        i + 2 <= s.len(),
        s[i] == bytes::two(n)[0],
        s[i + 1] == bytes::two(n)[1],
    ensures
        bytes::u16_at(s, i) == n,
{
}

proof fn lemma_head(
    version: Seq<u8>,
    random: Seq<u8>,
    session: Seq<u8>,
    suites: Seq<u8>,
    methods: Seq<u8>,
    rest: Seq<u8>,
)
    requires
        can_be_written(version, random, session, suites, methods),
    ensures
        ({
            let body = written_head(version, random, session, suites, methods) + rest;
            let suites_at = 35 + session.len();
            let methods_at = suites_at + 2 + suites.len();
            let ext_at = methods_at + 1 + methods.len();
            &&& body.len() == ext_at + rest.len()
            &&& body[34] == session.len()
            &&& bytes::u16_at(body, suites_at as int) == suites.len()
            &&& body[methods_at as int] == methods.len()
            &&& body.skip(ext_at as int) == rest
        }),
{
    let a = version + random;
    let b = a + seq![session.len() as u8];
    let c = b + session;
    let d = c + bytes::two(suites.len() as int);
    let e = d + suites;
    let f = e + seq![methods.len() as u8];
    let g = f + methods;
    let body = g + rest;
    assert(g == written_head(version, random, session, suites, methods));
    assert(body[34] == b[34]);
    let suites_at = 35 + session.len() as int;
    assert(body[suites_at] == d[suites_at]);
    assert(body[suites_at + 1] == d[suites_at + 1]);
    lemma_two(suites.len() as int, body, suites_at);
    let methods_at = suites_at + 2 + suites.len();
    assert(body[methods_at] == f[methods_at]);
    assert(body.skip(g.len() as int) =~= rest);
}

/// A ClientHello is read back: what stands before the extensions, the session id
/// among it, never changes what they tell.
pub proof fn client_hello_is_read_back(
    version: Seq<u8>,
    random: Seq<u8>,
    session: Seq<u8>,
    suites: Seq<u8>,
    methods: Seq<u8>,
    block: Seq<u8>,
    behind: Seq<u8>,
)
    requires
        can_be_written(version, random, session, suites, methods),
        block.len() <= 65535,
    ensures
        scan_client_hello(
            written_head(version, random, session, suites, methods) + (bytes::two(
                block.len() as int,
            ) + block + behind),
        ) == scan_extensions(block, ExtensionsView { ech: false, sni: None }),
        scan_client_hello(written_head(version, random, session, suites, methods)) == Err::<
            ExtensionsView,
            TlsSniffError,
        >(TlsSniffError::TlsNoSni),
{
    let head = written_head(version, random, session, suites, methods);
    let rest = bytes::two(block.len() as int) + block + behind;
    let body = head + rest;
    lemma_head(version, random, session, suites, methods, rest);
    lemma_head(version, random, session, suites, methods, Seq::empty());
    assert(head + Seq::<u8>::empty() =~= head);
    let ext_at = body.len() - rest.len();
    assert(body[ext_at] == rest[0]);
    assert(body[ext_at + 1] == rest[1]);
    lemma_two(block.len() as int, body, ext_at);
    assert(body.subrange(ext_at + 2, ext_at + 2 + block.len()) =~= block);
}

/// The bytes of a name are those of a host name.
pub open spec fn names_host(name: Seq<u8>, host: Seq<char>) -> bool {
    name == encode_utf8(host) && sniff::is_hostname(text::lowered(host))
}

proof fn lemma_host_of_name(name: Seq<u8>, host: Seq<char>)
    requires
        name == encode_utf8(host),
    ensures
        host_of_name(name) == if sniff::is_hostname(text::lowered(host)) {
            Ok::<Seq<char>, TlsSniffError>(text::lowered(host))
        } else {
            Err(TlsSniffError::InvalidHostname)
        },
{
    encode_utf8_valid_utf8(host);
    encode_utf8_decode_utf8(host);
}

proof fn lemma_written_name(e: (u8, Seq<u8>), rest: Seq<u8>)
    requires
        e.1.len() <= 65535,
    ensures
        ({
            let list = seq![e.0] + bytes::two(e.1.len() as int) + e.1 + rest;
            &&& list.len() == 3 + e.1.len() + rest.len()
            &&& list[0] == e.0
            &&& bytes::u16_at(list, 1) == e.1.len()
            &&& list.subrange(3, (3 + e.1.len()) as int) == e.1
            &&& list.skip((3 + e.1.len()) as int) == rest
        }),
{
    let list = seq![e.0] + bytes::two(e.1.len() as int) + e.1 + rest;
    lemma_two(e.1.len() as int, list, 1);
    assert(list.subrange(3, (3 + e.1.len()) as int) =~= e.1);
    assert(list.skip((3 + e.1.len()) as int) =~= rest);
}

proof fn lemma_names_without_hosts(entries: Seq<(u8, Seq<u8>)>, found: Option<Seq<char>>)
    requires
        forall|i: int| 0 <= i < entries.len() ==> (#[trigger] entries[i]).1.len() <= 65535,
        forall|i: int| 0 <= i < entries.len() ==> (#[trigger] entries[i]).0 != 0,
    ensures
        host_in_name_list(written_names(entries), found) == Ok::<_, TlsSniffError>(found),
    decreases entries.len(),
{
    if entries.len() > 0 {
        let rest = entries.drop_first();
        lemma_written_name(entries[0], written_names(rest));
        assert forall|i: int| 0 <= i < rest.len() implies (#[trigger] rest[i]).1.len() <= 65535
            && rest[i].0 != 0 by {
            assert(rest[i] == entries[i + 1]);
        }
        lemma_names_without_hosts(rest, found);
    }
}

#[verifier::spinoff_prover]
#[verifier::rlimit(50)]
proof fn lemma_names(
    entries: Seq<(u8, Seq<u8>)>,
    hosts: Seq<Seq<char>>,
    k: int,
    found: Option<Seq<char>>,
)
    requires
        0 <= k < entries.len() == hosts.len(),
        forall|i: int| 0 <= i < entries.len() ==> (#[trigger] entries[i]).1.len() <= 65535,
        forall|i: int|
            0 <= i < entries.len() && (#[trigger] entries[i]).0 == 0 ==> names_host(
                entries[i].1,
                hosts[i],
            ),
        entries[k].0 == 0,
        forall|i: int| k < i < entries.len() ==> (#[trigger] entries[i]).0 != 0,
    ensures
        host_in_name_list(written_names(entries), found) == Ok::<_, TlsSniffError>(
            Some(text::lowered(hosts[k])),
        ),
    decreases entries.len(),
{
    let rest = entries.drop_first();
    let more = hosts.drop_first();
    lemma_written_name(entries[0], written_names(rest));
    assert forall|i: int| 0 <= i < rest.len() implies (#[trigger] rest[i]) == entries[i + 1] by {}
    assert forall|i: int| 0 <= i < more.len() implies (#[trigger] more[i]) == hosts[i + 1] by {}
    if entries[0].0 == 0 {
        lemma_host_of_name(entries[0].1, hosts[0]);
    }
    let next = if entries[0].0 == 0 {
        Some(text::lowered(hosts[0]))
    } else {
        found
    };
    if k == 0 {
        assert forall|i: int| 0 <= i < rest.len() implies (#[trigger] rest[i]).1.len() <= 65535
            && rest[i].0 != 0 by {
            assert(rest[i] == entries[i + 1]);
        }
        lemma_names_without_hosts(rest, next);
    } else {
        assert forall|i: int| 0 <= i < rest.len() && (#[trigger] rest[i]).0 == 0 implies names_host(
            rest[i].1,
            more[i],
        ) by {
            assert(rest[i] == entries[i + 1]);
        }
        assert forall|i: int| k - 1 < i < rest.len() implies (#[trigger] rest[i]).0 != 0 by {
            assert(rest[i] == entries[i + 1]);
        }
        lemma_names(rest, more, k - 1, next);
    }
}

/// Some extension says that the ClientHello is encrypted: it is of one of the two
/// types for that.
pub open spec fn tells_of_encryption(exts: Seq<(int, Seq<u8>)>) -> bool {
    exists|i: int|
        0 <= i < exts.len() && ((#[trigger] exts[i]).0 == 0xfe0d || exts[i].0 == 0xff07)
}

pub open spec fn extensions_can_be_written(exts: Seq<(int, Seq<u8>)>) -> bool {
    forall|i: int|
        0 <= i < exts.len() ==> 0 <= (#[trigger] exts[i]).0 < 65536 && exts[i].1.len() <= 65535
}

proof fn lemma_written_extension(e: (int, Seq<u8>), rest: Seq<u8>)
    requires
        0 <= e.0 < 65536,
        e.1.len() <= 65535,
    ensures
        ({
            let block = bytes::two(e.0) + bytes::two(e.1.len() as int) + e.1 + rest;
            &&& block.len() == 4 + e.1.len() + rest.len()
            &&& bytes::u16_at(block, 0) == e.0
            &&& bytes::u16_at(block, 2) == e.1.len()
            &&& block.subrange(4, (4 + e.1.len()) as int) == e.1
            &&& block.skip((4 + e.1.len()) as int) == rest
        }),
{
    let block = bytes::two(e.0) + bytes::two(e.1.len() as int) + e.1 + rest;
    lemma_two(e.0, block, 0);
    lemma_two(e.1.len() as int, block, 2);
    assert(block.subrange(4, (4 + e.1.len()) as int) =~= e.1);
    assert(block.skip((4 + e.1.len()) as int) =~= rest);
}

proof fn lemma_tells_of_encryption(exts: Seq<(int, Seq<u8>)>)
    requires
        exts.len() > 0,
    ensures
        tells_of_encryption(exts) <==> (exts[0].0 == 0xfe0d || exts[0].0 == 0xff07
            || tells_of_encryption(exts.drop_first())),
{
    let rest = exts.drop_first();
    if tells_of_encryption(rest) {
        let i = choose|i: int|
            0 <= i < rest.len() && ((#[trigger] rest[i]).0 == 0xfe0d || rest[i].0 == 0xff07);
        assert(exts[i + 1] == rest[i]);
    }
    if tells_of_encryption(exts) {
        let i = choose|i: int|
            0 <= i < exts.len() && ((#[trigger] exts[i]).0 == 0xfe0d || exts[i].0 == 0xff07);
        if i > 0 {
            assert(rest[i - 1] == exts[i]);
        }
    }
}

proof fn lemma_extensions_without_name(exts: Seq<(int, Seq<u8>)>, seen: ExtensionsView)
    requires
        extensions_can_be_written(exts),
        forall|i: int| 0 <= i < exts.len() ==> (#[trigger] exts[i]).0 != 0,
    ensures
        scan_extensions(written_extensions(exts), seen) == Ok::<_, TlsSniffError>(
            ExtensionsView { ech: seen.ech || tells_of_encryption(exts), sni: seen.sni },
        ),
    decreases exts.len(),
{
    if exts.len() > 0 {
        let rest = exts.drop_first();
        lemma_written_extension(exts[0], written_extensions(rest));
        lemma_tells_of_encryption(exts);
        assert forall|i: int| 0 <= i < rest.len() implies (#[trigger] rest[i]) == exts[i + 1] by {}
        assert(extensions_can_be_written(rest));
        assert forall|i: int| 0 <= i < rest.len() implies (#[trigger] rest[i]).0 != 0 by {
            assert(rest[i] == exts[i + 1]);
        }
        let next = ExtensionsView {
            ech: seen.ech || exts[0].0 == 0xfe0d || exts[0].0 == 0xff07,
            sni: seen.sni,
        };
        lemma_extensions_without_name(rest, next);
    }
}

proof fn lemma_extensions_with_name(
    exts: Seq<(int, Seq<u8>)>,
    at: int,
    entries: Seq<(u8, Seq<u8>)>,
    hosts: Seq<Seq<char>>,
    k: int,
    seen: ExtensionsView,
)
    requires
        extensions_can_be_written(exts),
        0 <= at < exts.len(),
        exts[at] == (0int, written_server_name(entries)),
        forall|i: int| 0 <= i < exts.len() && i != at ==> (#[trigger] exts[i]).0 != 0,
        names_are_hosts(entries, hosts, k),
    ensures
        scan_extensions(written_extensions(exts), seen) == Ok::<_, TlsSniffError>(
            ExtensionsView {
                ech: seen.ech || tells_of_encryption(exts),
                sni: Some(text::lowered(hosts[k])),
            },
        ),
    decreases exts.len(),
{
    let rest = exts.drop_first();
    lemma_written_extension(exts[0], written_extensions(rest));
    lemma_tells_of_encryption(exts);
    assert forall|i: int| 0 <= i < rest.len() implies (#[trigger] rest[i]) == exts[i + 1] by {}
    assert(extensions_can_be_written(rest));
    if at == 0 {
        let data = written_server_name(entries);
        lemma_two(written_names(entries).len() as int, data, 0);
        assert(data.skip(2) =~= written_names(entries));
        lemma_names(entries, hosts, k, seen.sni);
        assert forall|i: int| 0 <= i < rest.len() implies (#[trigger] rest[i]).0 != 0 by {
            assert(rest[i] == exts[i + 1]);
        }
        lemma_extensions_without_name(
            rest,
            ExtensionsView { ech: seen.ech, sni: Some(text::lowered(hosts[k])) },
        );
    } else {
        assert forall|i: int| 0 <= i < rest.len() && i != at - 1 implies (#[trigger] rest[i]).0
            != 0 by {
            assert(rest[i] == exts[i + 1]);
        }
        assert(rest[at - 1] == exts[at]);
        let next = ExtensionsView {
            ech: seen.ech || exts[0].0 == 0xfe0d || exts[0].0 == 0xff07,
            sni: seen.sni,
        };
        lemma_extensions_with_name(rest, at - 1, entries, hosts, k, next);
    }
}

/// The entries of type 0 of a list are host names, and the last of them is at `k`.
pub open spec fn names_are_hosts(
    entries: Seq<(u8, Seq<u8>)>,
    hosts: Seq<Seq<char>>,
    k: int,
) -> bool {
    &&& 0 <= k < entries.len() == hosts.len()
    &&& forall|i: int| 0 <= i < entries.len() ==> (#[trigger] entries[i]).1.len() <= 65535
    &&& forall|i: int|
        0 <= i < entries.len() && (#[trigger] entries[i]).0 == 0 ==> names_host(
            entries[i].1,
            hosts[i],
        )
    &&& entries[k].0 == 0
    &&& forall|i: int| k < i < entries.len() ==> (#[trigger] entries[i]).0 != 0
}

/// A ClientHello with one server name extension, wherever it stands among others,
/// gives the last host name in it in lower case. With an extension for encryption
/// that is the outer name only.
pub proof fn server_name_is_read_back(
    version: Seq<u8>,
    random: Seq<u8>,
    session: Seq<u8>,
    suites: Seq<u8>,
    methods: Seq<u8>,
    exts: Seq<(int, Seq<u8>)>,
    at: int,
    entries: Seq<(u8, Seq<u8>)>,
    hosts: Seq<Seq<char>>,
    k: int,
)
    requires
        can_be_written(version, random, session, suites, methods),
        extensions_can_be_written(exts),
        written_extensions(exts).len() <= 65535,
        0 <= at < exts.len(),
        exts[at] == (0int, written_server_name(entries)),
        forall|i: int| 0 <= i < exts.len() && i != at ==> (#[trigger] exts[i]).0 != 0,
        names_are_hosts(entries, hosts, k),
    ensures
        ({
            let block = written_extensions(exts);
            let body = written_head(version, random, session, suites, methods) + (bytes::two(
                block.len() as int,
            ) + block);
            &&& outer_sni_of_client_hello(body) == Ok::<_, TlsSniffError>(text::lowered(hosts[k]))
            &&& sni_of_client_hello(body) == if tells_of_encryption(exts) {
                Err::<Seq<char>, _>(TlsSniffError::TlsNoSni)
            } else {
                Ok(text::lowered(hosts[k]))
            }
        }),
{
    let block = written_extensions(exts);
    let none = Seq::<u8>::empty();
    client_hello_is_read_back(version, random, session, suites, methods, block, none);
    assert(bytes::two(block.len() as int) + block + none =~= bytes::two(block.len() as int) + block);
    lemma_extensions_with_name(
        exts,
        at,
        entries,
        hosts,
        k,
        ExtensionsView { ech: false, sni: None },
    );
}

/// A ClientHello without a server name extension gives no name.
pub proof fn without_server_name_there_is_none(
    version: Seq<u8>,
    random: Seq<u8>,
    session: Seq<u8>,
    suites: Seq<u8>,
    methods: Seq<u8>,
    exts: Seq<(int, Seq<u8>)>,
)
    requires
        can_be_written(version, random, session, suites, methods),
        extensions_can_be_written(exts),
        written_extensions(exts).len() <= 65535,
        forall|i: int| 0 <= i < exts.len() ==> (#[trigger] exts[i]).0 != 0,
    ensures
        ({
            let block = written_extensions(exts);
            let body = written_head(version, random, session, suites, methods) + (bytes::two(
                block.len() as int,
            ) + block);
            &&& outer_sni_of_client_hello(body) == Err::<Seq<char>, _>(TlsSniffError::TlsNoSni)
            &&& sni_of_client_hello(body) == Err::<Seq<char>, _>(TlsSniffError::TlsNoSni)
        }),
{
    let block = written_extensions(exts);
    let none = Seq::<u8>::empty();
    client_hello_is_read_back(version, random, session, suites, methods, block, none);
    assert(bytes::two(block.len() as int) + block + none =~= bytes::two(block.len() as int) + block);
    lemma_extensions_without_name(exts, ExtensionsView { ech: false, sni: None });
}

} // verus!
