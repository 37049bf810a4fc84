//! Where the game's web resources come from: a list of servers, pictures of a
//! content network, and what stands in for them.
use crate::http;
use crate::http::contains;
use crate::string_encoding::bytes_between;
use crate::text;
use crate::text::{chars_of, copy_chars, push_all, same_chars, slice_chars, string_of};
use vstd::prelude::*;
use vstd::utf8;

verus! {

/// The text of a request for a resource.
pub open spec fn request_text(relative: Seq<char>, host: Seq<char>) -> Seq<char> {
    "GET /"@ + relative + " HTTP/1.1\r\nHost: "@ + host
        + "\r\nUser-Agent: MoleWorld-touchHLE\r\nConnection: close\r\n\r\n"@
}

/// The request for a resource.
pub fn http_get_request(relative: &str, host: &str) -> (request: String)
    ensures
        request@ == request_text(relative@, host@),
{
    let mut out = chars_of("GET /");
    push_all(&mut out, &chars_of(relative));
    push_all(&mut out, &chars_of(" HTTP/1.1\r\nHost: "));
    push_all(&mut out, &chars_of(host));
    push_all(
        &mut out,
        &chars_of("\r\nUser-Agent: MoleWorld-touchHLE\r\nConnection: close\r\n\r\n"),
    );
    string_of(&out)
}

/// Whether an address is one from which the game asks for its list of servers.
pub open spec fn is_server_list(url: Seq<char>) -> bool {
    http::occurs_in(url, "online.imole"@) || http::occurs_in(url, "imolelogin"@)
}

/// The server that the game is sent to where no other one is set.
pub open spec fn server_or_default(server: Option<Seq<char>>) -> Seq<char> {
    match server {
        Some(s) => s,
        None => "login.moleworld.net:7821"@,
    }
}

pub open spec fn text_view(text: Option<String>) -> Option<Seq<char>> {
    match text {
        Some(t) => Some(t@),
        None => None,
    }
}

/// The answer to a request for the list of servers: one server, if the network may
/// be used and the address is the right one.
pub open spec fn server_list(
    network_access: bool,
    url: Option<Seq<char>>,
    server: Option<Seq<char>>,
) -> Option<Seq<char>> {
    match url {
        Some(u) => if network_access && is_server_list(u) {
            Some("1\n"@ + server_or_default(server) + "\n"@)
        } else {
            None
        },
        None => None,
    }
}

fn server_name(server: &Option<String>) -> (name: Vec<char>)
    ensures
        name@ == server_or_default(text_view(*server)),
{
    match server {
        Some(s) => chars_of(s.as_str()),
        None => chars_of("login.moleworld.net:7821"),
    }
}

/// The answer to a request for the list of servers. The server is the one that
/// has been set, if any.
pub fn serverlist_override(network_access: bool, url: &Option<String>, server: &Option<String>) -> (
body: Option<Vec<u8>>)
    ensures
        match body {
            Some(b) => server_list(
                network_access,
                text_view(*url),
                text_view(*server),
            ) matches Some(text) && b@ == utf8::encode_utf8(text),
            None => server_list(network_access, text_view(*url), text_view(*server)) is None,
        },
{
    match url {
        Some(u) => {
            if !network_access {
                return None;
            }
            let chars = chars_of(u.as_str());
            if !contains(&chars, &chars_of("online.imole")) && !contains(
                &chars,
                &chars_of("imolelogin"),
            ) {
                return None;
            }
            let mut out = chars_of("1\n");
            push_all(&mut out, &server_name(server));
            push_all(&mut out, &chars_of("\n"));
            let text = string_of(&out);
            let all = text.as_str().as_bytes();
            let bytes = bytes_between(all, 0, all.len());
            assert(bytes@ =~= all@);
            Some(bytes)
        },
        None => None,
    }
}

/// The text before the first question mark or hash sign.
pub open spec fn without_query(chars: Seq<char>) -> Seq<char>
    decreases chars.len(),
{
    if chars.len() == 0 || chars[0] == '?' || chars[0] == '#' {
        Seq::empty()
    } else {
        seq![chars[0]] + without_query(chars.drop_first())
    }
}

/// The text without slashes at its start.
pub open spec fn without_slashes(chars: Seq<char>) -> Seq<char>
    decreases chars.len(),
{
    if chars.len() > 0 && chars[0] == '/' {
        without_slashes(chars.drop_first())
    } else {
        chars
    }
}

/// The parts of a path between slashes.
pub open spec fn segments(chars: Seq<char>) -> Seq<Seq<char>>
    decreases chars.len(),
{
    if chars.len() == 0 {
        seq![Seq::empty()]
    } else {
        let before = segments(chars.drop_last());
        if chars.last() == '/' {
            before.push(Seq::empty())
        } else {
            before.drop_last().push(before.last().push(chars.last()))
        }
    }
}

/// A path that stays within its directory and names a file.
pub open spec fn is_plain_path(chars: Seq<char>) -> bool {
    &&& chars.len() > 0
    &&& forall|i: int|
        0 <= i < segments(chars).len() ==> (#[trigger] segments(chars)[i]).len() > 0 && segments(
            chars,
        )[i] != seq!['.', '.']
}

/// The path of a resource, cleaned of queries and leading slashes; nothing if it
/// is not a plain path.
pub open spec fn resource_path(relative: Seq<char>) -> Option<Seq<char>> {
    let path = without_slashes(without_query(relative));
    if is_plain_path(path) {
        Some(path)
    } else {
        None
    }
}

proof fn lemma_without_query(chars: Seq<char>, i: int)
    requires
        0 <= i <= chars.len(),
        i < chars.len() ==> chars[i] == '?' || chars[i] == '#',
        forall|j: int| 0 <= j < i ==> #[trigger] chars[j] != '?' && chars[j] != '#',
    ensures
        without_query(chars) == chars.take(i),
    decreases chars.len(),
{
    if i == 0 {
        assert(chars.take(0) =~= Seq::empty());
    } else {
        assert(chars[0] != '?' && chars[0] != '#');
        assert forall|j: int| 0 <= j < i - 1 implies #[trigger] chars.drop_first()[j] != '?'
            && chars.drop_first()[j] != '#' by {
            assert(chars[j + 1] != '?' && chars[j + 1] != '#');
        }
        lemma_without_query(chars.drop_first(), i - 1);
        assert(seq![chars[0]] + chars.drop_first().take(i - 1) =~= chars.take(i));
    }
}

fn split_segments(chars: &Vec<char>) -> (parts: Vec<Vec<char>>)
    ensures
        http::char_views(parts@) == segments(chars@),
        parts@.len() >= 1,
{
    let mut parts: Vec<Vec<char>> = Vec::new();
    let mut current: Vec<char> = Vec::new();
    let mut i: usize = 0;
    assert(http::char_views(parts@).push(current@) =~= segments(chars@.take(0)));
    while i < chars.len()
        invariant
            i <= chars@.len(),
            http::char_views(parts@).push(current@) == segments(chars@.take(i as int)),
        decreases chars@.len() - i,
    {
        let ghost before = http::char_views(parts@);
        let ghost part = current@;
        proof {
            assert(chars@.take(i + 1).drop_last() =~= chars@.take(i as int));
            assert(before.push(part).drop_last() =~= before);
        }
        if chars[i] == '/' {
            parts.push(current);
            current = Vec::new();
            proof {
                assert(http::char_views(parts@) =~= before.push(part));
                assert(current@ =~= Seq::empty());
            }
        } else {
            current.push(chars[i]);
        }
        i = i + 1;
        assert(http::char_views(parts@).push(current@) =~= segments(chars@.take(i as int)));
    }
    assert(chars@.take(i as int) =~= chars@);
    let ghost before = http::char_views(parts@);
    let ghost part = current@;
    parts.push(current);
    assert(http::char_views(parts@) =~= before.push(part));
    parts
}

/// The path of a resource, cleaned of queries and leading slashes.
pub fn cdn_path(relative: &str) -> (path: Option<String>)
    ensures
        match path {
            Some(p) => resource_path(relative@) == Some(p@),
            None => resource_path(relative@) is None,
        },
{
    let chars = chars_of(relative);
    let mut end: usize = 0;
    while end < chars.len() && chars[end] != '?' && chars[end] != '#'
        invariant
            end <= chars@.len(),
            forall|j: int| 0 <= j < end ==> #[trigger] chars@[j] != '?' && chars@[j] != '#',
        decreases chars@.len() - end,
    {
        end = end + 1;
    }
    let front = slice_chars(&chars, 0, end);
    proof {
        lemma_without_query(chars@, end as int);
        assert(front@ =~= chars@.take(end as int));
    }
    let mut start: usize = 0;
    assert(front@.skip(0) =~= front@);
    while start < front.len() && front[start] == '/'
        invariant
            start <= front@.len(),
            without_slashes(front@.skip(start as int)) == without_slashes(front@),
        decreases front@.len() - start,
    {
        assert(front@.skip(start as int).drop_first() =~= front@.skip(start + 1));
        start = start + 1;
    }
    let path = slice_chars(&front, start, front.len());
    assert(path@ =~= front@.skip(start as int));
    if path.len() == 0 {
        return None;
    }
    let parts = split_segments(&path);
    let mut i: usize = 0;
    let ghost views = segments(path@);
    while i < parts.len()
        invariant
            i <= parts@.len(),
            path@.len() > 0,
            path@ == without_slashes(without_query(relative@)),
            views == segments(path@),
            views == http::char_views(parts@),
            forall|j: int|
                0 <= j < i ==> (#[trigger] views[j]).len() > 0 && views[j] != seq!['.', '.'],
        decreases parts@.len() - i,
    {
        assert(views[i as int] == parts@[i as int]@);
        let part = &parts[i];
        let up: bool = part.len() == 2 && part[0] == '.' && part[1] == '.';
        proof {
            if up {
                assert(part@ =~= seq!['.', '.']);
            }
        }
        if part.len() == 0 || up {
            return None;
        }
        i = i + 1;
    }
    Some(string_of(&path))
}

/// Whether a text ends with another one, with the case of ASCII letters ignored.
pub open spec fn ends_with_any_case(whole: Seq<char>, end: Seq<char>) -> bool {
    end.len() <= whole.len() && text::stands_at(whole, whole.len() - end.len(), end)
}

fn ends_any_case(whole: &Vec<char>, end: &str) -> (yes: bool)
    ensures
        yes == ends_with_any_case(whole@, end@),
{
    let tail = chars_of(end);
    tail.len() <= whole.len() && text::starts_with_ignore_case(
        whole,
        whole.len() - tail.len(),
        &tail,
    )
}

pub open spec fn png_mark() -> Seq<u8> {
    seq![0x89u8, 0x50, 0x4e, 0x47, 0x0d, 0x0a, 0x1a, 0x0a]
}

/// Whether bytes can be the resource of a path: pictures start with the marks of
/// their formats, and nothing else is empty.
pub open spec fn is_payload(relative: Seq<char>, bytes: Seq<u8>) -> bool {
    if ends_with_any_case(relative, ".png"@) {
        http::bytes_at(bytes, png_mark(), 0)
    } else if ends_with_any_case(relative, ".jpg"@) || ends_with_any_case(relative, ".jpeg"@) {
        http::bytes_at(bytes, seq![0xffu8, 0xd8], 0)
    } else {
        bytes.len() > 0
    }
}

pub fn cdn_payload_ok(relative: &str, bytes: &Vec<u8>) -> (ok: bool)
    ensures
        ok == is_payload(relative@, bytes@),
{
    let path = chars_of(relative);
    if ends_any_case(&path, ".png") {
        let ok: bool = bytes.len() >= 8 && bytes[0] == 0x89 && bytes[1] == 0x50 && bytes[2] == 0x4e
            && bytes[3] == 0x47 && bytes[4] == 0x0d && bytes[5] == 0x0a && bytes[6] == 0x1a
            && bytes[7] == 0x0a;
        proof {
            if ok {
                assert(bytes@.subrange(0, 8) =~= png_mark());
            } else if bytes@.len() >= 8 {
                let head = bytes@.subrange(0, 8);
                assert(head[0] == bytes@[0] && head[1] == bytes@[1] && head[2] == bytes@[2]
                    && head[3] == bytes@[3] && head[4] == bytes@[4] && head[5] == bytes@[5]
                    && head[6] == bytes@[6] && head[7] == bytes@[7]);
            }
        }
        ok
    } else if ends_any_case(&path, ".jpg") || ends_any_case(&path, ".jpeg") {
        let ok: bool = bytes.len() >= 2 && bytes[0] == 0xff && bytes[1] == 0xd8;
        proof {
            if ok {
                assert(bytes@.subrange(0, 2) =~= seq![0xffu8, 0xd8]);
            } else if bytes@.len() >= 2 {
                let head = bytes@.subrange(0, 2);
                assert(head[0] == bytes@[0] && head[1] == bytes@[1]);
            }
        }
        ok
    } else {
        bytes.len() > 0
    }
}

/// The part of a path behind its last slash.
pub open spec fn file_name(path: Seq<char>) -> Seq<char> {
    segments(path).last()
}

/// Whether a file is a notice board, whose pictures the content network has lost.
pub open spec fn is_notice_board(path: Seq<char>) -> bool {
    let name = file_name(path);
    http::occurs_at(name, "noticeBoard_"@, 0) && name.len() >= 4 && http::occurs_at(
        name,
        ".png"@,
        name.len() - 4,
    )
}

/// A transparent picture of one pixel.
pub open spec fn transparent_png() -> Seq<u8> {
    seq![
        0x89u8, 0x50, 0x4e, 0x47, 0x0d, 0x0a, 0x1a, 0x0a, 0x00, 0x00, 0x00, 0x0d, 0x49, 0x48, 0x44,
        0x52, 0x00, 0x00, 0x00, 0x01, 0x00, 0x00, 0x00, 0x01, 0x08, 0x06, 0x00, 0x00, 0x00, 0x1f,
        0x15, 0xc4, 0x89, 0x00, 0x00, 0x00, 0x0b, 0x49, 0x44, 0x41, 0x54, 0x78, 0xda, 0x63, 0x60,
        0x00, 0x02, 0x00, 0x00, 0x05, 0x00, 0x01, 0xe9, 0xfa, 0xdc, 0xd8, 0x00, 0x00, 0x00, 0x00,
        0x49, 0x45, 0x4e, 0x44, 0xae, 0x42, 0x60, 0x82
    ]
}

fn placeholder() -> (bytes: Vec<u8>)
    ensures
        bytes@ == transparent_png(),
{
    let bytes: Vec<u8> = vec![
        0x89u8, 0x50, 0x4e, 0x47, 0x0d, 0x0a, 0x1a, 0x0a, 0x00, 0x00, 0x00, 0x0d, 0x49, 0x48, 0x44,
        0x52, 0x00, 0x00, 0x00, 0x01, 0x00, 0x00, 0x00, 0x01, 0x08, 0x06, 0x00, 0x00, 0x00, 0x1f,
        0x15, 0xc4, 0x89, 0x00, 0x00, 0x00, 0x0b, 0x49, 0x44, 0x41, 0x54, 0x78, 0xda, 0x63, 0x60,
        0x00, 0x02, 0x00, 0x00, 0x05, 0x00, 0x01, 0xe9, 0xfa, 0xdc, 0xd8, 0x00, 0x00, 0x00, 0x00,
        0x49, 0x45, 0x4e, 0x44, 0xae, 0x42, 0x60, 0x82
    ];
    assert(bytes@ =~= transparent_png());
    bytes
}

/// What a source gave, if it can be the resource.
pub open spec fn accepted(relative: Seq<char>, candidate: Option<Seq<u8>>) -> Option<Seq<u8>> {
    match candidate {
        Some(bytes) => if is_payload(relative, bytes) {
            Some(bytes)
        } else {
            None
        },
        None => None,
    }
}

/// The first source that has the resource: the override file, the server where
/// the network may be used, the bundle; for a notice board an empty picture.
pub open spec fn resolved(
    relative: Seq<char>,
    override_file: Option<Seq<u8>>,
    network_access: bool,
    fetched: Option<Seq<u8>>,
    bundle_file: Option<Seq<u8>>,
) -> Option<Seq<u8>> {
    if accepted(relative, override_file) is Some {
        override_file
    } else if network_access && accepted(relative, fetched) is Some {
        fetched
    } else if accepted(relative, bundle_file) is Some {
        bundle_file
    } else if is_notice_board(relative) {
        Some(transparent_png())
    } else {
        None
    }
}

pub open spec fn bytes_view(bytes: Option<Vec<u8>>) -> Option<Seq<u8>> {
    match bytes {
        Some(b) => Some(b@),
        None => None,
    }
}

fn accept(relative: &str, candidate: &Option<Vec<u8>>) -> (found: Option<Vec<u8>>)
    ensures
        bytes_view(found) == accepted(relative@, bytes_view(*candidate)),
{
    match candidate {
        Some(bytes) => if cdn_payload_ok(relative, bytes) {
            let copy = bytes_between(bytes.as_slice(), 0, bytes.len());
            assert(copy@ =~= bytes@);
            Some(copy)
        } else {
            None
        },
        None => None,
    }
}

/// Whether a path names a notice board.
fn names_notice_board(relative: &str) -> (yes: bool)
    ensures
        yes == is_notice_board(relative@),
{
    let parts = split_segments(&chars_of(relative));
    let name = &parts[parts.len() - 1];
    assert(file_name(relative@) == name@);
    let start = chars_of("noticeBoard_");
    let end = chars_of(".png");
    proof {
        reveal_strlit(".png");
    }
    if name.len() < start.len() || name.len() < 4 {
        return false;
    }
    let front = slice_chars(name, 0, start.len());
    let back = slice_chars(name, name.len() - 4, name.len());
    same_chars(&front, &start) && same_chars(&back, &end)
}

/// Where a resource is looked for.
#[derive(Clone, Copy, Debug, PartialEq, Eq, Structural)]
pub enum CdnSource {
    Override,
    Server,
    Bundle,
}

/// What to do for a resource: to look at a source, or to be done with what was found.
#[derive(Debug)]
pub enum CdnStep {
    Look(CdnSource),
    Done(Option<Vec<u8>>),
}

/// What to do for a resource, over the bytes.
pub ghost enum CdnStepView {
    Look(CdnSource),
    Done(Option<Seq<u8>>),
}

impl View for CdnStep {
    type V = CdnStepView;

    open spec fn view(&self) -> CdnStepView {
        match *self {
            CdnStep::Look(source) => CdnStepView::Look(source),
            CdnStep::Done(found) => CdnStepView::Done(bytes_view(found)),
        }
    }
}

/// What to do after a source has given its reply.
pub open spec fn step_after(
    relative: Seq<char>,
    source: CdnSource,
    network_access: bool,
    reply: Option<Seq<u8>>,
) -> CdnStepView {
    if accepted(relative, reply) is Some {
        CdnStepView::Done(reply)
    } else {
        match source {
            CdnSource::Override => CdnStepView::Look(
                if network_access {
                    CdnSource::Server
                } else {
                    CdnSource::Bundle
                },
            ),
            CdnSource::Server => CdnStepView::Look(CdnSource::Bundle),
            CdnSource::Bundle => CdnStepView::Done(
                if is_notice_board(relative) {
                    Some(transparent_png())
                } else {
                    None
                },
            ),
        }
    }
}

/// Goes on after a source has given its reply; the first source is the override file.
pub fn cdn_step(
    relative: &str,
    source: CdnSource,
    network_access: bool,
    reply: &Option<Vec<u8>>,
) -> (step: CdnStep)
    ensures
        step@ == step_after(relative@, source, network_access, bytes_view(*reply)),
{
    if let Some(bytes) = accept(relative, reply) {
        return CdnStep::Done(Some(bytes));
    }
    match source {
        CdnSource::Override => CdnStep::Look(
            if network_access {
                CdnSource::Server
            } else {
                CdnSource::Bundle
            },
        ),
        CdnSource::Server => CdnStep::Look(CdnSource::Bundle),
        CdnSource::Bundle => CdnStep::Done(
            if names_notice_board(relative) {
                Some(placeholder())
            } else {
                None
            },
        ),
    }
}

/// How many sources there are from one on.
pub open spec fn sources_left(source: CdnSource) -> nat {
    match source {
        CdnSource::Override => 3,
        CdnSource::Server => 2,
        CdnSource::Bundle => 1,
    }
}

/// What is found from a source on.
pub open spec fn resolved_from(
    relative: Seq<char>,
    source: CdnSource,
    override_file: Option<Seq<u8>>,
    network_access: bool,
    fetched: Option<Seq<u8>>,
    bundle_file: Option<Seq<u8>>,
) -> Option<Seq<u8>>
    decreases sources_left(source),
{
    let reply = match source {
        CdnSource::Override => override_file,
        CdnSource::Server => fetched,
        CdnSource::Bundle => bundle_file,
    };
    match step_after(relative, source, network_access, reply) {
        CdnStepView::Look(next) => if sources_left(next) < sources_left(source) {
            resolved_from(relative, next, override_file, network_access, fetched, bundle_file)
        } else {
            None
        },
        CdnStepView::Done(found) => found,
    }
}

/// Step by step the first source is found that has the resource.
pub proof fn law_steps_resolve(
    relative: Seq<char>,
    override_file: Option<Seq<u8>>,
    network_access: bool,
    fetched: Option<Seq<u8>>,
    bundle_file: Option<Seq<u8>>,
)
    ensures
        resolved_from(
            relative,
            CdnSource::Override,
            override_file,
            network_access,
            fetched,
            bundle_file,
        ) == resolved(relative, override_file, network_access, fetched, bundle_file),
{
    reveal_with_fuel(resolved_from, 3);
}

/// The bytes of a resource from the first source that has it.
pub fn cdn_resolve(
    relative: &str,
    override_file: &Option<Vec<u8>>,
    network_access: bool,
    fetched: &Option<Vec<u8>>,
    bundle_file: &Option<Vec<u8>>,
) -> (found: Option<Vec<u8>>)
    ensures
        bytes_view(found) == resolved(
            relative@,
            bytes_view(*override_file),
            network_access,
            bytes_view(*fetched),
            bytes_view(*bundle_file),
        ),
{
    let mut source = CdnSource::Override;
    proof {
        law_steps_resolve(
            relative@,
            bytes_view(*override_file),
            network_access,
            bytes_view(*fetched),
            bytes_view(*bundle_file),
        );
    }
    loop
        invariant
            resolved_from(
                relative@,
                source,
                bytes_view(*override_file),
                network_access,
                bytes_view(*fetched),
                bytes_view(*bundle_file),
            ) == resolved(
                relative@,
                bytes_view(*override_file),
                network_access,
                bytes_view(*fetched),
                bytes_view(*bundle_file),
            ),
        decreases sources_left(source),
    {
        let reply = match source {
            CdnSource::Override => override_file,
            CdnSource::Server => fetched,
            CdnSource::Bundle => bundle_file,
        };
        match cdn_step(relative, source, network_access, reply) {
            CdnStep::Look(next) => {
                source = next;
            },
            CdnStep::Done(found) => {
                return found;
            },
        }
    }
}

/// A resource that is found can be the resource of its path, unless it is the
/// empty picture of a notice board.
pub proof fn law_resolved_is_payload(
    relative: Seq<char>,
    override_file: Option<Seq<u8>>,
    network_access: bool,
    fetched: Option<Seq<u8>>,
    bundle_file: Option<Seq<u8>>,
)
    ensures
        resolved(relative, override_file, network_access, fetched, bundle_file) matches Some(bytes)
            ==> is_payload(relative, bytes) || (is_notice_board(relative) && bytes
            == transparent_png()),
{
}

/// The host of an address, without its port.
pub open spec fn host_part(server: Seq<char>) -> Seq<char>
    decreases server.len(),
{
    if !server.contains(':') {
        server
    } else if server.last() == ':' {
        server.drop_last()
    } else {
        host_part(server.drop_last())
    }
}

/// The address of the server that has the resources: the one that is set for them
/// if any, else port 80 of the game's server.
pub open spec fn cdn_address(cdn: Option<Seq<char>>, server: Option<Seq<char>>) -> Option<
    Seq<char>,
> {
    match cdn {
        Some(value) => {
            let v = http::trimmed(value);
            if v.len() == 0 || (v.len() == 3 && text::stands_at(v, 0, "off"@)) {
                None
            } else if v.contains(':') {
                Some(v)
            } else {
                Some(v + ":80"@)
            }
        },
        None => {
            let host = host_part(server_or_default(server));
            if host.len() == 0 {
                None
            } else {
                Some(host + ":80"@)
            }
        },
    }
}

fn has_colon(chars: &Vec<char>) -> (yes: bool)
    ensures
        yes == chars@.contains(':'),
{
    let mut i: usize = 0;
    while i < chars.len()
        invariant
            i <= chars@.len(),
            forall|j: int| 0 <= j < i ==> #[trigger] chars@[j] != ':',
        decreases chars@.len() - i,
    {
        if chars[i] == ':' {
            return true;
        }
        i = i + 1;
    }
    false
}

fn host_of(server: &Vec<char>) -> (host: Vec<char>)
    ensures
        host@ == host_part(server@),
{
    if !has_colon(server) {
        return copy_chars(server);
    }
    let mut end: usize = server.len();
    assert(server@.take(end as int) =~= server@);
    while end > 0 && server[end - 1] != ':'
        invariant
            end <= server@.len(),
            server@.take(end as int).contains(':'),
            host_part(server@.take(end as int)) == host_part(server@),
        decreases end,
    {
        proof {
            let part = server@.take(end as int);
            let k = choose|k: int| 0 <= k < part.len() && part[k] == ':';
            assert(part.drop_last() =~= server@.take(end - 1));
            assert(part.drop_last()[k] == ':');
        }
        end = end - 1;
    }
    proof {
        let part = server@.take(end as int);
        let k = choose|k: int| 0 <= k < part.len() && part[k] == ':';
        assert(end > 0);
        assert(part.drop_last() =~= server@.take(end - 1));
    }
    let host = slice_chars(server, 0, end - 1);
    assert(host@ =~= server@.take(end - 1));
    host
}

/// The address of the server that has the resources.
pub fn cdn_server_addr(cdn: &Option<String>, server: &Option<String>) -> (addr: Option<String>)
    ensures
        match addr {
            Some(a) => cdn_address(text_view(*cdn), text_view(*server)) == Some(a@),
            None => cdn_address(text_view(*cdn), text_view(*server)) is None,
        },
{
    let port = chars_of(":80");
    match cdn {
        Some(value) => {
            let mut v = http::trim(&chars_of(value.as_str()));
            let off = chars_of("off");
            proof {
                reveal_strlit("off");
            }
            if v.len() == 0 || (v.len() == 3 && text::starts_with_ignore_case(&v, 0, &off)) {
                return None;
            }
            if !has_colon(&v) {
                push_all(&mut v, &port);
            }
            Some(string_of(&v))
        },
        None => {
            let mut host = host_of(&server_name(server));
            if host.len() == 0 {
                return None;
            }
            push_all(&mut host, &port);
            Some(string_of(&host))
        },
    }
}

/// The path of a resource of the content network, if an address names one.
pub open spec fn cdn_relative(url: Seq<char>) -> Option<Seq<char>> {
    let prefix = "http://mcdn.61.com/"@;
    if http::occurs_at(url, prefix, 0) {
        Some(url.skip(prefix.len() as int))
    } else {
        None
    }
}

pub fn relative_of_url(url: &str) -> (relative: Option<String>)
    ensures
        match relative {
            Some(r) => cdn_relative(url@) == Some(r@),
            None => cdn_relative(url@) is None,
        },
{
    let chars = chars_of(url);
    let prefix = chars_of("http://mcdn.61.com/");
    if chars.len() < prefix.len() {
        return None;
    }
    let front = slice_chars(&chars, 0, prefix.len());
    if !same_chars(&front, &prefix) {
        return None;
    }
    let rest = slice_chars(&chars, prefix.len(), chars.len());
    assert(rest@ =~= url@.skip(prefix@.len() as int));
    Some(string_of(&rest))
}

/// What has been found of the resources that were asked for.
pub struct CdnCache {
    pub entries: Vec<(String, Option<Vec<u8>>)>,
}

pub open spec fn cache_view(entries: Seq<(String, Option<Vec<u8>>)>) -> Seq<
    (Seq<char>, Option<Seq<u8>>),
> {
    entries.map_values(|e: (String, Option<Vec<u8>>)| (e.0@, bytes_view(e.1)))
}

/// What has been stored last for a path.
pub open spec fn cached(entries: Seq<(Seq<char>, Option<Seq<u8>>)>, path: Seq<char>) -> Option<
    Option<Seq<u8>>,
>
    decreases entries.len(),
{
    if entries.len() == 0 {
        None
    } else if entries.last().0 == path {
        Some(entries.last().1)
    } else {
        cached(entries.drop_last(), path)
    }
}

/// What is left to do for a resource.
pub enum CdnLookup {
    /// The path is not one of a resource.
    Refused,
    /// What has been found before.
    Found(Option<Vec<u8>>),
    /// The resource at this path is to be looked for.
    Resolve(String),
}

impl View for CdnCache {
    type V = Seq<(Seq<char>, Option<Seq<u8>>)>;

    open spec fn view(&self) -> Seq<(Seq<char>, Option<Seq<u8>>)> {
        cache_view(self.entries@)
    }
}

impl CdnCache {
    pub fn new() -> (cache: CdnCache)
        ensures
            cache@ == Seq::<(Seq<char>, Option<Seq<u8>>)>::empty(),
    {
        let cache = CdnCache { entries: Vec::new() };
        assert(cache@ =~= Seq::<(Seq<char>, Option<Seq<u8>>)>::empty());
        cache
    }

    /// Begins to fetch a resource: each one is looked for once.
    pub fn cdn_fetch(&self, relative: &str) -> (lookup: CdnLookup)
        ensures
            match resource_path(relative@) {
                None => lookup is Refused,
                Some(path) => match cached(self@, path) {
                    Some(found) => lookup matches CdnLookup::Found(bytes) && bytes_view(bytes)
                        == found,
                    None => lookup matches CdnLookup::Resolve(p) && p@ == path,
                },
            },
    {
        let path = match cdn_path(relative) {
            Some(path) => path,
            None => {
                return CdnLookup::Refused;
            },
        };
        let wanted = chars_of(path.as_str());
        let mut n: usize = self.entries.len();
        assert(self@.take(n as int) =~= self@);
        while n > 0
            invariant
                n <= self.entries@.len(),
                wanted@ == path@,
                resource_path(relative@) == Some(path@),
                cached(self@.take(n as int), path@) == cached(self@, path@),
            decreases n,
        {
            let entry = &self.entries[n - 1];
            assert(self@.take(n as int).last() == self@[n - 1]);
            assert(self@.take(n as int).drop_last() =~= self@.take(n - 1));
            if same_chars(&chars_of(entry.0.as_str()), &wanted) {
                let found: Option<Vec<u8>> = match &entry.1 {
                    Some(bytes) => {
                        let copy = bytes_between(bytes.as_slice(), 0, bytes.len());
                        assert(copy@ =~= bytes@);
                        Some(copy)
                    },
                    None => None,
                };
                return CdnLookup::Found(found);
            }
            n = n - 1;
        }
        CdnLookup::Resolve(path)
    }

    /// Keeps what has been found at a path.
    pub fn store(&mut self, path: String, found: Option<Vec<u8>>)
        ensures
            final(self)@ == old(self)@.push((path@, bytes_view(found))),
    {
        self.entries.push((path, found));
        assert(self@ =~= old(self)@.push((path@, bytes_view(found))));
    }
}

/// What has been found at a path is found there again, and nothing changes for other
/// paths.
pub proof fn law_found_again(
    entries: Seq<(Seq<char>, Option<Seq<u8>>)>,
    path: Seq<char>,
    found: Option<Seq<u8>>,
    other: Seq<char>,
)
    ensures
        cached(entries.push((path, found)), path) == Some(found),
        other != path ==> cached(entries.push((path, found)), other) == cached(entries, other),
{
    assert(entries.push((path, found)).drop_last() =~= entries);
}

/// A query or a fragment is cut off where it begins.
pub proof fn law_query_is_cut(path: Seq<char>, rest: Seq<char>)
    requires
        forall|i: int| 0 <= i < path.len() ==> #[trigger] path[i] != '?' && path[i] != '#',
        rest.len() > 0 ==> rest[0] == '?' || rest[0] == '#',
    ensures
        without_query(path + rest) == path,
    decreases path.len(),
{
    if path.len() > 0 {
        assert((path + rest)[0] == path[0]);
        assert((path + rest).drop_first() =~= path.drop_first() + rest);
        law_query_is_cut(path.drop_first(), rest);
        assert(seq![path[0]] + path.drop_first() =~= path);
    } else {
        assert(path + rest =~= rest);
        assert(path =~= Seq::empty());
    }
}

/// All leading slashes are dropped, and nothing else.
pub proof fn law_leading_slashes(slashes: Seq<char>, path: Seq<char>)
    requires
        forall|i: int| 0 <= i < slashes.len() ==> #[trigger] slashes[i] == '/',
        path.len() > 0 ==> path[0] != '/',
    ensures
        without_slashes(slashes + path) == path,
    decreases slashes.len(),
{
    if slashes.len() > 0 {
        assert((slashes + path)[0] == slashes[0]);
        assert((slashes + path).drop_first() =~= slashes.drop_first() + path);
        law_leading_slashes(slashes.drop_first(), path);
    } else {
        assert(slashes + path =~= path);
    }
}

/// A slash ends a segment: what stands before the last one is split by itself, and what
/// stands behind it is the last segment.
pub proof fn law_segments(path: Seq<char>, name: Seq<char>)
    requires
        forall|i: int| 0 <= i < name.len() ==> #[trigger] name[i] != '/',
    ensures
        segments(path.push('/') + name) == segments(path).push(name),
        segments(name) == seq![name],
        file_name(path.push('/') + name) == name,
        file_name(name) == name,
    decreases name.len(),
{
    let whole = path.push('/') + name;
    if name.len() == 0 {
        assert(whole =~= path.push('/'));
        assert(whole.drop_last() =~= path);
        assert(name =~= Seq::empty());
    } else {
        let rest = name.drop_last();
        law_segments(path, rest);
        assert(whole.last() == name.last());
        assert(name[name.len() - 1] != '/');
        assert(whole.drop_last() =~= path.push('/') + rest);
        assert(segments(path).push(rest).drop_last() =~= segments(path));
        assert(rest.push(name.last()) =~= name);
        assert(segments(name) =~= seq![name]);
    }
}

/// The path of a resource keeps no query and no leading slash. Where a segment is empty
/// or leads to the parent there is none, so no path leads out of where resources are.
pub proof fn law_resource_path(slashes: Seq<char>, path: Seq<char>, query: Seq<char>, i: int)
    requires
        forall|k: int| 0 <= k < slashes.len() ==> #[trigger] slashes[k] == '/',
        path.len() > 0 ==> path[0] != '/',
        forall|k: int| 0 <= k < path.len() ==> #[trigger] path[k] != '?' && path[k] != '#',
        query.len() > 0 ==> query[0] == '?' || query[0] == '#',
    ensures
        resource_path(slashes + path + query) == Some(path) || resource_path(slashes + path + query)
            is None,
        path.len() == 0 ==> resource_path(slashes + path + query) is None,
        0 <= i < segments(path).len() && (segments(path)[i].len() == 0 || segments(path)[i]
            =~= seq!['.', '.']) ==> resource_path(slashes + path + query) is None,
        path.len() > 0 && (forall|k: int|
            0 <= k < segments(path).len() ==> (#[trigger] segments(path)[k]).len() > 0 && segments(
                path,
            )[k] != seq!['.', '.']) ==> resource_path(slashes + path + query) == Some(path),
{
    let whole = slashes + path;
    assert forall|k: int| 0 <= k < whole.len() implies #[trigger] whole[k] != '?' && whole[k]
        != '#' by {
        if k < slashes.len() {
            assert(slashes[k] == '/');
        } else {
            assert(path[k - slashes.len()] != '?');
        }
    }
    law_query_is_cut(whole, query);
    law_leading_slashes(slashes, path);
}

/// A picture is taken only with the first bytes of its format, whatever the case of its
/// extension, and anything else where it is not empty.
pub proof fn law_payload(relative: Seq<char>, bytes: Seq<u8>)
    ensures
        bytes.len() == 0 ==> !is_payload(relative, bytes),
        ends_with_any_case(relative, ".png"@) ==> (is_payload(relative, bytes) <==> bytes.len() >= 8
            && bytes[0] == 137 && bytes[1] == 80 && bytes[2] == 78 && bytes[3] == 71 && bytes[4]
            == 13 && bytes[5] == 10 && bytes[6] == 26 && bytes[7] == 10),
        !ends_with_any_case(relative, ".png"@) && (ends_with_any_case(relative, ".jpg"@)
            || ends_with_any_case(relative, ".jpeg"@)) ==> (is_payload(relative, bytes)
            <==> bytes.len() >= 2 && bytes[0] == 255 && bytes[1] == 216),
        !ends_with_any_case(relative, ".png"@) && !ends_with_any_case(relative, ".jpg"@)
            && !ends_with_any_case(relative, ".jpeg"@) && bytes.len() > 0 ==> is_payload(
            relative,
            bytes,
        ),
        ends_with_any_case(relative, ".png"@) ==> is_payload(relative, transparent_png()),
{
    let png = png_mark();
    if bytes.len() >= 8 {
        let start = bytes.subrange(0, 8);
        if start == png {
            assert(start[0] == png[0] && start[1] == png[1] && start[2] == png[2] && start[3]
                == png[3] && start[4] == png[4] && start[5] == png[5] && start[6] == png[6]
                && start[7] == png[7]);
        }
        if bytes[0] == 137 && bytes[1] == 80 && bytes[2] == 78 && bytes[3] == 71 && bytes[4] == 13
            && bytes[5] == 10 && bytes[6] == 26 && bytes[7] == 10 {
            assert(start =~= png);
        }
    }
    if bytes.len() >= 2 {
        let start = bytes.subrange(0, 2);
        let jpg = seq![0xffu8, 0xd8];
        if start == jpg {
            assert(start[0] == jpg[0] && start[1] == jpg[1]);
        }
        if bytes[0] == 255 && bytes[1] == 216 {
            assert(start =~= jpg);
        }
    }
    assert(transparent_png().subrange(0, 8) =~= png);
}

/// A file of the user goes before the server, which is asked only where the network may
/// be used, and that before a file of the bundle; what is no payload is passed over. A
/// missing notice board is a picture that shows nothing, and anything else is missing.
pub proof fn law_sources_in_order(
    relative: Seq<char>,
    user: Option<Seq<u8>>,
    network_access: bool,
    fetched: Option<Seq<u8>>,
    bundle: Option<Seq<u8>>,
)
    ensures
        ({
            let found = resolved(relative, user, network_access, fetched, bundle);
            let user_good = user is Some && is_payload(relative, user->0);
            let fetched_good = network_access && fetched is Some && is_payload(relative, fetched->0);
            let bundle_good = bundle is Some && is_payload(relative, bundle->0);
            &&& user_good ==> found == user
            &&& !user_good && fetched_good ==> found == fetched
            &&& !user_good && !fetched_good && bundle_good ==> found == bundle
            &&& !user_good && !fetched_good && !bundle_good ==> found == if is_notice_board(
                relative,
            ) {
                Some(transparent_png())
            } else {
                None
            }
        }),
{
}

/// A notice board is a picture whose file name begins as theirs do, in any directory.
pub proof fn law_notice_board(directory: Seq<char>, middle: Seq<char>, name: Seq<char>)
    requires
        forall|i: int| 0 <= i < name.len() ==> #[trigger] name[i] != '/',
    ensures
        name == "noticeBoard_"@ + middle + ".png"@ ==> is_notice_board(
            directory.push('/') + name,
        ) && is_notice_board(name),
        is_notice_board(name) ==> name.len() >= 16 && name[0] == 'n' && name[11] == '_'
            && name.last() == 'g' && name[name.len() - 4] == '.',
        is_notice_board(directory.push('/') + name) == is_notice_board(name),
{
    reveal_strlit("noticeBoard_");
    reveal_strlit(".png");
    law_segments(directory, name);
    let head = "noticeBoard_"@;
    let tail = ".png"@;
    if name == head + middle + tail {
        assert(name.subrange(0, 12) =~= head);
        assert(name.subrange(name.len() - 4, name.len() as int) =~= tail);
    }
    if is_notice_board(name) {
        let start = name.subrange(0, 12);
        let end = name.subrange(name.len() - 4, name.len() as int);
        assert(start[0] == head[0] && start[11] == head[11]);
        assert(end[0] == tail[0] && end[3] == tail[3]);
        if name.len() < 16 {
            let k = name.len() - 4;
            assert(end[0] == name[k] && start[k] == name[k]);
            assert(head[k] != '.');
            assert(false);
        }
    }
}

/// The host of a server is what stands before its last colon, and all of it without one.
pub proof fn law_host_part(host: Seq<char>, port: Seq<char>)
    requires
        forall|i: int| 0 <= i < port.len() ==> #[trigger] port[i] != ':',
    ensures
        host_part(host.push(':') + port) == host,
        host_part(port) == port,
    decreases port.len(),
{
    let whole = host.push(':') + port;
    assert(whole[host.len() as int] == ':');
    assert(whole.contains(':'));
    if port.len() == 0 {
        assert(whole =~= host.push(':'));
        assert(whole.drop_last() =~= host);
    } else {
        assert(whole.last() == port[port.len() - 1]);
        assert(whole.drop_last() =~= host.push(':') + port.drop_last());
        law_host_part(host, port.drop_last());
    }
}

/// The content network is on the host of the server where none is named. A named one is
/// taken without the spaces around it, with a port if it has none, and can be switched off.
pub proof fn law_cdn_address(host: Seq<char>, port: Seq<char>, value: Seq<char>)
    requires
        host.len() > 0,
        forall|i: int| 0 <= i < port.len() ==> #[trigger] port[i] != ':',
    ensures
        cdn_address(None, Some(host.push(':') + port)) == Some(host + seq![':', '8', '0']),
        http::trimmed(value).len() == 0 ==> cdn_address(Some(value), Some(host)) is None,
        http::trimmed(value) == seq!['o', 'f', 'f'] ==> cdn_address(Some(value), Some(host)) is None,
        http::trimmed(value) == seq!['O', 'F', 'F'] ==> cdn_address(Some(value), Some(host)) is None,
        http::trimmed(value).len() > 3 && !http::trimmed(value).contains(':') ==> cdn_address(
            Some(value),
            Some(host),
        ) == Some(http::trimmed(value) + seq![':', '8', '0']),
        http::trimmed(value).len() > 3 && http::trimmed(value).contains(':') ==> cdn_address(
            Some(value),
            Some(host),
        ) == Some(http::trimmed(value)),
{
    reveal_strlit(":80");
    reveal_strlit("off");
    assert(":80"@ =~= seq![':', '8', '0']);
    law_host_part(host, port);
    let v = http::trimmed(value);
    let off = "off"@;
    if v == seq!['o', 'f', 'f'] || v == seq!['O', 'F', 'F'] {
        assert forall|k: int| 0 <= k < off.len() implies text::eq_ascii_case(
            #[trigger] v[0 + k],
            off[k],
        ) by {
            if k == 0 {
            } else if k == 1 {
            } else {
                assert(k == 2);
            }
        }
        assert(text::stands_at(v, 0, off));
    }
}

/// A resource of the content network is named by what follows its address.
pub proof fn law_cdn_relative(url: Seq<char>, rest: Seq<char>)
    ensures
        cdn_relative("http://mcdn.61.com/"@ + rest) == Some(rest),
        cdn_relative(url) matches Some(r) ==> url == "http://mcdn.61.com/"@ + r,
{
    let prefix = "http://mcdn.61.com/"@;
    let whole = prefix + rest;
    assert(whole.subrange(0, prefix.len() as int) =~= prefix);
    assert(whole.skip(prefix.len() as int) =~= rest);
    if http::occurs_at(url, prefix, 0) {
        assert(url =~= url.subrange(0, prefix.len() as int) + url.skip(prefix.len() as int));
    }
}

/// A list of servers is only made up where the network may be used and one is asked for,
/// and it holds the one server on a line of its own.
pub proof fn law_server_list(url: Seq<char>, server: Seq<char>)
    ensures
        server_list(false, Some(url), Some(server)) is None,
        server_list(true, None, Some(server)) is None,
        !is_server_list(url) ==> server_list(true, Some(url), Some(server)) is None,
        is_server_list(url) ==> server_list(true, Some(url), Some(server)) == Some(
            seq!['1', '\n'] + server + seq!['\n'],
        ),
        is_server_list(url) ==> server_list(true, Some(url), None) == Some(
            seq!['1', '\n'] + "login.moleworld.net:7821"@ + seq!['\n'],
        ),
{
    reveal_strlit("1\n");
    reveal_strlit("\n");
    assert("1\n"@ =~= seq!['1', '\n']);
    assert("\n"@ =~= seq!['\n']);
}

/// A request asks for the resource in its first line, names the host in its second, and
/// ends with an empty line.
pub proof fn law_request(relative: Seq<char>, host: Seq<char>)
    requires
        forall|i: int| 0 <= i < relative.len() ==> #[trigger] relative[i] != '\r',
        forall|i: int| 0 <= i < host.len() ==> #[trigger] host[i] != '\r',
    ensures
        ({
            let found = http::lines(request_text(relative, host), Seq::empty());
            &&& found.len() >= 2
            &&& found[0] == "GET /"@ + relative + " HTTP/1.1"@
            &&& found[1] == "Host: "@ + host
            &&& request_text(relative, host).skip(request_text(relative, host).len() - 4) == seq![
                '\r',
                '\n',
                '\r',
                '\n',
            ]
        }),
{
    reveal_strlit("GET /");
    reveal_strlit(" HTTP/1.1");
    reveal_strlit(" HTTP/1.1\r\nHost: ");
    reveal_strlit("Host: ");
    reveal_strlit("\r\nUser-Agent: MoleWorld-touchHLE\r\nConnection: close\r\n\r\n");
    let whole = request_text(relative, host);
    let tail = "\r\nUser-Agent: MoleWorld-touchHLE\r\nConnection: close\r\n\r\n"@;
    let first = "GET /"@ + relative + " HTTP/1.1"@;
    let second = "Host: "@ + host;
    let rest = tail.skip(2);
    assert(" HTTP/1.1\r\nHost: "@ =~= " HTTP/1.1"@ + http::line_end() + "Host: "@);
    assert(tail =~= http::line_end() + rest);
    let below = second + http::line_end() + rest;
    assert(whole =~= first + http::line_end() + below);
    assert forall|i: int| i < first.len() implies !#[trigger] http::ends_at(
        first + http::line_end() + below,
        i,
    ) by {
        if 0 <= i {
            lemma_no_return(relative, i);
            assert((first + http::line_end() + below)[i] == first[i]);
        }
    }
    http::law_lines(first, below, Seq::empty());
    assert forall|i: int| i < second.len() implies !#[trigger] http::ends_at(
        second + http::line_end() + rest,
        i,
    ) by {
        if 0 <= i {
            assert((second + http::line_end() + rest)[i] == second[i]);
            if i >= 6 {
                assert(second[i] == host[i - 6]);
            }
        }
    }
    http::law_lines(second, rest, Seq::empty());
    assert(Seq::<char>::empty() + first =~= first);
    assert(Seq::<char>::empty() + second =~= second);
    let all = seq![first] + (seq![second] + http::lines(rest, Seq::empty()));
    assert(http::lines(whole, Seq::empty()) == all);
    assert(all[0] == first && all[1] == second);
    assert(whole.skip(whole.len() - 4) =~= tail.skip(tail.len() - 4));
    assert(tail.skip(tail.len() - 4) =~= seq!['\r', '\n', '\r', '\n']);
}

proof fn lemma_no_return(relative: Seq<char>, i: int)
    requires
        forall|k: int| 0 <= k < relative.len() ==> #[trigger] relative[k] != '\r',
        0 <= i < ("GET /"@ + relative + " HTTP/1.1"@).len(),
    ensures
        ("GET /"@ + relative + " HTTP/1.1"@)[i] != '\r',
{
    reveal_strlit("GET /");
    reveal_strlit(" HTTP/1.1");
    let first = "GET /"@ + relative + " HTTP/1.1"@;
    if 5 <= i < 5 + relative.len() {
        assert(first[i] == relative[i - 5]);
    } else if i >= 5 {
        assert(first[i] == " HTTP/1.1"@[i - 5 - relative.len()]);
    } else {
        assert(first[i] == "GET /"@[i]);
    }
}

/// A list of servers is asked for where either name of theirs stands anywhere in an address.
pub proof fn law_is_server_list(before: Seq<char>, after: Seq<char>, url: Seq<char>)
    ensures
        is_server_list(before + "online.imole"@ + after),
        is_server_list(before + "imolelogin"@ + after),
        url.len() < 10 ==> !is_server_list(url),
        is_server_list(url) ==> url.contains('i') && url.contains('o') && url.contains('l'),
{
    reveal_strlit("online.imole");
    reveal_strlit("imolelogin");
    let (online, login) = ("online.imole"@, "imolelogin"@);
    let at = before.len() as int;
    let first = before + online + after;
    let second = before + login + after;
    assert(first.subrange(at, at + online.len()) =~= online);
    assert(http::occurs_at(first, online, at));
    assert(second.subrange(at, at + login.len()) =~= login);
    assert(http::occurs_at(second, login, at));
    if is_server_list(url) {
        if http::occurs_in(url, online) {
            let k = choose|k: int| http::occurs_at(url, online, k);
            let part = url.subrange(k, k + online.len());
            assert(part[3] == url[k + 3] && part[0] == url[k] && part[2] == url[k + 2]);
            assert(online[3] == 'i' && online[0] == 'o' && online[2] == 'l');
        } else {
            let k = choose|k: int| http::occurs_at(url, login, k);
            let part = url.subrange(k, k + login.len());
            assert(part[0] == url[k] && part[2] == url[k + 2] && part[3] == url[k + 3]);
            assert(login[0] == 'i' && login[2] == 'o' && login[3] == 'l');
        }
    }
}

} // verus!
