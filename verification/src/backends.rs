//! The pure logic of the four protocol backends: reply parsing, wire framing
//! and the scheduler's per-tick decision. Transport I/O lives outside the
//! library; each reply handler takes the raw reply text and replaces the
//! registry atomically on success, leaving it untouched on failure.

use vstd::prelude::*;
use crate::json::{
    JsonValue, lookup_str, lookup_int, lookup_bool, json_of, parse_json, get_field,
};
use crate::registry::{
    WindowInfo, WinView, views_of, lemma_views_of_push, WindowTracker, snapshot_replaced,
    DesktopEnvironment, counts_view_of, last_count, counts_replaced,
};
use crate::text::{dec_str_nat, dec_str_i64, u64_to_string, i64_to_string, str_eq};

verus! {

/// Why a poll produced no data. Either way the registry keeps its last good
/// snapshot; an unsupported session is not an error at all.
#[derive(Clone, Copy, PartialEq, Eq, Structural, Debug)]
pub enum PollError {
    /// The transport could not be opened or the peer is unreachable.
    ConnectionFailure,
    /// A reply arrived but was malformed: bad JSON, a short read, a missing
    /// or ill-typed required field.
    ProtocolFailure,
}

/// One Hyprland client object's record: the object must carry address, title
/// and class strings; the class is the application identifier.
pub open spec fn hypr_client_view(v: JsonValue) -> Option<WinView> {
    match v {
        JsonValue::Obj(fields) => match (
            lookup_str(fields@, "address"@),
            lookup_str(fields@, "title"@),
            lookup_str(fields@, "class"@),
        ) {
            (Some(a), Some(t), Some(c)) => Some(
                WinView { id: a, title: t, app_id: c, is_active: false },
            ),
            _ => None,
        },
        _ => None,
    }
}

/// The records of a Hyprland client array, one per element, in order; `None`
/// as soon as any element is not a well-formed client object.
pub open spec fn hypr_client_list(items: Seq<JsonValue>) -> Option<Seq<WinView>>
    decreases items.len(),
{
    if items.len() == 0 {
        Some(Seq::empty())
    } else {
        match (hypr_client_list(items.drop_last()), hypr_client_view(items.last())) {
            (Some(rest), Some(w)) => Some(rest.push(w)),
            _ => None,
        }
    }
}

/// The records of a whole Hyprland `j/clients` reply document.
pub open spec fn hypr_windows(v: JsonValue) -> Option<Seq<WinView>> {
    match v {
        JsonValue::Arr(items) => hypr_client_list(items@),
        _ => None,
    }
}

/// What a full Hyprland reply text yields: parsed as one JSON document, then
/// read as a client array.
pub open spec fn hypr_parse(reply: Seq<char>) -> Option<Seq<WinView>> {
    match json_of(reply) {
        Some(v) => hypr_windows(v),
        None => None,
    }
}

/// A list with one ill-formed element has no record list.
proof fn lemma_hypr_client_list_fails(items: Seq<JsonValue>, i: int)
    requires
        0 <= i < items.len(),
        hypr_client_view(items[i]) == None::<WinView>,
    ensures
        hypr_client_list(items) == None::<Seq<WinView>>,
    decreases items.len(),
{
    if i < items.len() - 1 {
        lemma_hypr_client_list_fails(items.drop_last(), i);
        assert(items.drop_last()[i] == items[i]);
    }
}

/// One client element, converted to a record.
fn hypr_client(v: &JsonValue) -> (r: Option<WindowInfo>)
    ensures
        match r {
            Some(w) => hypr_client_view(*v) == Some(w@),
            None => hypr_client_view(*v) == None::<WinView>,
        },
{
    match v {
        JsonValue::Obj(fields) => {
            let addr: Option<&String> = match get_field(fields, "address") {
                Some(JsonValue::Str(s)) => Some(s),
                _ => None,
            };
            let title: Option<&String> = match get_field(fields, "title") {
                Some(JsonValue::Str(s)) => Some(s),
                _ => None,
            };
            let class: Option<&String> = match get_field(fields, "class") {
                Some(JsonValue::Str(s)) => Some(s),
                _ => None,
            };
            match (addr, title, class) {
                (Some(a), Some(t), Some(c)) => Some(
                    WindowInfo {
                        id: a.clone(),
                        title: t.clone(),
                        app_id: c.clone(),
                        is_active: false,
                    },
                ),
                _ => None,
            }
        },
        _ => None,
    }
}

/// The records of a Hyprland client array document, or a protocol failure.
pub fn hyprland_windows(v: &JsonValue) -> (r: Result<Vec<WindowInfo>, PollError>)
    ensures
        match r {
            Ok(ws) => hypr_windows(*v) == Some(views_of(ws@)),
            Err(e) => hypr_windows(*v) == None::<Seq<WinView>> && e
                == PollError::ProtocolFailure,
        },
{
    match v {
        JsonValue::Arr(items) => {
            let mut out: Vec<WindowInfo> = Vec::new();
            let n: usize = items.len();
            let mut i: usize = 0;
            proof {
                assert(*v is Arr);
                assert((*v)->Arr_0 == *items);
                assert(views_of(out@) =~= Seq::<WinView>::empty());
                assert(items@.take(0) =~= Seq::<JsonValue>::empty());
            }
            while i < n
                invariant
                    *v is Arr,
                    (*v)->Arr_0 == *items,
                    n == items@.len(),
                    i <= n,
                    hypr_client_list(items@.take(i as int)) == Some(views_of(out@)),
                decreases n - i,
            {
                proof {
                    assert(items@.take(i + 1).drop_last() =~= items@.take(i as int));
                    assert(items@.take(i + 1).last() == items@[i as int]);
                }
                match hypr_client(&items[i]) {
                    Some(w) => {
                        let ghost wv = w@;
                        proof {
                            lemma_views_of_push(out@, w);
                        }
                        out.push(w);
                    },
                    None => {
                        proof {
                            assert(hypr_client_view(items@[i as int]) == None::<WinView>);
                            lemma_hypr_client_list_fails(items@, i as int);
                            assert(hypr_client_list(items@) == None::<Seq<WinView>>);
                            assert(hypr_windows(*v) == None::<Seq<WinView>>);
                        }
                        return Err(PollError::ProtocolFailure);
                    },
                }
                i += 1;
            }
            proof {
                assert(items@.take(n as int) =~= items@);
            }
            Ok(out)
        },
        _ => Err(PollError::ProtocolFailure),
    }
}

/// The path of the Hyprland control socket for a session signature.
pub fn hyprland_socket_path(signature: &str) -> (r: String)
    ensures
        r@ == "/tmp/hypr/"@ + signature@ + "/.socket.sock"@,
{
    let mut s: String = "/tmp/hypr/".to_owned();
    s.append(signature);
    s.append("/.socket.sock");
    s
}

/// The command written to the Hyprland socket: `j` asks for JSON output.
pub fn hyprland_clients_command() -> (r: &'static str)
    ensures
        r@ == "j/clients"@,
{
    "j/clients"
}

/// The six magic bytes opening every i3 IPC frame: the ASCII text "i3-ipc".
pub open spec fn sway_magic() -> Seq<u8> {
    seq![0x69u8, 0x33u8, 0x2du8, 0x69u8, 0x70u8, 0x63u8]
}

/// A 32-bit value as four little-endian bytes. The i3 IPC documentation
/// frames these fields in the host's native order; this library fixes
/// little-endian explicitly, which is identical on every supported target —
/// a big-endian host would need the length and type fields swapped.
pub open spec fn le32_bytes(n: u32) -> Seq<u8> {
    seq![
        (n % 256) as u8,
        ((n / 256) % 256) as u8,
        ((n / 65536) % 256) as u8,
        ((n / 16777216) % 256) as u8,
    ]
}

/// The value of four little-endian bytes.
pub open spec fn le32_value(b: Seq<u8>) -> int
    recommends
        b.len() == 4,
{
    b[0] + 256 * b[1] + 65536 * b[2] + 16777216 * b[3]
}

/// The message type code of an i3 IPC `get_tree` request.
pub const SWAY_GET_TREE: u32 = 4;

/// One i3 IPC request frame: magic, payload length and type as little-endian
/// 32-bit fields, then the payload bytes.
pub fn sway_request(msg_type: u32, payload: &Vec<u8>) -> (r: Vec<u8>)
    requires
        payload@.len() <= u32::MAX,
    ensures
        r@ == sway_magic() + le32_bytes(payload@.len() as u32) + le32_bytes(msg_type)
            + payload@,
{
    let mut out: Vec<u8> = Vec::new();
    out.push(0x69);
    out.push(0x33);
    out.push(0x2d);
    out.push(0x69);
    out.push(0x70);
    out.push(0x63);
    let len: u32 = payload.len() as u32;
    out.push((len % 256) as u8);
    out.push((len / 256 % 256) as u8);
    out.push((len / 65536 % 256) as u8);
    out.push((len / 16777216 % 256) as u8);
    out.push((msg_type % 256) as u8);
    out.push((msg_type / 256 % 256) as u8);
    out.push((msg_type / 65536 % 256) as u8);
    out.push((msg_type / 16777216 % 256) as u8);
    let ghost head = out@;
    proof {
        assert(head =~= sway_magic() + le32_bytes(payload@.len() as u32) + le32_bytes(
            msg_type,
        ));
    }
    let n: usize = payload.len();
    let mut i: usize = 0;
    while i < n
        invariant
            n == payload@.len(),
            i <= n,
            out@ == head + payload@.take(i as int),
        decreases n - i,
    {
        out.push(payload[i]);
        proof {
            assert(out@ =~= head + payload@.take(i + 1));
        }
        i += 1;
    }
    proof {
        assert(payload@.take(n as int) =~= payload@);
    }
    out
}

/// The fixed frame asking the compositor for its window tree.
pub fn sway_get_tree_request() -> (r: Vec<u8>)
    ensures
        r@ == sway_magic() + le32_bytes(0) + le32_bytes(SWAY_GET_TREE as u32),
{
    let payload: Vec<u8> = Vec::new();
    let r = sway_request(SWAY_GET_TREE, &payload);
    proof {
        assert(r@ =~= sway_magic() + le32_bytes(0) + le32_bytes(SWAY_GET_TREE as u32));
    }
    r
}

/// Decode a 14-byte i3 IPC response header into the payload length and the
/// message type; `None` exactly when the buffer is not 14 bytes opening with
/// the magic text.
pub fn parse_sway_header(h: &Vec<u8>) -> (r: Option<(u32, u32)>)
    ensures
        match r {
            Some(p) => h@.len() == 14 && h@.subrange(0, 6) == sway_magic() && p.0 as int
                == le32_value(h@.subrange(6, 10)) && p.1 as int == le32_value(
                h@.subrange(10, 14),
            ),
            None => h@.len() != 14 || h@.subrange(0, 6) != sway_magic(),
        },
{
    if h.len() != 14 {
        return None;
    }
    let magic: [u8; 6] = [0x69, 0x33, 0x2d, 0x69, 0x70, 0x63];
    let mut k: usize = 0;
    while k < 6
        invariant
            h@.len() == 14,
            magic@ == sway_magic(),
            k <= 6,
            forall|j: int| 0 <= j < k ==> h@[j] == sway_magic()[j],
        decreases 6 - k,
    {
        if h[k] != magic[k] {
            proof {
                assert(h@.subrange(0, 6)[k as int] == h@[k as int]);
            }
            return None;
        }
        k += 1;
    }
    proof {
        assert(h@.subrange(0, 6) =~= sway_magic());
    }
    let len: u32 = h[6] as u32 + 256 * (h[7] as u32) + 65536 * (h[8] as u32) + 16777216 * (
    h[9] as u32);
    let ty: u32 = h[10] as u32 + 256 * (h[11] as u32) + 65536 * (h[12] as u32) + 16777216 * (
    h[13] as u32);
    proof {
        assert(h@.subrange(6, 10)[0] == h@[6]);
        assert(h@.subrange(6, 10)[1] == h@[7]);
        assert(h@.subrange(6, 10)[2] == h@[8]);
        assert(h@.subrange(6, 10)[3] == h@[9]);
        assert(h@.subrange(10, 14)[0] == h@[10]);
        assert(h@.subrange(10, 14)[1] == h@[11]);
        assert(h@.subrange(10, 14)[2] == h@[12]);
        assert(h@.subrange(10, 14)[3] == h@[13]);
    }
    Some((len, ty))
}

/// Whether a tree node is a window: its type tag is "con" and it carries a
/// non-empty application identifier.
pub open spec fn sway_is_window(fields: Seq<(String, JsonValue)>) -> bool {
    lookup_str(fields, "type"@) == Some("con"@) && match lookup_str(fields, "app_id"@) {
        Some(a) => a.len() > 0,
        None => false,
    }
}

/// The record of a window node: the numeric id as its decimal text, the name
/// as title (empty when absent), and the focused flag. A field of the wrong
/// type counts as absent.
pub open spec fn sway_node_view(fields: Seq<(String, JsonValue)>) -> WinView {
    WinView {
        id: dec_str_i64(
            match lookup_int(fields, "id"@) {
                Some(n) => n,
                None => 0,
            },
        ),
        title: match lookup_str(fields, "name"@) {
            Some(t) => t,
            None => Seq::empty(),
        },
        app_id: match lookup_str(fields, "app_id"@) {
            Some(a) => a,
            None => Seq::empty(),
        },
        is_active: lookup_bool(fields, "focused"@) == Some(true),
    }
}

/// All window records in a Sway tree node: the node's own record when it is
/// a window, then every window under its `nodes` lists, then every window
/// under its `floating_nodes` lists. Non-object nodes hold no windows.
pub open spec fn sway_windows(v: JsonValue) -> Seq<WinView>
    decreases v,
{
    match v {
        JsonValue::Obj(fields) => (if sway_is_window(fields@) {
            seq![sway_node_view(fields@)]
        } else {
            Seq::empty()
        }) + sway_keyed(fields@, "nodes"@) + sway_keyed(fields@, "floating_nodes"@),
        _ => Seq::empty(),
    }
}

/// The windows under every field named `key`, in field order.
pub open spec fn sway_keyed(fields: Seq<(String, JsonValue)>, key: Seq<char>) -> Seq<WinView>
    decreases fields,
{
    if fields.len() == 0 {
        Seq::empty()
    } else {
        sway_keyed(fields.drop_last(), key) + (if fields.last().0@ == key {
            sway_arr(fields.last().1)
        } else {
            Seq::empty()
        })
    }
}

/// The windows of a child-list value; anything but an array holds none.
pub open spec fn sway_arr(v: JsonValue) -> Seq<WinView>
    decreases v,
{
    match v {
        JsonValue::Arr(items) => sway_list(items@),
        _ => Seq::empty(),
    }
}

/// The windows of a list of child nodes, in list order.
pub open spec fn sway_list(items: Seq<JsonValue>) -> Seq<WinView>
    decreases items,
{
    if items.len() == 0 {
        Seq::empty()
    } else {
        sway_list(items.drop_last()) + sway_windows(items.last())
    }
}

/// What a full Sway `get_tree` payload text yields.
pub open spec fn sway_parse(payload: Seq<char>) -> Option<Seq<WinView>> {
    match json_of(payload) {
        Some(v) => Some(sway_windows(v)),
        None => None,
    }
}

/// All window records of a parsed tree document, in traversal order.
pub fn sway_tree_windows(v: &JsonValue) -> (r: Vec<WindowInfo>)
    ensures
        views_of(r@) == sway_windows(*v),
{
    let mut out: Vec<WindowInfo> = Vec::new();
    collect_sway(v, &mut out);
    proof {
        assert(Seq::<WinView>::empty() + sway_windows(*v) =~= sway_windows(*v));
        assert(views_of(Seq::<WindowInfo>::empty()) =~= Seq::<WinView>::empty());
    }
    out
}

/// Walk one node, appending its windows to `out` in traversal order.
fn collect_sway(v: &JsonValue, out: &mut Vec<WindowInfo>)
    ensures
        views_of(final(out)@) == views_of(old(out)@) + sway_windows(*v),
    decreases *v,
{
    match v {
        JsonValue::Obj(fields) => {
            proof {
                assert(*v is Obj);
                assert((*v)->Obj_0 == *fields);
            }
            let ghost base = views_of(out@);
            let type_ok: bool = match get_field(fields, "type") {
                Some(JsonValue::Str(s)) => str_eq(s.as_str(), "con"),
                _ => false,
            };
            let app: Option<String> = match get_field(fields, "app_id") {
                Some(JsonValue::Str(s)) => {
                    if s.unicode_len() > 0 {
                        Some(s.clone())
                    } else {
                        None
                    }
                },
                _ => None,
            };
            match app {
                Some(a) if type_ok => {
                    proof {
                        assert(sway_is_window(fields@));
                    }
                    let id_num: i64 = match get_field(fields, "id") {
                        Some(JsonValue::Int(n)) => *n,
                        _ => 0,
                    };
                    let title: String = match get_field(fields, "name") {
                        Some(JsonValue::Str(t)) => t.clone(),
                        _ => String::new(),
                    };
                    let focused: bool = match get_field(fields, "focused") {
                        Some(JsonValue::Bool(b)) => *b,
                        _ => false,
                    };
                    let w = WindowInfo {
                        id: i64_to_string(id_num),
                        title,
                        app_id: a,
                        is_active: focused,
                    };
                    proof {
                        assert(w@ == sway_node_view(fields@));
                        lemma_views_of_push(out@, w);
                    }
                    out.push(w);
                    proof {
                        assert(views_of(out@) =~= base + seq![sway_node_view(fields@)]);
                    }
                },
                _ => {
                    proof {
                        assert(!sway_is_window(fields@));
                        assert(views_of(out@) =~= base + Seq::<WinView>::empty());
                    }
                },
            }
            let ghost with_self = views_of(out@);
            collect_keyed(fields, "nodes", out);
            let ghost with_nodes = views_of(out@);
            collect_keyed(fields, "floating_nodes", out);
            proof {
                assert(with_nodes == with_self + sway_keyed(fields@, "nodes"@));
                assert(views_of(out@) == with_nodes + sway_keyed(fields@, "floating_nodes"@));
                assert(views_of(out@) =~= base + ((if sway_is_window(fields@) {
                    seq![sway_node_view(fields@)]
                } else {
                    Seq::<WinView>::empty()
                }) + sway_keyed(fields@, "nodes"@) + sway_keyed(fields@, "floating_nodes"@)));
            }
        },
        _ => {
            proof {
                assert(sway_windows(*v) =~= Seq::<WinView>::empty());
                assert(views_of(out@) =~= views_of(out@) + sway_windows(*v));
            }
        },
    }
}

/// Walk the child lists stored under every field named `key`.
fn collect_keyed(fields: &Vec<(String, JsonValue)>, key: &str, out: &mut Vec<WindowInfo>)
    ensures
        views_of(final(out)@) == views_of(old(out)@) + sway_keyed(fields@, key@),
    decreases fields@,
{
    let ghost base = views_of(old(out)@);
    let n: usize = fields.len();
    let mut i: usize = 0;
    proof {
        assert(fields@.take(0) =~= Seq::<(String, JsonValue)>::empty());
        assert(views_of(out@) =~= base + sway_keyed(fields@.take(0), key@));
    }
    while i < n
        invariant
            n == fields@.len(),
            i <= n,
            views_of(out@) == base + sway_keyed(fields@.take(i as int), key@),
        decreases n - i,
    {
        proof {
            assert(fields@.take(i + 1).drop_last() =~= fields@.take(i as int));
            assert(fields@.take(i + 1).last() == fields@[i as int]);
        }
        if str_eq(fields[i].0.as_str(), key) {
            match &fields[i].1 {
                JsonValue::Arr(items) => {
                    proof {
                        assert(fields@[i as int].1 is Arr);
                        assert(fields@[i as int].1->Arr_0 == *items);
                    }
                    let ghost before = views_of(out@);
                    let m: usize = items.len();
                    let mut j: usize = 0;
                    proof {
                        assert(items@.take(0) =~= Seq::<JsonValue>::empty());
                        assert(views_of(out@) =~= before + sway_list(items@.take(0)));
                    }
                    while j < m
                        invariant
                            n == fields@.len(),
                            i < n,
                            fields@[i as int].1 is Arr,
                            fields@[i as int].1->Arr_0 == *items,
                            m == items@.len(),
                            j <= m,
                            views_of(out@) == before + sway_list(items@.take(j as int)),
                        decreases m - j,
                    {
                        proof {
                            assert(items@.take(j + 1).drop_last() =~= items@.take(j as int));
                            assert(items@.take(j + 1).last() == items@[j as int]);
                        }
                        let ghost mid = views_of(out@);
                        proof {
                            assert(decreases_to!(fields@ => fields@[i as int]));
                            assert(decreases_to!(fields@[i as int] => fields@[i as int].1));
                            assert(decreases_to!(
                                fields@[i as int].1 => fields@[i as int].1->Arr_0));
                            assert(decreases_to!(fields@[i as int].1->Arr_0 => items@));
                            assert(decreases_to!(items@ => items@[j as int]));
                            assert(decreases_to!(fields@ => items@[j as int]));
                        }
                        collect_sway(&items[j], out);
                        proof {
                            assert(views_of(out@) == mid + sway_windows(items@[j as int]));
                            assert(views_of(out@) =~= before + sway_list(items@.take(j + 1)));
                        }
                        j += 1;
                    }
                    proof {
                        assert(items@.take(m as int) =~= items@);
                        assert(sway_arr(fields@[i as int].1) == sway_list(items@));
                        assert(views_of(out@) =~= base + sway_keyed(fields@.take(i + 1), key@));
                    }
                },
                _ => {
                    proof {
                        assert(sway_arr(fields@[i as int].1) =~= Seq::<WinView>::empty());
                        assert(views_of(out@) =~= base + sway_keyed(fields@.take(i + 1), key@));
                    }
                },
            }
        } else {
            proof {
                assert(fields@[i as int].0@ != key@);
                assert(views_of(out@) =~= base + sway_keyed(fields@.take(i + 1), key@));
            }
        }
        i += 1;
    }
    proof {
        assert(fields@.take(n as int) =~= fields@);
    }
}

/// One GNOME shell-introspection window entry, as plain values: the numeric
/// window id and the properties the registry reads. The conversion from the
/// introspection property bag happens outside the library; a property that
/// fails to convert arrives as `None`.
pub struct GnomeWindowEntry {
    pub id: u64,
    pub app_id: Option<String>,
    pub title: Option<String>,
    pub focused: bool,
}

/// The records of a list of GNOME window entries, in order: one per entry
/// that carries an application identifier; an entry without one is dropped,
/// never counted under a placeholder.
pub open spec fn gnome_entry_views(es: Seq<GnomeWindowEntry>) -> Seq<WinView>
    decreases es.len(),
{
    if es.len() == 0 {
        Seq::empty()
    } else {
        gnome_entry_views(es.drop_last()) + (match es.last().app_id {
            Some(a) => seq![
                WinView {
                    id: dec_str_nat(es.last().id as nat),
                    title: match es.last().title {
                        Some(t) => t@,
                        None => Seq::empty(),
                    },
                    app_id: a@,
                    is_active: es.last().focused,
                },
            ],
            None => Seq::empty(),
        })
    }
}

/// The per-application counts a KDE counting reply holds: one entry per
/// object field, in field order; `None` as soon as a value is not an integer
/// count that fits.
pub open spec fn kde_count_list(fields: Seq<(String, JsonValue)>) -> Option<
    Seq<(Seq<char>, u32)>,
>
    decreases fields.len(),
{
    if fields.len() == 0 {
        Some(Seq::empty())
    } else {
        match (kde_count_list(fields.drop_last()), fields.last().1) {
            (Some(rest), JsonValue::Int(n)) => if 0 <= n <= u32::MAX {
                Some(rest.push((fields.last().0@, n as u32)))
            } else {
                None
            },
            _ => None,
        }
    }
}

/// What a full KDE counting reply text yields: one JSON object mapping each
/// window class to its count.
pub open spec fn kde_parse(reply: Seq<char>) -> Option<Seq<(Seq<char>, u32)>> {
    match json_of(reply) {
        Some(JsonValue::Obj(fields)) => kde_count_list(fields@),
        _ => None,
    }
}

/// A field list with one non-count value yields no count list.
proof fn lemma_kde_count_list_fails(fields: Seq<(String, JsonValue)>, i: int)
    requires
        0 <= i < fields.len(),
        match fields[i].1 {
            JsonValue::Int(n) => !(0 <= n <= u32::MAX),
            _ => true,
        },
    ensures
        kde_count_list(fields) == None::<Seq<(Seq<char>, u32)>>,
    decreases fields.len(),
{
    if i < fields.len() - 1 {
        lemma_kde_count_list_fails(fields.drop_last(), i);
        assert(fields.drop_last()[i] == fields[i]);
    }
}

/// What the scheduler's tick asks the transport to do: one query against the
/// chosen backend's service.
#[derive(Clone, Copy, PartialEq, Eq, Structural, Debug)]
pub enum PollCommand {
    /// Ask the KDE window-manager service for window info, falling back to
    /// the counting script.
    QueryKde,
    /// Ask the GNOME shell-introspection service for the window list.
    QueryGnome,
    /// Write the clients command to the Hyprland socket and read the reply.
    QueryHyprland,
    /// Send a `get_tree` frame to the Sway socket and read the framed reply.
    QuerySway,
}

/// The query a scheduler tick performs: none when stopped, and none — ever —
/// in an unknown environment.
pub open spec fn spec_tick_command(running: bool, desktop: DesktopEnvironment) -> Option<
    PollCommand,
> {
    if !running {
        None
    } else {
        match desktop {
            DesktopEnvironment::KDE => Some(PollCommand::QueryKde),
            DesktopEnvironment::GNOME => Some(PollCommand::QueryGnome),
            DesktopEnvironment::Hyprland => Some(PollCommand::QueryHyprland),
            DesktopEnvironment::Sway => Some(PollCommand::QuerySway),
            DesktopEnvironment::Unknown => None,
        }
    }
}

impl WindowTracker {
    /// What this tick should do: poll the chosen backend while running, and
    /// nothing when stopped or when the session kind is unknown — the
    /// scheduler then idles without ever touching the registry.
    pub fn tick_command(&self) -> (r: Option<PollCommand>)
        ensures
            r == spec_tick_command(self.spec_running(), self.spec_desktop()),
    {
        if !self.is_running() {
            return None;
        }
        match self.get_desktop_environment() {
            DesktopEnvironment::KDE => Some(PollCommand::QueryKde),
            DesktopEnvironment::GNOME => Some(PollCommand::QueryGnome),
            DesktopEnvironment::Hyprland => Some(PollCommand::QueryHyprland),
            DesktopEnvironment::Sway => Some(PollCommand::QuerySway),
            DesktopEnvironment::Unknown => None,
        }
    }

    /// A whole Sway poll payload: parse the JSON tree, collect its windows
    /// and replace the registry; on malformed JSON the registry is left
    /// untouched. (Counts are u32, so a tree with more windows than fit is
    /// refused.)
    pub fn handle_sway_payload(&mut self, payload: &str) -> (r: Result<(), PollError>)
        ensures
            match sway_parse(payload@) {
                Some(ws) => if ws.len() <= u32::MAX {
                    r == Ok::<(), PollError>(()) && snapshot_replaced(
                        *old(self),
                        *final(self),
                        ws,
                    )
                } else {
                    r == Err::<(), PollError>(PollError::ProtocolFailure) && *final(self)
                        == *old(self)
                },
                None => r == Err::<(), PollError>(PollError::ProtocolFailure) && *final(self)
                    == *old(self),
            },
    {
        match parse_json(payload) {
            None => Err(PollError::ProtocolFailure),
            Some(v) => {
                let ws = sway_tree_windows(&v);
                if ws.len() <= u32::MAX as usize {
                    self.apply_poll_success(ws);
                    Ok(())
                } else {
                    Err(PollError::ProtocolFailure)
                }
            },
        }
    }

    /// A GNOME window list, already converted to plain entries: build one
    /// record per entry that carries an application identifier and replace
    /// the registry. (Counts are u32, so an impossible oversize list is
    /// refused and the registry kept.)
    pub fn handle_gnome_windows(&mut self, entries: Vec<GnomeWindowEntry>) -> (r: Result<
        (),
        PollError,
    >)
        ensures
            gnome_entry_views(entries@).len() <= u32::MAX ==> r == Ok::<(), PollError>(())
                && snapshot_replaced(*old(self), *final(self), gnome_entry_views(entries@)),
            gnome_entry_views(entries@).len() > u32::MAX ==> r == Err::<(), PollError>(
                PollError::ProtocolFailure,
            ) && *final(self) == *old(self),
    {
        let mut out: Vec<WindowInfo> = Vec::new();
        let n: usize = entries.len();
        let mut i: usize = 0;
        proof {
            assert(entries@.take(0) =~= Seq::<GnomeWindowEntry>::empty());
            assert(views_of(out@) =~= gnome_entry_views(entries@.take(0)));
        }
        while i < n
            invariant
                n == entries@.len(),
                i <= n,
                views_of(out@) == gnome_entry_views(entries@.take(i as int)),
            decreases n - i,
        {
            proof {
                assert(entries@.take(i + 1).drop_last() =~= entries@.take(i as int));
                assert(entries@.take(i + 1).last() == entries@[i as int]);
            }
            match &entries[i].app_id {
                Some(a) => {
                    let title: String = match &entries[i].title {
                        Some(t) => t.clone(),
                        None => String::new(),
                    };
                    let w = WindowInfo {
                        id: u64_to_string(entries[i].id),
                        title,
                        app_id: a.clone(),
                        is_active: entries[i].focused,
                    };
                    proof {
                        lemma_views_of_push(out@, w);
                    }
                    out.push(w);
                    proof {
                        assert(views_of(out@) =~= gnome_entry_views(entries@.take(i + 1)));
                    }
                },
                None => {
                    proof {
                        assert(views_of(out@) =~= gnome_entry_views(entries@.take(i + 1)));
                    }
                },
            }
            i += 1;
        }
        proof {
            assert(entries@.take(n as int) =~= entries@);
        }
        if out.len() <= u32::MAX as usize {
            self.apply_poll_success(out);
            Ok(())
        } else {
            Err(PollError::ProtocolFailure)
        }
    }

    /// A whole KDE counting reply: one JSON object mapping each window class
    /// to its window count. On success the count table is replaced by those
    /// counts, applied in field order; the record set — which this path
    /// cannot supply — and the rest of the state stay as they are. On any
    /// malformation nothing changes.
    pub fn handle_kde_reply(&mut self, reply: &str) -> (r: Result<(), PollError>)
        ensures
            match kde_parse(reply@) {
                Some(es) => r == Ok::<(), PollError>(()) && counts_replaced(
                    *old(self),
                    *final(self),
                    es,
                ),
                None => r == Err::<(), PollError>(PollError::ProtocolFailure) && *final(self)
                    == *old(self),
            },
    {
        let parsed = parse_json(reply);
        let ghost gp = parsed;
        match parsed {
            Some(v) => {
                let ghost gv = v;
                match v {
                    JsonValue::Obj(fields) => {
                        proof {
                            assert(gv is Obj);
                            assert(gv->Obj_0 == fields);
                        }
                        let mut entries: Vec<(String, u32)> = Vec::new();
                        let n: usize = fields.len();
                        let mut i: usize = 0;
                        proof {
                            assert(fields@.take(0) =~= Seq::<(String, JsonValue)>::empty());
                            assert(counts_view_of(entries@) =~= Seq::<(Seq<char>, u32)>::empty());
                        }
                        while i < n
                            invariant
                                gv is Obj,
                                gv->Obj_0@ == fields@,
                                json_of(reply@) == Some(gv),
                                n == fields@.len(),
                                i <= n,
                                kde_count_list(fields@.take(i as int)) == Some(
                                    counts_view_of(entries@),
                                ),
                            decreases n - i,
                        {
                            proof {
                                assert(fields@.take(i + 1).drop_last() =~= fields@.take(
                                    i as int,
                                ));
                                assert(fields@.take(i + 1).last() == fields@[i as int]);
                            }
                            let ok: bool = match &fields[i].1 {
                                JsonValue::Int(c) => *c >= 0 && *c <= u32::MAX as i64,
                                _ => false,
                            };
                            if !ok {
                                proof {
                                    lemma_kde_count_list_fails(fields@, i as int);
                                }
                                return Err(PollError::ProtocolFailure);
                            }
                            let c: i64 = match &fields[i].1 {
                                JsonValue::Int(c) => *c,
                                _ => 0,
                            };
                            let ghost prev = counts_view_of(entries@);
                            entries.push((fields[i].0.clone(), c as u32));
                            proof {
                                assert(counts_view_of(entries@) =~= prev.push(
                                    (fields@[i as int].0@, c as u32),
                                ));
                            }
                            i += 1;
                        }
                        proof {
                            assert(fields@.take(n as int) =~= fields@);
                        }
                        self.apply_count_snapshot(&entries);
                        Ok(())
                    },
                    _ => Err(PollError::ProtocolFailure),
                }
            },
            None => Err(PollError::ProtocolFailure),
        }
    }

    /// A whole Hyprland poll reply: parse the JSON client array and replace
    /// the registry; on any malformation the registry is left untouched.
    /// (Counts are u32, so a reply with more windows than fit is refused.)
    pub fn handle_hyprland_reply(&mut self, reply: &str) -> (r: Result<(), PollError>)
        ensures
            match hypr_parse(reply@) {
                Some(ws) => if ws.len() <= u32::MAX {
                    r == Ok::<(), PollError>(()) && snapshot_replaced(
                        *old(self),
                        *final(self),
                        ws,
                    )
                } else {
                    r == Err::<(), PollError>(PollError::ProtocolFailure) && *final(self)
                        == *old(self)
                },
                None => r == Err::<(), PollError>(PollError::ProtocolFailure) && *final(self)
                    == *old(self),
            },
    {
        match parse_json(reply) {
            None => Err(PollError::ProtocolFailure),
            Some(v) => match hyprland_windows(&v) {
                Err(e) => Err(e),
                Ok(ws) => {
                    if ws.len() <= u32::MAX as usize {
                        self.apply_poll_success(ws);
                        Ok(())
                    } else {
                        Err(PollError::ProtocolFailure)
                    }
                },
            },
        }
    }
}

} // verus!
