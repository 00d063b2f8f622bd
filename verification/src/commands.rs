//! The request dispatcher: from decoded frames to commands, and from
//! command outcomes to reply frames.
//!
//! One HTTP exchange is handled in verified steps. [`parse_request`]
//! turns the raw body into a parsed command, or the decision to serve
//! the cover page; the `handle_*` functions turn the command, plus the
//! outcome of whatever network work it needed, into the reply frame and
//! the registry update; [`encode_reply`] wraps the reply back into an
//! obfuscated payload. The network work itself (address parsing, the
//! TCP connect, the session queues) happens outside the library and
//! reports back as plain events.

use vstd::prelude::*;

use crate::b64::{b64_encode_spec, lemma_encode_len, B64_MAX_INPUT};
use crate::blv::{insert_entry, lemma_encode_len_sum, lemma_insert_entry_sum, lemma_sum_split,
    sum_record_len, tlv_decode_spec, tlv_encode_entries, values_fit, BlvMap};
use crate::codec::{deobf_spec, obf_encode_spec, Codec, MessageField};
use crate::errors::{error_message_spec, session_closed_text, NeoError};
use crate::registry::{bytes_eq, Registry};

verus! {

/// The ceiling, in milliseconds, on a TCP connect attempt.
pub const CONNECTION_TIMEOUT_MS: u64 = 3000;

/// The bytes of `"FAIL"`.
pub open spec fn fail_text() -> Seq<u8> {
    seq![70u8, 65u8, 73u8, 76u8]
}

/// Builds the bytes of `"FAIL"`.
pub fn fail_vec() -> (r: Vec<u8>)
    ensures
        r@ == fail_text(),
{
    let mut v: Vec<u8> = Vec::new();
    v.push(70);
    v.push(65);
    v.push(73);
    v.push(76);
    proof {
        assert(v@ =~= fail_text());
    }
    v
}

/// The bytes of `"OK"`.
pub open spec fn ok_text() -> Seq<u8> {
    seq![79u8, 75u8]
}

/// Builds the bytes of `"OK"`.
pub fn ok_vec() -> (r: Vec<u8>)
    ensures
        r@ == ok_text(),
{
    let mut v: Vec<u8> = Vec::new();
    v.push(79);
    v.push(75);
    proof {
        assert(v@ =~= ok_text());
    }
    v
}

/// The bytes of `"Session not found"`.
pub open spec fn session_not_found_text() -> Seq<u8> {
    seq![83u8, 101u8, 115u8, 115u8, 105u8, 111u8, 110u8, 32u8, 110u8, 111u8, 116u8, 32u8, 102u8, 111u8, 117u8, 110u8, 100u8]
}

/// Builds the bytes of `"Session not found"`.
pub fn session_not_found_vec() -> (r: Vec<u8>)
    ensures
        r@ == session_not_found_text(),
{
    let mut v: Vec<u8> = Vec::new();
    v.push(83);
    v.push(101);
    v.push(115);
    v.push(115);
    v.push(105);
    v.push(111);
    v.push(110);
    v.push(32);
    v.push(110);
    v.push(111);
    v.push(116);
    v.push(32);
    v.push(102);
    v.push(111);
    v.push(117);
    v.push(110);
    v.push(100);
    proof {
        assert(v@ =~= session_not_found_text());
    }
    v
}

/// The bytes of `"No data provided"`.
pub open spec fn no_data_text() -> Seq<u8> {
    seq![78u8, 111u8, 32u8, 100u8, 97u8, 116u8, 97u8, 32u8, 112u8, 114u8, 111u8, 118u8, 105u8, 100u8, 101u8, 100u8]
}

/// Builds the bytes of `"No data provided"`.
pub fn no_data_vec() -> (r: Vec<u8>)
    ensures
        r@ == no_data_text(),
{
    let mut v: Vec<u8> = Vec::new();
    v.push(78);
    v.push(111);
    v.push(32);
    v.push(100);
    v.push(97);
    v.push(116);
    v.push(97);
    v.push(32);
    v.push(112);
    v.push(114);
    v.push(111);
    v.push(118);
    v.push(105);
    v.push(100);
    v.push(101);
    v.push(100);
    proof {
        assert(v@ =~= no_data_text());
    }
    v
}

/// The bytes of `"Invalid address: "`.
pub open spec fn invalid_address_prefix() -> Seq<u8> {
    seq![73u8, 110u8, 118u8, 97u8, 108u8, 105u8, 100u8, 32u8, 97u8, 100u8, 100u8, 114u8, 101u8, 115u8, 115u8, 58u8, 32u8]
}

/// Builds the bytes of `"Invalid address: "`.
pub fn invalid_address_prefix_vec() -> (r: Vec<u8>)
    ensures
        r@ == invalid_address_prefix(),
{
    let mut v: Vec<u8> = Vec::new();
    v.push(73);
    v.push(110);
    v.push(118);
    v.push(97);
    v.push(108);
    v.push(105);
    v.push(100);
    v.push(32);
    v.push(97);
    v.push(100);
    v.push(100);
    v.push(114);
    v.push(101);
    v.push(115);
    v.push(115);
    v.push(58);
    v.push(32);
    proof {
        assert(v@ =~= invalid_address_prefix());
    }
    v
}

/// The bytes of `"CONNECT"`.
pub open spec fn connect_text() -> Seq<u8> {
    seq![67u8, 79u8, 78u8, 78u8, 69u8, 67u8, 84u8]
}

/// Builds the bytes of `"CONNECT"`.
pub fn connect_vec() -> (r: Vec<u8>)
    ensures
        r@ == connect_text(),
{
    let mut v: Vec<u8> = Vec::new();
    v.push(67);
    v.push(79);
    v.push(78);
    v.push(78);
    v.push(69);
    v.push(67);
    v.push(84);
    proof {
        assert(v@ =~= connect_text());
    }
    v
}

/// The bytes of `"FORWARD"`.
pub open spec fn forward_text() -> Seq<u8> {
    seq![70u8, 79u8, 82u8, 87u8, 65u8, 82u8, 68u8]
}

/// Builds the bytes of `"FORWARD"`.
pub fn forward_vec() -> (r: Vec<u8>)
    ensures
        r@ == forward_text(),
{
    let mut v: Vec<u8> = Vec::new();
    v.push(70);
    v.push(79);
    v.push(82);
    v.push(87);
    v.push(65);
    v.push(82);
    v.push(68);
    proof {
        assert(v@ =~= forward_text());
    }
    v
}

/// The bytes of `"READ"`.
pub open spec fn read_text() -> Seq<u8> {
    seq![82u8, 69u8, 65u8, 68u8]
}

/// Builds the bytes of `"READ"`.
pub fn read_vec() -> (r: Vec<u8>)
    ensures
        r@ == read_text(),
{
    let mut v: Vec<u8> = Vec::new();
    v.push(82);
    v.push(69);
    v.push(65);
    v.push(68);
    proof {
        assert(v@ =~= read_text());
    }
    v
}

/// The bytes of `"DISCONNECT"`.
pub open spec fn disconnect_text() -> Seq<u8> {
    seq![68u8, 73u8, 83u8, 67u8, 79u8, 78u8, 78u8, 69u8, 67u8, 84u8]
}

/// Builds the bytes of `"DISCONNECT"`.
pub fn disconnect_vec() -> (r: Vec<u8>)
    ensures
        r@ == disconnect_text(),
{
    let mut v: Vec<u8> = Vec::new();
    v.push(68);
    v.push(73);
    v.push(83);
    v.push(67);
    v.push(79);
    v.push(78);
    v.push(78);
    v.push(69);
    v.push(67);
    v.push(84);
    proof {
        assert(v@ =~= disconnect_text());
    }
    v
}

/// The bytes of the fixed 96-byte obfuscated cover blob.
pub open spec fn neo_hello_text() -> Seq<u8> {
    seq![54u8, 85u8, 78u8, 73u8, 47u8, 106u8, 104u8, 76u8, 82u8, 55u8, 88u8, 55u8, 102u8, 113u8, 80u8, 109u8, 89u8, 43u8, 109u8, 48u8, 66u8, 111u8, 102u8, 79u8, 77u8, 78u8, 88u8, 78u8, 98u8, 86u8, 86u8, 50u8, 88u8, 78u8, 98u8, 105u8, 69u8, 86u8, 69u8, 79u8, 68u8, 82u8, 120u8, 85u8, 98u8, 115u8, 104u8, 72u8, 87u8, 75u8, 88u8, 67u8, 47u8, 109u8, 81u8, 87u8, 120u8, 48u8, 83u8, 78u8, 89u8, 86u8, 68u8, 70u8, 120u8, 49u8, 98u8, 75u8, 89u8, 48u8, 86u8, 68u8, 106u8, 99u8, 83u8, 51u8, 82u8, 99u8, 83u8, 47u8, 110u8, 71u8, 73u8, 79u8, 122u8, 86u8, 65u8, 48u8, 88u8, 79u8, 100u8, 73u8, 47u8, 99u8, 121u8, 61u8]
}

/// Builds the bytes of the fixed 96-byte obfuscated cover blob.
#[verifier::rlimit(50)]
pub fn neo_hello_vec() -> (r: Vec<u8>)
    ensures
        r@ == neo_hello_text(),
{
    let mut v: Vec<u8> = Vec::new();
    v.push(54);
    v.push(85);
    v.push(78);
    v.push(73);
    v.push(47);
    v.push(106);
    v.push(104);
    v.push(76);
    v.push(82);
    v.push(55);
    v.push(88);
    v.push(55);
    v.push(102);
    v.push(113);
    v.push(80);
    v.push(109);
    v.push(89);
    v.push(43);
    v.push(109);
    v.push(48);
    v.push(66);
    v.push(111);
    v.push(102);
    v.push(79);
    v.push(77);
    v.push(78);
    v.push(88);
    v.push(78);
    v.push(98);
    v.push(86);
    v.push(86);
    v.push(50);
    v.push(88);
    v.push(78);
    v.push(98);
    v.push(105);
    v.push(69);
    v.push(86);
    v.push(69);
    v.push(79);
    v.push(68);
    v.push(82);
    v.push(120);
    v.push(85);
    v.push(98);
    v.push(115);
    v.push(104);
    v.push(72);
    v.push(87);
    v.push(75);
    v.push(88);
    v.push(67);
    v.push(47);
    v.push(109);
    v.push(81);
    v.push(87);
    v.push(120);
    v.push(48);
    v.push(83);
    v.push(78);
    v.push(89);
    v.push(86);
    v.push(68);
    v.push(70);
    v.push(120);
    v.push(49);
    v.push(98);
    v.push(75);
    v.push(89);
    v.push(48);
    v.push(86);
    v.push(68);
    v.push(106);
    v.push(99);
    v.push(83);
    v.push(51);
    v.push(82);
    v.push(99);
    v.push(83);
    v.push(47);
    v.push(110);
    v.push(71);
    v.push(73);
    v.push(79);
    v.push(122);
    v.push(86);
    v.push(65);
    v.push(48);
    v.push(88);
    v.push(79);
    v.push(100);
    v.push(73);
    v.push(47);
    v.push(99);
    v.push(121);
    v.push(61);
    proof {
        assert(v@ =~= neo_hello_text());
    }
    v
}


/// The value bound to a tag in a frame map, or empty bytes when the tag
/// is absent.
pub open spec fn field_bytes(m: Map<i32, Seq<u8>>, t: i32) -> Seq<u8> {
    if m.contains_key(t) {
        m[t]
    } else {
        Seq::empty()
    }
}

/// A fresh vector holding the same bytes.
pub fn copy_bytes(src: &Vec<u8>) -> (r: Vec<u8>)
    ensures
        r@ == src@,
{
    let n = src.len();
    let mut out: Vec<u8> = Vec::new();
    let mut i: usize = 0;
    while i < n
        invariant
            n == src@.len(),
            i <= n,
            out@ == src@.take(i as int),
        decreases n - i,
    {
        out.push(src[i]);
        i = i + 1;
        proof {
            assert(out@ =~= src@.take(i as int));
        }
    }
    proof {
        assert(out@ =~= src@);
    }
    out
}

/// The bytes bound to a tag, or empty bytes when the tag is absent.
pub fn get_field_bytes(info: &BlvMap, tag: i32) -> (r: Vec<u8>)
    requires
        info.wf(),
    ensures
        r@ == field_bytes(info@, tag),
{
    match info.get(&tag) {
        Some(v) => copy_bytes(v),
        None => Vec::new(),
    }
}

/// What a byte string reads as once decoded leniently as UTF-8. Invalid
/// sequences become replacement characters; the result depends on the
/// bytes alone.
pub uninterp spec fn utf8_lossy_of(s: Seq<u8>) -> Seq<char>;

/// Relies on `String::from_utf8_lossy`: the result is a function of the
/// bytes alone, and pure-ASCII bytes come through character for
/// character.
#[verifier::external_body]
fn utf8_lossy(v: &Vec<u8>) -> (r: String)
    ensures
        r@ == utf8_lossy_of(v@),
        (forall|i: int| 0 <= i < v@.len() ==> v@[i] < 128) ==> r@ == Seq::new(
            v@.len(),
            |i: int| v@[i] as char,
        ),
{
    String::from_utf8_lossy(v).into_owned()
}

/// The string under a field's tag, read leniently as UTF-8; empty when
/// the field is absent.
pub fn get_info_string_from_key(info: &BlvMap, field: MessageField) -> (r: String)
    requires
        info.wf(),
    ensures
        r@ == if info@.contains_key(field.tag_spec()) {
            utf8_lossy_of(info@[field.tag_spec()])
        } else {
            Seq::<char>::empty()
        },
{
    match info.get(&field.tag()) {
        Some(v) => utf8_lossy(v),
        None => {
            let empty: Vec<u8> = Vec::new();
            let r = utf8_lossy(&empty);
            proof {
                assert(r@ =~= Seq::<char>::empty());
            }
            r
        },
    }
}

/// Marks a reply failed: Status becomes `FAIL` and Error carries the
/// description.
pub fn set_failure_response(rinfo: &mut BlvMap, error_msg: Vec<u8>)
    requires
        old(rinfo).wf(),
    ensures
        final(rinfo).wf(),
        final(rinfo)@ == old(rinfo)@.insert(4, fail_text()).insert(5, error_msg@),
        final(rinfo).entries_view() == insert_entry(
            insert_entry(old(rinfo).entries_view(), 4, fail_text()),
            5,
            error_msg@,
        ),
{
    rinfo.insert(4, fail_vec());
    rinfo.insert(5, error_msg);
}

/// The command verbs a frame can carry.
#[derive(Debug, Clone, Copy, PartialEq, Eq, Structural)]
pub enum Command {
    /// Open an upstream TCP connection and register it under the mark.
    Connect,
    /// Queue bytes for the marked session's upstream.
    Forward,
    /// Drain whatever the marked session's upstream has produced.
    Read,
    /// Unregister the marked session and close it.
    Disconnect,
    /// Anything else: answered with the cover page.
    Unknown,
}

/// The command a Cmd field's bytes stand for.
pub open spec fn command_of(cmd: Seq<u8>) -> Command {
    if cmd == connect_text() {
        Command::Connect
    } else if cmd == forward_text() {
        Command::Forward
    } else if cmd == read_text() {
        Command::Read
    } else if cmd == disconnect_text() {
        Command::Disconnect
    } else {
        Command::Unknown
    }
}

/// Reads the command verb out of a Cmd field's bytes.
pub fn parse_command(cmd: &Vec<u8>) -> (r: Command)
    ensures
        r == command_of(cmd@),
{
    if bytes_eq(cmd, &connect_vec()) {
        Command::Connect
    } else if bytes_eq(cmd, &forward_vec()) {
        Command::Forward
    } else if bytes_eq(cmd, &read_vec()) {
        Command::Read
    } else if bytes_eq(cmd, &disconnect_vec()) {
        Command::Disconnect
    } else {
        Command::Unknown
    }
}

/// A request body decoded and classified, ready for dispatch.
pub struct ParsedRequest {
    /// The decoded frame.
    pub info: BlvMap,
    /// The command its Cmd field names.
    pub cmd: Command,
    /// Its Mark field's bytes, empty when absent.
    pub mark: Vec<u8>,
}

/// Decodes and classifies one request body. `None` stands for the cover
/// page: an empty body, or one that is not a canonical obfuscated
/// payload. (A nonempty body never decodes to empty bytes, since the
/// substitution keeps length.)
pub fn parse_request(codec: &Codec, body: &[u8]) -> (r: Option<ParsedRequest>)
    requires
        codec.wf(),
    ensures
        match r {
            None => body@.len() == 0 || (forall|x: Seq<u8>| b64_encode_spec(x) != deobf_spec(
                body@,
            )),
            Some(p) => {
                &&& body@.len() > 0
                &&& p.info.wf()
                &&& exists|d: Seq<u8>|
                    #[trigger] b64_encode_spec(d) == deobf_spec(body@) && p.info@
                        == tlv_decode_spec(d)
                &&& p.cmd == command_of(field_bytes(p.info@, 2))
                &&& p.mark@ == field_bytes(p.info@, 3)
            },
        },
{
    if body.len() == 0 {
        return None;
    }
    match codec.base64_decode(body) {
        Ok(out) => {
            if out.len() == 0 {
                // unreachable: the substitution keeps length, so only an
                // empty body decodes to empty bytes
                proof {
                    lemma_encode_len(out@);
                    assert(deobf_spec(body@).len() == body@.len());
                    assert(false);
                }
                return None;
            }
            let info = codec.blv_decode(out.as_slice());
            let cmd_bytes = get_field_bytes(&info, 2);
            let cmd = parse_command(&cmd_bytes);
            let mark = get_field_bytes(&info, 3);
            let p = ParsedRequest { info, cmd, mark };
            proof {
                assert(b64_encode_spec(out@) == deobf_spec(body@) && p.info@ == tlv_decode_spec(
                    out@,
                ));
            }
            Some(p)
        },
        Err(_) => None,
    }
}

/// The cover page: the fixed obfuscated blob, decoded; empty bytes if
/// that blob failed to decode.
pub fn cover_page(codec: &Codec) -> (r: Vec<u8>)
    requires
        codec.wf(),
    ensures
        (exists|d: Seq<u8>| #[trigger] b64_encode_spec(d) == deobf_spec(neo_hello_text()))
            ==> b64_encode_spec(r@) == deobf_spec(neo_hello_text()),
        (forall|d: Seq<u8>| #[trigger] b64_encode_spec(d) != deobf_spec(neo_hello_text()))
            ==> r@.len() == 0,
{
    let hello = neo_hello_vec();
    match codec.base64_decode(hello.as_slice()) {
        Ok(v) => v,
        Err(_) => Vec::new(),
    }
}

/// How the attempt to open the upstream connection went.
pub enum ConnectOutcome {
    /// The target was not a numeric socket address; the bytes carry the
    /// parse error's description.
    BadAddress(Vec<u8>),
    /// The TCP connect (bounded by [`CONNECTION_TIMEOUT_MS`]) failed;
    /// the bytes carry the error's description.
    Failed(Vec<u8>),
    /// The connect succeeded and a session runs under this identifier.
    Established(u64),
}

/// The connect target `<ip>:<port>`, from tags 6 and 7.
pub fn connect_target(info: &BlvMap) -> (r: Vec<u8>)
    requires
        info.wf(),
    ensures
        r@ == field_bytes(info@, 6) + seq![58u8] + field_bytes(info@, 7),
{
    let mut out = get_field_bytes(info, 6);
    let ghost ip = out@;
    out.push(58);
    let port = get_field_bytes(info, 7);
    let n = port.len();
    let mut i: usize = 0;
    while i < n
        invariant
            n == port@.len(),
            i <= n,
            out@ == ip + seq![58u8] + port@.take(i as int),
        decreases n - i,
    {
        out.push(port[i]);
        i = i + 1;
        proof {
            assert(out@ =~= ip + seq![58u8] + port@.take(i as int));
        }
    }
    proof {
        assert(out@ =~= ip + seq![58u8] + port@);
        assert(out@ =~= field_bytes(info@, 6) + seq![58u8] + field_bytes(info@, 7));
    }
    out
}

/// Finishes a CONNECT: a session that came up is registered under the
/// mark (silently displacing any prior one) and the reply says `OK`; a
/// bad address or a failed connect leaves the registry alone and the
/// reply says `FAIL` with the reason.
pub fn handle_connect(
    mark: &Vec<u8>,
    outcome: ConnectOutcome,
    registry: &mut Registry,
    rinfo: &mut BlvMap,
)
    requires
        old(registry).wf(),
        old(rinfo).wf(),
    ensures
        final(registry).wf(),
        final(rinfo).wf(),
        match outcome {
            ConnectOutcome::BadAddress(d) => *final(registry) == *old(registry) && final(rinfo)@
                == old(rinfo)@.insert(4, fail_text()).insert(
                5,
                invalid_address_prefix() + d@,
            ),
            ConnectOutcome::Failed(m) => *final(registry) == *old(registry) && final(rinfo)@
                == old(rinfo)@.insert(4, fail_text()).insert(5, m@),
            ConnectOutcome::Established(sid) => final(registry)@ == old(registry)@.insert(
                mark@,
                sid,
            ) && final(rinfo)@ == old(rinfo)@.insert(4, ok_text()),
        },
{
    match outcome {
        ConnectOutcome::BadAddress(d) => {
            let mut msg = invalid_address_prefix_vec();
            let ghost prefix = msg@;
            let n = d.len();
            let mut i: usize = 0;
            while i < n
                invariant
                    n == d@.len(),
                    i <= n,
                    msg@ == prefix + d@.take(i as int),
                decreases n - i,
            {
                msg.push(d[i]);
                i = i + 1;
                proof {
                    assert(msg@ =~= prefix + d@.take(i as int));
                }
            }
            proof {
                assert(msg@ =~= invalid_address_prefix() + d@);
            }
            set_failure_response(rinfo, msg);
        },
        ConnectOutcome::Failed(m) => {
            set_failure_response(rinfo, m);
        },
        ConnectOutcome::Established(sid) => {
            let mark_key = copy_bytes(mark);
            let _displaced = registry.insert(mark_key, sid);
            rinfo.insert(4, ok_vec());
        },
    }
}

/// Finishes a FORWARD: an unknown mark or a frame without Data fails
/// without touching any session; otherwise the write's own outcome
/// decides between `OK` and `FAIL` with the write error's description.
///
/// `write_result` is the outcome of the one write this command asked
/// for, present exactly when the mark is registered and Data is there.
pub fn handle_forward(
    info: &BlvMap,
    mark: &Vec<u8>,
    registry: &Registry,
    write_result: Option<Result<(), NeoError>>,
    rinfo: &mut BlvMap,
)
    requires
        info.wf(),
        registry.wf(),
        old(rinfo).wf(),
        (write_result is Some) <==> (registry@.contains_key(mark@) && info@.contains_key(1)),
    ensures
        final(rinfo).wf(),
        if !registry@.contains_key(mark@) {
            final(rinfo)@ == old(rinfo)@.insert(4, fail_text()).insert(
                5,
                session_not_found_text(),
            )
        } else if !info@.contains_key(1) {
            final(rinfo)@ == old(rinfo)@.insert(4, fail_text()).insert(5, no_data_text())
        } else {
            match write_result {
                Some(Ok(())) => final(rinfo)@ == old(rinfo)@.insert(4, ok_text()),
                Some(Err(e)) => final(rinfo)@ == old(rinfo)@.insert(4, fail_text()).insert(
                    5,
                    error_message_spec(&e),
                ),
                None => false,
            }
        },
{
    if !registry.contains_key(mark) {
        set_failure_response(rinfo, session_not_found_vec());
    } else if !info.contains_key(&1) {
        set_failure_response(rinfo, no_data_vec());
    } else {
        match write_result {
            Some(Ok(())) => {
                rinfo.insert(4, ok_vec());
            },
            Some(Err(e)) => {
                let msg = e.message();
                set_failure_response(rinfo, msg);
            },
            None => {
                // the caller hands a write outcome exactly when the mark
                // is registered and Data is present, both true here
                proof {
                    assert(false);
                }
            },
        }
    }
}

/// Finishes a READ. An unknown mark fails; a session found closed on
/// entry fails with `"Session is closed"`. Otherwise the reply says
/// `OK`, and carries the read bytes under Data when the read worked —
/// a read that failed leaves Data unset while the status stays `OK`.
///
/// `closed` is the session's closed flag, present exactly when the mark
/// is registered; `read_result` is the outcome of the one read this
/// command asked for, present exactly when the session was found open.
pub fn handle_read(
    mark: &Vec<u8>,
    registry: &Registry,
    closed: Option<bool>,
    read_result: Option<Result<Vec<u8>, NeoError>>,
    rinfo: &mut BlvMap,
)
    requires
        registry.wf(),
        old(rinfo).wf(),
        (closed is Some) <==> registry@.contains_key(mark@),
        (read_result is Some) <==> (closed matches Some(false)),
    ensures
        final(rinfo).wf(),
        if !registry@.contains_key(mark@) {
            final(rinfo)@ == old(rinfo)@.insert(4, fail_text()).insert(
                5,
                session_not_found_text(),
            )
        } else if closed matches Some(true) {
            final(rinfo)@ == old(rinfo)@.insert(4, fail_text()).insert(5, session_closed_text())
        } else {
            match read_result {
                Some(Ok(data)) => final(rinfo)@ == old(rinfo)@.insert(4, ok_text()).insert(
                    1,
                    data@,
                ),
                Some(Err(_)) => final(rinfo)@ == old(rinfo)@.insert(4, ok_text()),
                None => false,
            }
        },
{
    match closed {
        None => {
            set_failure_response(rinfo, session_not_found_vec());
        },
        Some(true) => {
            let mut msg: Vec<u8> = Vec::new();
            msg.push(83);
            msg.push(101);
            msg.push(115);
            msg.push(115);
            msg.push(105);
            msg.push(111);
            msg.push(110);
            msg.push(32);
            msg.push(105);
            msg.push(115);
            msg.push(32);
            msg.push(99);
            msg.push(108);
            msg.push(111);
            msg.push(115);
            msg.push(101);
            msg.push(100);
            proof {
                assert(msg@ =~= session_closed_text());
            }
            set_failure_response(rinfo, msg);
        },
        Some(false) => {
            rinfo.insert(4, ok_vec());
            match read_result {
                Some(Ok(data)) => {
                    rinfo.insert(1, data);
                },
                Some(Err(_)) => {},
                None => {
                    // the caller hands a read outcome exactly when the
                    // session was found open, which it was here
                    proof {
                        assert(false);
                    }
                },
            }
        },
    }
}

/// Finishes a DISCONNECT: the mark is unregistered (silently if it was
/// not there) and the reply says `OK` either way. The session handed
/// back, if any, is for the caller to close.
pub fn handle_disconnect(mark: &Vec<u8>, registry: &mut Registry, rinfo: &mut BlvMap) -> (removed:
    Option<u64>)
    requires
        old(registry).wf(),
        old(rinfo).wf(),
    ensures
        final(registry).wf(),
        final(rinfo).wf(),
        final(registry)@ == old(registry)@.remove(mark@),
        removed == if old(registry)@.contains_key(mark@) {
            Some(old(registry)@[mark@])
        } else {
            None::<u64>
        },
        final(rinfo)@ == old(rinfo)@.insert(4, ok_text()),
{
    let removed = registry.remove(mark);
    rinfo.insert(4, ok_vec());
    removed
}

/// Whether a reply frame is small enough to encode: its records plus
/// the two padding records must stay within what base64 can take.
pub fn reply_fits(rinfo: &BlvMap) -> (r: bool)
    requires
        rinfo.wf(),
    ensures
        r == (sum_record_len(rinfo.entries_view()) + 48 <= B64_MAX_INPUT),
{
    proof {
        rinfo.lemma_view();
    }
    let n = rinfo.len();
    let mut acc: u64 = 0;
    let mut i: usize = 0;
    while i < n
        invariant
            rinfo.wf(),
            n == rinfo.spec_len(),
            n == rinfo.entries_view().len(),
            i <= n,
            acc == sum_record_len(rinfo.entries_view().take(i as int)),
            acc + 48 <= B64_MAX_INPUT,
        decreases n - i,
    {
        proof {
            rinfo.lemma_view();
        }
        let (_, v) = rinfo.entry_at(i);
        let add = v.len();
        proof {
            lemma_sum_split(rinfo.entries_view(), i as int);
            lemma_sum_split(rinfo.entries_view(), i + 1 as int);
            assert(rinfo.entries_view().take(i + 1 as int) =~= rinfo.entries_view().take(
                i as int,
            ).push(rinfo.entries_view()[i as int]));
            lemma_sum_push(rinfo.entries_view().take(i as int), rinfo.entries_view()[i as int]);
        }
        if add > B64_MAX_INPUT {
            proof {
                lemma_sum_nonneg_suffix(rinfo.entries_view(), i + 1 as int);
            }
            return false;
        }
        let step: u64 = 5 + (add as u64);
        if acc + step + 48 > (B64_MAX_INPUT as u64) {
            proof {
                lemma_sum_nonneg_suffix(rinfo.entries_view(), i + 1 as int);
            }
            return false;
        }
        acc = acc + step;
        i = i + 1;
    }
    proof {
        assert(rinfo.entries_view().take(n as int) =~= rinfo.entries_view());
    }
    true
}

/// A suffix of the records never has negative total length, so a large
/// prefix already rules the whole frame out.
proof fn lemma_sum_nonneg_suffix(es: Seq<(i32, Seq<u8>)>, i: int)
    requires
        0 <= i <= es.len(),
    ensures
        sum_record_len(es) >= sum_record_len(es.take(i)),
{
    lemma_sum_split(es, i);
    lemma_encode_len_sum(es.skip(i));
}

/// Appending an entry adds one record's length.
proof fn lemma_sum_push(es: Seq<(i32, Seq<u8>)>, e: (i32, Seq<u8>))
    ensures
        sum_record_len(es.push(e)) == sum_record_len(es) + 5 + e.1.len(),
    decreases es.len(),
{
    if es.len() == 0 {
        assert(es.push(e)[0] == e);
        assert(es.push(e).skip(1) =~= Seq::<(i32, Seq<u8>)>::empty());
        assert(sum_record_len(Seq::<(i32, Seq<u8>)>::empty()) == 0);
        assert(sum_record_len(es.push(e)) == 5 + e.1.len());
    } else {
        assert(es.push(e)[0] == es[0]);
        assert(es.push(e).skip(1) =~= es.skip(1).push(e));
        lemma_sum_push(es.skip(1), e);
    }
}

/// Encodes a finished reply frame into the obfuscated payload that goes
/// back as the response body.
pub fn encode_reply(codec: &Codec, rinfo: &BlvMap) -> (r: Vec<u8>)
    requires
        codec.wf(),
        rinfo.wf(),
        values_fit(rinfo.entries_view()),
        sum_record_len(rinfo.entries_view()) + 48 <= B64_MAX_INPUT,
    ensures
        exists|p0: Seq<u8>, p39: Seq<u8>|
            {
                &&& 5 <= p0.len() < 20
                &&& 5 <= p39.len() < 20
                &&& r@ == obf_encode_spec(
                    tlv_encode_entries(
                        insert_entry(insert_entry(rinfo.entries_view(), 0, p0), 39, p39),
                    ),
                )
            },
{
    let frame = codec.blv_encode(rinfo);
    let ghost (p0, p39) = choose|p0: Seq<u8>, p39: Seq<u8>|
        {
            &&& 5 <= p0.len() < 20
            &&& 5 <= p39.len() < 20
            &&& frame@ == tlv_encode_entries(
                insert_entry(insert_entry(rinfo.entries_view(), 0, p0), 39, p39),
            )
        };
    proof {
        let es0 = rinfo.entries_view();
        let es1 = insert_entry(es0, 0, p0);
        let es2 = insert_entry(es1, 39, p39);
        lemma_insert_entry_sum(es0, 0, p0);
        lemma_insert_entry_sum(es1, 39, p39);
        lemma_encode_len_sum(es2);
        assert(frame@.len() <= B64_MAX_INPUT);
    }
    let r = codec.base64_encode(frame.as_slice());
    proof {
        assert({
            &&& 5 <= p0.len() < 20
            &&& 5 <= p39.len() < 20
            &&& r@ == obf_encode_spec(
                tlv_encode_entries(insert_entry(insert_entry(rinfo.entries_view(), 0, p0), 39, p39)),
            )
        });
    }
    r
}

} // verus!
