use vstd::prelude::*;

use crate::addr::{addr_of, addr_text, parse_addr, PeerAddr};

verus! {

pub const SPACE: u8 = 32;

/// A decoded datagram.
#[derive(Debug)]
pub enum Command {
    /// `new`: the sender asks to be recorded.
    New,
    /// `list`: the sender asks for every known peer, and is recorded.
    List,
    /// `list_response <addr>`: one peer that the sender knows.
    ListResponse(PeerAddr),
    /// `msg <payload>`: a gossip message.
    Msg(Vec<u8>),
    /// `stop`: the sender leaves.
    Stop,
    /// `list_response` with a payload that names no address: dropped, with nothing changed
    /// and nothing sent.
    BadAddress(Vec<u8>),
    /// Any other verb.
    Unknown(Vec<u8>),
}

pub open spec fn word_new() -> Seq<u8> {
    seq![110u8, 101u8, 119u8]
}

pub open spec fn word_list() -> Seq<u8> {
    seq![108u8, 105u8, 115u8, 116u8]
}

pub open spec fn word_stop() -> Seq<u8> {
    seq![115u8, 116u8, 111u8, 112u8]
}

pub open spec fn word_msg() -> Seq<u8> {
    seq![109u8, 115u8, 103u8]
}

pub open spec fn word_list_response() -> Seq<u8> {
    seq![
        108u8, 105u8, 115u8, 116u8, 95u8, 114u8, 101u8, 115u8, 112u8, 111u8, 110u8, 115u8, 101u8,
    ]
}

/// `k` is the position of the first space in `s`.
pub open spec fn space_at(s: Seq<u8>, k: int) -> bool {
    &&& 0 <= k < s.len()
    &&& s[k] == SPACE
    &&& forall|j: int| 0 <= j < k ==> s[j] != SPACE
}

/// The command that a datagram `s` decodes to is `c`: the text before the first space
/// is the verb and the rest the payload; with no space the whole text is the verb.
pub open spec fn decodes_to(s: Seq<u8>, c: Command) -> bool {
    if exists|k: int| space_at(s, k) {
        let k = choose|k: int| space_at(s, k);
        let verb = s.subrange(0, k);
        let payload = s.subrange(k + 1, s.len() as int);
        if verb == word_msg() {
            c matches Command::Msg(p) && p@ == payload
        } else if verb == word_list_response() {
            match addr_of(payload) {
                Some(a) => c matches Command::ListResponse(x) && x == a,
                None => c matches Command::BadAddress(p) && p@ == payload,
            }
        } else {
            c matches Command::Unknown(v) && v@ == verb
        }
    } else if s == word_new() {
        c matches Command::New
    } else if s == word_list() {
        c matches Command::List
    } else if s == word_stop() {
        c matches Command::Stop
    } else {
        c matches Command::Unknown(v) && v@ == s
    }
}

/// The text that a command is sent as.
pub open spec fn command_text(c: Command) -> Seq<u8> {
    match c {
        Command::New => word_new(),
        Command::List => word_list(),
        Command::Stop => word_stop(),
        Command::ListResponse(a) => word_list_response() + seq![SPACE] + addr_text(a),
        Command::Msg(p) => word_msg() + seq![SPACE] + p@,
        Command::BadAddress(p) => word_list_response() + seq![SPACE] + p@,
        Command::Unknown(v) => v@,
    }
}

/// The commands that a node sends on its own: all but the two that only decoding yields.
pub open spec fn is_wire_command(c: Command) -> bool {
    !(c is BadAddress) && !(c is Unknown)
}

fn text_new() -> (r: Vec<u8>)
    ensures
        r@ == word_new(),
{
    let r: Vec<u8> = vec![110, 101, 119];
    assert(r@ =~= word_new());
    r
}

fn text_list() -> (r: Vec<u8>)
    ensures
        r@ == word_list(),
{
    let r: Vec<u8> = vec![108, 105, 115, 116];
    assert(r@ =~= word_list());
    r
}

fn text_stop() -> (r: Vec<u8>)
    ensures
        r@ == word_stop(),
{
    let r: Vec<u8> = vec![115, 116, 111, 112];
    assert(r@ =~= word_stop());
    r
}

fn text_msg() -> (r: Vec<u8>)
    ensures
        r@ == word_msg(),
{
    let r: Vec<u8> = vec![109, 115, 103];
    assert(r@ =~= word_msg());
    r
}

fn text_list_response() -> (r: Vec<u8>)
    ensures
        r@ == word_list_response(),
{
    let r: Vec<u8> = vec![108, 105, 115, 116, 95, 114, 101, 115, 112, 111, 110, 115, 101];
    assert(r@ =~= word_list_response());
    r
}

/// Whether `s[lo..hi]` is the text `w`.
fn segment_is(s: &[u8], lo: usize, hi: usize, w: &Vec<u8>) -> (r: bool)
    requires
        lo <= hi <= s@.len(),
    ensures
        r == (s@.subrange(lo as int, hi as int) == w@),
{
    if hi - lo != w.len() {
        return false;
    }
    let mut i: usize = 0;
    while i < w.len()
        invariant
            lo <= hi <= s@.len(),
            hi - lo == w@.len(),
            0 <= i <= w@.len(),
            forall|j: int| 0 <= j < i ==> s@[lo + j] == w@[j],
        decreases w@.len() - i,
    {
        if s[lo + i] != w[i] {
            return false;
        }
        i = i + 1;
    }
    assert(s@.subrange(lo as int, hi as int) =~= w@);
    true
}

/// A copy of `s[lo..hi]`.
fn copy_range(s: &[u8], lo: usize, hi: usize) -> (r: Vec<u8>)
    requires
        lo <= hi <= s@.len(),
    ensures
        r@ == s@.subrange(lo as int, hi as int),
{
    let mut r: Vec<u8> = Vec::new();
    let mut i: usize = lo;
    while i < hi
        invariant
            lo <= i <= hi <= s@.len(),
            r@ == s@.subrange(lo as int, i as int),
        decreases hi - i,
    {
        r.push(s[i]);
        i = i + 1;
        assert(r@ =~= s@.subrange(lo as int, i as int));
    }
    r
}

fn append(out: &mut Vec<u8>, more: &Vec<u8>)
    ensures
        final(out)@ == old(out)@ + more@,
{
    let mut i: usize = 0;
    while i < more.len()
        invariant
            0 <= i <= more@.len(),
            out@ == old(out)@ + more@.subrange(0, i as int),
        decreases more@.len() - i,
    {
        out.push(more[i]);
        i = i + 1;
        assert(out@ =~= old(out)@ + more@.subrange(0, i as int));
    }
    assert(more@.subrange(0, more@.len() as int) =~= more@);
}

/// Decodes one datagram.
pub fn decode(s: &[u8]) -> (r: Command)
    ensures
        decodes_to(s@, r),
{
    let mut k: usize = 0;
    while k < s.len() && s[k] != SPACE
        invariant
            0 <= k <= s@.len(),
            forall|j: int| 0 <= j < k ==> s@[j] != SPACE,
        decreases s@.len() - k,
    {
        k = k + 1;
    }
    if k < s.len() {
        proof {
            assert(space_at(s@, k as int));
            assert forall|m: int| space_at(s@, m) implies m == k by {
                if m < k {
                    assert(s@[m] != SPACE);
                } else if m > k {
                    assert(s@[k as int] != SPACE);
                }
            }
        }
        let payload = copy_range(s, k + 1, s.len());
        if segment_is(s, 0, k, &text_msg()) {
            Command::Msg(payload)
        } else if segment_is(s, 0, k, &text_list_response()) {
            match parse_addr(payload.as_slice()) {
                Some(a) => Command::ListResponse(a),
                None => Command::BadAddress(payload),
            }
        } else {
            Command::Unknown(copy_range(s, 0, k))
        }
    } else {
        let len = s.len();
        if segment_is(s, 0, len, &text_new()) {
            proof {
                assert(s@.subrange(0, len as int) =~= s@);
            }
            Command::New
        } else if segment_is(s, 0, len, &text_list()) {
            proof {
                assert(s@.subrange(0, len as int) =~= s@);
            }
            Command::List
        } else if segment_is(s, 0, len, &text_stop()) {
            proof {
                assert(s@.subrange(0, len as int) =~= s@);
            }
            Command::Stop
        } else {
            proof {
                assert(s@.subrange(0, len as int) =~= s@);
            }
            Command::Unknown(copy_range(s, 0, len))
        }
    }
}

/// The bytes that a command is sent as.
pub fn encode(c: &Command) -> (r: Vec<u8>)
    ensures
        r@ == command_text(*c),
{
    match c {
        Command::New => text_new(),
        Command::List => text_list(),
        Command::Stop => text_stop(),
        Command::ListResponse(a) => {
            let mut out = text_list_response();
            out.push(SPACE);
            append(&mut out, &a.to_text());
            out
        },
        Command::Msg(p) => {
            let mut out = text_msg();
            out.push(SPACE);
            append(&mut out, p);
            out
        },
        Command::BadAddress(p) => {
            let mut out = text_list_response();
            out.push(SPACE);
            append(&mut out, p);
            out
        },
        Command::Unknown(v) => v.clone(),
    }
}

} // verus!
