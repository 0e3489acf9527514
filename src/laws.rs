use vstd::prelude::*;

use crate::addr::{addr_of, addr_text, lemma_addr_text_injective, PeerAddr};
use crate::command::{
    command_text, decodes_to, is_wire_command, space_at, word_list, word_list_response, word_msg,
    word_new, word_stop, Command, SPACE,
};
use crate::node::{
    broadcast, join_requests, joined, list_response_text, registry_after, replies,
};

verus! {

/// An address read back from its own text is the same address.
pub proof fn lemma_addr_round_trip(p: PeerAddr)
    ensures
        addr_of(addr_text(p)) == Some(p),
{
    let q = choose|q: PeerAddr| addr_text(p) == addr_text(q);
    lemma_addr_text_injective(p, q);
}

/// A text in which `k` is the first space.
proof fn lemma_first_space(s: Seq<u8>, k: int)
    requires
        space_at(s, k),
    ensures
        (choose|m: int| space_at(s, m)) == k,
{
    let m = choose|m: int| space_at(s, m);
    if m < k {
        assert(s[m] != SPACE);
    } else if m > k {
        assert(s[k] != SPACE);
    }
}

/// A verb followed by a space and a payload decodes into that verb and that payload.
proof fn lemma_split(w: Seq<u8>, payload: Seq<u8>)
    requires
        forall|j: int| 0 <= j < w.len() ==> w[j] != SPACE,
    ensures
        space_at(w + seq![SPACE] + payload, w.len() as int),
        (choose|m: int| space_at(w + seq![SPACE] + payload, m)) == w.len(),
        (w + seq![SPACE] + payload).subrange(0, w.len() as int) == w,
        (w + seq![SPACE] + payload).subrange(
            w.len() as int + 1,
            (w + seq![SPACE] + payload).len() as int,
        ) == payload,
{
    let s = w + seq![SPACE] + payload;
    assert(space_at(s, w.len() as int)) by {
        assert forall|j: int| 0 <= j < w.len() implies s[j] != SPACE by {
            assert(s[j] == w[j]);
        }
    }
    lemma_first_space(s, w.len() as int);
    assert(s.subrange(0, w.len() as int) =~= w);
    assert(s.subrange(w.len() as int + 1, s.len() as int) =~= payload);
}

/// A bare verb without spaces.
proof fn lemma_no_space(w: Seq<u8>)
    requires
        forall|j: int| 0 <= j < w.len() ==> w[j] != SPACE,
    ensures
        !(exists|k: int| space_at(w, k)),
{
}

/// Every command that a node sends decodes back to itself.
pub proof fn lemma_codec_round_trip(c: Command)
    requires
        is_wire_command(c),
    ensures
        decodes_to(command_text(c), c),
{
    match c {
        Command::New => {
            lemma_no_space(word_new());
        },
        Command::List => {
            lemma_no_space(word_list());
            assert(word_list() != word_new());
        },
        Command::Stop => {
            lemma_no_space(word_stop());
            assert(word_stop() != word_new());
            assert(word_stop() != word_list()) by {
                assert(word_stop()[0] != word_list()[0]);
            }
        },
        Command::Msg(p) => {
            lemma_split(word_msg(), p@);
        },
        Command::ListResponse(a) => {
            lemma_split(word_list_response(), addr_text(a));
            assert(word_list_response() != word_msg());
            lemma_addr_round_trip(a);
        },
        _ => {},
    }
}

/// Join symmetry: when B starts with bootstrap A, B records A and sends A a `list`, which A
/// decodes as such; handling it, A records B.
pub proof fn lemma_join_symmetry(a_peers: Seq<PeerAddr>, b_peers: Seq<PeerAddr>, a: PeerAddr, b: PeerAddr)
    ensures
        joined(b_peers, Some(a)).contains(a),
        join_requests(Some(a)) == seq![(a, word_list())],
        decodes_to(word_list(), Command::List),
        registry_after(a_peers, Command::List, b).contains(b),
{
    assert(joined(b_peers, Some(a)).last() == a);
    assert(registry_after(a_peers, Command::List, b).last() == b);
    lemma_codec_round_trip(Command::List);
}

/// Transitive introduction: if A knows C when B's `list` arrives, A answers B with a
/// `list_response` naming C; B decodes it, records C and sends C a `new`; C decodes that
/// and records B.
pub proof fn lemma_transitive_introduction(
    a_peers: Seq<PeerAddr>,
    b_peers: Seq<PeerAddr>,
    c_peers: Seq<PeerAddr>,
    a: PeerAddr,
    b: PeerAddr,
    c: PeerAddr,
)
    requires
        a_peers.contains(c),
    ensures
        replies(a_peers, Command::List, b).contains((b, list_response_text(c))),
        decodes_to(list_response_text(c), Command::ListResponse(c)),
        registry_after(b_peers, Command::ListResponse(c), a).contains(c),
        replies(b_peers, Command::ListResponse(c), a) == seq![(c, word_new())],
        decodes_to(word_new(), Command::New),
        registry_after(c_peers, Command::New, b).contains(b),
{
    let i = choose|i: int| 0 <= i < a_peers.len() && a_peers[i] == c;
    let r = replies(a_peers, Command::List, b);
    assert(r[i] == (b, list_response_text(c)));
    lemma_codec_round_trip(Command::ListResponse(c));
    lemma_codec_round_trip(Command::New);
    assert(registry_after(b_peers, Command::ListResponse(c), a).last() == c);
    assert(registry_after(c_peers, Command::New, b).last() == b);
}

/// No self-correction: a known peer stays known through every command but its own `stop`,
/// and every gossip round still sends to it.
pub proof fn lemma_no_self_correction(
    peers: Seq<PeerAddr>,
    x: PeerAddr,
    c: Command,
    sender: PeerAddr,
    text: Seq<u8>,
)
    requires
        peers.contains(x),
        !(c is Stop && sender == x),
    ensures
        registry_after(peers, c, sender).contains(x),
        broadcast(peers, text).contains((x, text)),
{
    broadcast use vstd::seq_lib::group_filter_ensures;

    let i = choose|i: int| 0 <= i < peers.len() && peers[i] == x;
    let after = registry_after(peers, c, sender);
    match c {
        Command::New | Command::List | Command::ListResponse(_) => {
            assert(after[i] == x);
        },
        _ => {},
    }
    assert(broadcast(peers, text)[i] == (x, text));
}

} // verus!
