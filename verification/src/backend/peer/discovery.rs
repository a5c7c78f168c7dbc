//! How a node finds its peers.

use crate::error::{Error, ErrorKind};
use vstd::prelude::*;

verus! {

/// The address of a peer. The last two fields are zero for an address of version 4.
#[derive(Debug, Clone, Copy, Eq, PartialEq, Hash, Structural)]
pub struct PeerAddr {
    pub v6: bool,
    pub ip: u128,
    pub port: u16,
    pub flow_info: u32,
    pub scope_id: u32,
}

/// A peer is forgotten where it did not announce itself for this long.
pub const DISCOVERY_TTL_SECS: u64 = 60;

/// A node announces itself this often.
pub const DISCOVERY_REFRESH_SECS: u64 = 20;

/// Whether a character is white space, as Unicode has it.
pub open spec fn is_white(c: char) -> bool {
    let u = c as u32;
    ||| 0x9 <= u <= 0xd
    ||| u == 0x20
    ||| u == 0x85
    ||| u == 0xa0
    ||| u == 0x1680
    ||| 0x2000 <= u <= 0x200a
    ||| u == 0x2028
    ||| u == 0x2029
    ||| u == 0x202f
    ||| u == 0x205f
    ||| u == 0x3000
}

fn white(c: char) -> (r: bool)
    ensures
        r == is_white(c),
{
    let u: u32 = c as u32;
    (0x9 <= u && u <= 0xd) || u == 0x20 || u == 0x85 || u == 0xa0 || u == 0x1680 || (0x2000 <= u
        && u <= 0x200a) || u == 0x2028 || u == 0x2029 || u == 0x202f || u == 0x205f || u == 0x3000
}

/// A text without the white space at its start.
pub open spec fn trim_start(s: Seq<char>) -> Seq<char>
    decreases s.len(),
{
    if s.len() > 0 && is_white(s[0]) {
        trim_start(s.skip(1))
    } else {
        s
    }
}

/// A text without the white space at its end.
pub open spec fn trim_end(s: Seq<char>) -> Seq<char>
    decreases s.len(),
{
    if s.len() > 0 && is_white(s.last()) {
        trim_end(s.drop_last())
    } else {
        s
    }
}

/// A text without the white space around it.
pub open spec fn trimmed(s: Seq<char>) -> Seq<char> {
    trim_end(trim_start(s))
}

/// Returns the part `from..to` of a text without the white space around it.
fn trim_part(s: &str, from: usize, to: usize) -> (r: String)
    requires
        from <= to <= s@.len(),
    ensures
        r@ == trimmed(s@.subrange(from as int, to as int)),
{
    let mut a: usize = from;
    let mut b: usize = to;
    while a < b && white(s.get_char(a))
        invariant
            from <= a <= b,
            b == to,
            to <= s@.len(),
            trim_start(s@.subrange(from as int, to as int)) == trim_start(
                s@.subrange(a as int, b as int),
            ),
        decreases b - a,
    {
        assert(s@.subrange(a as int, b as int).skip(1) =~= s@.subrange(a + 1, b as int));
        a = a + 1;
    }
    let ghost t = s@.subrange(a as int, b as int);
    assert(trim_start(t) == t) by {
        if t.len() > 0 {
            assert(t[0] == s@[a as int]);
        }
    }
    while a < b && white(s.get_char(b - 1))
        invariant
            a <= b <= s@.len(),
            trim_end(t) == trim_end(s@.subrange(a as int, b as int)),
        decreases b - a,
    {
        assert(s@.subrange(a as int, b as int).drop_last() =~= s@.subrange(a as int, b - 1));
        b = b - 1;
    }
    assert(trim_end(s@.subrange(a as int, b as int)) == s@.subrange(a as int, b as int)) by {
        if a < b {
            assert(s@.subrange(a as int, b as int).last() == s@[b - 1]);
        }
    }
    s.substring_char(a, b).to_owned()
}

/// Whether a text holds nothing but white space.
pub fn is_blank(s: &str) -> (r: bool)
    ensures
        r == (trimmed(s@).len() == 0),
{
    let len: usize = s.unicode_len();
    let rest: String = trim_part(s, 0, len);
    assert(s@.subrange(0, len as int) =~= s@);
    rest.unicode_len() == 0
}

/// The pieces of a text between commas.
pub open spec fn comma_pieces(s: Seq<char>) -> Seq<Seq<char>>
    decreases s.len(),
{
    if s.len() == 0 {
        seq![Seq::empty()]
    } else {
        let before = comma_pieces(s.drop_last());
        if s.last() == ',' {
            before.push(Seq::empty())
        } else {
            before.drop_last().push(before.last().push(s.last()))
        }
    }
}

/// The pieces that are not blank, without the white space around them.
pub open spec fn entries(pieces: Seq<Seq<char>>) -> Seq<Seq<char>>
    decreases pieces.len(),
{
    if pieces.len() == 0 {
        Seq::empty()
    } else {
        let before = entries(pieces.drop_last());
        let t = trimmed(pieces.last());
        if t.len() == 0 {
            before
        } else {
            before.push(t)
        }
    }
}

/// The addresses that a list separated by commas names.
pub open spec fn listed_addrs(s: Seq<char>) -> Seq<Seq<char>> {
    entries(comma_pieces(s))
}

/// What the strings of a list say.
pub open spec fn texts(v: Seq<String>) -> Seq<Seq<char>> {
    v.map_values(|t: String| t@)
}

/// The last piece runs from the last comma on.
proof fn lemma_last_piece(s: Seq<char>, start: int)
    requires
        0 <= start <= s.len(),
        start == 0 || s[start - 1] == ',',
        forall|i: int| start <= i < s.len() ==> s[i] != ',',
    ensures
        comma_pieces(s).len() > 0,
        comma_pieces(s).last() == s.skip(start),
        start > 0 ==> comma_pieces(s).drop_last() == comma_pieces(s.take(start - 1)),
        start == 0 ==> comma_pieces(s).len() == 1,
    decreases s.len(),
{
    if s.len() == start {
        if start > 0 {
            assert(s.drop_last() =~= s.take(start - 1));
            assert(comma_pieces(s).drop_last() =~= comma_pieces(s.take(start - 1)));
        }
        assert(s.skip(start) =~= Seq::<char>::empty());
    } else {
        let d = s.drop_last();
        lemma_last_piece(d, start);
        assert(s.last() != ',');
        assert(d.skip(start).push(s.last()) =~= s.skip(start));
        assert(comma_pieces(s).drop_last() =~= comma_pieces(d).drop_last());
        if start > 0 {
            assert(d.take(start - 1) =~= s.take(start - 1));
        }
    }
}

/// Returns the addresses that a list separated by commas names.
pub fn split_peer_addrs(peer_addrs: &str) -> (r: Vec<String>)
    ensures
        texts(r@) == listed_addrs(peer_addrs@),
{
    let len: usize = peer_addrs.unicode_len();
    let ghost s = peer_addrs@;
    let mut out: Vec<String> = Vec::new();
    let mut start: usize = 0;
    let mut i: usize = 0;
    assert(texts(out@) =~= Seq::<Seq<char>>::empty());
    while i < len
        invariant
            s == peer_addrs@,
            len == s.len(),
            start <= i <= len,
            start == 0 || s[start - 1] == ',',
            forall|j: int| start <= j < i ==> s[j] != ',',
            texts(out@) == if start == 0 {
                Seq::<Seq<char>>::empty()
            } else {
                entries(comma_pieces(s.take(start - 1)))
            },
        decreases len - i,
    {
        if peer_addrs.get_char(i) == ',' {
            let piece: String = trim_part(peer_addrs, start, i);
            proof {
                lemma_piece_done(s.take(i as int), start as int);
                assert(s.take(i as int).skip(start as int) =~= s.subrange(start as int, i as int));
                if start > 0 {
                    assert(s.take(i as int).take(start - 1) =~= s.take(start - 1));
                }
            }
            let ghost before = texts(out@);
            if piece.unicode_len() > 0 {
                let ghost held = out@;
                let ghost text = piece@;
                out.push(piece);
                assert(texts(out@) =~= before.push(text)) by {
                    assert(texts(held).push(text) =~= texts(out@));
                }
            }
            start = i + 1;
        }
        i = i + 1;
    }
    let piece: String = trim_part(peer_addrs, start, len);
    proof {
        lemma_piece_done(s, start as int);
        assert(s.skip(start as int) =~= s.subrange(start as int, len as int));
    }
    if piece.unicode_len() > 0 {
        let ghost held = out@;
        let ghost text = piece@;
        out.push(piece);
        assert(texts(held).push(text) =~= texts(out@));
    }
    out
}

/// What the last piece adds to the addresses.
proof fn lemma_piece_done(s: Seq<char>, start: int)
    requires
        0 <= start <= s.len(),
        start == 0 || s[start - 1] == ',',
        forall|i: int| start <= i < s.len() ==> s[i] != ',',
    ensures
        ({
            let before = if start == 0 {
                Seq::<Seq<char>>::empty()
            } else {
                entries(comma_pieces(s.take(start - 1)))
            };
            let t = trimmed(s.skip(start));
            entries(comma_pieces(s)) == if t.len() == 0 {
                before
            } else {
                before.push(t)
            }
        }),
{
    lemma_last_piece(s, start);
    if start == 0 {
        assert(comma_pieces(s).drop_last() =~= Seq::<Seq<char>>::empty());
        assert(entries(Seq::<Seq<char>>::empty()) =~= Seq::<Seq<char>>::empty());
    }
}

/// The error for an address that cannot be read.
pub fn invalid_peer_addr(addr: &str) -> (r: Error)
    ensures
        r.kind == ErrorKind::Other,
        r.message@ == "invalid peer addr: "@ + addr@,
{
    let mut text: String = "invalid peer addr: ".to_owned();
    text.append(addr);
    Error { kind: ErrorKind::Other, message: text }
}

/// How peers are found.
#[derive(Debug)]
pub enum DiscoveryPlan {
    /// They announce themselves in a Redis database.
    Redis,
    /// They are given, by their addresses.
    Static(Vec<String>),
}

/// Whether a text names a Redis database.
pub open spec fn is_redis_url(s: Seq<char>) -> bool {
    s.len() >= "redis://"@.len() && s.take("redis://"@.len() as int) == "redis://"@
}

/// Decides how peers are found: through Redis where its address is given, else from the list.
pub fn plan_discovery(peer_discovery: &str, peer_addrs: &str) -> (r: Result<DiscoveryPlan, Error>)
    ensures
        match r {
            Ok(DiscoveryPlan::Redis) => is_redis_url(peer_discovery@),
            Ok(DiscoveryPlan::Static(addrs)) => {
                &&& !is_redis_url(peer_discovery@)
                &&& trimmed(peer_discovery@).len() == 0
                &&& texts(addrs@) == listed_addrs(peer_addrs@)
            },
            Err(e) => {
                &&& !is_redis_url(peer_discovery@)
                &&& trimmed(peer_discovery@).len() > 0
                &&& e.kind == ErrorKind::Other
                &&& e.message@ == "unsupported peer discovery configuration: "@ + peer_discovery@
            },
        },
{
    proof {
        reveal_strlit("redis://");
    }
    let len: usize = peer_discovery.unicode_len();
    if len >= 8 {
        let front: String = peer_discovery.substring_char(0, 8).to_owned();
        assert(front@ =~= peer_discovery@.take(8));
        if front == "redis://".to_owned() {
            return Ok(DiscoveryPlan::Redis);
        }
    }
    if !is_blank(peer_discovery) {
        let mut text: String = "unsupported peer discovery configuration: ".to_owned();
        text.append(peer_discovery);
        return Err(Error { kind: ErrorKind::Other, message: text });
    }
    Ok(DiscoveryPlan::Static(split_peer_addrs(peer_addrs)))
}

/// The key under which a node announces itself.
pub fn discovery_key(node_id: &str) -> (r: String)
    ensures
        r@ == "distill-fs:peers:"@ + node_id@,
{
    let mut text: String = "distill-fs:peers:".to_owned();
    text.append(node_id);
    text
}

/// `addrs` without `own`, in order.
pub open spec fn spec_other_peers(addrs: Seq<PeerAddr>, own: Option<PeerAddr>) -> Seq<PeerAddr>
    decreases addrs.len(),
{
    if addrs.len() == 0 {
        Seq::empty()
    } else {
        let before = spec_other_peers(addrs.drop_last(), own);
        if own == Some(addrs.last()) {
            before
        } else {
            before.push(addrs.last())
        }
    }
}

/// Returns `addrs` without this node's own address.
pub fn other_peers(addrs: &[PeerAddr], own: Option<PeerAddr>) -> (r: Vec<PeerAddr>)
    ensures
        r@ == spec_other_peers(addrs@, own),
{
    let mut out: Vec<PeerAddr> = Vec::new();
    let mut i: usize = 0;
    while i < addrs.len()
        invariant
            i <= addrs@.len(),
            out@ == spec_other_peers(addrs@.take(i as int), own),
        decreases addrs@.len() - i,
    {
        let addr: PeerAddr = addrs[i];
        assert(addrs@.take(i + 1).drop_last() =~= addrs@.take(i as int));
        let is_self: bool = match own {
            Some(local) => local == addr,
            None => false,
        };
        if !is_self {
            out.push(addr);
        }
        i = i + 1;
    }
    assert(addrs@.take(i as int) =~= addrs@);
    out
}

/// A node is never its own peer, and no other peer is lost.
pub proof fn law_own_address_is_left_out(addrs: Seq<PeerAddr>, own: Option<PeerAddr>)
    ensures
        forall|a: PeerAddr|
            #[trigger] spec_other_peers(addrs, own).contains(a) <==> (addrs.contains(a) && own
                != Some(a)),
    decreases addrs.len(),
{
    if addrs.len() > 0 {
        let rest = addrs.drop_last();
        law_own_address_is_left_out(rest, own);
        let before = spec_other_peers(rest, own);
        let all = spec_other_peers(addrs, own);
        assert forall|a: PeerAddr| all.contains(a) <==> (addrs.contains(a) && own != Some(a)) by {
            if all.contains(a) {
                let k = choose|k: int| 0 <= k < all.len() && all[k] == a;
                if k < before.len() {
                    assert(before[k] == a);
                    assert(before.contains(a));
                    let j = choose|j: int| 0 <= j < rest.len() && rest[j] == a;
                    assert(addrs[j] == a);
                } else {
                    assert(addrs[addrs.len() - 1] == a);
                }
            }
            if addrs.contains(a) && own != Some(a) {
                let j = choose|j: int| 0 <= j < addrs.len() && addrs[j] == a;
                if j < rest.len() {
                    assert(rest[j] == a);
                    assert(before.contains(a));
                    let k = choose|k: int| 0 <= k < before.len() && before[k] == a;
                    assert(all[k] == a);
                } else {
                    assert(all[before.len() as int] == a);
                }
            }
        }
    }
}

/// The path of a file in a directory.
pub open spec fn joined_path(dir: Seq<char>, name: Seq<char>) -> Seq<char> {
    if dir.len() == 0 {
        name
    } else if dir.last() == '/' {
        dir + name
    } else {
        dir.push('/') + name
    }
}

/// The socket of the chunk server, where none is configured: it lies beside the database.
pub fn default_chunk_server_socket(chunk_db_dir: &str) -> (r: String)
    ensures
        r@ == joined_path(chunk_db_dir@, "chunkserver.sock"@),
{
    let mut text: String = chunk_db_dir.to_owned();
    let len: usize = chunk_db_dir.unicode_len();
    if len > 0 && chunk_db_dir.get_char(len - 1) != '/' {
        proof {
            reveal_strlit("/");
        }
        text.append("/");
        assert(text@ =~= chunk_db_dir@.push('/'));
    }
    text.append("chunkserver.sock");
    assert(chunk_db_dir@.len() == 0 ==> text@ =~= "chunkserver.sock"@);
    text
}

/// The pieces of two texts with a comma between them are those of the one and then those of the
/// other.
proof fn lemma_pieces_concat(a: Seq<char>, b: Seq<char>)
    ensures
        comma_pieces(a).len() > 0,
        comma_pieces(a.push(',') + b) == comma_pieces(a) + comma_pieces(b),
    decreases b.len(),
{
    lemma_some_piece(a);
    let s = a.push(',') + b;
    if b.len() == 0 {
        assert(s =~= a.push(','));
        assert(a.push(',').drop_last() =~= a);
        assert(comma_pieces(s) =~= comma_pieces(a) + comma_pieces(b));
    } else {
        let c = b.drop_last();
        lemma_pieces_concat(a, c);
        lemma_some_piece(c);
        assert(s.drop_last() =~= a.push(',') + c);
        assert(s.last() == b.last());
        assert(comma_pieces(s) =~= comma_pieces(a) + comma_pieces(b));
    }
}

proof fn lemma_some_piece(s: Seq<char>)
    ensures
        comma_pieces(s).len() > 0,
    decreases s.len(),
{
    if s.len() > 0 {
        lemma_some_piece(s.drop_last());
    }
}

proof fn lemma_entries_concat(a: Seq<Seq<char>>, b: Seq<Seq<char>>)
    ensures
        entries(a + b) == entries(a) + entries(b),
    decreases b.len(),
{
    if b.len() == 0 {
        assert(a + b =~= a);
        assert(entries(a + b) =~= entries(a) + entries(b));
    } else {
        lemma_entries_concat(a, b.drop_last());
        assert((a + b).drop_last() =~= a + b.drop_last());
        assert(entries(a + b) =~= entries(a) + entries(b));
    }
}

/// A list of addresses names those of its parts: what stands before a comma and what stands behind
/// it are read as lists of their own.
pub proof fn law_address_lists_are_read_part_by_part(
    a: &str,
    b: &str,
    both: &str,
    of_a: Vec<String>,
    of_b: Vec<String>,
    of_both: Vec<String>,
)
    requires
        both@ == a@.push(',') + b@,
        call_ensures(split_peer_addrs, (a,), of_a),
        call_ensures(split_peer_addrs, (b,), of_b),
        call_ensures(split_peer_addrs, (both,), of_both),
    ensures
        texts(of_both@) == texts(of_a@) + texts(of_b@),
{
    lemma_pieces_concat(a@, b@);
    lemma_entries_concat(comma_pieces(a@), comma_pieces(b@));
}

proof fn lemma_one_piece(s: Seq<char>)
    requires
        !s.contains(','),
    ensures
        comma_pieces(s) == seq![s],
    decreases s.len(),
{
    if s.len() > 0 {
        let d = s.drop_last();
        assert(s[s.len() - 1] == s.last());
        assert(!d.contains(',')) by {
            if d.contains(',') {
                let k = d.index_of(',');
                assert(s[k] == ',');
            }
        }
        lemma_one_piece(d);
        assert(d.push(s.last()) =~= s);
        assert(comma_pieces(s) =~= seq![s]);
    } else {
        assert(s =~= Seq::<char>::empty());
    }
}

/// Trimming takes white space off both ends of a text and nothing else.
proof fn lemma_trim_start(s: Seq<char>)
    ensures
        ({
            let t = trim_start(s);
            let n = s.len() - t.len();
            &&& 0 <= n <= s.len()
            &&& t == s.skip(n)
            &&& forall|i: int| 0 <= i < n ==> is_white(#[trigger] s[i])
            &&& t.len() > 0 ==> !is_white(t[0])
        }),
    decreases s.len(),
{
    if s.len() > 0 && is_white(s[0]) {
        let d = s.skip(1);
        lemma_trim_start(d);
        let t = trim_start(s);
        let n = s.len() - t.len();
        assert(d.skip(n - 1) =~= s.skip(n));
        assert forall|i: int| 0 <= i < n implies is_white(#[trigger] s[i]) by {
            if i > 0 {
                assert(d[i - 1] == s[i]);
            }
        }
    } else {
        assert(s.skip(0) =~= s);
    }
}

proof fn lemma_trim_end(s: Seq<char>)
    ensures
        ({
            let t = trim_end(s);
            &&& t.len() <= s.len()
            &&& t == s.take(t.len() as int)
            &&& forall|i: int| t.len() <= i < s.len() ==> is_white(#[trigger] s[i])
            &&& t.len() > 0 ==> !is_white(t.last())
        }),
    decreases s.len(),
{
    if s.len() > 0 && is_white(s.last()) {
        let d = s.drop_last();
        lemma_trim_end(d);
        let t = trim_end(s);
        assert(d.take(t.len() as int) =~= s.take(t.len() as int));
        assert forall|i: int| t.len() <= i < s.len() implies is_white(#[trigger] s[i]) by {
            if i < d.len() {
                assert(d[i] == s[i]);
            }
        }
    } else {
        assert(s.take(s.len() as int) =~= s);
    }
}

/// An address that stands alone, with white space around it or not, is the one that is named. A
/// text of white space names none.
pub proof fn law_single_address_is_trimmed(
    list: &str,
    front: Seq<char>,
    addr: Seq<char>,
    back: Seq<char>,
    r: Vec<String>,
)
    requires
        list@ == front + addr + back,
        !list@.contains(','),
        forall|i: int| 0 <= i < front.len() ==> is_white(#[trigger] front[i]),
        forall|i: int| 0 <= i < back.len() ==> is_white(#[trigger] back[i]),
        addr.len() > 0 ==> !is_white(addr[0]) && !is_white(addr.last()),
        call_ensures(split_peer_addrs, (list,), r),
    ensures
        addr.len() > 0 ==> texts(r@) == seq![addr],
        addr.len() == 0 ==> r@.len() == 0,
{
    let s = list@;
    lemma_one_piece(s);
    let a = trim_start(s);
    let t = trimmed(s);
    lemma_trim_start(s);
    lemma_trim_end(a);
    let n = s.len() - a.len();
    let none = Seq::<Seq<char>>::empty();
    assert(seq![s].drop_last() =~= none);
    assert(entries(none) =~= none);
    if addr.len() > 0 {
        assert(s[front.len() as int] == addr[0]);
        assert(n == front.len()) by {
            if n > front.len() {
                assert(is_white(s[front.len() as int]));
            }
            if n < front.len() {
                assert(a[0] == s[n]);
                assert(s[n] == front[n]);
            }
        }
        let last = front.len() + addr.len() - 1;
        assert(s[last] == addr.last());
        assert(a =~= addr + back);
        assert(t.len() == addr.len()) by {
            if t.len() > addr.len() {
                assert(t.last() == a[t.len() - 1]);
                assert(a[t.len() - 1] == back[t.len() - 1 - addr.len()]);
            }
            if t.len() < addr.len() {
                assert(is_white(a[addr.len() - 1]));
            }
        }
        assert(t =~= addr);
        assert(entries(seq![s]) =~= seq![addr]);
    } else {
        assert(t.len() == 0) by {
            if t.len() > 0 {
                assert(a[0] == s[n]);
                if n < front.len() {
                    assert(s[n] == front[n]);
                } else {
                    assert(s[n] == back[n - front.len()]);
                }
            }
        }
        assert(texts(r@).len() == 0);
    }
}

/// The other peers are all that are given but this node itself.
pub proof fn law_other_peers_leave_out_this_node(
    addrs: &[PeerAddr],
    own: Option<PeerAddr>,
    r: Vec<PeerAddr>,
    a: PeerAddr,
)
    requires
        call_ensures(other_peers, (addrs, own), r),
    ensures
        r@.contains(a) <==> addrs@.contains(a) && own != Some(a),
{
    law_own_address_is_left_out(addrs@, own);
}

/// The default socket lies in the directory of the database, with one slash between the two.
pub proof fn law_default_socket_lies_beside_the_database(dir: &str, r: String)
    requires
        call_ensures(default_chunk_server_socket, (dir,), r),
        dir@.len() > 0,
    ensures
        ({
            let name = "chunkserver.sock"@;
            let front = r@.take(r@.len() - name.len());
            &&& r@ == front + name
            &&& front.last() == '/'
            &&& dir@.is_prefix_of(front)
            &&& front.len() <= dir@.len() + 1
            &&& dir@.last() == '/' ==> front == dir@
        }),
{
    let name = "chunkserver.sock"@;
    let front = r@.take(r@.len() - name.len());
    if dir@.last() == '/' {
        assert(front =~= dir@);
    } else {
        assert(front =~= dir@.push('/'));
    }
    assert(r@ =~= front + name);
}

/// Where the address of a Redis database is given, peers are found there, whatever is listed; where
/// nothing is given, they are those of the list; anything else is refused.
pub proof fn law_discovery_follows_its_configuration(
    discovery: &str,
    list: &str,
    plan: Result<DiscoveryPlan, Error>,
    rest: Seq<char>,
    named: Vec<String>,
)
    requires
        call_ensures(plan_discovery, (discovery, list), plan),
        call_ensures(split_peer_addrs, (list,), named),
    ensures
        discovery@ == "redis://"@ + rest ==> plan is Ok && plan->Ok_0 is Redis,
        discovery@.len() == 0 ==> plan is Ok && plan->Ok_0 is Static,
        plan is Ok && plan->Ok_0 is Static ==> texts(plan->Ok_0->Static_0@) == texts(named@),
        plan is Err ==> discovery@.len() > 0 && discovery@ != "redis://"@ + rest,
        plan is Ok && plan->Ok_0 is Redis ==> "redis://"@.is_prefix_of(discovery@),
{
    reveal_strlit("redis://");
    if discovery@ == "redis://"@ + rest {
        assert(discovery@.take("redis://"@.len() as int) =~= "redis://"@);
    }
}

/// Different nodes announce themselves under different keys.
pub proof fn law_nodes_have_keys_of_their_own(a: &str, b: &str, of_a: String, of_b: String)
    requires
        call_ensures(discovery_key, (a,), of_a),
        call_ensures(discovery_key, (b,), of_b),
    ensures
        of_a@ == of_b@ <==> a@ == b@,
{
    let front = "distill-fs:peers:"@;
    assert(of_a@.skip(front.len() as int) =~= a@);
    assert(of_b@.skip(front.len() as int) =~= b@);
}

proof fn lemma_trimmed_is_empty(s: Seq<char>)
    ensures
        trimmed(s).len() == 0 <==> forall|i: int| 0 <= i < s.len() ==> is_white(#[trigger] s[i]),
{
    let a = trim_start(s);
    let t = trimmed(s);
    lemma_trim_start(s);
    lemma_trim_end(a);
    let n = s.len() - a.len();
    if t.len() == 0 {
        assert forall|i: int| 0 <= i < s.len() implies is_white(#[trigger] s[i]) by {
            if i >= n {
                assert(a[i - n] == s[i]);
            }
        }
    } else {
        assert(t[0] == a[0]);
        assert(a[0] == s[n]);
        assert(!is_white(s[n]));
    }
}

/// White space alone counts as nothing given, and anything else that does not name a Redis database
/// is refused.
pub proof fn law_unknown_discovery_is_refused(
    discovery: &str,
    list: &str,
    plan: Result<DiscoveryPlan, Error>,
    blank: bool,
    i: int,
)
    requires
        call_ensures(plan_discovery, (discovery, list), plan),
        call_ensures(is_blank, (discovery,), blank),
        !"redis://"@.is_prefix_of(discovery@),
    ensures
        blank <==> plan is Ok,
        plan is Ok ==> plan->Ok_0 is Static,
        0 <= i < discovery@.len() && !is_white(discovery@[i]) ==> !blank && plan is Err,
        (forall|k: int| 0 <= k < discovery@.len() ==> is_white(#[trigger] discovery@[k]))
            ==> blank,
{
    lemma_trimmed_is_empty(discovery@);
    let name = "redis://"@;
    if is_redis_url(discovery@) {
        assert(name.is_prefix_of(discovery@));
    }
}

} // verus!
