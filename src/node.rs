use crate::guid::{sha256_of, GUID};
use crate::message::{FindValue, MessageType, Request, Response};
use crate::routing::{
    append_locations, bucket_after_insert, bucket_index, is_nearest, lemma_bucket_index_bound,
    lemma_placed_kept, min_len, placed, same_location, without_id,
    RoutingTable, BUCKET_LEN,
};
use crate::rpc::CONCCURENT_REQS;
use crate::table::{lookup, stored, KeyTable};
use crate::util::{decimal, decimal_of};
use vstd::prelude::*;
use vstd::string::StringExecFns;

verus! {

/// The text `ip:port` of a network address.
pub open spec fn addr_of(ip: Seq<char>, port: u16) -> Seq<char> {
    ip + seq![':'] + decimal_of(port as int)
}

/// The digits of a decimal numeral, most significant first, as a number.
pub open spec fn digits_value(d: Seq<char>) -> int
    decreases d.len(),
{
    if d.len() == 0 {
        0
    } else {
        digits_value(d.drop_last()) * 10 + (d.last() as int - 48)
    }
}

/// The digits of a port numeral, without its optional leading `+`.
pub open spec fn port_digits(p: Seq<char>) -> Seq<char> {
    if p.len() > 0 && p[0] == '+' {
        p.drop_first()
    } else {
        p
    }
}

/// A port numeral: an optional `+`, then at least one decimal digit, of a value that fits
/// in 16 bits.
pub open spec fn is_port_text(p: Seq<char>) -> bool {
    let d = port_digits(p);
    &&& d.len() > 0
    &&& forall|i: int| 0 <= i < d.len() ==> '0' <= #[trigger] d[i] && d[i] <= '9'
    &&& digits_value(d) < 65536
}

/// Relies on `str::split_once`: the text before the first `:` and the text after it.
#[verifier::external_body]
fn split_first_colon(s: &str) -> (r: Option<(String, String)>)
    ensures
        r matches Some((a, b)) ==> s@ == a@ + seq![':'] + b@ && !a@.contains(':'),
        r is None ==> !s@.contains(':'),
{
    s.split_once(':').map(|(a, b)| (a.to_string(), b.to_string()))
}

/// Relies on `u16::from_str`: an optional `+` followed by decimal digits, of a value
/// within range; anything else is an error.
#[verifier::external_body]
fn parse_port(s: &str) -> (r: Option<u16>)
    ensures
        r is Some <==> is_port_text(s@),
        r matches Some(n) ==> n == digits_value(port_digits(s@)),
{
    s.parse::<u16>().ok()
}

/// A text splits at its first colon in one way only.
proof fn lemma_split_unique(s: Seq<char>, a: Seq<char>, b: Seq<char>, c: Seq<char>, d: Seq<char>)
    requires
        s == a + seq![':'] + b,
        !a.contains(':'),
        s == c + seq![':'] + d,
        !c.contains(':'),
    ensures
        a == c,
        b == d,
{
    if a.len() < c.len() {
        assert(s[a.len() as int] == ':');
        assert(c[a.len() as int] == s[a.len() as int]);
        assert(c.contains(':'));
    } else if c.len() < a.len() {
        assert(s[c.len() as int] == ':');
        assert(a[c.len() as int] == s[c.len() as int]);
        assert(a.contains(':'));
    }
    assert(a =~= s.take(a.len() as int));
    assert(c =~= s.take(c.len() as int));
    assert(b =~= s.skip(a.len() as int + 1));
    assert(d =~= s.skip(c.len() as int + 1));
}

/// A peer: its identifier and the address it listens on.
#[derive(Debug, Hash)]
pub struct Location {
    pub id: GUID,
    pub ip: String,
    pub port: u16,
}

impl Location {
    /// A peer at `ip:port`, identified by the digest of that text.
    pub fn new(ip: String, port: u16) -> (r: Location)
        ensures
            r.id@ == sha256_of(addr_of(ip@, port)),
            r.ip@ == ip@,
            r.port == port,
    {
        let a = addr(&ip, port);
        let id = GUID::new(a);
        Location { id, ip, port }
    }

    /// Reads an address `ip:port`, identified by the digest of the whole text; `None` where
    /// the text holds no colon or what follows the first colon is no port numeral.
    pub fn from_addr(addr: &str) -> (r: Option<Location>)
        ensures
            !addr@.contains(':') ==> r is None,
            forall|ip: Seq<char>, p: Seq<char>|
                addr@ == ip + seq![':'] + p && !ip.contains(':') ==> {
                    &&& (r is Some <==> is_port_text(p))
                    &&& (r matches Some(l) ==> l.ip@ == ip && l.port == digits_value(port_digits(p))
                        && l.id@ == sha256_of(addr@))
                },
    {
        match split_first_colon(addr) {
            None => {
                proof {
                    assert forall|a: Seq<char>, b: Seq<char>|
                        addr@ == a + seq![':'] + b && !a.contains(':') implies false by {
                        assert(addr@[a.len() as int] == ':');
                    }
                }
                None
            },
            Some((ip, p)) => {
                proof {
                    assert(addr@[ip@.len() as int] == ':');
                    assert forall|a: Seq<char>, b: Seq<char>|
                        addr@ == a + seq![':'] + b && !a.contains(':') implies a == ip@ && b == p@ by {
                        lemma_split_unique(addr@, a, b, ip@, p@);
                    }
                }
                match parse_port(p.as_str()) {
                    None => None,
                    Some(port) => Some(Location { id: GUID::new(addr.to_owned()), ip, port }),
                }
            },
        }
    }

    /// The text `ip:port` of the peer's address.
    pub fn addr(&self) -> (r: String)
        ensures
            r@ == addr_of(self.ip@, self.port),
    {
        addr(&self.ip, self.port)
    }
}

fn addr(ip: &String, port: u16) -> (r: String)
    ensures
        r@ == addr_of(ip@, port),
{
    proof {
        reveal_strlit(":");
    }
    let s = ip.clone().concat(":");
    let p = decimal(port as i64);
    let r = s.concat(p.as_str());
    assert(r@ =~= addr_of(ip@, port));
    r
}

impl Clone for Location {
    fn clone(&self) -> (r: Location)
        ensures
            r == *self,
    {
        Location { id: self.id, ip: self.ip.clone(), port: self.port }
    }
}

impl PartialEq for Location {
    fn eq(&self, other: &Location) -> (r: bool) {
        self.id == other.id && self.ip == other.ip && self.port == other.port
    }
}

impl vstd::std_specs::cmp::PartialEqSpecImpl for Location {
    open spec fn obeys_eq_spec() -> bool {
        true
    }

    open spec fn eq_spec(&self, other: &Location) -> bool {
        self.id@ == other.id@ && self.ip@ == other.ip@ && self.port == other.port
    }
}

impl Eq for Location {
}

/// The `n` last entries of `f` (all of them if fewer), last first: the order in which
/// they are popped.
pub open spec fn popped(f: Seq<Location>, n: nat) -> Seq<Location> {
    Seq::new(n, |i: int| f[f.len() - 1 - i])
}

/// Some identifier in `asked` is `id`.
pub open spec fn was_asked(asked: Seq<GUID>, id: Seq<u8>) -> bool {
    exists|i: int| 0 <= i < asked.len() && #[trigger] asked[i]@ == id
}

/// Keeps the peers other than `source` that no earlier round asked.
pub open spec fn worth_asking(source: Location, asked: Seq<GUID>) -> spec_fn(Location) -> bool {
    |x: Location| !same_location(x, source) && !was_asked(asked, x.id@)
}

/// The identifiers of the peers.
pub open spec fn ids_of(s: Seq<Location>) -> Seq<GUID> {
    s.map_values(|l: Location| l.id)
}

/// The queried peers whose query was answered, in order.
pub open spec fn replied(q: Seq<Location>, rep: Seq<Option<Vec<Location>>>) -> Seq<Location>
    decreases q.len(),
{
    if q.len() == 0 || rep.len() == 0 {
        Seq::empty()
    } else {
        let p = replied(q.drop_last(), rep.drop_last());
        if rep.last() is Some {
            p.push(q.last())
        } else {
            p
        }
    }
}

/// The peers that the answers name, answer after answer.
pub open spec fn found(rep: Seq<Option<Vec<Location>>>) -> Seq<Location>
    decreases rep.len(),
{
    if rep.len() == 0 {
        Seq::empty()
    } else {
        found(rep.drop_last()) + match rep.last() {
            Some(v) => v@,
            None => Seq::empty(),
        }
    }
}

/// An iterative lookup in progress: the peers still to be asked, and those that answered.
#[derive(Debug)]
pub struct Lookup {
    pub target: GUID,
    /// Whether the lookup answers a value query rather than a node query.
    pub for_value: bool,
    pub frontier: Vec<Location>,
    pub result: Vec<Location>,
    /// The identifiers of the peers asked so far.
    pub asked: Vec<GUID>,
}

impl Lookup {
    /// Nothing is left to ask.
    pub fn is_done(&self) -> (r: bool)
        ensures
            r == (self.frontier@.len() == 0),
    {
        self.frontier.len() == 0
    }

    /// Whether an earlier round asked the peer with identifier `id`; `upto` is how many
    /// entries of `asked` those rounds left.
    fn asked_before(&self, id: &GUID, upto: usize) -> (r: bool)
        requires
            upto <= self.asked@.len(),
        ensures
            r == was_asked(self.asked@.take(upto as int), id@),
    {
        let mut i: usize = 0;
        while i < upto
            invariant
                i <= upto <= self.asked@.len(),
                forall|j: int| 0 <= j < i ==> self.asked@[j]@ != id@,
            decreases upto - i,
        {
            if self.asked[i] == *id {
                assert(self.asked@.take(upto as int)[i as int] == self.asked@[i as int]);
                return true;
            }
            i = i + 1;
        }
        assert forall|j: int| 0 <= j < upto implies #[trigger] self.asked@.take(upto as int)[j]@ != id@ by {
            assert(self.asked@.take(upto as int)[j] == self.asked@[j]);
        }
        false
    }

    /// The peers to ask in the next round: up to `CONCCURENT_REQS` taken from the end of
    /// the frontier, without the peer that asked us and without those asked before.
    pub fn next_round(&mut self, source: &Location) -> (r: Vec<Location>)
        ensures
            final(self).target == old(self).target,
            final(self).for_value == old(self).for_value,
            final(self).result == old(self).result,
            final(self).frontier@ == old(self).frontier@.take(
                old(self).frontier@.len() - min_len(CONCCURENT_REQS as nat, old(self).frontier@.len()),
            ),
            r@ == popped(
                old(self).frontier@,
                min_len(CONCCURENT_REQS as nat, old(self).frontier@.len()),
            ).filter(worth_asking(*source, old(self).asked@)),
            final(self).asked@ == old(self).asked@ + ids_of(r@),
    {
        let ghost f = self.frontier@;
        let ghost a = self.asked@;
        let start = self.asked.len();
        let mut querying: Vec<Location> = Vec::new();
        let mut n: usize = 0;
        assert(f.take(f.len() as int) =~= f);
        assert(popped(f, 0).filter(worth_asking(*source, a)) =~= Seq::<Location>::empty());
        assert(a + ids_of(querying@) =~= a);
        while n < CONCCURENT_REQS && self.frontier.len() > 0
            invariant
                n <= CONCCURENT_REQS,
                n <= f.len(),
                self.frontier@ == f.take(f.len() - n),
                self.target == old(self).target,
                self.for_value == old(self).for_value,
                self.result == old(self).result,
                querying@ == popped(f, n as nat).filter(worth_asking(*source, a)),
                start == a.len(),
                self.asked@ == a + ids_of(querying@),
            decreases CONCCURENT_REQS - n,
        {
            let ghost before = querying@;
            let node = self.frontier.pop().unwrap();
            proof {
                assert(node == f[f.len() - 1 - n]);
                assert(popped(f, (n + 1) as nat) =~= popped(f, n as nat).push(node));
                popped(f, n as nat).lemma_filter_push(node, worth_asking(*source, a));
                assert(self.asked@.take(start as int) =~= a);
                assert(self.frontier@ =~= f.take(f.len() - (n + 1)));
            }
            if !(node == *source) && !self.asked_before(&node.id, start) {
                self.asked.push(node.id);
                querying.push(node);
                assert(ids_of(querying@) =~= ids_of(before).push(node.id));
            }
            n = n + 1;
        }
        querying
    }

    /// Folds in one round's answers: each peer that answered joins the result, and the
    /// peers it named join the frontier.
    pub fn absorb(&mut self, queried: Vec<Location>, replies: Vec<Option<Vec<Location>>>)
        requires
            queried@.len() == replies@.len(),
        ensures
            final(self).target == old(self).target,
            final(self).for_value == old(self).for_value,
            final(self).asked == old(self).asked,
            final(self).result@ == old(self).result@ + replied(queried@, replies@),
            final(self).frontier@ == old(self).frontier@ + found(replies@),
    {
        let mut i: usize = 0;
        assert(queried@.take(0) =~= Seq::<Location>::empty());
        assert(replies@.take(0) =~= Seq::<Option<Vec<Location>>>::empty());
        assert(old(self).result@ + replied(queried@.take(0), replies@.take(0)) =~= old(self).result@);
        assert(old(self).frontier@ + found(replies@.take(0)) =~= old(self).frontier@);
        while i < queried.len()
            invariant
                i <= queried@.len(),
                queried@.len() == replies@.len(),
                self.target == old(self).target,
                self.for_value == old(self).for_value,
                self.asked == old(self).asked,
                self.result@ == old(self).result@ + replied(queried@.take(i as int), replies@.take(i as int)),
                self.frontier@ == old(self).frontier@ + found(replies@.take(i as int)),
            decreases queried@.len() - i,
        {
            let ghost q0 = queried@.take(i as int);
            let ghost r0 = replies@.take(i as int);
            assert(queried@.take(i + 1).drop_last() =~= q0);
            assert(replies@.take(i + 1).drop_last() =~= r0);
            match &replies[i] {
                Some(nodes) => {
                    self.result.push(queried[i].clone());
                    append_locations(&mut self.frontier, nodes);
                    assert(self.frontier@ =~= old(self).frontier@ + found(replies@.take(i + 1)));
                },
                None => {
                    assert(found(replies@.take(i + 1)) =~= found(r0));
                },
            }
            i = i + 1;
        }
        assert(queried@.take(i as int) =~= queried@);
        assert(replies@.take(i as int) =~= replies@);
    }

    /// The answer to the query that started the lookup: the peers that answered.
    pub fn finish(self) -> (r: MessageType)
        ensures
            r == if self.for_value {
                MessageType::Response(Response::FindValue(FindValue::ClosestNodes(self.result)))
            } else {
                MessageType::Response(Response::FindNode(self.result))
            },
    {
        if self.for_value {
            MessageType::Response(Response::FindValue(FindValue::ClosestNodes(self.result)))
        } else {
            MessageType::Response(Response::FindNode(self.result))
        }
    }
}

/// What handling a request comes to: a response at once, or a lookup to run first.
#[derive(Debug)]
pub enum Handled {
    Reply(MessageType),
    Search(Lookup),
}

/// A lookup for `target` that starts from the peers nearest to it in the table.
pub open spec fn starts_lookup(n: Node, target: Seq<u8>, for_value: bool, l: Lookup) -> bool {
    &&& l.target@ == target
    &&& l.for_value == for_value
    &&& l.result@.len() == 0
    &&& l.asked@.len() == 0
    &&& is_nearest(n.routing_table@, n.location.id@, target, l.frontier@)
}

/// The state of a node: where it listens, the peers it knows, and the values it stores.
#[derive(Debug)]
pub struct Node {
    pub location: Location,
    pub routing_table: RoutingTable,
    pub db: KeyTable<String>,
}

impl Node {
    /// The table and the store are well formed, and each known peer sits in the bucket of
    /// its index as seen from this node.
    pub open spec fn wf(&self) -> bool {
        &&& self.routing_table.wf()
        &&& self.db.wf()
        &&& placed(self.routing_table@, self.location.id@)
    }

    /// A node that knows no values and, at most, the bootstrap peer.
    pub fn new(location: Location, bootstrap: Option<Location>) -> (r: Node)
        ensures
            r.wf(),
            r.location == location,
            r.db@.len() == 0,
            forall|i: int|
                0 <= i < BUCKET_LEN ==> #[trigger] r.routing_table@[i] == match bootstrap {
                    Some(b) => if i == bucket_index(location.id@, b.id@) {
                        seq![b]
                    } else {
                        Seq::empty()
                    },
                    None => Seq::empty(),
                },
    {
        let mut routing_table = RoutingTable::new();
        let id = location.id;
        match bootstrap {
            Some(b) => {
                let ghost t = routing_table@;
                let ghost bi = bucket_index(location.id@, b.id@) as int;
                proof {
                    lemma_bucket_index_bound(location.id@, b.id@);
                    lemma_placed_kept(t, location.id@, b);
                    assert(!crate::routing::has_id(t[bi], b.id@));
                    assert(!crate::routing::holds_location(t[bi], b));
                    assert(bucket_after_insert(t[bi], b) =~= seq![b]);
                }
                routing_table.insert(id, b);
            },
            None => {},
        }
        Node { location, routing_table, db: KeyTable::new() }
    }

    pub fn id(&self) -> (r: GUID)
        ensures
            r == self.location.id,
    {
        self.location.id
    }

    pub fn location(&self) -> (r: Location)
        ensures
            r == self.location,
    {
        self.location.clone()
    }

    pub fn handle_ping(&self) -> (r: MessageType)
        ensures
            r == MessageType::Response(Response::Pong),
    {
        MessageType::Response(Response::Pong)
    }

    /// Stores the value under the key, replacing an earlier one.
    pub fn handle_store(&mut self, key: String, val: String) -> (r: MessageType)
        requires
            old(self).wf(),
        ensures
            final(self).wf(),
            final(self).db@ == stored(old(self).db@, key, val),
            final(self).routing_table == old(self).routing_table,
            final(self).location == old(self).location,
            r == MessageType::Response(Response::Store),
    {
        self.db.insert(key, val);
        MessageType::Response(Response::Store)
    }

    /// A value query: the stored value if there is one, else a lookup for the key's
    /// identifier.
    pub fn handle_find_value(&self, key: String) -> (r: Handled)
        requires
            self.wf(),
        ensures
            match lookup(self.db@, key@) {
                Some(v) => r == Handled::Reply(
                    MessageType::Response(Response::FindValue(FindValue::Value(v))),
                ),
                None => (r matches Handled::Search(l) && starts_lookup(*self, sha256_of(key@), true, l)),
            },
    {
        match self.db.get(&key) {
            Some(v) => Handled::Reply(
                MessageType::Response(Response::FindValue(FindValue::Value(v.clone()))),
            ),
            None => Handled::Search(self.start_lookup(GUID::new(key), true)),
        }
    }

    /// A node query: a lookup for the target.
    pub fn handle_find_node(&self, key: GUID) -> (r: Lookup)
        requires
            self.wf(),
        ensures
            starts_lookup(*self, key@, false, r),
    {
        self.start_lookup(key, false)
    }

    fn start_lookup(&self, target: GUID, for_value: bool) -> (r: Lookup)
        requires
            self.wf(),
        ensures
            starts_lookup(*self, target@, for_value, r),
    {
        let frontier = self.routing_table.nearest_nodes_to_id(&self.location.id, &target);
        Lookup { target, for_value, frontier, result: Vec::new(), asked: Vec::new() }
    }

    /// A peer that joins is offered to the routing table.
    pub fn handle_join(&mut self, dist: Location) -> (r: MessageType)
        requires
            old(self).wf(),
        ensures
            final(self).wf(),
            final(self).routing_table@ == old(self).routing_table@.update(
                bucket_index(old(self).location.id@, dist.id@) as int,
                bucket_after_insert(
                    old(self).routing_table@[bucket_index(old(self).location.id@, dist.id@) as int],
                    dist,
                ),
            ),
            final(self).db == old(self).db,
            final(self).location == old(self).location,
            r == MessageType::Response(Response::Join),
    {
        let id = self.location.id;
        proof {
            lemma_bucket_index_bound(id@, dist.id@);
            lemma_placed_kept(self.routing_table@, id@, dist);
        }
        self.routing_table.insert(id, dist);
        MessageType::Response(Response::Join)
    }

    /// Handles a request from `source`.
    pub fn handle_req(&mut self, req: Request, source: &Location) -> (r: Handled)
        requires
            old(self).wf(),
        ensures
            final(self).wf(),
            final(self).location == old(self).location,
            match req {
                Request::Ping => r == Handled::Reply(MessageType::Response(Response::Pong))
                    && *final(self) == *old(self),
                Request::Store(k, v) => r == Handled::Reply(MessageType::Response(Response::Store))
                    && final(self).db@ == stored(old(self).db@, k, v)
                    && final(self).routing_table == old(self).routing_table,
                Request::FindNode(id) => *final(self) == *old(self) && (r matches Handled::Search(l)
                    && starts_lookup(*old(self), id@, false, l)),
                Request::FindValue(k) => *final(self) == *old(self) && match lookup(old(self).db@, k@) {
                    Some(v) => r == Handled::Reply(
                        MessageType::Response(Response::FindValue(FindValue::Value(v))),
                    ),
                    None => (r matches Handled::Search(l) && starts_lookup(*old(self), sha256_of(k@), true, l)),
                },
                Request::Join => r == Handled::Reply(MessageType::Response(Response::Join))
                    && final(self).db == old(self).db
                    && final(self).routing_table@ == old(self).routing_table@.update(
                    bucket_index(old(self).location.id@, source.id@) as int,
                    bucket_after_insert(
                        old(self).routing_table@[bucket_index(old(self).location.id@, source.id@) as int],
                        *source,
                    ),
                ),
            },
    {
        match req {
            Request::Ping => Handled::Reply(self.handle_ping()),
            Request::FindNode(id) => Handled::Search(self.handle_find_node(id)),
            Request::Store(key, val) => Handled::Reply(self.handle_store(key, val)),
            Request::FindValue(key) => self.handle_find_value(key),
            Request::Join => Handled::Reply(self.handle_join(source.clone())),
        }
    }

    /// Records the outcome of a request to `peer`: a peer that answered is offered to
    /// the routing table, one that timed out is dropped from it.
    pub fn record_reply(&mut self, peer: Location, answered: bool)
        requires
            old(self).wf(),
        ensures
            final(self).wf(),
            final(self).db == old(self).db,
            final(self).location == old(self).location,
            answered ==> final(self).routing_table@ == old(self).routing_table@.update(
                bucket_index(old(self).location.id@, peer.id@) as int,
                bucket_after_insert(
                    old(self).routing_table@[bucket_index(old(self).location.id@, peer.id@) as int],
                    peer,
                ),
            ),
            !answered ==> final(self).routing_table@ == old(self).routing_table@.update(
                bucket_index(old(self).location.id@, peer.id@) as int,
                without_id(
                    old(self).routing_table@[bucket_index(old(self).location.id@, peer.id@) as int],
                    peer.id@,
                ),
            ),
    {
        let id = self.location.id;
        proof {
            lemma_bucket_index_bound(id@, peer.id@);
            lemma_placed_kept(self.routing_table@, id@, peer);
        }
        if answered {
            self.routing_table.insert(id, peer);
        } else {
            self.routing_table.remove(&id, &peer.id);
        }
    }
}

} // verus!
