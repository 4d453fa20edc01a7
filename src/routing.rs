use crate::guid::{xor_distance, Distance, GUID, GUID_BITS, GUID_LEN};
use crate::node::Location;
use crate::util::{leading_zero_bits, leading_zeros};
use vstd::prelude::*;

verus! {

/// Most peers that one bucket holds.
pub const BUCKET_SIZE: usize = 20;

/// Number of buckets in a routing table: one per bit of an identifier.
pub const BUCKET_LEN: usize = 256;

/// Position of the highest set bit of `d` at or after byte `i`, counted from the most
/// significant bit of byte 0; the last position when those bytes are all zero.
pub open spec fn highest_bit_from(d: Seq<u8>, i: nat) -> nat
    decreases d.len() - i,
{
    if i >= d.len() {
        (GUID_BITS - 1) as nat
    } else if d[i as int] != 0 {
        8 * i + leading_zero_bits(d[i as int])
    } else {
        highest_bit_from(d, i + 1)
    }
}

/// The bucket that a peer `b` falls in, seen from `a`: the position of the highest set
/// bit of their distance.
pub open spec fn bucket_index(a: Seq<u8>, b: Seq<u8>) -> nat {
    highest_bit_from(xor_distance(a, b), 0)
}

/// No two entries share an identifier.
pub open spec fn ids_distinct(s: Seq<Location>) -> bool {
    forall|i: int, j: int| 0 <= i < s.len() && 0 <= j < s.len() && i != j ==> s[i].id@ != s[j].id@
}

/// Some entry has identifier `id`.
pub open spec fn has_id(s: Seq<Location>, id: Seq<u8>) -> bool {
    exists|k: int| 0 <= k < s.len() && #[trigger] s[k].id@ == id
}

/// The entries without the one that has identifier `id`.
pub open spec fn without_id(s: Seq<Location>, id: Seq<u8>) -> Seq<Location> {
    if has_id(s, id) {
        s.remove(choose|k: int| 0 <= k < s.len() && #[trigger] s[k].id@ == id)
    } else {
        s
    }
}

/// Equal identifier, host and port.
pub open spec fn same_location(a: Location, b: Location) -> bool {
    a.id@ == b.id@ && a.ip@ == b.ip@ && a.port == b.port
}

/// Some entry is the very same peer.
pub open spec fn holds_location(s: Seq<Location>, loc: Location) -> bool {
    exists|k: int| 0 <= k < s.len() && same_location(#[trigger] s[k], loc)
}

/// A bucket after a peer is offered to it: a full bucket and a bucket that already holds
/// the very same peer are left as they are; otherwise an entry with the peer's
/// identifier is dropped and the peer goes to the end.
pub open spec fn bucket_after_insert(s: Seq<Location>, loc: Location) -> Seq<Location> {
    if s.len() >= BUCKET_SIZE || holds_location(s, loc) {
        s
    } else {
        without_id(s, loc.id@).push(loc)
    }
}

/// A bucket after the peers are offered to it one after the other.
pub open spec fn inserted_all(s: Seq<Location>, peers: Seq<Location>) -> Seq<Location>
    decreases peers.len(),
{
    if peers.len() == 0 {
        s
    } else {
        bucket_after_insert(inserted_all(s, peers.drop_last()), peers.last())
    }
}

/// The entries of all the buckets, bucket after bucket.
pub open spec fn concat_all(t: Seq<Seq<Location>>) -> Seq<Location>
    decreases t.len(),
{
    if t.len() == 0 {
        Seq::empty()
    } else {
        concat_all(t.drop_last()) + t.last()
    }
}

/// The candidates for the peers nearest to a target whose home bucket is `idx`: that
/// bucket; while fewer than a full bucket, then all buckets above it; while still fewer,
/// then all buckets below it.
pub open spec fn gathered(t: Seq<Seq<Location>>, idx: int) -> Seq<Location> {
    let home = t[idx];
    let up = if home.len() < BUCKET_SIZE {
        home + concat_all(t.subrange(idx + 1, t.len() as int))
    } else {
        home
    };
    if up.len() < BUCKET_SIZE {
        up + concat_all(t.subrange(0, idx))
    } else {
        up
    }
}

/// Lexicographic order on byte strings: the first differing byte decides.
pub open spec fn lex_lt(a: Seq<u8>, b: Seq<u8>) -> bool
    decreases a.len(),
{
    if a.len() == 0 || b.len() == 0 {
        false
    } else if a[0] != b[0] {
        a[0] < b[0]
    } else {
        lex_lt(a.drop_first(), b.drop_first())
    }
}

/// `a` is strictly nearer to `target` than `b`.
pub open spec fn nearer(a: Location, b: Location, target: Seq<u8>) -> bool {
    lex_lt(xor_distance(a.id@, target), xor_distance(b.id@, target))
}

/// Entries in ascending distance to `target`.
pub open spec fn sorted_by_distance(s: Seq<Location>, target: Seq<u8>) -> bool {
    forall|i: int, j: int| 0 <= i < j < s.len() ==> !nearer(#[trigger] s[j], #[trigger] s[i], target)
}

/// The smaller of two lengths.
pub open spec fn min_len(a: nat, b: nat) -> nat {
    if a < b {
        a
    } else {
        b
    }
}

/// No byte string comes before itself.
pub proof fn lemma_lex_lt_irreflexive(a: Seq<u8>)
    ensures
        !lex_lt(a, a),
    decreases a.len(),
{
    if a.len() > 0 {
        lemma_lex_lt_irreflexive(a.drop_first());
    }
}

/// The order on byte strings is transitive.
pub proof fn lemma_lex_lt_transitive(a: Seq<u8>, b: Seq<u8>, c: Seq<u8>)
    requires
        lex_lt(a, b),
        lex_lt(b, c),
    ensures
        lex_lt(a, c),
    decreases a.len(),
{
    if a[0] == b[0] && b[0] == c[0] {
        lemma_lex_lt_transitive(a.drop_first(), b.drop_first(), c.drop_first());
    }
}

/// Only the entry with identifier `id` leaves, and the others keep their order.
proof fn lemma_without_id_at(s: Seq<Location>, id: Seq<u8>, k: int)
    requires
        ids_distinct(s),
        0 <= k < s.len(),
        s[k].id@ == id,
    ensures
        without_id(s, id) == s.remove(k),
{
    let c = choose|c: int| 0 <= c < s.len() && #[trigger] s[c].id@ == id;
    assert(has_id(s, id));
    assert(c == k);
}

proof fn lemma_without_id_distinct(s: Seq<Location>, id: Seq<u8>)
    requires
        ids_distinct(s),
    ensures
        ids_distinct(without_id(s, id)),
        !has_id(without_id(s, id), id),
        without_id(s, id).len() == if has_id(s, id) { s.len() - 1 } else { s.len() as int },
{
    if has_id(s, id) {
        let k = choose|k: int| 0 <= k < s.len() && #[trigger] s[k].id@ == id;
        let r = s.remove(k);
        assert forall|i: int| 0 <= i < r.len() implies #[trigger] r[i].id@ != id by {
            if i < k {
                assert(r[i] == s[i]);
            } else {
                assert(r[i] == s[i + 1]);
            }
        }
        assert forall|i: int, j: int| 0 <= i < r.len() && 0 <= j < r.len() && i != j implies r[i].id@
            != r[j].id@ by {
            let si = if i < k { i } else { i + 1 };
            let sj = if j < k { j } else { j + 1 };
            assert(r[i] == s[si]);
            assert(r[j] == s[sj]);
        }
    }
}

/// Offering a peer keeps a bucket within its capacity and free of repeated identifiers.
pub proof fn lemma_bucket_after_insert_wf(s: Seq<Location>, loc: Location)
    requires
        s.len() <= BUCKET_SIZE,
        ids_distinct(s),
    ensures
        bucket_after_insert(s, loc).len() <= BUCKET_SIZE,
        ids_distinct(bucket_after_insert(s, loc)),
{
    if !(s.len() >= BUCKET_SIZE || holds_location(s, loc)) {
        lemma_without_id_distinct(s, loc.id@);
        let w = without_id(s, loc.id@);
        let r = w.push(loc);
        assert forall|i: int, j: int| 0 <= i < r.len() && 0 <= j < r.len() && i != j implies r[i].id@
            != r[j].id@ by {
            if i < w.len() && j < w.len() {
                assert(r[i] == w[i] && r[j] == w[j]);
            } else if i < w.len() {
                assert(r[i] == w[i]);
            } else {
                assert(r[j] == w[j]);
            }
        }
    }
}

/// Offering more than a bucket's worth of distinct peers to an empty bucket leaves it
/// full, with the first peers offered, in the order offered; the later ones are dropped.
pub proof fn lemma_bucket_capacity(peers: Seq<Location>)
    requires
        ids_distinct(peers),
        peers.len() > BUCKET_SIZE,
    ensures
        inserted_all(Seq::empty(), peers) == peers.take(BUCKET_SIZE as int),
        inserted_all(Seq::empty(), peers).len() == BUCKET_SIZE,
        ids_distinct(inserted_all(Seq::empty(), peers)),
{
    lemma_inserted_prefix(peers, peers.len() as int);
    assert(peers.take(peers.len() as int) =~= peers);
}

proof fn lemma_inserted_prefix(peers: Seq<Location>, n: int)
    requires
        ids_distinct(peers),
        0 <= n <= peers.len(),
    ensures
        inserted_all(Seq::empty(), peers.take(n)) == peers.take(
            if n < BUCKET_SIZE { n } else { BUCKET_SIZE as int },
        ),
    decreases n,
{
    let p = peers.take(n);
    if n == 0 {
        assert(p =~= Seq::<Location>::empty());
    } else {
        lemma_inserted_prefix(peers, n - 1);
        assert(p.drop_last() =~= peers.take(n - 1));
        let prev = inserted_all(Seq::empty(), peers.take(n - 1));
        let loc = peers[n - 1];
        if n - 1 < BUCKET_SIZE {
            assert(prev == peers.take(n - 1));
            assert(!holds_location(prev, loc)) by {
                if holds_location(prev, loc) {
                    let k = choose|k: int| 0 <= k < prev.len() && same_location(#[trigger] prev[k], loc);
                    assert(prev[k] == peers[k]);
                }
            }
            assert(!has_id(prev, loc.id@)) by {
                if has_id(prev, loc.id@) {
                    let k = choose|k: int| 0 <= k < prev.len() && #[trigger] prev[k].id@ == loc.id@;
                    assert(prev[k] == peers[k]);
                }
            }
            assert(peers.take(n) =~= prev.push(loc));
        }
    }
}

/// Concatenating the buckets of two runs of buckets.
proof fn lemma_concat_all_add(a: Seq<Seq<Location>>, b: Seq<Seq<Location>>)
    ensures
        concat_all(a + b) == concat_all(a) + concat_all(b),
    decreases b.len(),
{
    if b.len() == 0 {
        assert(a + b =~= a);
        assert(concat_all(a) + concat_all(b) =~= concat_all(a));
    } else {
        lemma_concat_all_add(a, b.drop_last());
        assert((a + b).drop_last() =~= a + b.drop_last());
        assert(concat_all(a) + concat_all(b) =~= concat_all(a) + concat_all(b.drop_last()) + b.last());
    }
}

/// The candidates for the nearest peers are as many as a full bucket, or else all the
/// peers that the table holds.
pub proof fn lemma_gathered_len(t: Seq<Seq<Location>>, idx: int)
    requires
        0 <= idx < t.len(),
    ensures
        min_len(BUCKET_SIZE as nat, gathered(t, idx).len()) == min_len(
            BUCKET_SIZE as nat,
            concat_all(t).len(),
        ),
{
    let down = t.subrange(0, idx);
    let up = t.subrange(idx + 1, t.len() as int);
    assert(t =~= down + seq![t[idx]] + up);
    lemma_concat_all_add(down + seq![t[idx]], up);
    lemma_concat_all_add(down, seq![t[idx]]);
    assert(seq![t[idx]].drop_last() =~= Seq::<Seq<Location>>::empty());
    assert(concat_all(Seq::<Seq<Location>>::empty()) == Seq::<Location>::empty());
    assert(concat_all(seq![t[idx]]) =~= t[idx]);
}

proof fn lemma_highest_bit_of_zero(d: Seq<u8>, i: nat)
    requires
        forall|j: int| 0 <= j < d.len() ==> d[j] == 0u8,
    ensures
        highest_bit_from(d, i) == GUID_BITS - 1,
    decreases d.len() - i,
{
    if i < d.len() {
        lemma_highest_bit_of_zero(d, i + 1);
    }
}

proof fn lemma_highest_bit_bound(d: Seq<u8>, i: nat)
    requires
        d.len() == GUID_LEN,
    ensures
        highest_bit_from(d, i) < BUCKET_LEN,
    decreases d.len() - i,
{
    if i < d.len() {
        if d[i as int] != 0 {
            vstd::arithmetic::power2::lemma2_to64();
            crate::util::lemma_bit_length_bound(d[i as int] as nat, 8);
        } else {
            lemma_highest_bit_bound(d, i + 1);
        }
    }
}

/// Every bucket index names a bucket of the table.
pub proof fn lemma_bucket_index_bound(a: Seq<u8>, b: Seq<u8>)
    requires
        a.len() == GUID_LEN,
    ensures
        bucket_index(a, b) < BUCKET_LEN,
{
    lemma_highest_bit_bound(xor_distance(a, b), 0);
}

/// The bucket index is a function of the two identifiers alone, and an identifier seen
/// from itself falls in the last bucket.
pub proof fn lemma_bucket_index_determined(a: GUID, b: GUID, c: GUID, d: GUID)
    requires
        a@ == c@,
        b@ == d@,
    ensures
        bucket_index(a@, b@) == bucket_index(c@, d@),
        bucket_index(a@, a@) == GUID_BITS - 1,
{
    crate::guid::lemma_distance_symmetric(a, a);
    lemma_highest_bit_of_zero(xor_distance(a@, a@), 0);
}

/// Every peer sits in the bucket of its own index as seen from `me`.
pub open spec fn placed(t: Seq<Seq<Location>>, me: Seq<u8>) -> bool {
    forall|i: int, k: int|
        0 <= i < t.len() && 0 <= k < t[i].len() ==> bucket_index(me, #[trigger] t[i][k].id@) == i
}

/// Each entry of the bucket after an offer was in the bucket before, or is the peer
/// offered; each entry after a removal was there before.
proof fn lemma_entries_kept(s: Seq<Location>, loc: Location)
    requires
        ids_distinct(s),
    ensures
        forall|k: int|
            0 <= k < bucket_after_insert(s, loc).len() ==> #[trigger] bucket_after_insert(s, loc)[k]
                == loc || s.contains(bucket_after_insert(s, loc)[k]),
        forall|k: int|
            0 <= k < without_id(s, loc.id@).len() ==> s.contains(#[trigger] without_id(s, loc.id@)[k]),
{
    let w = without_id(s, loc.id@);
    assert forall|k: int| 0 <= k < w.len() implies s.contains(#[trigger] w[k]) by {
        if has_id(s, loc.id@) {
            let c = choose|c: int| 0 <= c < s.len() && #[trigger] s[c].id@ == loc.id@;
            if k < c {
                assert(w[k] == s[k]);
            } else {
                assert(w[k] == s[k + 1]);
            }
        } else {
            assert(w[k] == s[k]);
        }
    }
    let b = bucket_after_insert(s, loc);
    assert forall|k: int| 0 <= k < b.len() implies #[trigger] b[k] == loc || s.contains(b[k]) by {
        if !(s.len() >= BUCKET_SIZE || holds_location(s, loc)) {
            if k < w.len() {
                assert(b[k] == w[k]);
            }
        } else {
            assert(b[k] == s[k]);
        }
    }
}

/// Offering a peer to its own bucket, or dropping one from its bucket, keeps every
/// peer in its place.
pub proof fn lemma_placed_kept(t: Seq<Seq<Location>>, me: Seq<u8>, loc: Location)
    requires
        placed(t, me),
        0 <= bucket_index(me, loc.id@) < t.len(),
        ids_distinct(t[bucket_index(me, loc.id@) as int]),
    ensures
        placed(t.update(bucket_index(me, loc.id@) as int, bucket_after_insert(t[bucket_index(me, loc.id@) as int], loc)), me),
        placed(t.update(bucket_index(me, loc.id@) as int, without_id(t[bucket_index(me, loc.id@) as int], loc.id@)), me),
{
    let idx = bucket_index(me, loc.id@) as int;
    let s = t[idx];
    lemma_entries_kept(s, loc);
    let t1 = t.update(idx, bucket_after_insert(s, loc));
    assert forall|i: int, k: int| 0 <= i < t1.len() && 0 <= k < t1[i].len() implies bucket_index(
        me,
        #[trigger] t1[i][k].id@,
    ) == i by {
        if i == idx {
            let e = t1[i][k];
            if e != loc {
                let j = choose|j: int| 0 <= j < s.len() && s[j] == e;
                assert(t[idx][j] == e);
            }
        }
    }
    let t2 = t.update(idx, without_id(s, loc.id@));
    assert forall|i: int, k: int| 0 <= i < t2.len() && 0 <= k < t2[i].len() implies bucket_index(
        me,
        #[trigger] t2[i][k].id@,
    ) == i by {
        if i == idx {
            let e = t2[i][k];
            let j = choose|j: int| 0 <= j < s.len() && s[j] == e;
            assert(t[idx][j] == e);
        }
    }
}

/// A bucket: the known peers at one distance prefix from the local node.
#[derive(Debug)]
pub struct Bucket(pub Vec<Location>);

impl View for Bucket {
    type V = Seq<Location>;

    open spec fn view(&self) -> Seq<Location> {
        self.0@
    }
}

impl Bucket {
    /// Within capacity and without repeated identifiers.
    pub open spec fn wf(&self) -> bool {
        self@.len() <= BUCKET_SIZE && ids_distinct(self@)
    }

    fn new() -> (r: Bucket)
        ensures
            r@ == Seq::<Location>::empty(),
    {
        Bucket(Vec::with_capacity(BUCKET_SIZE))
    }

    /// The bucket of `node_id` as seen from `id`.
    pub fn find_index(id: &GUID, node_id: &GUID) -> (r: usize)
        ensures
            r == bucket_index(id@, node_id@),
            r < BUCKET_LEN,
    {
        let dist = Distance::calc(id, node_id);
        let mut i: usize = 0;
        while i < GUID_LEN
            invariant
                i <= GUID_LEN,
                dist@.len() == GUID_LEN,
                dist@ == xor_distance(id@, node_id@),
                highest_bit_from(dist@, 0) == highest_bit_from(dist@, i as nat),
            decreases GUID_LEN - i,
        {
            let b = dist.0[i];
            if b != 0 {
                let z = leading_zeros(b);
                return i * 8 + z;
            }
            i = i + 1;
        }
        GUID_BITS - 1
    }

    /// Index of the entry with identifier `id`.
    fn position(&self, id: &GUID) -> (r: Option<usize>)
        ensures
            match r {
                Some(k) => k < self@.len() && self@[k as int].id@ == id@,
                None => !has_id(self@, id@),
            },
    {
        let mut k: usize = 0;
        while k < self.0.len()
            invariant
                k <= self@.len(),
                forall|j: int| 0 <= j < k ==> self@[j].id@ != id@,
            decreases self@.len() - k,
        {
            if self.0[k].id == *id {
                return Some(k);
            }
            k = k + 1;
        }
        None
    }

    fn holds(&self, loc: &Location) -> (r: bool)
        ensures
            r == holds_location(self@, *loc),
    {
        let mut k: usize = 0;
        while k < self.0.len()
            invariant
                k <= self@.len(),
                forall|j: int| 0 <= j < k ==> !same_location(#[trigger] self@[j], *loc),
            decreases self@.len() - k,
        {
            if self.0[k] == *loc {
                return true;
            }
            k = k + 1;
        }
        false
    }

    /// Puts the peer at the end, dropping an entry with the same identifier.
    fn insert(&mut self, node: Location)
        requires
            ids_distinct(old(self)@),
        ensures
            final(self)@ == without_id(old(self)@, node.id@).push(node),
    {
        match self.position(&node.id) {
            Some(idx) => {
                proof {
                    lemma_without_id_at(self@, node.id@, idx as int);
                }
                self.0.remove(idx);
            },
            None => {},
        }
        self.0.push(node);
    }

    fn is_full(&self) -> (r: bool)
        ensures
            r == (self@.len() >= BUCKET_SIZE),
    {
        self.0.len() >= BUCKET_SIZE
    }
}

/// Compares the distances of two peers to a target.
fn is_nearer(a: &Location, b: &Location, target: &GUID) -> (r: bool)
    ensures
        r == nearer(*a, *b, target@),
{
    let da = Distance::calc(&a.id, target);
    let db = Distance::calc(&b.id, target);
    let mut i: usize = 0;
    assert(da@.subrange(0, GUID_LEN as int) =~= da@);
    assert(db@.subrange(0, GUID_LEN as int) =~= db@);
    while i < GUID_LEN
        invariant
            i <= GUID_LEN,
            da@.len() == GUID_LEN,
            db@.len() == GUID_LEN,
            da@ == xor_distance(a.id@, target@),
            db@ == xor_distance(b.id@, target@),
            lex_lt(da@, db@) == lex_lt(
                da@.subrange(i as int, GUID_LEN as int),
                db@.subrange(i as int, GUID_LEN as int),
            ),
        decreases GUID_LEN - i,
    {
        let x = da.0[i];
        let y = db.0[i];
        if x != y {
            return x < y;
        }
        assert(da@.subrange(i as int, GUID_LEN as int).drop_first() =~= da@.subrange(
            i + 1,
            GUID_LEN as int,
        ));
        assert(db@.subrange(i as int, GUID_LEN as int).drop_first() =~= db@.subrange(
            i + 1,
            GUID_LEN as int,
        ));
        i = i + 1;
    }
    false
}

/// Sorts peers by ascending distance to `target`; peers at equal distance keep their order.
fn sort_by_distance(v: &Vec<Location>, target: &GUID) -> (r: Vec<Location>)
    ensures
        r@.to_multiset() == v@.to_multiset(),
        sorted_by_distance(r@, target@),
{
    broadcast use vstd::seq_lib::group_to_multiset_ensures;

    let mut r: Vec<Location> = Vec::new();
    let mut i: usize = 0;
    while i < v.len()
        invariant
            i <= v@.len(),
            r@.to_multiset() == v@.take(i as int).to_multiset(),
            sorted_by_distance(r@, target@),
        decreases v@.len() - i,
    {
        let x = v[i].clone();
        let mut p: usize = 0;
        while p < r.len() && !is_nearer(&x, &r[p], target)
            invariant
                p <= r@.len(),
                forall|j: int| 0 <= j < p ==> !nearer(x, #[trigger] r@[j], target@),
            decreases r@.len() - p,
        {
            p = p + 1;
        }
        let ghost old_r = r@;
        r.insert(p, x);
        proof {
            assert(r@.remove(p as int) =~= old_r);
            assert(r@[p as int] == x);
            r@.to_multiset_ensures();
            assert(r@.remove(p as int).to_multiset() == r@.to_multiset().remove(r@[p as int]));
            assert(r@.to_multiset().remove(x) == old_r.to_multiset());
            assert(r@.contains(x));
            assert(r@.to_multiset().count(x) > 0);
            assert(r@.to_multiset() =~= old_r.to_multiset().insert(x));
            assert(x == v@[i as int]);
            assert(v@.take(i + 1) =~= v@.take(i as int).push(x));
            v@.take(i as int).to_multiset_ensures();
            assert(v@.take(i as int).push(x).to_multiset() == v@.take(i as int).to_multiset().insert(x));
            assert forall|a: int, b: int| 0 <= a < b < r@.len() implies !nearer(
                #[trigger] r@[b],
                #[trigger] r@[a],
                target@,
            ) by {
                let ka = xor_distance(r@[a].id@, target@);
                let kb = xor_distance(r@[b].id@, target@);
                let kx = xor_distance(x.id@, target@);
                if a < p && b < p {
                    assert(r@[a] == old_r[a] && r@[b] == old_r[b]);
                } else if a < p && b == p {
                    assert(r@[a] == old_r[a]);
                } else if a < p {
                    assert(r@[a] == old_r[a] && r@[b] == old_r[b - 1]);
                } else if a == p {
                    assert(r@[b] == old_r[b - 1]);
                    let kp = xor_distance(old_r[p as int].id@, target@);
                    if lex_lt(kb, kx) {
                        lemma_lex_lt_transitive(kb, kx, kp);
                        if b - 1 == p {
                            lemma_lex_lt_irreflexive(kb);
                        }
                    }
                } else {
                    assert(r@[a] == old_r[a - 1] && r@[b] == old_r[b - 1]);
                }
            }
        }
        i = i + 1;
    }
    assert(v@.take(v@.len() as int) =~= v@);
    r
}

/// Appends clones of the entries of `b`.
pub(crate) fn append_locations(out: &mut Vec<Location>, b: &Vec<Location>)
    ensures
        final(out)@ == old(out)@ + b@,
{
    let mut k: usize = 0;
    while k < b.len()
        invariant
            k <= b@.len(),
            out@ == old(out)@ + b@.take(k as int),
        decreases b@.len() - k,
    {
        out.push(b[k].clone());
        assert(b@.take(k + 1) =~= b@.take(k as int).push(b@[k as int]));
        k = k + 1;
    }
    assert(b@.take(b@.len() as int) =~= b@);
}

/// What the nearest peers to `target`, seen from `me`, are: as many as a full bucket or
/// else all the table holds; in ascending distance to `target`; the first of the
/// candidates that `gathered` picks, once sorted.
pub open spec fn is_nearest(t: Seq<Seq<Location>>, me: Seq<u8>, target: Seq<u8>, r: Seq<Location>) -> bool {
    &&& r.len() == min_len(BUCKET_SIZE as nat, concat_all(t).len())
    &&& sorted_by_distance(r, target)
    &&& exists|s: Seq<Location>|
        s.to_multiset() == gathered(t, bucket_index(me, target) as int).to_multiset()
            && sorted_by_distance(s, target) && r == s.take(r.len() as int)
}

/// The routing table: one bucket for each bucket index.
#[derive(Debug)]
pub struct RoutingTable(pub Vec<Bucket>);

impl View for RoutingTable {
    type V = Seq<Seq<Location>>;

    open spec fn view(&self) -> Seq<Seq<Location>> {
        Seq::new(self.0@.len(), |i: int| self.0@[i]@)
    }
}

impl RoutingTable {
    /// One bucket per index, each well formed.
    pub open spec fn wf(&self) -> bool {
        &&& self.0@.len() == BUCKET_LEN
        &&& forall|i: int| 0 <= i < BUCKET_LEN ==> (#[trigger] self.0@[i]).wf()
    }

    /// An empty table.
    pub fn new() -> (r: RoutingTable)
        ensures
            r.wf(),
            forall|i: int| 0 <= i < BUCKET_LEN ==> (#[trigger] r@[i]).len() == 0,
    {
        let mut buckets: Vec<Bucket> = Vec::new();
        let mut i: usize = 0;
        while i < BUCKET_LEN
            invariant
                i <= BUCKET_LEN,
                buckets@.len() == i,
                forall|j: int| 0 <= j < i ==> (#[trigger] buckets@[j])@.len() == 0,
            decreases BUCKET_LEN - i,
        {
            buckets.push(Bucket::new());
            i = i + 1;
        }
        RoutingTable(buckets)
    }

    /// The peers nearest to `id` that the table knows, seen from `node_id`: the candidates
    /// that `gathered` picks, sorted by ascending distance to `id` and cut to one bucket's
    /// worth.
    pub fn nearest_nodes_to_id(&self, node_id: &GUID, id: &GUID) -> (r: Vec<Location>)
        requires
            self.wf(),
        ensures
            is_nearest(self@, node_id@, id@, r@),
    {
        broadcast use vstd::seq_lib::group_to_multiset_ensures;

        let idx = Bucket::find_index(node_id, id);
        let ghost t = self@;
        let mut closest: Vec<Location> = Vec::new();
        append_locations(&mut closest, &self.0[idx].0);
        assert(closest@ =~= t[idx as int]);
        if closest.len() < BUCKET_SIZE {
            let mut i: usize = idx + 1;
            assert(t.subrange(idx + 1, idx + 1) =~= Seq::<Seq<Location>>::empty());
            while i < self.0.len()
                invariant
                    idx < i <= BUCKET_LEN,
                    t == self@,
                    self.wf(),
                    closest@ == t[idx as int] + concat_all(t.subrange(idx + 1, i as int)),
                decreases BUCKET_LEN - i,
            {
                append_locations(&mut closest, &self.0[i].0);
                assert(t.subrange(idx + 1, i + 1).drop_last() =~= t.subrange(idx + 1, i as int));
                i = i + 1;
            }
        }
        let ghost up = closest@;
        if closest.len() < BUCKET_SIZE {
            let mut i: usize = 0;
            assert(t.subrange(0, 0) =~= Seq::<Seq<Location>>::empty());
            assert(up + concat_all(t.subrange(0, 0)) =~= up);
            while i < idx
                invariant
                    i <= idx < BUCKET_LEN,
                    t == self@,
                    self.wf(),
                    closest@ == up + concat_all(t.subrange(0, i as int)),
                decreases idx - i,
            {
                append_locations(&mut closest, &self.0[i].0);
                assert(t.subrange(0, i + 1).drop_last() =~= t.subrange(0, i as int));
                i = i + 1;
            }
        }
        assert(closest@ == gathered(t, idx as int));
        let mut sorted = sort_by_distance(&closest, id);
        let ghost s = sorted@;
        sorted.truncate(BUCKET_SIZE);
        proof {
            lemma_gathered_len(t, idx as int);
            assert(s.len() == s.to_multiset().len());
            assert(closest@.len() == closest@.to_multiset().len());
            assert(sorted@ =~= s.take(sorted@.len() as int));
        }
        sorted
    }

    /// Offers the peer to its bucket, as `bucket_after_insert` says.
    pub fn insert(&mut self, id: GUID, node_location: Location)
        requires
            old(self).wf(),
        ensures
            final(self).wf(),
            final(self)@ == old(self)@.update(
                bucket_index(id@, node_location.id@) as int,
                bucket_after_insert(old(self)@[bucket_index(id@, node_location.id@) as int], node_location),
            ),
    {
        let bucket_idx = Bucket::find_index(&id, &node_location.id);
        proof {
            lemma_bucket_after_insert_wf(self@[bucket_idx as int], node_location);
        }
        let ghost before = self@;
        let bucket = &mut self.0[bucket_idx];
        if !bucket.is_full() {
            if bucket.holds(&node_location) {
                return;
            }
            bucket.insert(node_location);
        }
        assert(self@ =~= before.update(bucket_idx as int, bucket_after_insert(before[bucket_idx as int], node_location)));
    }

    /// Drops the peer with identifier `node_id`, if its bucket holds it.
    pub fn remove(&mut self, id: &GUID, node_id: &GUID)
        requires
            old(self).wf(),
        ensures
            final(self).wf(),
            final(self)@ == old(self)@.update(
                bucket_index(id@, node_id@) as int,
                without_id(old(self)@[bucket_index(id@, node_id@) as int], node_id@),
            ),
    {
        let bucket_idx = Bucket::find_index(id, node_id);
        proof {
            lemma_without_id_distinct(self@[bucket_idx as int], node_id@);
        }
        let ghost before = self@;
        let bucket = &mut self.0[bucket_idx];
        match bucket.position(node_id) {
            Some(idx) => {
                proof {
                    lemma_without_id_at(bucket@, node_id@, idx as int);
                }
                bucket.0.remove(idx);
            },
            None => {},
        }
        assert(self@ =~= before.update(bucket_idx as int, without_id(before[bucket_idx as int], node_id@)));
    }
}

} // verus!
