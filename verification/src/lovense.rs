//! Lovense pairing: `getQrCode` request construction and the pairing callback.

use vstd::prelude::*;
use vstd::utf8::encode_utf8;

use crate::number::{digit_char, hex_lower, lemma_digit_char, push_hex_lower};
use crate::text::same_text;

verus! {

/// Lovense `getQrCode` endpoint.
pub const QR_URL: &'static str = "https://api.lovense.com/api/lan/getQrCode";

/// Names the 16-byte digest that `md5::compute` gives for the bytes `data`.
pub uninterp spec fn md5_digest(data: Seq<u8>) -> Seq<u8>;

/// Calls `md5::compute` on `data` and returns the digest's bytes. Claims only
/// that they are a function of `data` alone; the MD5 algorithm is not restated.
#[verifier::external_body]
fn md5_compute(data: &[u8]) -> (digest: [u8; 16])
    ensures
        digest@ == md5_digest(data@),
{
    md5::compute(data).0
}

/// The `utoken` of `uid` and `salt`: the lowercase hex MD5 digest of the UTF-8
/// bytes of `uid` followed directly by `salt`.
pub open spec fn spec_utoken(uid: Seq<char>, salt: Seq<char>) -> Seq<char> {
    hex_lower(md5_digest(encode_utf8(uid + salt)))
}

/// A lowercase hexadecimal digit.
pub open spec fn is_lower_hex(c: char) -> bool {
    ('0' <= c <= '9') || ('a' <= c <= 'f')
}

/// `hex_lower` writes two lowercase hex digits per byte.
pub proof fn lemma_hex_lower(bytes: Seq<u8>)
    ensures
        hex_lower(bytes).len() == 2 * bytes.len(),
        forall|i: int| 0 <= i < hex_lower(bytes).len() ==> is_lower_hex(#[trigger] hex_lower(bytes)[i]),
    decreases bytes.len(),
{
    if bytes.len() > 0 {
        let p = bytes.drop_last();
        lemma_hex_lower(p);
        let h = hex_lower(bytes);
        let hp = hex_lower(p);
        let hi = (bytes.last() / 16) as int;
        let lo = (bytes.last() % 16) as int;
        assert forall|d: int| 0 <= d < 16 implies is_lower_hex(#[trigger] digit_char(d)) by {
            let t = seq!['0', '1', '2', '3', '4', '5', '6', '7', '8', '9', 'a', 'b', 'c', 'd', 'e', 'f'];
            assert(digit_char(d) == t[d]);
        }
        assert(is_lower_hex(digit_char(hi)));
        assert(is_lower_hex(digit_char(lo)));
        assert forall|i: int| 0 <= i < h.len() implies is_lower_hex(#[trigger] h[i]) by {
            if i < hp.len() {
                assert(h[i] == hp[i]);
            } else if i == hp.len() {
                assert(h[i] == digit_char(hi));
            } else {
                assert(h[i] == digit_char(lo));
            }
        }
    }
}

/// The UTF-8 bytes of two strings one after the other are the UTF-8 bytes of
/// the joined string.
pub proof fn lemma_encode_utf8_concat(a: Seq<char>, b: Seq<char>)
    ensures
        encode_utf8(a + b) == encode_utf8(a) + encode_utf8(b),
    decreases a.len(),
{
    if a.len() == 0 {
        assert(a + b =~= b);
        assert(encode_utf8(a) =~= Seq::<u8>::empty());
        assert(encode_utf8(a) + encode_utf8(b) =~= encode_utf8(b));
    } else {
        assert((a + b)[0] == a[0]);
        assert((a + b).drop_first() =~= a.drop_first() + b);
        lemma_encode_utf8_concat(a.drop_first(), b);
        let e = vstd::utf8::encode_scalar(a[0] as u32);
        assert(encode_utf8(a + b) == e + encode_utf8(a.drop_first() + b));
        assert(encode_utf8(a) == e + encode_utf8(a.drop_first()));
        assert(e + (encode_utf8(a.drop_first()) + encode_utf8(b)) =~= (e + encode_utf8(
            a.drop_first(),
        )) + encode_utf8(b));
    }
}

/// The digit characters: `0`..=`9` for values below ten, `a`..=`f` above.
pub proof fn lemma_hex_digit_char(d: int)
    requires
        0 <= d < 16,
    ensures
        d < 10 ==> digit_char(d) as u32 == 48 + d,
        d >= 10 ==> digit_char(d) as u32 == 87 + d,
{
    let t = seq!['0', '1', '2', '3', '4', '5', '6', '7', '8', '9', 'a', 'b', 'c', 'd', 'e', 'f'];
    assert(digit_char(d) == t[d]);
    if d < 10 {
        lemma_digit_char(d);
    } else if d == 10 {
        assert(t[10] == 'a');
    } else if d == 11 {
        assert(t[11] == 'b');
    } else if d == 12 {
        assert(t[12] == 'c');
    } else if d == 13 {
        assert(t[13] == 'd');
    } else if d == 14 {
        assert(t[14] == 'e');
    } else {
        assert(t[15] == 'f');
    }
}

/// Byte `i` is written as the two hex digits at `2 * i` and `2 * i + 1`, high
/// nibble first.
pub proof fn lemma_hex_lower_digits(bytes: Seq<u8>)
    ensures
        hex_lower(bytes).len() == 2 * bytes.len(),
        forall|i: int|
            0 <= i < bytes.len() ==> hex_lower(bytes)[2 * i] == digit_char((#[trigger] bytes[i] / 16) as int)
                && hex_lower(bytes)[2 * i + 1] == digit_char((bytes[i] % 16) as int),
    decreases bytes.len(),
{
    if bytes.len() > 0 {
        let p = bytes.drop_last();
        lemma_hex_lower_digits(p);
        let h = hex_lower(bytes);
        let hp = hex_lower(p);
        assert forall|i: int| 0 <= i < bytes.len() implies h[2 * i] == digit_char(
            (#[trigger] bytes[i] / 16) as int,
        ) && h[2 * i + 1] == digit_char((bytes[i] % 16) as int) by {
            if i < p.len() {
                assert(bytes[i] == p[i]);
                assert(h[2 * i] == hp[2 * i]);
                assert(h[2 * i + 1] == hp[2 * i + 1]);
            } else {
                assert(bytes[i] == bytes.last());
            }
        }
    }
}

/// The `utoken` is the lowercase hex MD5 digest of all the UTF-8 bytes of `uid`
/// followed by all the UTF-8 bytes of `salt`, nothing dropped, added or changed.
pub proof fn lemma_utoken_hashes_uid_then_salt(uid: Seq<char>, salt: Seq<char>)
    ensures
        spec_utoken(uid, salt) == hex_lower(md5_digest(encode_utf8(uid) + encode_utf8(salt))),
        encode_utf8(uid + salt).len() == encode_utf8(uid).len() + encode_utf8(salt).len(),
{
    lemma_encode_utf8_concat(uid, salt);
}

/// `utoken = md5(uid + salt)` as lowercase hex, per the Lovense Standard API.
pub fn utoken(uid: &str, salt: &str) -> (t: String)
    ensures
        t@ == spec_utoken(uid@, salt@),
        t@ == hex_lower(md5_digest(encode_utf8(uid@) + encode_utf8(salt@))),
        t@.len() == 32,
        forall|i: int| 0 <= i < t@.len() ==> is_lower_hex(#[trigger] t@[i]),
{
    let mut joined = String::from_str(uid);
    joined.append(salt);
    let digest = md5_compute(joined.as_str().as_bytes());
    let mut out = String::new();
    push_hex_lower(&mut out, &digest);
    proof {
        assert(out@ =~= hex_lower(digest@));
        lemma_hex_lower(digest@);
        lemma_encode_utf8_concat(uid@, salt@);
    }
    out
}

/// The `utoken` sees only the concatenation of `uid` and `salt`: no separator
/// marks where one ends and the other begins.
pub proof fn lemma_utoken_depends_on_concatenation(
    uid1: Seq<char>,
    salt1: Seq<char>,
    uid2: Seq<char>,
    salt2: Seq<char>,
)
    requires
        uid1 + salt1 == uid2 + salt2,
    ensures
        spec_utoken(uid1, salt1) == spec_utoken(uid2, salt2),
{
}

/// Body for `POST /api/lan/getQrCode`.
#[derive(Debug, Clone, PartialEq, Eq)]
pub struct QrRequest {
    pub token: String,
    pub uid: String,
    pub uname: String,
    pub utoken: String,
    pub v: u8,
}

impl QrRequest {
    /// Build a QR request for `uid`/`uname`, deriving `utoken` from `salt`.
    pub fn new(token: &str, uid: &str, uname: &str, salt: &str) -> (r: Self)
        ensures
            r.token@ == token@,
            r.uid@ == uid@,
            r.uname@ == uname@,
            r.utoken@ == spec_utoken(uid@, salt@),
            r.utoken@ == hex_lower(md5_digest(encode_utf8(uid@) + encode_utf8(salt@))),
            r.v == 2,
    {
        QrRequest {
            token: String::from_str(token),
            uid: String::from_str(uid),
            uname: String::from_str(uname),
            utoken: utoken(uid, salt),
            v: 2,
        }
    }
}


/// A single toy entry within a [`Callback`].
#[derive(Debug, PartialEq, Eq)]
pub struct Toy {
    pub name: String,
    pub id: String,
    pub status: i32,
}

impl Clone for Toy {
    fn clone(&self) -> (t: Self)
        ensures
            t == *self,
    {
        Toy { name: self.name.clone(), id: self.id.clone(), status: self.status }
    }
}

/// The toys of a [`Callback`], keyed by the toy key of the payload; no key
/// occurs twice.
#[derive(Debug, Eq)]
pub struct Toys {
    entries: Vec<(String, Toy)>,
}

/// No key occurs twice among `entries`.
pub open spec fn keys_distinct(entries: Seq<(Seq<char>, Toy)>) -> bool {
    forall|i: int, j: int|
        0 <= i < entries.len() && 0 <= j < entries.len() && i != j ==> #[trigger] entries[i].0
            != #[trigger] entries[j].0
}

/// The toys among `entries` that are online (`status == 1`), in entry order.
pub open spec fn online(entries: Seq<(Seq<char>, Toy)>) -> Seq<Toy>
    decreases entries.len(),
{
    if entries.len() == 0 {
        seq![]
    } else if entries.last().1.status == 1 {
        online(entries.drop_last()).push(entries.last().1)
    } else {
        online(entries.drop_last())
    }
}

/// The keys of `entries` as characters.
pub open spec fn entries_view(entries: Seq<(String, Toy)>) -> Seq<(Seq<char>, Toy)> {
    entries.map_values(|e: (String, Toy)| (e.0@, e.1))
}

/// The toys of `entries`, in entry order.
pub open spec fn entry_toys(entries: Seq<(Seq<char>, Toy)>) -> Seq<Toy> {
    entries.map_values(|x: (Seq<char>, Toy)| x.1)
}

/// The toys of `toys` whose status is `1`, in order.
pub open spec fn status_one(toys: Seq<Toy>) -> Seq<Toy> {
    toys.filter(|t: Toy| t.status == 1)
}

/// The online toys are exactly the entries' toys whose status is `1`, in entry
/// order: every such toy is there, and nothing else.
pub proof fn lemma_online_is_status_filter(entries: Seq<(Seq<char>, Toy)>)
    ensures
        online(entries) == status_one(entry_toys(entries)),
        forall|i: int|
            0 <= i < entries.len() && entries[i].1.status == 1 ==> online(entries).contains(
                #[trigger] entries[i].1,
            ),
        forall|k: int| 0 <= k < online(entries).len() ==> (#[trigger] online(entries)[k]).status == 1,
        online(entries).len() <= entries.len(),
    decreases entries.len(),
{
    reveal_with_fuel(Seq::filter, 1);
    let ts = entry_toys(entries);
    if entries.len() > 0 {
        lemma_online_is_status_filter(entries.drop_last());
        assert(ts.drop_last() =~= entry_toys(entries.drop_last()));
        assert(ts.last() == entries.last().1);
    } else {
        assert(ts =~= Seq::<Toy>::empty());
    }
    assert(online(entries) == status_one(ts));
    assert forall|i: int| 0 <= i < entries.len() && entries[i].1.status == 1 implies online(
        entries,
    ).contains(#[trigger] entries[i].1) by {
        assert(ts[i] == entries[i].1);
        ts.lemma_filter_contains(|t: Toy| t.status == 1, i);
    }
    assert forall|k: int| 0 <= k < online(entries).len() implies (#[trigger] online(
        entries,
    )[k]).status == 1 by {
        ts.lemma_filter_pred(|t: Toy| t.status == 1, k);
    }
    ts.lemma_filter_len(|t: Toy| t.status == 1);
}

impl View for Toys {
    type V = Seq<(Seq<char>, Toy)>;

    closed spec fn view(&self) -> Seq<(Seq<char>, Toy)> {
        entries_view(self.entries@)
    }
}

impl Toys {
    #[verifier::type_invariant]
    spec fn wf(self) -> bool {
        keys_distinct(self@)
    }

    /// No toys.
    pub fn new() -> (t: Self)
        ensures
            t@ == Seq::<(Seq<char>, Toy)>::empty(),
            keys_distinct(t@),
    {
        let t = Toys { entries: Vec::new() };
        assert(t@ =~= Seq::<(Seq<char>, Toy)>::empty());
        t
    }

    /// Position of the entry with key `key`, if any.
    fn find(&self, key: &str) -> (r: Option<usize>)
        ensures
            r matches Some(i) ==> i < self@.len() && self@[i as int].0 == key@,
            r is None ==> forall|i: int| 0 <= i < self@.len() ==> #[trigger] self@[i].0 != key@,
    {
        let n = self.entries.len();
        let mut i: usize = 0;
        while i < n
            invariant
                i <= n,
                n == self@.len(),
                n == self.entries@.len(),
                self@ == entries_view(self.entries@),
                forall|k: int| 0 <= k < i ==> #[trigger] self@[k].0 != key@,
            decreases n - i,
        {
            if same_text(self.entries[i].0.as_str(), key) {
                return Some(i);
            }
            i = i + 1;
        }
        None
    }

    /// Insert `toy` under `key`, replacing the toy already stored under `key`.
    pub fn insert(&mut self, key: String, toy: Toy)
        ensures
            ({
                let k = key@;
                if exists|i: int| 0 <= i < old(self)@.len() && #[trigger] old(self)@[i].0 == k {
                    exists|i: int|
                        0 <= i < old(self)@.len() && #[trigger] old(self)@[i].0 == k && final(self)@
                            == old(self)@.update(i, (k, toy))
                } else {
                    final(self)@ == old(self)@.push((k, toy))
                }
            }),
            keys_distinct(final(self)@),
    {
        proof {
            use_type_invariant(&*self);
        }
        match self.find(key.as_str()) {
            Some(i) => {
                let ghost k = key@;
                let mut entries = Vec::new();
                std::mem::swap(&mut entries, &mut self.entries);
                entries.set(i, (key, toy));
                assert(entries_view(entries@) =~= old(self)@.update(
                    i as int,
                    (k, toy),
                ));
                self.entries = entries;
            },
            None => {
                let ghost k = key@;
                let mut entries = Vec::new();
                std::mem::swap(&mut entries, &mut self.entries);
                entries.push((key, toy));
                assert(entries_view(entries@) =~= old(self)@.push(
                    (k, toy),
                ));
                self.entries = entries;
            },
        }
    }

    /// The toy stored under `key`, if any.
    pub fn get(&self, key: &str) -> (r: Option<&Toy>)
        ensures
            r matches Some(t) ==> exists|i: int|
                0 <= i < self@.len() && #[trigger] self@[i].0 == key@ && self@[i].1 == *t,
            r is None ==> forall|i: int| 0 <= i < self@.len() ==> #[trigger] self@[i].0 != key@,
            keys_distinct(self@),
    {
        proof {
            use_type_invariant(self);
        }
        match self.find(key) {
            Some(i) => Some(&self.entries[i].1),
            None => None,
        }
    }

    /// Number of toys.
    pub fn len(&self) -> (n: usize)
        ensures
            n == self@.len(),
    {
        self.entries.len()
    }

    /// Whether there are no toys.
    pub fn is_empty(&self) -> (b: bool)
        ensures
            b == (self@.len() == 0),
    {
        self.entries.len() == 0
    }

    /// The keys and toys, in entry order.
    pub fn into_entries(self) -> (r: Vec<(String, Toy)>)
        ensures
            entries_view(r@) == self@,
            keys_distinct(self@),
    {
        proof {
            use_type_invariant(&self);
        }
        self.entries
    }

    /// The online toys (`status == 1`), in entry order.
    pub fn online(&self) -> (r: Vec<&Toy>)
        ensures
            r@.map_values(|t: &Toy| *t) == online(self@),
    {
        let n = self.entries.len();
        let mut r: Vec<&Toy> = Vec::new();
        let mut i: usize = 0;
        while i < n
            invariant
                i <= n,
                n == self.entries@.len(),
                n == self@.len(),
                self@ == entries_view(self.entries@),
                r@.map_values(|t: &Toy| *t) == online(self@.take(i as int)),
            decreases n - i,
        {
            let ghost before = r@;
            let t = &self.entries[i].1;
            proof {
                let p = self@.take(i + 1);
                assert(p.drop_last() =~= self@.take(i as int));
                assert(p.last() == self@[i as int]);
                assert(self@[i as int].1 == *t);
            }
            if t.status == 1 {
                r.push(t);
                assert(r@.map_values(|t: &Toy| *t) =~= before.map_values(|t: &Toy| *t).push(*t));
            }
            i = i + 1;
        }
        assert(self@.take(n as int) =~= self@);
        r
    }
}

/// Two toys with the same name, id and status.
pub open spec fn same_toy(a: Toy, b: Toy) -> bool {
    a.name@ == b.name@ && a.id@ == b.id@ && a.status == b.status
}

/// `b` maps `key` to a toy that is the same as `toy`.
pub open spec fn has_entry(b: Seq<(Seq<char>, Toy)>, key: Seq<char>, toy: Toy) -> bool {
    exists|j: int| 0 <= j < b.len() && #[trigger] b[j].0 == key && same_toy(toy, b[j].1)
}

/// Two toy collections of the same size in which each key of `a` maps to the
/// same toy in `b`, whatever the order of their entries.
pub open spec fn same_toys(a: Seq<(Seq<char>, Toy)>, b: Seq<(Seq<char>, Toy)>) -> bool {
    &&& a.len() == b.len()
    &&& forall|i: int| 0 <= i < a.len() ==> #[trigger] has_entry(b, a[i].0, a[i].1)
}

/// Whether two toys have the same name, id and status.
fn toy_eq(a: &Toy, b: &Toy) -> (r: bool)
    ensures
        r == same_toy(*a, *b),
{
    a.name == b.name && a.id == b.id && a.status == b.status
}

impl Toys {
    /// Whether `self` and `other` hold the same toys under the same keys.
    fn same_as(&self, other: &Toys) -> (r: bool)
        ensures
            r == same_toys(self@, other@),
    {
        proof {
            use_type_invariant(other);
        }
        let n = self.entries.len();
        if n != other.entries.len() {
            return false;
        }
        let mut i: usize = 0;
        while i < n
            invariant
                i <= n,
                n == self.entries@.len(),
                n == self@.len(),
                n == other@.len(),
                self@ == entries_view(self.entries@),
                keys_distinct(other@),
                forall|k: int| 0 <= k < i ==> #[trigger] has_entry(other@, self@[k].0, self@[k].1),
            decreases n - i,
        {
            let key = &self.entries[i].0;
            let toy = &self.entries[i].1;
            assert(self@[i as int].0 == key@ && self@[i as int].1 == *toy);
            match other.find(key.as_str()) {
                None => {
                    assert(!has_entry(other@, self@[i as int].0, self@[i as int].1));
                    return false;
                },
                Some(j) => {
                    let ghost ot = other.entries@[j as int].1;
                    assert(other@[j as int] == (other.entries@[j as int].0@, ot));
                    let eq = toy_eq(toy, &other.entries[j].1);
                    assert(eq == same_toy(*toy, ot));
                    if !eq {
                        proof {
                            assert(other@[j as int].1 == other.entries@[j as int].1);
                            assert forall|j2: int|
                                0 <= j2 < other@.len() && #[trigger] other@[j2].0 == self@[i as int].0
                                implies !same_toy(self@[i as int].1, other@[j2].1) by {
                                if j2 != j {
                                    assert(other@[j2].0 != other@[j as int].0);
                                }
                            }
                            assert(!has_entry(other@, self@[i as int].0, self@[i as int].1));
                        }
                        return false;
                    }
                    assert(other@[j as int].1 == other.entries@[j as int].1);
                    assert(other@[j as int].0 == self@[i as int].0 && same_toy(
                        self@[i as int].1,
                        other@[j as int].1,
                    ));
                    assert(has_entry(other@, self@[i as int].0, self@[i as int].1));
                },
            }
            i = i + 1;
        }
        true
    }
}

impl PartialEq for Toys {
    fn eq(&self, other: &Self) -> (r: bool) {
        self.same_as(other)
    }
}

impl vstd::std_specs::cmp::PartialEqSpecImpl for Toys {
    open spec fn obeys_eq_spec() -> bool {
        true
    }

    open spec fn eq_spec(&self, other: &Self) -> bool {
        same_toys(self@, other@)
    }
}

impl Clone for Toys {
    fn clone(&self) -> (t: Self)
        ensures
            t@ == self@,
            keys_distinct(t@),
    {
        proof {
            use_type_invariant(self);
        }
        let n = self.entries.len();
        let mut entries: Vec<(String, Toy)> = Vec::new();
        let mut i: usize = 0;
        while i < n
            invariant
                i <= n,
                n == self.entries@.len(),
                self@ == entries_view(self.entries@),
                entries_view(entries@) == self@.take(i as int),
                entries@.len() == i,
            decreases n - i,
        {
            let ghost before = entries@;
            let key = self.entries[i].0.clone();
            let toy = self.entries[i].1.clone();
            assert(key@ == self@[i as int].0);
            assert(toy == self@[i as int].1);
            entries.push((key, toy));
            assert(entries@ == before.push((key, toy)));
            assert forall|k: int| 0 <= k < i + 1 implies #[trigger] entries_view(entries@)[k] == self@.take(i + 1)[k] by {
                if k < i {
                    assert(entries@[k] == before[k]);
                    assert(entries_view(before)[k] == self@.take(i as int)[k]);
                }
            }
            assert(entries_view(entries@) =~= self@.take(i + 1));
            i = i + 1;
        }
        assert(self@.take(n as int) =~= self@);
        Toys { entries }
    }
}

/// Payload Lovense POSTs to the developer callback after a user scans the QR.
#[derive(Debug, Clone, PartialEq, Eq)]
pub struct Callback {
    pub uid: String,
    pub domain: Option<String>,
    pub https_port: Option<String>,
    pub toys: Toys,
}

impl Callback {
    /// Toys currently online (`status == 1`).
    pub fn online_toys(&self) -> (r: Vec<&Toy>)
        ensures
            r@.map_values(|t: &Toy| *t) == online(self.toys@),
            r@.map_values(|t: &Toy| *t) == status_one(entry_toys(self.toys@)),
    {
        proof {
            lemma_online_is_status_filter(self.toys@);
        }
        self.toys.online()
    }
}

} // verus!
