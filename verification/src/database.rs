//! An example database: a key-value multi-map of byte strings with
//! save/fetch/delete/move operations, an in-memory implementation, and
//! the content-hash naming used by file-backed implementations.

use vstd::prelude::*;

use sha2::Digest;

verus! {

/// An example returned by a database.
pub type Example = Vec<u8>;

/// Byte-wise equality of two byte strings.
pub fn bytes_eq(a: &[u8], b: &[u8]) -> (r: bool)
    ensures
        r == (a@ == b@),
{
    if a.len() != b.len() {
        proof {
            if a@ == b@ {
                assert(a@.len() == b@.len());
            }
        }
        return false;
    }
    let n = a.len();
    let mut i: usize = 0;
    while i < n
        invariant
            0 <= i <= n == a@.len() == b@.len(),
            forall|j: int| 0 <= j < i ==> a@[j] == b@[j],
        decreases n - i,
    {
        if a[i] != b[i] {
            proof {
                if a@ == b@ {
                    assert(a@[i as int] == b@[i as int]);
                }
            }
            return false;
        }
        i += 1;
    }
    assert(a@ =~= b@);
    true
}

/// A copy of a byte string.
pub fn copy_bytes(s: &[u8]) -> (r: Vec<u8>)
    ensures
        r@ == s@,
{
    let n = s.len();
    let mut out: Vec<u8> = Vec::new();
    let mut i: usize = 0;
    while i < n
        invariant
            0 <= i <= n == s@.len(),
            out@ == s@.subrange(0, i as int),
        decreases n - i,
    {
        out.push(s[i]);
        assert(out@ =~= s@.subrange(0, i + 1));
        i += 1;
    }
    assert(out@ =~= s@);
    out
}

/// The byte strings of a list of owned byte vectors.
pub open spec fn byte_views(items: Seq<Vec<u8>>) -> Seq<Seq<u8>> {
    Seq::new(items.len(), |i: int| items[i]@)
}

/// The result of fetching a key: the stored examples, each one once.
pub struct Fetch {
    items: Vec<Example>,
}

impl Fetch {
    /// The byte strings held, in order.
    pub closed spec fn items_seq(self) -> Seq<Seq<u8>> {
        byte_views(self.items@)
    }

    /// Wrap a list of examples.
    pub fn new(inner: Vec<Example>) -> (r: Fetch)
        ensures
            r.items_seq() == byte_views(inner@),
    {
        Fetch { items: inner }
    }

    /// The held examples as a vector.
    pub fn into_vec(self) -> (r: Vec<Example>)
        ensures
            byte_views(r@) == self.items_seq(),
    {
        self.items
    }
}

/// Storage for examples: a multi-map from byte-string keys to sets of
/// byte-string values.
pub trait ExampleDatabase {
    /// Value `value` is currently stored under `key`.
    spec fn stored(&self, key: Seq<u8>, value: Seq<u8>) -> bool;

    /// Save `value` under `key`. If this value is already present for
    /// this key, silently do nothing.
    fn save(&mut self, key: &[u8], value: &[u8])
        ensures
            forall|k: Seq<u8>, v: Seq<u8>|
                #[trigger] final(self).stored(k, v) <==> old(self).stored(k, v) || (k == key@ && v
                    == value@),
    ;

    /// Remove `value` from `key`. If this value is not present, silently
    /// do nothing.
    fn delete(&mut self, key: &[u8], value: &[u8])
        ensures
            forall|k: Seq<u8>, v: Seq<u8>|
                #[trigger] final(self).stored(k, v) <==> old(self).stored(k, v) && !(k == key@ && v
                    == value@),
    ;

    /// Return the values stored under `key`, each one once.
    fn fetch(&self, key: &[u8]) -> (r: Fetch)
        ensures
            forall|v: Seq<u8>| #[trigger] r.items_seq().contains(v) <==> self.stored(key@, v),
            forall|p: int, q: int|
                0 <= p < q < r.items_seq().len() ==> r.items_seq()[p] != r.items_seq()[q],
    ;

    /// Move `value` from key `src` to key `dst`.
    fn move_value(&mut self, src: &[u8], dst: &[u8], value: &[u8])
        ensures
            forall|k: Seq<u8>, v: Seq<u8>|
                #[trigger] final(self).stored(k, v) <==> (old(self).stored(k, v) && !(k == src@ && v
                    == value@ && src@ != dst@)) || (k == dst@ && v == value@),
    {
        if bytes_eq(src, dst) {
            self.save(src, value);
        } else {
            self.delete(src, value);
            self.save(dst, value);
        }
    }
}

/// A non-persistent example database: a list of key-value pairs with no
/// pair repeated.
pub struct InMemoryExampleDatabase {
    data: Vec<(Vec<u8>, Vec<u8>)>,
}

impl InMemoryExampleDatabase {
    /// No key-value pair occurs twice.
    #[verifier::type_invariant]
    spec fn inv(self) -> bool {
        forall|i: int, j: int|
            0 <= i < j < self.data@.len() ==> !((#[trigger] self.data@[i]).0@ == (
            #[trigger] self.data@[j]).0@ && self.data@[i].1@ == self.data@[j].1@)
    }

    /// Create a new empty in-memory database.
    pub fn new() -> (r: InMemoryExampleDatabase)
        ensures
            forall|k: Seq<u8>, v: Seq<u8>| !r.stored(k, v),
    {
        InMemoryExampleDatabase { data: Vec::new() }
    }
}

impl ExampleDatabase for InMemoryExampleDatabase {
    closed spec fn stored(&self, key: Seq<u8>, value: Seq<u8>) -> bool {
        exists|i: int|
            0 <= i < self.data@.len() && (#[trigger] self.data@[i]).0@ == key
                && self.data@[i].1@ == value
    }

    fn save(&mut self, key: &[u8], value: &[u8]) {
        proof {
            use_type_invariant(&*self);
        }
        let mut data: Vec<(Vec<u8>, Vec<u8>)> = Vec::new();
        std::mem::swap(&mut data, &mut self.data);
        let ghost d0 = data@;
        let n = data.len();
        let mut i: usize = 0;
        while i < n
            invariant
                0 <= i <= n == data@.len(),
                data@ == d0,
                d0 == old(self).data@,
                self.data@.len() == 0,
                forall|a: int, b: int|
                    0 <= a < b < d0.len() ==> !((#[trigger] d0[a]).0@ == (#[trigger] d0[b]).0@
                        && d0[a].1@ == d0[b].1@),
                forall|j: int|
                    0 <= j < i ==> !((#[trigger] data@[j]).0@ == key@ && data@[j].1@ == value@),
            decreases n - i,
        {
            if bytes_eq(data[i].0.as_slice(), key) && bytes_eq(data[i].1.as_slice(), value) {
                std::mem::swap(&mut data, &mut self.data);
                proof {
                    assert forall|k: Seq<u8>, v: Seq<u8>|
                        #[trigger] self.stored(k, v) <==> old(self).stored(k, v) || (k == key@ && v
                            == value@) by {
                        if k == key@ && v == value@ {
                            assert(self.data@[i as int].0@ == k && self.data@[i as int].1@ == v);
                        }
                    }
                }
                return ;
            }
            i += 1;
        }
        let pair = (copy_bytes(key), copy_bytes(value));
        data.push(pair);
        proof {
            assert(data@ == d0.push(pair));
            assert forall|a: int, b: int|
                0 <= a < b < data@.len() implies !((#[trigger] data@[a]).0@ == (
            #[trigger] data@[b]).0@ && data@[a].1@ == data@[b].1@) by {
                if b < d0.len() {
                    assert(data@[a] == d0[a] && data@[b] == d0[b]);
                } else {
                    assert(data@[b] == pair);
                    assert(data@[a] == d0[a]);
                }
            }
        }
        std::mem::swap(&mut data, &mut self.data);
        proof {
            assert(self.data@ == d0.push(pair));
            assert forall|k: Seq<u8>, v: Seq<u8>|
                #[trigger] self.stored(k, v) <==> old(self).stored(k, v) || (k == key@ && v
                    == value@) by {
                if self.stored(k, v) {
                    let w = choose|w: int|
                        0 <= w < self.data@.len() && (#[trigger] self.data@[w]).0@ == k
                            && self.data@[w].1@ == v;
                    if w < d0.len() {
                        assert(d0[w] == self.data@[w]);
                        assert(old(self).stored(k, v));
                    }
                }
                if old(self).stored(k, v) {
                    let w = choose|w: int|
                        0 <= w < d0.len() && (#[trigger] d0[w]).0@ == k && d0[w].1@ == v;
                    assert(self.data@[w] == d0[w]);
                }
                if k == key@ && v == value@ {
                    assert(self.data@[d0.len() as int] == pair);
                }
            }
        }
    }

    fn delete(&mut self, key: &[u8], value: &[u8]) {
        proof {
            use_type_invariant(&*self);
        }
        let mut data: Vec<(Vec<u8>, Vec<u8>)> = Vec::new();
        std::mem::swap(&mut data, &mut self.data);
        let ghost d0 = data@;
        let n = data.len();
        let mut i: usize = 0;
        while i < n
            invariant
                0 <= i <= n == data@.len(),
                data@ == d0,
                d0 == old(self).data@,
                self.data@.len() == 0,
                forall|a: int, b: int|
                    0 <= a < b < d0.len() ==> !((#[trigger] d0[a]).0@ == (#[trigger] d0[b]).0@
                        && d0[a].1@ == d0[b].1@),
                forall|j: int|
                    0 <= j < i ==> !((#[trigger] data@[j]).0@ == key@ && data@[j].1@ == value@),
            decreases n - i,
        {
            if bytes_eq(data[i].0.as_slice(), key) && bytes_eq(data[i].1.as_slice(), value) {
                data.remove(i);
                proof {
                    let dd = data@;
                    assert(dd == d0.remove(i as int));
                    d0.remove_ensures(i as int);
                    assert(dd.len() == d0.len() - 1);
                    assert(forall|j: int| 0 <= j < i ==> #[trigger] dd[j] == d0[j]);
                    assert(forall|j: int| i <= j < dd.len() ==> #[trigger] dd[j] == d0[j + 1]);
                    assert forall|a: int, b: int|
                        0 <= a < b < dd.len() implies !((#[trigger] dd[a]).0@ == (
                    #[trigger] dd[b]).0@ && dd[a].1@ == dd[b].1@) by {
                        let a0 = if a < i { a } else { a + 1 };
                        let b0 = if b < i { b } else { b + 1 };
                        assert(dd[a] == d0[a0] && dd[b] == d0[b0]);
                    }
                }
                std::mem::swap(&mut data, &mut self.data);
                proof {
                    let dd = self.data@;
                    assert(dd == d0.remove(i as int));
                    assert(dd.len() == d0.len() - 1);
                    assert(forall|j: int| 0 <= j < i ==> #[trigger] dd[j] == d0[j]);
                    assert(forall|j: int| i <= j < dd.len() ==> #[trigger] dd[j] == d0[j + 1]);
                    assert forall|k: Seq<u8>, v: Seq<u8>|
                        #[trigger] self.stored(k, v) <==> old(self).stored(k, v) && !(k == key@ && v
                            == value@) by {
                        if self.stored(k, v) {
                            let w = choose|w: int|
                                0 <= w < dd.len() && (#[trigger] dd[w]).0@ == k && dd[w].1@ == v;
                            let w0 = if w < i { w } else { w + 1 };
                            assert(dd[w] == d0[w0]);
                            assert(old(self).stored(k, v));
                            if k == key@ && v == value@ {
                                assert(d0[w0].0@ == d0[i as int].0@ && d0[w0].1@ == d0[i as int].1@);
                                assert(false);
                            }
                        }
                        if old(self).stored(k, v) && !(k == key@ && v == value@) {
                            let w = choose|w: int|
                                0 <= w < d0.len() && (#[trigger] d0[w]).0@ == k && d0[w].1@ == v;
                            if w < i {
                                assert(dd[w] == d0[w]);
                            } else {
                                assert(w != i);
                                assert(dd[w - 1] == d0[w]);
                            }
                        }
                    }
                }
                return ;
            }
            i += 1;
        }
        std::mem::swap(&mut data, &mut self.data);
        proof {
            assert forall|k: Seq<u8>, v: Seq<u8>|
                #[trigger] self.stored(k, v) <==> old(self).stored(k, v) && !(k == key@ && v
                    == value@) by {
                if old(self).stored(k, v) && k == key@ && v == value@ {
                    let w = choose|w: int|
                        0 <= w < d0.len() && (#[trigger] d0[w]).0@ == k && d0[w].1@ == v;
                    assert(false);
                }
            }
        }
    }

    fn fetch(&self, key: &[u8]) -> (r: Fetch) {
        proof {
            use_type_invariant(&*self);
        }
        let n = self.data.len();
        let mut items: Vec<Example> = Vec::new();
        let ghost d = self.data@;
        let mut i: usize = 0;
        while i < n
            invariant
                0 <= i <= n == d.len() == self.data@.len(),
                d == self.data@,
                forall|i2: int, j2: int|
                    0 <= i2 < j2 < d.len() ==> !((#[trigger] d[i2]).0@ == (#[trigger] d[j2]).0@
                        && d[i2].1@ == d[j2].1@),
                forall|v: Seq<u8>|
                    #[trigger] byte_views(items@).contains(v) <==> exists|j: int|
                        0 <= j < i && (#[trigger] d[j]).0@ == key@ && d[j].1@ == v,
                forall|p: int, q: int|
                    0 <= p < q < items@.len() ==> (#[trigger] items@[p])@ != (
                    #[trigger] items@[q])@,
            decreases n - i,
        {
            let ghost items0 = items@;
            if bytes_eq(self.data[i].0.as_slice(), key) {
                items.push(copy_bytes(self.data[i].1.as_slice()));
                proof {
                    assert(items@ == items0.push(items@.last()));
                    assert(items@.last()@ == d[i as int].1@);
                    assert forall|p: int, q: int|
                        0 <= p < q < items@.len() implies (#[trigger] items@[p])@ != (
                    #[trigger] items@[q])@ by {
                        if q == items@.len() - 1 {
                            assert(items@[p] == items0[p]);
                            assert(byte_views(items0)[p] == items0[p]@);
                            assert(byte_views(items0).contains(items0[p]@));
                            let j = choose|j: int|
                                0 <= j < i && (#[trigger] d[j]).0@ == key@ && d[j].1@
                                    == items0[p]@;
                            if items@[p]@ == items@[q]@ {
                                assert(d[j].0@ == d[i as int].0@ && d[j].1@ == d[i as int].1@);
                                assert(false);
                            }
                        } else {
                            assert(items@[p] == items0[p] && items@[q] == items0[q]);
                        }
                    }
                }
            }
            proof {
                let ns = byte_views(items@);
                let os = byte_views(items0);
                assert forall|v: Seq<u8>| #[trigger] ns.contains(v) <==> exists|j: int|
                    0 <= j < i + 1 && (#[trigger] d[j]).0@ == key@ && d[j].1@ == v by {
                    if ns.contains(v) {
                        let p = choose|p: int| 0 <= p < ns.len() && ns[p] == v;
                        if p < items0.len() {
                            assert(os[p] == v);
                            assert(os.contains(v));
                            let j = choose|j: int|
                                0 <= j < i && (#[trigger] d[j]).0@ == key@ && d[j].1@ == v;
                            assert(0 <= j < i + 1 && d[j].0@ == key@ && d[j].1@ == v);
                        } else {
                            assert(items@[p]@ == d[i as int].1@);
                            assert(d[i as int].0@ == key@ && d[i as int].1@ == v);
                        }
                    }
                    if exists|j: int| 0 <= j < i + 1 && (#[trigger] d[j]).0@ == key@ && d[j].1@
                        == v {
                        let j = choose|j: int|
                            0 <= j < i + 1 && (#[trigger] d[j]).0@ == key@ && d[j].1@ == v;
                        if j < i {
                            assert(os.contains(v));
                            let p = choose|p: int| 0 <= p < os.len() && os[p] == v;
                            assert(items@[p] == items0[p]);
                            assert(ns[p] == v);
                        } else {
                            assert(items@.last()@ == v);
                            assert(ns[ns.len() - 1] == v);
                        }
                    }
                }
            }
            i += 1;
        }
        let r = Fetch::new(items);
        proof {
            assert forall|v: Seq<u8>| #[trigger] r.items_seq().contains(v) <==> self.stored(
                key@,
                v,
            ) by {
                assert(r.items_seq() =~= byte_views(items@));
            }
        }
        r
    }
}

/// The byte-for-byte digest the content hash is built from.
pub uninterp spec fn sha384_of(data: Seq<u8>) -> Seq<u8>;

/// Relies on `sha2::Sha384` through `digest::Digest::digest`: the SHA-384
/// digest of the input bytes, 48 bytes long and a function of the input
/// alone.
#[verifier::external_body]
fn sha384_digest(data: &[u8]) -> (r: Vec<u8>)
    ensures
        r@ == sha384_of(data@),
        r@.len() == 48,
{
    sha2::Sha384::digest(data).to_vec()
}

/// The hexadecimal digit for a value below 16.
pub open spec fn spec_hex_digit(n: int) -> char {
    if n == 0 {
        '0'
    } else if n == 1 {
        '1'
    } else if n == 2 {
        '2'
    } else if n == 3 {
        '3'
    } else if n == 4 {
        '4'
    } else if n == 5 {
        '5'
    } else if n == 6 {
        '6'
    } else if n == 7 {
        '7'
    } else if n == 8 {
        '8'
    } else if n == 9 {
        '9'
    } else if n == 10 {
        'a'
    } else if n == 11 {
        'b'
    } else if n == 12 {
        'c'
    } else if n == 13 {
        'd'
    } else if n == 14 {
        'e'
    } else {
        'f'
    }
}

/// The first sixteen hexadecimal characters of a digest.
pub open spec fn spec_hex16(d: Seq<u8>) -> Seq<char> {
    Seq::new(
        16,
        |i: int|
            if i % 2 == 0 {
                spec_hex_digit(d[i / 2] as int / 16)
            } else {
                spec_hex_digit(d[i / 2] as int % 16)
            },
    )
}

/// One hexadecimal digit as a string.
fn hex_digit_str(n: u8) -> (r: &'static str)
    requires
        n < 16,
    ensures
        r@.len() == 1,
        r@[0] == spec_hex_digit(n as int),
{
    match n {
        0 => {
            proof {
                reveal_strlit("0");
            }
            "0"
        },
        1 => {
            proof {
                reveal_strlit("1");
            }
            "1"
        },
        2 => {
            proof {
                reveal_strlit("2");
            }
            "2"
        },
        3 => {
            proof {
                reveal_strlit("3");
            }
            "3"
        },
        4 => {
            proof {
                reveal_strlit("4");
            }
            "4"
        },
        5 => {
            proof {
                reveal_strlit("5");
            }
            "5"
        },
        6 => {
            proof {
                reveal_strlit("6");
            }
            "6"
        },
        7 => {
            proof {
                reveal_strlit("7");
            }
            "7"
        },
        8 => {
            proof {
                reveal_strlit("8");
            }
            "8"
        },
        9 => {
            proof {
                reveal_strlit("9");
            }
            "9"
        },
        10 => {
            proof {
                reveal_strlit("a");
            }
            "a"
        },
        11 => {
            proof {
                reveal_strlit("b");
            }
            "b"
        },
        12 => {
            proof {
                reveal_strlit("c");
            }
            "c"
        },
        13 => {
            proof {
                reveal_strlit("d");
            }
            "d"
        },
        14 => {
            proof {
                reveal_strlit("e");
            }
            "e"
        },
        _ => {
            proof {
                reveal_strlit("f");
            }
            "f"
        },
    }
}

/// The 16-character hexadecimal prefix of the SHA-384 digest of `value`:
/// the name under which a file-backed database stores this content.
pub fn calculate_hash(value: &[u8]) -> (r: String)
    ensures
        r@.len() == 16,
        r@ == spec_hex16(sha384_of(value@)),
{
    let digest = sha384_digest(value);
    let mut out = String::new();
    let mut i: usize = 0;
    while i < 8
        invariant
            0 <= i <= 8,
            digest@ == sha384_of(value@),
            digest@.len() == 48,
            out@.len() == 2 * i,
            out@ =~= spec_hex16(digest@).take(2 * i),
        decreases 8 - i,
    {
        let b = digest[i];
        let hi = b / 16;
        let lo = b % 16;
        out.append(hex_digit_str(hi));
        out.append(hex_digit_str(lo));
        proof {
            let full = spec_hex16(digest@);
            assert(full[2 * i] == spec_hex_digit(hi as int));
            assert(full[2 * i + 1] == spec_hex_digit(lo as int));
            assert(out@ =~= full.take(2 * i + 2));
        }
        i += 1;
    }
    assert(out@ =~= spec_hex16(digest@));
    out
}

} // verus!
