//! Route keys: an HTTP method and a request path, compared byte for byte.

use core::cmp::Ordering;
use vstd::prelude::*;
use vstd::utf8::{encode_utf8, encode_utf8_decode_utf8};

verus! {

/// Strict lexicographic order on byte strings, the order of `str`.
pub open spec fn bytes_lt(a: Seq<u8>, b: Seq<u8>) -> bool
    decreases a.len(),
{
    if b.len() == 0 {
        false
    } else if a.len() == 0 {
        true
    } else if a[0] != b[0] {
        a[0] < b[0]
    } else {
        bytes_lt(a.drop_first(), b.drop_first())
    }
}

/// The UTF-8 bytes of a text.
pub open spec fn utf8(s: Seq<char>) -> Seq<u8> {
    encode_utf8(s)
}

/// Past a common prefix, the order is decided by what follows it.
proof fn lemma_bytes_lt_skip(a: Seq<u8>, b: Seq<u8>, i: int)
    requires
        0 <= i <= a.len(),
        i <= b.len(),
        a.subrange(0, i) == b.subrange(0, i),
    ensures
        bytes_lt(a, b) == bytes_lt(a.skip(i), b.skip(i)),
    decreases i,
{
    if i > 0 {
        assert(a[0] == a.subrange(0, i)[0]);
        assert(b[0] == b.subrange(0, i)[0]);
        assert(a.drop_first().subrange(0, i - 1) =~= a.subrange(0, i).drop_first());
        assert(b.drop_first().subrange(0, i - 1) =~= b.subrange(0, i).drop_first());
        lemma_bytes_lt_skip(a.drop_first(), b.drop_first(), i - 1);
        assert(a.drop_first().skip(i - 1) =~= a.skip(i));
        assert(b.drop_first().skip(i - 1) =~= b.skip(i));
    } else {
        assert(a.skip(0) =~= a);
        assert(b.skip(0) =~= b);
    }
}

/// No byte string precedes itself.
pub proof fn lemma_bytes_lt_irreflexive(a: Seq<u8>)
    ensures
        !bytes_lt(a, a),
    decreases a.len(),
{
    if a.len() > 0 {
        lemma_bytes_lt_irreflexive(a.drop_first());
    }
}

/// Of two distinct byte strings, exactly one precedes the other.
pub proof fn lemma_bytes_lt_total(a: Seq<u8>, b: Seq<u8>)
    ensures
        a != b ==> (bytes_lt(a, b) || bytes_lt(b, a)),
        !(bytes_lt(a, b) && bytes_lt(b, a)),
    decreases a.len(),
{
    if a.len() > 0 && b.len() > 0 && a[0] == b[0] {
        lemma_bytes_lt_total(a.drop_first(), b.drop_first());
        if a.drop_first() == b.drop_first() {
            assert(a =~= seq![a[0]] + a.drop_first());
            assert(b =~= seq![b[0]] + b.drop_first());
        }
    } else if a.len() == 0 && b.len() == 0 {
        assert(a =~= b);
    }
}

/// The order on byte strings is transitive.
pub proof fn lemma_bytes_lt_transitive(a: Seq<u8>, b: Seq<u8>, c: Seq<u8>)
    requires
        bytes_lt(a, b),
        bytes_lt(b, c),
    ensures
        bytes_lt(a, c),
    decreases a.len(),
{
    if a.len() > 0 && a[0] == b[0] && b[0] == c[0] {
        lemma_bytes_lt_transitive(a.drop_first(), b.drop_first(), c.drop_first());
    }
}

/// Two texts are equal exactly when their UTF-8 bytes are.
pub proof fn lemma_utf8_injective(s: Seq<char>, t: Seq<char>)
    ensures
        (utf8(s) == utf8(t)) == (s == t),
{
    encode_utf8_decode_utf8(s);
    encode_utf8_decode_utf8(t);
}

/// Compares two byte strings lexicographically.
pub fn compare_bytes(a: &[u8], b: &[u8]) -> (r: Ordering)
    ensures
        (r == Ordering::Less) == bytes_lt(a@, b@),
        (r == Ordering::Greater) == bytes_lt(b@, a@),
        (r == Ordering::Equal) == (a@ == b@),
{
    let mut i: usize = 0;
    while i < a.len() && i < b.len()
        invariant
            i <= a@.len(),
            i <= b@.len(),
            a@.subrange(0, i as int) == b@.subrange(0, i as int),
        decreases a@.len() - i,
    {
        if a[i] != b[i] {
            proof {
                lemma_bytes_lt_skip(a@, b@, i as int);
                lemma_bytes_lt_skip(b@, a@, i as int);
                assert(a@.skip(i as int)[0] == a@[i as int]);
                assert(b@.skip(i as int)[0] == b@[i as int]);
            }
            if a[i] < b[i] {
                return Ordering::Less;
            } else {
                return Ordering::Greater;
            }
        }
        assert(a@.subrange(0, i + 1) =~= a@.subrange(0, i as int).push(a@[i as int]));
        assert(b@.subrange(0, i + 1) =~= b@.subrange(0, i as int).push(b@[i as int]));
        i = i + 1;
    }
    proof {
        lemma_bytes_lt_skip(a@, b@, i as int);
        lemma_bytes_lt_skip(b@, a@, i as int);
    }
    if a.len() == b.len() {
        assert(a@ =~= a@.subrange(0, i as int));
        assert(b@ =~= b@.subrange(0, i as int));
        Ordering::Equal
    } else if a.len() < b.len() {
        Ordering::Less
    } else {
        Ordering::Greater
    }
}

/// An HTTP method, held as its name (`GET`, `POST`, or any extension verb).
/// Names are compared exactly: no case folding.
pub struct HttpMethod(pub String);

/// The path of a request URI, compared byte for byte: no normalisation of
/// trailing slashes, case or percent-encoding.
pub struct RequestPath(pub String);

/// The key a handler is registered under: a method and a path.
pub struct RouteKey {
    pub method: HttpMethod,
    pub path: RequestPath,
}

/// What a route key is: the method's name and the path, as text.
pub type KeyView = (Seq<char>, Seq<char>);

impl View for HttpMethod {
    type V = Seq<char>;

    open spec fn view(&self) -> Seq<char> {
        self.0@
    }
}

impl View for RequestPath {
    type V = Seq<char>;

    open spec fn view(&self) -> Seq<char> {
        self.0@
    }
}

impl View for RouteKey {
    type V = KeyView;

    open spec fn view(&self) -> KeyView {
        (self.method@, self.path@)
    }
}

/// The order of route keys: by method name, then by path, each by its bytes.
/// It only serves to keep a table sorted; it carries no meaning of its own.
pub open spec fn key_lt(a: KeyView, b: KeyView) -> bool {
    bytes_lt(utf8(a.0), utf8(b.0)) || (a.0 == b.0 && bytes_lt(utf8(a.1), utf8(b.1)))
}

/// No key precedes itself; of two distinct keys exactly one precedes the other.
pub proof fn lemma_key_lt_total(a: KeyView, b: KeyView)
    ensures
        !key_lt(a, a),
        a != b ==> (key_lt(a, b) || key_lt(b, a)),
        !(key_lt(a, b) && key_lt(b, a)),
{
    lemma_bytes_lt_irreflexive(utf8(a.0));
    lemma_bytes_lt_irreflexive(utf8(a.1));
    lemma_bytes_lt_total(utf8(a.0), utf8(b.0));
    lemma_bytes_lt_total(utf8(a.1), utf8(b.1));
    lemma_utf8_injective(a.0, b.0);
    lemma_utf8_injective(a.1, b.1);
}

/// The order of keys is transitive.
pub proof fn lemma_key_lt_transitive(a: KeyView, b: KeyView, c: KeyView)
    requires
        key_lt(a, b),
        key_lt(b, c),
    ensures
        key_lt(a, c),
{
    if bytes_lt(utf8(a.0), utf8(b.0)) && bytes_lt(utf8(b.0), utf8(c.0)) {
        lemma_bytes_lt_transitive(utf8(a.0), utf8(b.0), utf8(c.0));
    } else if bytes_lt(utf8(a.1), utf8(b.1)) && bytes_lt(utf8(b.1), utf8(c.1)) {
        lemma_bytes_lt_transitive(utf8(a.1), utf8(b.1), utf8(c.1));
    }
}

/// Compares two texts by their bytes, as `str` orders them.
pub fn compare_text(a: &str, b: &str) -> (r: Ordering)
    ensures
        (r == Ordering::Less) == bytes_lt(utf8(a@), utf8(b@)),
        (r == Ordering::Greater) == bytes_lt(utf8(b@), utf8(a@)),
        (r == Ordering::Equal) == (a@ == b@),
{
    proof {
        lemma_utf8_injective(a@, b@);
    }
    compare_bytes(a.as_bytes(), b.as_bytes())
}

/// Orders a method and a path against a route key: by method, then by path.
pub fn compare_to_key(method: &str, path: &str, key: &RouteKey) -> (r: Ordering)
    ensures
        (r == Ordering::Less) == key_lt((method@, path@), key@),
        (r == Ordering::Greater) == key_lt(key@, (method@, path@)),
        (r == Ordering::Equal) == ((method@, path@) == key@),
{
    proof {
        lemma_bytes_lt_irreflexive(utf8(method@));
    }
    match compare_text(method, key.method.0.as_str()) {
        Ordering::Equal => compare_text(path, key.path.0.as_str()),
        other => other,
    }
}

impl HttpMethod {
    /// The method of the given name.
    pub fn new(name: &str) -> (r: HttpMethod)
        ensures
            r@ == name@,
    {
        HttpMethod(name.to_string())
    }

    /// The method's name.
    pub fn as_str(&self) -> (r: &str)
        ensures
            r@ == self@,
    {
        self.0.as_str()
    }

    /// Orders two methods by their names' bytes.
    pub fn compare(&self, other: &HttpMethod) -> (r: Ordering)
        ensures
            (r == Ordering::Less) == bytes_lt(utf8(self@), utf8(other@)),
            (r == Ordering::Greater) == bytes_lt(utf8(other@), utf8(self@)),
            (r == Ordering::Equal) == (self@ == other@),
    {
        compare_text(self.0.as_str(), other.0.as_str())
    }
}

impl PartialEq for HttpMethod {
    fn eq(&self, other: &HttpMethod) -> (r: bool) {
        self.0 == other.0
    }
}

impl vstd::std_specs::cmp::PartialEqSpecImpl for HttpMethod {
    open spec fn obeys_eq_spec() -> bool {
        true
    }

    open spec fn eq_spec(&self, other: &HttpMethod) -> bool {
        self@ == other@
    }
}

impl PartialOrd for HttpMethod {
    fn partial_cmp(&self, other: &HttpMethod) -> (r: Option<Ordering>) {
        Some(self.compare(other))
    }
}

impl vstd::std_specs::cmp::PartialOrdSpecImpl for HttpMethod {
    open spec fn obeys_partial_cmp_spec() -> bool {
        true
    }

    open spec fn partial_cmp_spec(&self, other: &HttpMethod) -> Option<Ordering> {
        Some(
            if bytes_lt(utf8(self@), utf8(other@)) {
                Ordering::Less
            } else if self@ == other@ {
                Ordering::Equal
            } else {
                Ordering::Greater
            },
        )
    }
}

impl RequestPath {
    /// The given path.
    pub fn new(path: &str) -> (r: RequestPath)
        ensures
            r@ == path@,
    {
        RequestPath(path.to_string())
    }

    /// The path as text.
    pub fn as_str(&self) -> (r: &str)
        ensures
            r@ == self@,
    {
        self.0.as_str()
    }
}

impl RouteKey {
    /// The key of a method and a path.
    pub fn new(method: &str, path: &str) -> (r: RouteKey)
        ensures
            r@ == (method@, path@),
    {
        RouteKey { method: HttpMethod::new(method), path: RequestPath::new(path) }
    }

    /// Orders two keys: by method, then by path.
    pub fn compare(&self, other: &RouteKey) -> (r: Ordering)
        ensures
            (r == Ordering::Less) == key_lt(self@, other@),
            (r == Ordering::Greater) == key_lt(other@, self@),
            (r == Ordering::Equal) == (self@ == other@),
    {
        compare_to_key(self.method.0.as_str(), self.path.0.as_str(), other)
    }
}

} // verus!
