use vstd::prelude::*;
use vstd::utf8::*;

verus! {

/// A byte offset of a page within the backing store, always a multiple of
/// `PAGE_SIZE`.
#[derive(Clone, Copy, Debug, PartialEq, Eq, Structural)]
pub struct Offset(pub usize);

/// A search key. Keys are UTF-8 strings ordered lexicographically by their
/// encoded bytes; in contracts a key is its byte sequence.
#[derive(Debug)]
pub struct Key(pub String);

impl View for Key {
    type V = Seq<u8>;

    open spec fn view(&self) -> Seq<u8> {
        encode_utf8(self.0@)
    }
}

/// One record of the store: a key together with its value.
#[derive(Debug)]
pub struct KeyValuePair {
    pub key: String,
    pub value: String,
}

/// The mathematical value of a `KeyValuePair`: the UTF-8 bytes of both
/// fields.
#[verifier::ext_equal]
pub struct PairView {
    pub key: Seq<u8>,
    pub value: Seq<u8>,
}

impl View for KeyValuePair {
    type V = PairView;

    open spec fn view(&self) -> PairView {
        PairView { key: encode_utf8(self.key@), value: encode_utf8(self.value@) }
    }
}

impl PartialEq for KeyValuePair {
    fn eq(&self, other: &KeyValuePair) -> (r: bool) {
        self.key == other.key && self.value == other.value
    }
}

impl vstd::std_specs::cmp::PartialEqSpecImpl for KeyValuePair {
    open spec fn obeys_eq_spec() -> bool {
        true
    }

    open spec fn eq_spec(&self, other: &KeyValuePair) -> bool {
        self.key@ == other.key@ && self.value@ == other.value@
    }
}

impl KeyValuePair {
    pub fn new(key: String, value: String) -> (r: KeyValuePair)
        ensures
            r@ == (PairView { key: encode_utf8(key@), value: encode_utf8(value@) }),
    {
        KeyValuePair { key, value }
    }

    /// A field-by-field copy of the pair.
    pub fn duplicate(&self) -> (r: KeyValuePair)
        ensures
            r@ == self@,
    {
        KeyValuePair { key: self.key.clone(), value: self.value.clone() }
    }
}

/// The three kinds of node the store distinguishes. `Unexpected` stands for
/// a malformed page and is never constructed deliberately.
#[derive(Debug)]
pub enum NodeType {
    /// Child page offsets and the separator keys between them, with
    /// `children.len() == keys.len() + 1`.
    Internal(Vec<Offset>, Vec<Key>),
    /// The key-value records, strictly increasing by key.
    Leaf(Vec<KeyValuePair>),
    Unexpected,
}

/// The mathematical value of a `NodeType`.
#[verifier::ext_equal]
pub enum NodeTypeView {
    Internal(Seq<usize>, Seq<Seq<u8>>),
    Leaf(Seq<PairView>),
    Unexpected,
}

impl View for NodeType {
    type V = NodeTypeView;

    open spec fn view(&self) -> NodeTypeView {
        match self {
            NodeType::Internal(children, keys) => NodeTypeView::Internal(
                children@.map_values(|c: Offset| c.0),
                keys@.map_values(|k: Key| k@),
            ),
            NodeType::Leaf(pairs) => NodeTypeView::Leaf(pairs@.map_values(|p: KeyValuePair| p@)),
            NodeType::Unexpected => NodeTypeView::Unexpected,
        }
    }
}

/// Strict lexicographic order on byte sequences: `a` comes before `b`.
pub open spec fn lex_lt(a: Seq<u8>, b: Seq<u8>) -> bool
    decreases a.len(),
{
    if b.len() == 0 {
        false
    } else if a.len() == 0 {
        true
    } else if a[0] < b[0] {
        true
    } else if b[0] < a[0] {
        false
    } else {
        lex_lt(a.drop_first(), b.drop_first())
    }
}

/// Reflexive lexicographic order on byte sequences.
pub open spec fn lex_le(a: Seq<u8>, b: Seq<u8>) -> bool {
    lex_lt(a, b) || a == b
}

/// Any two byte sequences are ordered or equal.
pub proof fn lemma_lex_total(a: Seq<u8>, b: Seq<u8>)
    ensures
        lex_lt(a, b) || lex_lt(b, a) || a == b,
    decreases a.len(),
{
    if a.len() == 0 && b.len() == 0 {
        assert(a =~= b);
    } else if a.len() > 0 && b.len() > 0 && a[0] == b[0] {
        lemma_lex_total(a.drop_first(), b.drop_first());
        if a.drop_first() == b.drop_first() {
            assert forall|k: int| 0 <= k < a.len() implies a[k] == b[k] by {
                if k > 0 {
                    assert(a[k] == a.drop_first()[k - 1]);
                    assert(b[k] == b.drop_first()[k - 1]);
                }
            }
            assert(a =~= b);
        }
    }
}

/// The order is strict: `a` before `b` rules out `b` before `a` and equality.
pub proof fn lemma_lex_asym(a: Seq<u8>, b: Seq<u8>)
    ensures
        lex_lt(a, b) ==> !lex_lt(b, a) && a != b,
    decreases a.len(),
{
    if a.len() > 0 && b.len() > 0 && a[0] == b[0] {
        lemma_lex_asym(a.drop_first(), b.drop_first());
        if lex_lt(a, b) {
            assert(a.drop_first() != b.drop_first());
        }
    } else if lex_lt(a, b) && b.len() > 0 && a.len() == 0 {
        assert(a != b);
    }
}

/// The order is transitive.
pub proof fn lemma_lex_trans(a: Seq<u8>, b: Seq<u8>, c: Seq<u8>)
    ensures
        lex_lt(a, b) && lex_lt(b, c) ==> lex_lt(a, c),
    decreases a.len(),
{
    if a.len() > 0 && b.len() > 0 && c.len() > 0 {
        lemma_lex_trans(a.drop_first(), b.drop_first(), c.drop_first());
    }
}

/// Dropping an equal prefix from both sides does not change the order.
pub proof fn lemma_lex_skip(a: Seq<u8>, b: Seq<u8>, i: int)
    requires
        0 <= i <= a.len(),
        i <= b.len(),
        forall|j: int| 0 <= j < i ==> a[j] == b[j],
    ensures
        lex_lt(a, b) == lex_lt(a.skip(i), b.skip(i)),
    decreases i,
{
    if i > 0 {
        assert(a.len() > 0 && b.len() > 0 && a[0] == b[0]);
        assert(forall|j: int| 0 <= j < i - 1 ==> a.drop_first()[j] == b.drop_first()[j]);
        lemma_lex_skip(a.drop_first(), b.drop_first(), i - 1);
        assert(a.drop_first().skip(i - 1) =~= a.skip(i));
        assert(b.drop_first().skip(i - 1) =~= b.skip(i));
    } else {
        assert(a.skip(0) =~= a);
        assert(b.skip(0) =~= b);
    }
}

/// Compares two byte slices lexicographically.
pub fn bytes_lt(a: &[u8], b: &[u8]) -> (r: bool)
    ensures
        r == lex_lt(a@, b@),
{
    let a_len = a.len();
    let b_len = b.len();
    let n = if a_len < b_len {
        a_len
    } else {
        b_len
    };
    let mut i: usize = 0;
    while i < n
        invariant
            0 <= i <= n,
            n == if a@.len() < b@.len() {
                a@.len()
            } else {
                b@.len()
            },
            forall|j: int| 0 <= j < i ==> a@[j] == b@[j],
        decreases n - i,
    {
        let x = a[i];
        let y = b[i];
        if x < y {
            proof {
                lemma_lex_skip(a@, b@, i as int);
            }
            return true;
        }
        if y < x {
            proof {
                lemma_lex_skip(a@, b@, i as int);
            }
            return false;
        }
        i += 1;
    }
    proof {
        lemma_lex_skip(a@, b@, n as int);
    }
    a_len < b_len
}

/// Compares two strings by the lexicographic order of their UTF-8 bytes.
pub fn str_lt(a: &str, b: &str) -> (r: bool)
    ensures
        r == lex_lt(encode_utf8(a@), encode_utf8(b@)),
{
    bytes_lt(a.as_bytes(), b.as_bytes())
}

/// Compares two keys.
pub fn key_lt(a: &Key, b: &Key) -> (r: bool)
    ensures
        r == lex_lt(a@, b@),
{
    str_lt(a.0.as_str(), b.0.as_str())
}

/// Separator keys of a node, strictly increasing.
pub open spec fn keys_strictly_sorted(keys: Seq<Seq<u8>>) -> bool {
    forall|i: int, j: int| 0 <= i < j < keys.len() ==> lex_lt(keys[i], keys[j])
}

/// Records of a leaf, strictly increasing by key.
pub open spec fn pairs_strictly_sorted(pairs: Seq<PairView>) -> bool {
    forall|i: int, j: int| 0 <= i < j < pairs.len() ==> lex_lt(pairs[i].key, pairs[j].key)
}

} // verus!
