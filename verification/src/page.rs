use vstd::prelude::*;
use vstd::utf8::{encode_utf8, valid_utf8};
use crate::error::Error;
use crate::node::{Node, NodeView};
use crate::node_type::{Key, KeyValuePair, NodeType, NodeTypeView, Offset, PairView};
use crate::page_layout::{
    lemma_u32_be_roundtrip, lemma_u64_be_roundtrip, push_bytes, push_u32_be, push_u64_be,
    read_u32_be, read_u64_be, spec_u32_be, spec_u32_of_be, spec_u64_be, spec_u64_of_be,
    HEADER_SIZE, INTERNAL_TAG, LEAF_TAG, PAGE_SIZE,
};

verus! {

/// One page of the backing store: exactly `PAGE_SIZE` bytes holding a
/// serialized node.
#[derive(Debug)]
pub struct Page {
    data: Vec<u8>,
}

impl View for Page {
    type V = Seq<u8>;

    closed spec fn view(&self) -> Seq<u8> {
        self.data@
    }
}

impl Page {
    /// A page is always exactly `PAGE_SIZE` bytes.
    pub open spec fn wf(&self) -> bool {
        self@.len() == PAGE_SIZE
    }

    pub fn new(data: Vec<u8>) -> (r: Page)
        requires
            data@.len() == PAGE_SIZE,
        ensures
            r@ == data@,
            r.wf(),
    {
        Page { data }
    }

    pub fn get_data(&self) -> (r: &Vec<u8>)
        ensures
            r@ == self@,
    {
        &self.data
    }

    /// A byte-by-byte copy of the page.
    pub fn duplicate(&self) -> (r: Page)
        ensures
            r@ == self@,
    {
        let mut data: Vec<u8> = Vec::new();
        push_bytes(&mut data, self.data.as_slice());
        proof {
            assert(data@ =~= self@);
        }
        Page { data }
    }
}

/// The big-endian word stored in the parent pointer field: zero means no
/// parent.
pub open spec fn parent_word(parent: Option<usize>) -> u64 {
    match parent {
        None => 0,
        Some(o) => o as u64,
    }
}

/// The encoding of one key: a four-byte big-endian length, then the bytes.
pub open spec fn enc_key(k: Seq<u8>) -> Seq<u8> {
    spec_u32_be(k.len() as u32) + k
}

/// The encoding of one pair: encoded key, then encoded value.
pub open spec fn enc_pair(p: PairView) -> Seq<u8> {
    enc_key(p.key) + enc_key(p.value)
}

/// The concatenated encodings of a sequence of child offsets.
pub open spec fn enc_offsets(cs: Seq<usize>) -> Seq<u8>
    decreases cs.len(),
{
    if cs.len() == 0 {
        Seq::empty()
    } else {
        spec_u64_be(cs[0] as u64) + enc_offsets(cs.drop_first())
    }
}

/// The concatenated encodings of a sequence of keys.
pub open spec fn enc_keys(ks: Seq<Seq<u8>>) -> Seq<u8>
    decreases ks.len(),
{
    if ks.len() == 0 {
        Seq::empty()
    } else {
        enc_key(ks[0]) + enc_keys(ks.drop_first())
    }
}

/// The concatenated encodings of a sequence of pairs.
pub open spec fn enc_pairs(ps: Seq<PairView>) -> Seq<u8>
    decreases ps.len(),
{
    if ps.len() == 0 {
        Seq::empty()
    } else {
        enc_pair(ps[0]) + enc_pairs(ps.drop_first())
    }
}

/// The fixed page header: tag, root flag, parent pointer, count.
pub open spec fn enc_header(tag: u8, is_root: bool, parent: Option<usize>, count: nat) -> Seq<
    u8,
> {
    seq![
        tag,
        if is_root {
            1u8
        } else {
            0u8
        },
    ] + spec_u64_be(parent_word(parent)) + spec_u64_be(count as u64)
}

/// The full (unpadded) encoding of a node.
pub open spec fn enc_node(nv: NodeView) -> Seq<u8> {
    match nv.node_type {
        NodeTypeView::Internal(cs, ks) => enc_header(
            INTERNAL_TAG,
            nv.is_root,
            nv.parent_offset,
            cs.len(),
        ) + enc_offsets(cs) + enc_keys(ks),
        NodeTypeView::Leaf(ps) => enc_header(LEAF_TAG, nv.is_root, nv.parent_offset, ps.len())
            + enc_pairs(ps),
        NodeTypeView::Unexpected => Seq::empty(),
    }
}

/// The page bytes of a node: its encoding, zero-padded to `PAGE_SIZE`.
#[verifier::opaque]
pub open spec fn spec_page_of(nv: NodeView) -> Seq<u8> {
    enc_node(nv) + Seq::new((PAGE_SIZE - enc_node(nv).len()) as nat, |i: int| 0u8)
}

/// Appending one offset extends the encoding at the back.
pub proof fn lemma_enc_offsets_push(s: Seq<usize>, x: usize)
    ensures
        enc_offsets(s.push(x)) == enc_offsets(s) + spec_u64_be(x as u64),
    decreases s.len(),
{
    if s.len() == 0 {
        let t = s.push(x);
        assert(t.len() == 1 && t[0] == x);
        assert(t.drop_first() =~= Seq::<usize>::empty());
        assert(enc_offsets(t) == spec_u64_be(x as u64) + enc_offsets(t.drop_first()));
        assert(enc_offsets(t.drop_first()) == Seq::<u8>::empty());
        assert(enc_offsets(t) =~= enc_offsets(s) + spec_u64_be(x as u64));
    } else {
        lemma_enc_offsets_push(s.drop_first(), x);
        assert(s.push(x).drop_first() =~= s.drop_first().push(x));
        assert(s.push(x)[0] == s[0]);
        assert(enc_offsets(s.push(x)) == spec_u64_be(s[0] as u64) + enc_offsets(
            s.drop_first().push(x),
        ));
        assert(enc_offsets(s.push(x)) =~= enc_offsets(s) + spec_u64_be(x as u64));
    }
}

/// Appending one key extends the encoding at the back.
pub proof fn lemma_enc_keys_push(s: Seq<Seq<u8>>, k: Seq<u8>)
    ensures
        enc_keys(s.push(k)) == enc_keys(s) + enc_key(k),
    decreases s.len(),
{
    if s.len() == 0 {
        let t = s.push(k);
        assert(t.len() == 1 && t[0] == k);
        assert(t.drop_first() =~= Seq::<Seq<u8>>::empty());
        assert(enc_keys(t) == enc_key(k) + enc_keys(t.drop_first()));
        assert(enc_keys(t.drop_first()) == Seq::<u8>::empty());
        assert(enc_keys(t) =~= enc_keys(s) + enc_key(k));
    } else {
        lemma_enc_keys_push(s.drop_first(), k);
        assert(s.push(k).drop_first() =~= s.drop_first().push(k));
        assert(s.push(k)[0] == s[0]);
        assert(enc_keys(s.push(k)) == enc_key(s[0]) + enc_keys(s.drop_first().push(k)));
        assert(enc_keys(s.push(k)) =~= enc_keys(s) + enc_key(k));
    }
}

/// Appending one pair extends the encoding at the back.
pub proof fn lemma_enc_pairs_push(s: Seq<PairView>, p: PairView)
    ensures
        enc_pairs(s.push(p)) == enc_pairs(s) + enc_pair(p),
    decreases s.len(),
{
    if s.len() == 0 {
        let t = s.push(p);
        assert(t.len() == 1 && t[0] == p);
        assert(t.drop_first() =~= Seq::<PairView>::empty());
        assert(enc_pairs(t) == enc_pair(p) + enc_pairs(t.drop_first()));
        assert(enc_pairs(t.drop_first()) == Seq::<u8>::empty());
        assert(enc_pairs(t) =~= enc_pairs(s) + enc_pair(p));
    } else {
        lemma_enc_pairs_push(s.drop_first(), p);
        assert(s.push(p).drop_first() =~= s.drop_first().push(p));
        assert(s.push(p)[0] == s[0]);
        assert(enc_pairs(s.push(p)) == enc_pair(s[0]) + enc_pairs(s.drop_first().push(p)));
        assert(enc_pairs(s.push(p)) =~= enc_pairs(s) + enc_pair(p));
    }
}

impl Node {
    /// Serializes the node into one page, zero-padded; fails with
    /// `UnexpectedError` when the encoding does not fit in a page or the
    /// node is the `Unexpected` sentinel.
    pub fn encode(&self) -> (r: Result<Page, Error>)
        ensures
            match r {
                Ok(p) => {
                    &&& !(self@.node_type is Unexpected)
                    &&& enc_node(self@).len() <= PAGE_SIZE
                    &&& p@ == spec_page_of(self@)
                    &&& p.wf()
                },
                Err(e) => {
                    &&& e == Error::UnexpectedError
                    &&& (self@.node_type is Unexpected || enc_node(self@).len() > PAGE_SIZE)
                },
            },
    {
        let mut buf: Vec<u8> = Vec::new();
        let pw: u64 = match &self.parent_offset {
            Some(o) => o.0 as u64,
            None => 0u64,
        };
        match &self.node_type {
            NodeType::Leaf(pairs) => {
                let ghost ps = pairs@.map_values(|p: KeyValuePair| p@);
                buf.push(LEAF_TAG);
                buf.push(if self.is_root {
                    1u8
                } else {
                    0u8
                });
                push_u64_be(&mut buf, pw);
                push_u64_be(&mut buf, pairs.len() as u64);
                let ghost hdr = enc_header(LEAF_TAG, self.is_root, self@.parent_offset, ps.len());
                proof {
                    assert(buf@ =~= hdr + enc_pairs(ps.take(0)));
                }
                let n = pairs.len();
                let mut i: usize = 0;
                while i < n
                    invariant
                        0 <= i <= n,
                        n == ps.len(),
                        ps == pairs@.map_values(|p: KeyValuePair| p@),
                        hdr == enc_header(LEAF_TAG, self.is_root, self@.parent_offset, ps.len()),
                        buf@ == hdr + enc_pairs(ps.take(i as int)),
                    decreases n - i,
                {
                    let kb = pairs[i].key.as_str().as_bytes();
                    push_u32_be(&mut buf, #[verifier::truncate] (kb.len() as u32));
                    push_bytes(&mut buf, kb);
                    let vb = pairs[i].value.as_str().as_bytes();
                    push_u32_be(&mut buf, #[verifier::truncate] (vb.len() as u32));
                    push_bytes(&mut buf, vb);
                    proof {
                        lemma_enc_pairs_push(ps.take(i as int), ps[i as int]);
                        assert(ps.take(i + 1) =~= ps.take(i as int).push(ps[i as int]));
                        assert(buf@ =~= hdr + enc_pairs(ps.take(i + 1)));
                    }
                    i += 1;
                }
                proof {
                    assert(ps.take(n as int) =~= ps);
                    assert(buf@ == enc_node(self@));
                }
            },
            NodeType::Internal(children, keys) => {
                let ghost cs = children@.map_values(|c: Offset| c.0);
                let ghost ks = keys@.map_values(|k: Key| k@);
                buf.push(INTERNAL_TAG);
                buf.push(if self.is_root {
                    1u8
                } else {
                    0u8
                });
                push_u64_be(&mut buf, pw);
                push_u64_be(&mut buf, children.len() as u64);
                let ghost hdr = enc_header(
                    INTERNAL_TAG,
                    self.is_root,
                    self@.parent_offset,
                    cs.len(),
                );
                proof {
                    assert(buf@ =~= hdr + enc_offsets(cs.take(0)));
                }
                let n = children.len();
                let mut i: usize = 0;
                while i < n
                    invariant
                        0 <= i <= n,
                        n == cs.len(),
                        cs == children@.map_values(|c: Offset| c.0),
                        hdr == enc_header(
                            INTERNAL_TAG,
                            self.is_root,
                            self@.parent_offset,
                            cs.len(),
                        ),
                        buf@ == hdr + enc_offsets(cs.take(i as int)),
                    decreases n - i,
                {
                    push_u64_be(&mut buf, children[i].0 as u64);
                    proof {
                        lemma_enc_offsets_push(cs.take(i as int), cs[i as int]);
                        assert(cs.take(i + 1) =~= cs.take(i as int).push(cs[i as int]));
                        assert(buf@ =~= hdr + enc_offsets(cs.take(i + 1)));
                    }
                    i += 1;
                }
                proof {
                    assert(cs.take(n as int) =~= cs);
                }
                let m = keys.len();
                let mut j: usize = 0;
                while j < m
                    invariant
                        0 <= j <= m,
                        m == ks.len(),
                        ks == keys@.map_values(|k: Key| k@),
                        hdr == enc_header(
                            INTERNAL_TAG,
                            self.is_root,
                            self@.parent_offset,
                            cs.len(),
                        ),
                        buf@ == hdr + enc_offsets(cs) + enc_keys(ks.take(j as int)),
                    decreases m - j,
                {
                    let kb = keys[j].0.as_str().as_bytes();
                    push_u32_be(&mut buf, #[verifier::truncate] (kb.len() as u32));
                    push_bytes(&mut buf, kb);
                    proof {
                        lemma_enc_keys_push(ks.take(j as int), ks[j as int]);
                        assert(ks.take(j + 1) =~= ks.take(j as int).push(ks[j as int]));
                        assert(buf@ =~= hdr + enc_offsets(cs) + enc_keys(ks.take(j + 1)));
                    }
                    j += 1;
                }
                proof {
                    assert(ks.take(m as int) =~= ks);
                    assert(buf@ == enc_node(self@));
                }
            },
            NodeType::Unexpected => {
                return Err(Error::UnexpectedError);
            },
        }
        if buf.len() > PAGE_SIZE {
            return Err(Error::UnexpectedError);
        }
        let ghost enc = enc_node(self@);
        while buf.len() < PAGE_SIZE
            invariant
                enc == enc_node(self@),
                enc.len() <= buf@.len() <= PAGE_SIZE,
                buf@.subrange(0, enc.len() as int) == enc,
                forall|k: int| enc.len() <= k < buf@.len() ==> buf@[k] == 0u8,
            decreases PAGE_SIZE - buf@.len(),
        {
            buf.push(0u8);
            proof {
                assert(buf@.subrange(0, enc.len() as int) =~= enc);
            }
        }
        proof {
            reveal(spec_page_of);
            assert(buf@ =~= spec_page_of(self@));
        }
        Ok(Page::new(buf))
    }
}


/// Reads `n` child offsets at `pos`; yields the offsets and the position
/// after them.
pub open spec fn dec_offsets(b: Seq<u8>, pos: int, n: nat) -> Option<(Seq<usize>, int)>
    decreases n,
{
    if n == 0 {
        Some((Seq::empty(), pos))
    } else if pos + 8 <= b.len() && spec_u64_of_be(b.subrange(pos, pos + 8)) <= usize::MAX {
        match dec_offsets(b, pos + 8, (n - 1) as nat) {
            Some((rest, end)) => Some(
                (seq![spec_u64_of_be(b.subrange(pos, pos + 8)) as usize] + rest, end),
            ),
            None => None,
        }
    } else {
        None
    }
}

/// Reads one length-prefixed byte string at `pos`; it must fit the page and
/// be valid UTF-8.
pub open spec fn dec_key_at(b: Seq<u8>, pos: int) -> Option<(Seq<u8>, int)> {
    if pos + 4 <= b.len() {
        let l = spec_u32_of_be(b.subrange(pos, pos + 4)) as int;
        if pos + 4 + l <= b.len() && valid_utf8(b.subrange(pos + 4, pos + 4 + l)) {
            Some((b.subrange(pos + 4, pos + 4 + l), pos + 4 + l))
        } else {
            None
        }
    } else {
        None
    }
}

/// Reads `n` keys at `pos`.
pub open spec fn dec_keys(b: Seq<u8>, pos: int, n: nat) -> Option<(Seq<Seq<u8>>, int)>
    decreases n,
{
    if n == 0 {
        Some((Seq::empty(), pos))
    } else {
        match dec_key_at(b, pos) {
            Some((k, p2)) => match dec_keys(b, p2, (n - 1) as nat) {
                Some((rest, end)) => Some((seq![k] + rest, end)),
                None => None,
            },
            None => None,
        }
    }
}

/// Reads `n` key-value pairs at `pos`.
pub open spec fn dec_pairs(b: Seq<u8>, pos: int, n: nat) -> Option<(Seq<PairView>, int)>
    decreases n,
{
    if n == 0 {
        Some((Seq::empty(), pos))
    } else {
        match dec_key_at(b, pos) {
            Some((k, p2)) => match dec_key_at(b, p2) {
                Some((v, p3)) => match dec_pairs(b, p3, (n - 1) as nat) {
                    Some((rest, end)) => Some(
                        (seq![PairView { key: k, value: v }] + rest, end),
                    ),
                    None => None,
                },
                None => None,
            },
            None => None,
        }
    }
}

/// The node denoted by one page of bytes, or nothing when the page is
/// malformed: an unknown tag, a zero child count, a declared size beyond the
/// page, or text that is not UTF-8.
#[verifier::opaque]
pub open spec fn spec_decode(b: Seq<u8>) -> Option<NodeView> {
    if b.len() != PAGE_SIZE {
        None
    } else {
        let tag = b[0];
        let flag = b[1] != 0;
        let pw = spec_u64_of_be(b.subrange(2, 10));
        let count = spec_u64_of_be(b.subrange(10, 18));
        if pw > usize::MAX {
            None
        } else {
            let parent: Option<usize> = if pw == 0 {
                None
            } else {
                Some(pw as usize)
            };
            if tag == INTERNAL_TAG {
                if count == 0 {
                    None
                } else {
                    match dec_offsets(b, 18, count as nat) {
                        Some((cs, p2)) => match dec_keys(b, p2, (count - 1) as nat) {
                            Some((ks, _)) => Some(
                                NodeView {
                                    node_type: NodeTypeView::Internal(cs, ks),
                                    is_root: flag,
                                    parent_offset: parent,
                                },
                            ),
                            None => None,
                        },
                        None => None,
                    }
                }
            } else if tag == LEAF_TAG {
                match dec_pairs(b, 18, count as nat) {
                    Some((ps, _)) => Some(
                        NodeView {
                            node_type: NodeTypeView::Leaf(ps),
                            is_root: flag,
                            parent_offset: parent,
                        },
                    ),
                    None => None,
                }
            } else {
                None
            }
        }
    }
}

/// Relies on `String::from_utf8`: it returns `Ok` exactly when the bytes are
/// valid UTF-8, and the returned string then holds exactly those bytes.
#[verifier::external_body]
fn bytes_to_string(bytes: Vec<u8>) -> (r: Option<String>)
    ensures
        r is Some <==> valid_utf8(bytes@),
        r is Some ==> encode_utf8(r.unwrap()@) == bytes@,
{
    match String::from_utf8(bytes) {
        Ok(s) => Some(s),
        Err(_) => None,
    }
}

/// Reads one length-prefixed string at `*pos` in `data`, advancing `*pos`.
fn read_string_at(data: &Vec<u8>, pos: &mut usize) -> (r: Result<String, Error>)
    requires
        data@.len() == PAGE_SIZE,
        *old(pos) <= PAGE_SIZE,
    ensures
        match r {
            Ok(s) => {
                &&& dec_key_at(data@, *old(pos) as int) == Some(
                    (encode_utf8(s@), *final(pos) as int),
                )
                &&& *final(pos) <= PAGE_SIZE
            },
            Err(e) => {
                &&& e == Error::UnexpectedError
                &&& dec_key_at(data@, *old(pos) as int) is None
                &&& *final(pos) == *old(pos)
            },
        },
{
    let p = *pos;
    if p + 4 > PAGE_SIZE {
        return Err(Error::UnexpectedError);
    }
    let l = read_u32_be(data, p);
    if l > PAGE_SIZE as u32 {
        proof {
            assert(dec_key_at(data@, p as int) is None);
        }
        return Err(Error::UnexpectedError);
    }
    let lu = l as usize;
    if p + 4 + lu > PAGE_SIZE {
        return Err(Error::UnexpectedError);
    }
    let raw = vstd::slice::slice_to_vec(&data.as_slice()[p + 4..p + 4 + lu]);
    proof {
        assert(raw@ =~= data@.subrange(p as int + 4, p as int + 4 + lu as int));
    }
    match bytes_to_string(raw) {
        Some(s) => {
            *pos = p + 4 + lu;
            Ok(s)
        },
        None => Err(Error::UnexpectedError),
    }
}

impl Node {
    /// Deserializes one page into a node; fails with `UnexpectedError` on a
    /// malformed page.
    #[verifier::loop_isolation(false)]
    pub fn decode(page: &Page) -> (r: Result<Node, Error>)
        requires
            page.wf(),
        ensures
            match r {
                Ok(n) => spec_decode(page@) == Some(n@),
                Err(e) => e == Error::UnexpectedError && spec_decode(page@) is None,
            },
    {
        proof {
            reveal(spec_decode);
        }
        let data = page.get_data();
        let data_len = data.len();
        assert(data_len == PAGE_SIZE);
        let tag = data[0];
        let flag = data[1] != 0;
        let pw = read_u64_be(data, 2);
        if pw > usize::MAX as u64 {
            return Err(Error::UnexpectedError);
        }
        let parent: Option<Offset> = if pw == 0 {
            None
        } else {
            Some(Offset(pw as usize))
        };
        let count = read_u64_be(data, 10);
        let ghost b = page@;
        if tag == INTERNAL_TAG {
            if count == 0 {
                return Err(Error::UnexpectedError);
            }
            let mut children: Vec<Offset> = Vec::new();
            let mut pos: usize = HEADER_SIZE;
            let mut i: u64 = 0;
            proof {
                assert(children@.map_values(|c: Offset| c.0) =~= Seq::<usize>::empty());
                assert(Seq::<usize>::empty() + dec_offsets(b, 18, count as nat)->Some_0.0
                    =~= dec_offsets(b, 18, count as nat)->Some_0.0) by {
                    if dec_offsets(b, 18, count as nat) is Some {
                    }
                }
            }
            while i < count
                invariant
                    page.wf(),
                    b == page@,
                    data@ == b,
                    0 <= i <= count,
                    HEADER_SIZE <= pos <= PAGE_SIZE,
                    dec_offsets(b, 18, count as nat) == match dec_offsets(
                        b,
                        pos as int,
                        (count - i) as nat,
                    ) {
                        Some((rest, end)) => Some(
                            (children@.map_values(|c: Offset| c.0) + rest, end),
                        ),
                        None => None::<(Seq<usize>, int)>,
                    },
                decreases count - i,
            {
                if pos + 8 > PAGE_SIZE {
                    return Err(Error::UnexpectedError);
                }
                let w = read_u64_be(data, pos);
                if w > usize::MAX as u64 {
                    return Err(Error::UnexpectedError);
                }
                let ghost cv0 = children@.map_values(|c: Offset| c.0);
                let ghost pos0 = pos as int;
                let ghost rem0 = (count - i) as nat;
                children.push(Offset(w as usize));
                pos = pos + 8;
                i = i + 1;
                proof {
                    let cv1 = children@.map_values(|c: Offset| c.0);
                    assert(cv1 =~= cv0.push(w as usize));
                    match dec_offsets(b, pos0 + 8, (rem0 - 1) as nat) {
                        Some((rest, end)) => {
                            assert(dec_offsets(b, pos0, rem0) == Some(
                                (seq![w as usize] + rest, end),
                            ));
                            assert(cv0 + (seq![w as usize] + rest) =~= cv1 + rest);
                        },
                        None => {
                            assert(dec_offsets(b, pos0, rem0) is None);
                        },
                    }
                }
            }
            proof {
                assert(dec_offsets(b, pos as int, 0) == Some((Seq::<usize>::empty(), pos as int)));
                assert(children@.map_values(|c: Offset| c.0) + Seq::<usize>::empty()
                    =~= children@.map_values(|c: Offset| c.0));
                assert(dec_offsets(b, 18, count as nat) == Some(
                    (children@.map_values(|c: Offset| c.0), pos as int),
                ));
            }
            let kcount = count - 1;
            let mut keys: Vec<Key> = Vec::new();
            let mut j: u64 = 0;
            let ghost kpos0 = pos as int;
            while j < kcount
                invariant
                    page.wf(),
                    b == page@,
                    data@ == b,
                    0 <= j <= kcount,
                    pos <= PAGE_SIZE,
                    dec_keys(b, kpos0, kcount as nat) == match dec_keys(
                        b,
                        pos as int,
                        (kcount - j) as nat,
                    ) {
                        Some((rest, end)) => Some(
                            (keys@.map_values(|k: Key| k@) + rest, end),
                        ),
                        None => None::<(Seq<Seq<u8>>, int)>,
                    },
                decreases kcount - j,
            {
                let ghost kv0 = keys@.map_values(|k: Key| k@);
                let ghost pos0 = pos as int;
                let ghost rem0 = (kcount - j) as nat;
                let s = match read_string_at(data, &mut pos) {
                    Ok(s) => s,
                    Err(e) => {
                        proof {
                            assert(dec_keys(b, pos0, rem0) is None);
                        }
                        return Err(e);
                    },
                };
                keys.push(Key(s));
                j = j + 1;
                proof {
                    let kv1 = keys@.map_values(|k: Key| k@);
                    assert(kv1 =~= kv0.push(keys@[keys@.len() - 1]@));
                    let k = dec_key_at(b, pos0)->Some_0.0;
                    assert(kv1 =~= kv0.push(k));
                    match dec_keys(b, pos as int, (rem0 - 1) as nat) {
                        Some((rest, end)) => {
                            assert(dec_keys(b, pos0, rem0) == Some((seq![k] + rest, end)));
                            assert(kv0 + (seq![k] + rest) =~= kv1 + rest);
                        },
                        None => {
                            assert(dec_keys(b, pos0, rem0) is None);
                        },
                    }
                }
            }
            proof {
                assert(dec_keys(b, pos as int, 0) == Some((Seq::<Seq<u8>>::empty(), pos as int)));
                assert(keys@.map_values(|k: Key| k@) + Seq::<Seq<u8>>::empty() =~= keys@.map_values(
                    |k: Key| k@,
                ));
                assert(dec_keys(b, kpos0, kcount as nat) == Some(
                    (keys@.map_values(|k: Key| k@), pos as int),
                ));
            }
            let node = Node {
                node_type: NodeType::Internal(children, keys),
                is_root: flag,
                parent_offset: parent,
            };
            proof {
                assert(spec_decode(b) == Some(node@));
            }
            Ok(node)
        } else if tag == LEAF_TAG {
            let mut pairs: Vec<KeyValuePair> = Vec::new();
            let mut pos: usize = HEADER_SIZE;
            let mut i: u64 = 0;
            while i < count
                invariant
                    page.wf(),
                    b == page@,
                    data@ == b,
                    0 <= i <= count,
                    pos <= PAGE_SIZE,
                    dec_pairs(b, 18, count as nat) == match dec_pairs(
                        b,
                        pos as int,
                        (count - i) as nat,
                    ) {
                        Some((rest, end)) => Some(
                            (pairs@.map_values(|p: KeyValuePair| p@) + rest, end),
                        ),
                        None => None::<(Seq<PairView>, int)>,
                    },
                decreases count - i,
            {
                let ghost pv0 = pairs@.map_values(|p: KeyValuePair| p@);
                let ghost pos0 = pos as int;
                let ghost rem0 = (count - i) as nat;
                let k = match read_string_at(data, &mut pos) {
                    Ok(s) => s,
                    Err(e) => {
                        proof {
                            assert(dec_pairs(b, pos0, rem0) is None);
                        }
                        return Err(e);
                    },
                };
                let ghost pos1 = pos as int;
                let v = match read_string_at(data, &mut pos) {
                    Ok(s) => s,
                    Err(e) => {
                        proof {
                            assert(dec_pairs(b, pos0, rem0) is None);
                        }
                        return Err(e);
                    },
                };
                pairs.push(KeyValuePair { key: k, value: v });
                i = i + 1;
                proof {
                    let pv1 = pairs@.map_values(|p: KeyValuePair| p@);
                    let pk = dec_key_at(b, pos0)->Some_0.0;
                    let pv = dec_key_at(b, pos1)->Some_0.0;
                    assert(pv1 =~= pv0.push((PairView { key: pk, value: pv })));
                    match dec_pairs(b, pos as int, (rem0 - 1) as nat) {
                        Some((rest, end)) => {
                            assert(dec_pairs(b, pos0, rem0) == Some(
                                (seq![(PairView { key: pk, value: pv })] + rest, end),
                            ));
                            assert(pv0 + (seq![(PairView { key: pk, value: pv })] + rest) =~= pv1
                                + rest);
                        },
                        None => {
                            assert(dec_pairs(b, pos0, rem0) is None);
                        },
                    }
                }
            }
            proof {
                assert(dec_pairs(b, pos as int, 0) == Some((Seq::<PairView>::empty(), pos as int)));
                assert(pairs@.map_values(|p: KeyValuePair| p@) + Seq::<PairView>::empty()
                    =~= pairs@.map_values(|p: KeyValuePair| p@));
                assert(dec_pairs(b, 18, count as nat) == Some(
                    (pairs@.map_values(|p: KeyValuePair| p@), pos as int),
                ));
            }
            let node = Node {
                node_type: NodeType::Leaf(pairs),
                is_root: flag,
                parent_offset: parent,
            };
            proof {
                assert(spec_decode(b) == Some(node@));
            }
            Ok(node)
        } else {
            Err(Error::UnexpectedError)
        }
    }
}


/// An internal node's offsets region is eight bytes per child.
pub proof fn lemma_enc_offsets_len(cs: Seq<usize>)
    ensures
        enc_offsets(cs).len() == 8 * cs.len(),
    decreases cs.len(),
{
    if cs.len() > 0 {
        lemma_enc_offsets_len(cs.drop_first());
    }
}

/// Every key contributes its length plus four bytes to the keys region.
pub proof fn lemma_enc_keys_bound(ks: Seq<Seq<u8>>, i: int)
    requires
        0 <= i < ks.len(),
    ensures
        enc_keys(ks).len() >= 4 + ks[i].len(),
    decreases ks.len(),
{
    if i > 0 {
        lemma_enc_keys_bound(ks.drop_first(), i - 1);
    }
}

/// Every pair contributes both fields plus eight bytes to the pairs region.
pub proof fn lemma_enc_pairs_bound(ps: Seq<PairView>, i: int)
    requires
        0 <= i < ps.len(),
    ensures
        enc_pairs(ps).len() >= 8 + ps[i].key.len() + ps[i].value.len(),
    decreases ps.len(),
{
    if i > 0 {
        lemma_enc_pairs_bound(ps.drop_first(), i - 1);
    }
}

/// A node round-trips through a page exactly when it has this shape: an
/// internal node has one more child than keys, the parent pointer is never
/// the zero offset, and all text is valid UTF-8.
pub open spec fn codec_wf(nv: NodeView) -> bool {
    &&& (match nv.parent_offset {
        Some(o) => o != 0,
        None => true,
    })
    &&& match nv.node_type {
        NodeTypeView::Internal(cs, ks) => {
            &&& cs.len() == ks.len() + 1
            &&& forall|i: int| 0 <= i < ks.len() ==> valid_utf8(ks[i])
        },
        NodeTypeView::Leaf(ps) => forall|i: int|
            0 <= i < ps.len() ==> valid_utf8(ps[i].key) && valid_utf8(ps[i].value),
        NodeTypeView::Unexpected => false,
    }
}


/// A match of `whole` inside `b` carries every sub-slice of `whole` along.
proof fn lemma_subrange_shift(b: Seq<u8>, pos: int, whole: Seq<u8>, off: int, part: Seq<u8>)
    requires
        0 <= pos,
        pos + whole.len() <= b.len(),
        b.subrange(pos, pos + whole.len()) == whole,
        0 <= off,
        off + part.len() <= whole.len(),
        part == whole.subrange(off, off + part.len()),
    ensures
        b.subrange(pos + off, pos + off + part.len()) == part,
{
    assert forall|j: int| 0 <= j < part.len() implies b[pos + off + j] == part[j] by {
        assert(whole[off + j] == b.subrange(pos, pos + whole.len())[off + j]);
        assert(part[j] == whole.subrange(off, off + part.len())[j]);
    }
    assert(b.subrange(pos + off, pos + off + part.len()) =~= part);
}

/// Decoding an encoded run of offsets yields the offsets back.
proof fn lemma_dec_offsets_of_enc(b: Seq<u8>, pos: int, cs: Seq<usize>)
    requires
        0 <= pos,
        pos + enc_offsets(cs).len() <= b.len(),
        b.subrange(pos, pos + enc_offsets(cs).len()) == enc_offsets(cs),
    ensures
        dec_offsets(b, pos, cs.len()) == Some((cs, pos + 8 * cs.len())),
    decreases cs.len(),
{
    lemma_enc_offsets_len(cs);
    if cs.len() == 0 {
        assert(cs =~= Seq::<usize>::empty());
    } else {
        let rest = cs.drop_first();
        let whole = enc_offsets(cs);
        lemma_enc_offsets_len(rest);
        assert(spec_u64_be(cs[0] as u64) =~= whole.subrange(0, 8));
        lemma_subrange_shift(b, pos, whole, 0, spec_u64_be(cs[0] as u64));
        lemma_u64_be_roundtrip(cs[0] as u64);
        assert(spec_u64_of_be(b.subrange(pos, pos + 8)) == cs[0] as u64);
        assert(enc_offsets(rest) =~= whole.subrange(8, whole.len() as int));
        lemma_subrange_shift(b, pos, whole, 8, enc_offsets(rest));
        lemma_dec_offsets_of_enc(b, pos + 8, rest);
        assert(seq![cs[0]] + rest =~= cs);
        assert(dec_offsets(b, pos, cs.len()) == Some((cs, pos + 8 * cs.len())));
    }
}

/// Decoding an encoded key yields the key back.
proof fn lemma_dec_key_of_enc(b: Seq<u8>, pos: int, k: Seq<u8>)
    requires
        0 <= pos,
        valid_utf8(k),
        k.len() <= u32::MAX,
        pos + 4 + k.len() <= b.len(),
        b.subrange(pos, pos + 4 + k.len()) == enc_key(k),
    ensures
        dec_key_at(b, pos) == Some((k, pos + 4 + k.len())),
{
    let klen = k.len() as int;
    let whole = enc_key(k);
    assert(spec_u32_be(k.len() as u32) =~= whole.subrange(0, 4));
    lemma_subrange_shift(b, pos, whole, 0, spec_u32_be(k.len() as u32));
    lemma_u32_be_roundtrip(k.len() as u32);
    assert(spec_u32_of_be(b.subrange(pos, pos + 4)) == k.len() as u32);
    assert(k =~= whole.subrange(4, 4 + klen));
    lemma_subrange_shift(b, pos, whole, 4, k);
}

/// Decoding an encoded run of keys yields the keys back.
proof fn lemma_dec_keys_of_enc(b: Seq<u8>, pos: int, ks: Seq<Seq<u8>>)
    requires
        0 <= pos,
        forall|i: int| 0 <= i < ks.len() ==> valid_utf8(ks[i]) && ks[i].len() <= u32::MAX,
        pos + enc_keys(ks).len() <= b.len(),
        b.subrange(pos, pos + enc_keys(ks).len()) == enc_keys(ks),
    ensures
        dec_keys(b, pos, ks.len()) == Some((ks, pos + enc_keys(ks).len())),
    decreases ks.len(),
{
    if ks.len() == 0 {
        assert(ks =~= Seq::<Seq<u8>>::empty());
    } else {
        let k = ks[0];
        let rest = ks.drop_first();
        let klen = k.len() as int;
        let whole = enc_keys(ks);
        assert(whole == enc_key(k) + enc_keys(rest));
        assert(enc_key(k) =~= whole.subrange(0, 4 + klen));
        lemma_subrange_shift(b, pos, whole, 0, enc_key(k));
        lemma_dec_key_of_enc(b, pos, k);
        assert(enc_keys(rest) =~= whole.subrange(4 + klen, whole.len() as int));
        lemma_subrange_shift(b, pos, whole, 4 + klen, enc_keys(rest));
        lemma_dec_keys_of_enc(b, pos + 4 + klen, rest);
        assert(seq![k] + rest =~= ks);
        assert(dec_keys(b, pos, ks.len()) == Some((ks, pos + enc_keys(ks).len())));
    }
}

/// Decoding an encoded run of pairs yields the pairs back.
proof fn lemma_dec_pairs_of_enc(b: Seq<u8>, pos: int, ps: Seq<PairView>)
    requires
        0 <= pos,
        forall|i: int|
            0 <= i < ps.len() ==> valid_utf8(ps[i].key) && ps[i].key.len() <= u32::MAX
                && valid_utf8(ps[i].value) && ps[i].value.len() <= u32::MAX,
        pos + enc_pairs(ps).len() <= b.len(),
        b.subrange(pos, pos + enc_pairs(ps).len()) == enc_pairs(ps),
    ensures
        dec_pairs(b, pos, ps.len()) == Some((ps, pos + enc_pairs(ps).len())),
    decreases ps.len(),
{
    if ps.len() == 0 {
        assert(ps =~= Seq::<PairView>::empty());
    } else {
        let p = ps[0];
        let rest = ps.drop_first();
        let klen = p.key.len() as int;
        let vlen = p.value.len() as int;
        let whole = enc_pairs(ps);
        assert(whole == enc_pair(p) + enc_pairs(rest));
        assert(enc_pair(p) == enc_key(p.key) + enc_key(p.value));
        assert(enc_key(p.key) =~= whole.subrange(0, 4 + klen));
        lemma_subrange_shift(b, pos, whole, 0, enc_key(p.key));
        lemma_dec_key_of_enc(b, pos, p.key);
        assert(enc_key(p.value) =~= whole.subrange(4 + klen, 8 + klen + vlen));
        lemma_subrange_shift(b, pos, whole, 4 + klen, enc_key(p.value));
        lemma_dec_key_of_enc(b, pos + 4 + klen, p.value);
        let p3 = pos + 8 + klen + vlen;
        assert(enc_pairs(rest) =~= whole.subrange(8 + klen + vlen, whole.len() as int));
        lemma_subrange_shift(b, pos, whole, 8 + klen + vlen, enc_pairs(rest));
        lemma_dec_pairs_of_enc(b, p3, rest);
        assert(seq![p] + rest =~= ps);
        assert(dec_pairs(b, pos, ps.len()) == Some((ps, pos + enc_pairs(ps).len())));
    }
}


/// When a pairs region fits in a page, each field fits a length word.
proof fn lemma_pairs_fit(ps: Seq<PairView>, cap: int)
    requires
        forall|i: int| 0 <= i < ps.len() ==> valid_utf8(ps[i].key) && valid_utf8(ps[i].value),
        enc_pairs(ps).len() <= cap,
        cap <= u32::MAX,
    ensures
        forall|i: int|
            0 <= i < ps.len() ==> valid_utf8(ps[i].key) && ps[i].key.len() <= u32::MAX
                && valid_utf8(ps[i].value) && ps[i].value.len() <= u32::MAX,
{
    assert forall|i: int|
        0 <= i < ps.len() implies valid_utf8(ps[i].key) && ps[i].key.len() <= u32::MAX
        && valid_utf8(ps[i].value) && ps[i].value.len() <= u32::MAX by {
        lemma_enc_pairs_bound(ps, i);
    }
}

/// When a keys region fits in a page, each key fits a length word.
proof fn lemma_keys_fit(ks: Seq<Seq<u8>>, cap: int)
    requires
        forall|i: int| 0 <= i < ks.len() ==> valid_utf8(ks[i]),
        enc_keys(ks).len() <= cap,
        cap <= u32::MAX,
    ensures
        forall|i: int| 0 <= i < ks.len() ==> valid_utf8(ks[i]) && ks[i].len() <= u32::MAX,
{
    assert forall|i: int| 0 <= i < ks.len() implies valid_utf8(ks[i]) && ks[i].len()
        <= u32::MAX by {
        lemma_enc_keys_bound(ks, i);
    }
}

/// The page of a node starts with its header fields, followed by the body.
#[verifier::rlimit(60)]
proof fn lemma_page_header(nv: NodeView, tag: u8, count: nat, body: Seq<u8>)
    requires
        enc_node(nv) == enc_header(tag, nv.is_root, nv.parent_offset, count) + body,
        enc_node(nv).len() <= PAGE_SIZE,
        count <= u64::MAX,
    ensures
        spec_page_of(nv).len() == PAGE_SIZE,
        spec_page_of(nv)[0] == tag,
        (spec_page_of(nv)[1] != 0) == nv.is_root,
        spec_u64_of_be(spec_page_of(nv).subrange(2, 10)) == parent_word(nv.parent_offset),
        spec_u64_of_be(spec_page_of(nv).subrange(10, 18)) == count as u64,
        spec_page_of(nv).subrange(18, 18 + body.len() as int) == body,
{
    reveal(spec_page_of);
    let b = spec_page_of(nv);
    let enc = enc_node(nv);
    let rb: u8 = if nv.is_root {
        1u8
    } else {
        0u8
    };
    let pw = parent_word(nv.parent_offset);
    let hdr = enc_header(tag, nv.is_root, nv.parent_offset, count);
    assert(hdr.len() == 18);
    assert(b.len() == PAGE_SIZE);
    assert(b.subrange(0, enc.len() as int) =~= enc);
    assert(hdr =~= enc.subrange(0, 18));
    lemma_subrange_shift(b, 0, enc, 0, hdr);
    assert(b[0] == b.subrange(0, 18)[0] && b[1] == b.subrange(0, 18)[1]);
    assert(hdr[0] == tag && hdr[1] == rb);
    assert(spec_u64_be(pw) =~= hdr.subrange(2, 10));
    lemma_subrange_shift(b, 0, hdr, 2, spec_u64_be(pw));
    lemma_u64_be_roundtrip(pw);
    assert(spec_u64_be(count as u64) =~= hdr.subrange(10, 18));
    lemma_subrange_shift(b, 0, hdr, 10, spec_u64_be(count as u64));
    lemma_u64_be_roundtrip(count as u64);
    assert(body =~= enc.subrange(18, enc.len() as int));
    lemma_subrange_shift(b, 0, enc, 18, body);
}

/// The parsed header bytes of an internal node's page.
#[verifier::rlimit(100)]
proof fn lemma_internal_header_part(nv: NodeView)
    requires
        codec_wf(nv),
        enc_node(nv).len() <= PAGE_SIZE,
        nv.node_type is Internal,
    ensures
        ({
            let b = spec_page_of(nv);
            &&& b.len() == PAGE_SIZE
            &&& b[0] == INTERNAL_TAG
            &&& (b[1] != 0) == nv.is_root
            &&& spec_u64_of_be(b.subrange(2, 10)) == parent_word(nv.parent_offset)
        }),
{
    let cs = nv.node_type->Internal_0;
    let ks = nv.node_type->Internal_1;
    let eo = enc_offsets(cs);
    let ek = enc_keys(ks);
    lemma_enc_offsets_len(cs);
    assert(enc_node(nv) =~= enc_header(INTERNAL_TAG, nv.is_root, nv.parent_offset, cs.len()) + (
    eo + ek));
    lemma_page_header(nv, INTERNAL_TAG, cs.len(), eo + ek);
}

/// The offsets region of an internal node's page holds the encoded
/// offsets.
#[verifier::rlimit(100)]
proof fn lemma_internal_offsets_bytes(nv: NodeView)
    requires
        codec_wf(nv),
        enc_node(nv).len() <= PAGE_SIZE,
        nv.node_type is Internal,
    ensures
        ({
            let b = spec_page_of(nv);
            let cs = nv.node_type->Internal_0;
            &&& spec_u64_of_be(b.subrange(10, 18)) == cs.len() as u64
            &&& cs.len() <= u64::MAX
            &&& 18 + 8 * cs.len() <= b.len()
            &&& b.subrange(18, 18 + 8 * cs.len() as int) == enc_offsets(cs)
        }),
{
    let b = spec_page_of(nv);
    let cs = nv.node_type->Internal_0;
    let ks = nv.node_type->Internal_1;
    let eo = enc_offsets(cs);
    let ek = enc_keys(ks);
    lemma_enc_offsets_len(cs);
    assert(enc_node(nv) =~= enc_header(INTERNAL_TAG, nv.is_root, nv.parent_offset, cs.len()) + (
    eo + ek));
    lemma_page_header(nv, INTERNAL_TAG, cs.len(), eo + ek);
    assert(eo =~= (eo + ek).subrange(0, eo.len() as int));
    lemma_subrange_shift(b, 18, eo + ek, 0, eo);
}

/// The parsed offsets region of an internal node's page.
#[verifier::rlimit(100)]
proof fn lemma_internal_offsets_part(nv: NodeView)
    requires
        codec_wf(nv),
        enc_node(nv).len() <= PAGE_SIZE,
        nv.node_type is Internal,
    ensures
        ({
            let b = spec_page_of(nv);
            let cs = nv.node_type->Internal_0;
            &&& spec_u64_of_be(b.subrange(10, 18)) == cs.len() as u64
            &&& cs.len() <= u64::MAX
            &&& dec_offsets(b, 18, cs.len()) == Some((cs, 18 + 8 * cs.len() as int))
        }),
{
    let b = spec_page_of(nv);
    let cs = nv.node_type->Internal_0;
    lemma_internal_offsets_bytes(nv);
    lemma_enc_offsets_len(cs);
    lemma_dec_offsets_of_enc(b, 18, cs);
}

/// The parsed keys region of an internal node's page.
#[verifier::rlimit(100)]
proof fn lemma_internal_keys_part(nv: NodeView)
    requires
        codec_wf(nv),
        enc_node(nv).len() <= PAGE_SIZE,
        nv.node_type is Internal,
    ensures
        ({
            let b = spec_page_of(nv);
            let cs = nv.node_type->Internal_0;
            let ks = nv.node_type->Internal_1;
            dec_keys(b, 18 + 8 * cs.len() as int, ks.len()) == Some(
                (ks, 18 + 8 * cs.len() as int + enc_keys(ks).len() as int),
            )
        }),
{
    let b = spec_page_of(nv);
    let cs = nv.node_type->Internal_0;
    let ks = nv.node_type->Internal_1;
    let eo = enc_offsets(cs);
    let ek = enc_keys(ks);
    lemma_enc_offsets_len(cs);
    assert(enc_node(nv) =~= enc_header(INTERNAL_TAG, nv.is_root, nv.parent_offset, cs.len()) + (
    eo + ek));
    lemma_page_header(nv, INTERNAL_TAG, cs.len(), eo + ek);
    lemma_keys_fit(ks, PAGE_SIZE as int);
    assert(ek =~= (eo + ek).subrange(eo.len() as int, (eo + ek).len() as int));
    lemma_subrange_shift(b, 18, eo + ek, eo.len() as int, ek);
    lemma_dec_keys_of_enc(b, 18 + eo.len() as int, ks);
}

/// Round trip for an internal node.
#[verifier::rlimit(100)]
proof fn lemma_decode_encode_internal(nv: NodeView)
    requires
        codec_wf(nv),
        enc_node(nv).len() <= PAGE_SIZE,
        nv.node_type is Internal,
    ensures
        spec_decode(spec_page_of(nv)) == Some(nv),
{
    reveal(spec_decode);
    lemma_internal_header_part(nv);
    lemma_internal_offsets_part(nv);
    lemma_internal_keys_part(nv);
    let b = spec_page_of(nv);
    let cs = nv.node_type->Internal_0;
    let ks = nv.node_type->Internal_1;
    let count = spec_u64_of_be(b.subrange(10, 18));
    assert(count as nat == cs.len() && count != 0);
    assert((count - 1) as nat == ks.len());
    let pw = parent_word(nv.parent_offset);
    assert(pw <= usize::MAX);
    assert((pw == 0 <==> nv.parent_offset is None) && (nv.parent_offset matches Some(o) ==> (
    pw as usize) == o));
    let got = spec_decode(b);
    assert(got is Some);
    let g = got->Some_0;
    assert(g.node_type == NodeTypeView::Internal(cs, ks));
    assert(g.node_type == nv.node_type);
    assert(g.is_root == nv.is_root);
    assert(g.parent_offset == nv.parent_offset);
    assert(g =~= nv);
}


/// A pairs region is at least eight bytes per pair.
proof fn lemma_enc_pairs_count(ps: Seq<PairView>)
    ensures
        enc_pairs(ps).len() >= 8 * ps.len(),
    decreases ps.len(),
{
    if ps.len() > 0 {
        lemma_enc_pairs_count(ps.drop_first());
    }
}

/// Round trip for a leaf node.
#[verifier::rlimit(60)]
proof fn lemma_decode_encode_leaf(nv: NodeView)
    requires
        codec_wf(nv),
        enc_node(nv).len() <= PAGE_SIZE,
        nv.node_type is Leaf,
    ensures
        spec_decode(spec_page_of(nv)) == Some(nv),
{
    reveal(spec_decode);
    let b = spec_page_of(nv);
    let ps = nv.node_type->Leaf_0;
    let ep = enc_pairs(ps);
    assert(enc_node(nv) == enc_header(LEAF_TAG, nv.is_root, nv.parent_offset, ps.len()) + ep);
    lemma_enc_pairs_count(ps);
    lemma_page_header(nv, LEAF_TAG, ps.len(), ep);
    lemma_pairs_fit(ps, PAGE_SIZE as int);
    lemma_dec_pairs_of_enc(b, 18, ps);
    let count = spec_u64_of_be(b.subrange(10, 18));
    assert(count as nat == ps.len());
    assert(dec_pairs(b, 18, count as nat) == Some((ps, 18 + ep.len() as int)));
    let pw = parent_word(nv.parent_offset);
    assert(pw <= usize::MAX);
    assert((pw == 0 <==> nv.parent_offset is None) && (nv.parent_offset matches Some(o) ==> (
    pw as usize) == o));
    let got = spec_decode(b);
    assert(got is Some);
    let g = got->Some_0;
    assert(g.node_type == NodeTypeView::Leaf(ps));
    assert(g.node_type == nv.node_type);
    assert(g.is_root == nv.is_root);
    assert(g.parent_offset == nv.parent_offset);
    assert(g =~= nv);
}

/// Round trip: decoding the page of a well-shaped node yields the node.
///
/// Together with the contracts of `Node::encode` and `Node::decode` this
/// says that for every node value `n` that fits in a page,
/// `decode(encode(n)) == n`.
pub proof fn lemma_decode_encode(nv: NodeView)
    requires
        codec_wf(nv),
        enc_node(nv).len() <= PAGE_SIZE,
    ensures
        spec_decode(spec_page_of(nv)) == Some(nv),
{
    match nv.node_type {
        NodeTypeView::Internal(cs, ks) => lemma_decode_encode_internal(nv),
        NodeTypeView::Leaf(ps) => lemma_decode_encode_leaf(nv),
        NodeTypeView::Unexpected => assert(false),
    }
}


/// The offsets region of a concatenation is the regions in sequence.
pub proof fn lemma_enc_offsets_append(a: Seq<usize>, b: Seq<usize>)
    ensures
        enc_offsets(a + b) == enc_offsets(a) + enc_offsets(b),
    decreases a.len(),
{
    if a.len() == 0 {
        assert(a + b =~= b);
        assert(enc_offsets(a) + enc_offsets(b) =~= enc_offsets(b));
    } else {
        lemma_enc_offsets_append(a.drop_first(), b);
        assert((a + b).drop_first() =~= a.drop_first() + b);
        assert((a + b)[0] == a[0]);
        assert(enc_offsets(a + b) == spec_u64_be(a[0] as u64) + enc_offsets(a.drop_first() + b));
        assert(enc_offsets(a + b) =~= enc_offsets(a) + enc_offsets(b));
    }
}

/// The keys region of a concatenation is the regions in sequence.
pub proof fn lemma_enc_keys_append(a: Seq<Seq<u8>>, b: Seq<Seq<u8>>)
    ensures
        enc_keys(a + b) == enc_keys(a) + enc_keys(b),
    decreases a.len(),
{
    if a.len() == 0 {
        assert(a + b =~= b);
        assert(enc_keys(a) + enc_keys(b) =~= enc_keys(b));
    } else {
        lemma_enc_keys_append(a.drop_first(), b);
        assert((a + b).drop_first() =~= a.drop_first() + b);
        assert((a + b)[0] == a[0]);
        assert(enc_keys(a + b) == enc_key(a[0]) + enc_keys(a.drop_first() + b));
        assert(enc_keys(a + b) =~= enc_keys(a) + enc_keys(b));
    }
}

/// The pairs region of a concatenation is the regions in sequence.
pub proof fn lemma_enc_pairs_append(a: Seq<PairView>, b: Seq<PairView>)
    ensures
        enc_pairs(a + b) == enc_pairs(a) + enc_pairs(b),
    decreases a.len(),
{
    if a.len() == 0 {
        assert(a + b =~= b);
        assert(enc_pairs(a) + enc_pairs(b) =~= enc_pairs(b));
    } else {
        lemma_enc_pairs_append(a.drop_first(), b);
        assert((a + b).drop_first() =~= a.drop_first() + b);
        assert((a + b)[0] == a[0]);
        assert(enc_pairs(a + b) == enc_pair(a[0]) + enc_pairs(a.drop_first() + b));
        assert(enc_pairs(a + b) =~= enc_pairs(a) + enc_pairs(b));
    }
}

/// Inserting one pair grows the pairs region by that pair's encoding.
pub proof fn lemma_enc_pairs_insert_len(ps: Seq<PairView>, i: int, pv: PairView)
    requires
        0 <= i <= ps.len(),
    ensures
        enc_pairs(ps.insert(i, pv)).len() == enc_pairs(ps).len() + 8 + pv.key.len()
            + pv.value.len(),
{
    assert(ps.insert(i, pv) =~= ps.take(i) + (seq![pv] + ps.skip(i)));
    assert(ps =~= ps.take(i) + ps.skip(i));
    lemma_enc_pairs_append(ps.take(i), seq![pv] + ps.skip(i));
    lemma_enc_pairs_append(seq![pv], ps.skip(i));
    lemma_enc_pairs_append(ps.take(i), ps.skip(i));
    assert(seq![pv].drop_first() =~= Seq::<PairView>::empty());
    assert(enc_pairs(seq![pv]) == enc_pair(pv) + enc_pairs(seq![pv].drop_first()));
}

/// Inserting one key grows the keys region by that key's encoding.
pub proof fn lemma_enc_keys_insert_len(ks: Seq<Seq<u8>>, i: int, m: Seq<u8>)
    requires
        0 <= i <= ks.len(),
    ensures
        enc_keys(ks.insert(i, m)).len() == enc_keys(ks).len() + 4 + m.len(),
{
    assert(ks.insert(i, m) =~= ks.take(i) + (seq![m] + ks.skip(i)));
    assert(ks =~= ks.take(i) + ks.skip(i));
    lemma_enc_keys_append(ks.take(i), seq![m] + ks.skip(i));
    lemma_enc_keys_append(seq![m], ks.skip(i));
    lemma_enc_keys_append(ks.take(i), ks.skip(i));
    assert(seq![m].drop_first() =~= Seq::<Seq<u8>>::empty());
    assert(enc_keys(seq![m]) == enc_key(m) + enc_keys(seq![m].drop_first()));
}

/// A keys region is at least four bytes per key, plus any one key's bytes.
pub proof fn lemma_enc_keys_count_key(ks: Seq<Seq<u8>>, i: int)
    requires
        0 <= i < ks.len(),
    ensures
        enc_keys(ks).len() >= 4 * ks.len() + ks[i].len(),
    decreases ks.len(),
{
    if i > 0 {
        lemma_enc_keys_count_key(ks.drop_first(), i - 1);
    } else if ks.len() > 1 {
        lemma_enc_keys_count_key(ks.drop_first(), 0);
        assert(enc_keys(ks.drop_first()).len() >= 4 * ks.drop_first().len());
    }
}

/// A pairs region is at least eight bytes per pair, plus any one key's
/// bytes.
pub proof fn lemma_enc_pairs_count_key(ps: Seq<PairView>, i: int)
    requires
        0 <= i < ps.len(),
    ensures
        enc_pairs(ps).len() >= 8 * ps.len() + ps[i].key.len(),
    decreases ps.len(),
{
    if i > 0 {
        lemma_enc_pairs_count_key(ps.drop_first(), i - 1);
    } else if ps.len() > 1 {
        lemma_enc_pairs_count_key(ps.drop_first(), 0);
        assert(enc_pairs(ps.drop_first()).len() >= 8 * ps.drop_first().len());
    }
}

} // verus!
