//! Nibble-oriented view onto a byte slice, allowing nibble-precision offsets.

use elastic_array::ElasticArray36;
use vstd::prelude::*;

verus! {

#[verifier::external_type_specification]
#[verifier::external_body]
#[verifier::reject_recursive_types(T)]
pub struct ExElasticArray36<T>(ElasticArray36<T>);

/// The bytes that an `ElasticArray36<u8>` holds, in order.
pub uninterp spec fn elastic_bytes(a: ElasticArray36<u8>) -> Seq<u8>;

/// Relies on `ElasticArray36::new`: the new array holds nothing.
#[verifier::external_body]
fn elastic_new() -> (r: ElasticArray36<u8>)
    ensures
        elastic_bytes(r) == Seq::<u8>::empty(),
{
    ElasticArray36::new()
}

/// Relies on `ElasticArray36::push`: `e` is appended after the bytes already held.
#[verifier::external_body]
fn elastic_push(a: &mut ElasticArray36<u8>, e: u8)
    ensures
        elastic_bytes(*final(a)) == elastic_bytes(*old(a)).push(e),
{
    a.push(e)
}

/// The `k`-th nibble of `b`: high half of a byte first, then its low half.
pub open spec fn nibble_at(b: Seq<u8>, k: int) -> u8 {
    if k % 2 == 0 {
        (b[k / 2] / 16) as u8
    } else {
        (b[k / 2] % 16) as u8
    }
}

/// The nibbles of `b`, skipping the first `o` of them.
pub open spec fn nibbles_from(b: Seq<u8>, o: int) -> Seq<u8> {
    Seq::new((2 * b.len() - o) as nat, |i: int| nibble_at(b, o + i))
}

/// What is left of `s` after its first `i` elements.
pub open spec fn skip_view(s: Seq<u8>, i: int) -> Seq<u8> {
    s.subrange(i, s.len() as int)
}

/// Whether `p` is a prefix of `s`.
pub open spec fn has_prefix(s: Seq<u8>, p: Seq<u8>) -> bool {
    p.len() <= s.len() && forall|j: int| 0 <= j < p.len() ==> s[j] == p[j]
}

/// The length of the longest common prefix of `a` and `b`.
pub open spec fn common_prefix_len(a: Seq<u8>, b: Seq<u8>) -> nat
    decreases a.len(),
{
    if a.len() == 0 || b.len() == 0 || a[0] != b[0] {
        0
    } else {
        1 + common_prefix_len(a.drop_first(), b.drop_first())
    }
}

/// Lexicographic order of nibble sequences; on a shared prefix the shorter is less.
pub open spec fn lex_cmp(a: Seq<u8>, b: Seq<u8>) -> core::cmp::Ordering
    decreases a.len(),
{
    if a.len() == 0 {
        if b.len() == 0 {
            core::cmp::Ordering::Equal
        } else {
            core::cmp::Ordering::Less
        }
    } else if b.len() == 0 {
        core::cmp::Ordering::Greater
    } else if a[0] < b[0] {
        core::cmp::Ordering::Less
    } else if a[0] > b[0] {
        core::cmp::Ordering::Greater
    } else {
        lex_cmp(a.drop_first(), b.drop_first())
    }
}

/// `k` is the length of the common prefix exactly when the first `k` elements agree
/// and, unless one side ends there, the next ones differ.
pub proof fn lemma_common_prefix_len_exact(a: Seq<u8>, b: Seq<u8>, k: int)
    requires
        0 <= k <= a.len(),
        k <= b.len(),
        forall|j: int| 0 <= j < k ==> a[j] == b[j],
        k < a.len() && k < b.len() ==> a[k] != b[k],
    ensures
        common_prefix_len(a, b) == k,
    decreases k,
{
    if k > 0 {
        lemma_common_prefix_len_exact(a.drop_first(), b.drop_first(), k - 1);
    }
}

/// The common prefix length bounds a prefix on which both sequences agree.
pub proof fn lemma_common_prefix_len_agrees(a: Seq<u8>, b: Seq<u8>)
    ensures
        common_prefix_len(a, b) <= a.len(),
        common_prefix_len(a, b) <= b.len(),
        forall|j: int| 0 <= j < common_prefix_len(a, b) ==> a[j] == b[j],
        common_prefix_len(a, b) < a.len() && common_prefix_len(a, b) < b.len()
            ==> a[common_prefix_len(a, b) as int] != b[common_prefix_len(a, b) as int],
    decreases a.len(),
{
    if !(a.len() == 0 || b.len() == 0 || a[0] != b[0]) {
        lemma_common_prefix_len_agrees(a.drop_first(), b.drop_first());
        let k = common_prefix_len(a, b) as int;
        assert forall|j: int| 0 <= j < k implies a[j] == b[j] by {
            if j > 0 {
                assert(a[j] == a.drop_first()[j - 1]);
                assert(b[j] == b.drop_first()[j - 1]);
            }
        }
    }
}

/// Common prefix length is symmetric.
pub proof fn lemma_common_prefix_symmetric(a: Seq<u8>, b: Seq<u8>)
    ensures
        common_prefix_len(a, b) == common_prefix_len(b, a),
{
    lemma_common_prefix_len_agrees(a, b);
    lemma_common_prefix_len_exact(b, a, common_prefix_len(a, b) as int);
}

/// `a` starts with `b` exactly when their common prefix is the whole of `b`.
pub proof fn lemma_starts_with_common_prefix(a: Seq<u8>, b: Seq<u8>)
    ensures
        has_prefix(a, b) <==> common_prefix_len(a, b) == b.len(),
{
    lemma_common_prefix_len_agrees(a, b);
    if has_prefix(a, b) {
        lemma_common_prefix_len_exact(a, b, b.len() as int);
    }
}

/// Dropping a shared prefix leaves the lexicographic comparison unchanged.
proof fn lemma_lex_cmp_skip(a: Seq<u8>, b: Seq<u8>, k: int)
    requires
        0 <= k <= a.len(),
        k <= b.len(),
        forall|j: int| 0 <= j < k ==> a[j] == b[j],
    ensures
        lex_cmp(a, b) == lex_cmp(skip_view(a, k), skip_view(b, k)),
    decreases k,
{
    if k == 0 {
        assert(skip_view(a, 0) =~= a);
        assert(skip_view(b, 0) =~= b);
    } else {
        assert(a[0] == b[0]);
        lemma_lex_cmp_skip(a.drop_first(), b.drop_first(), k - 1);
        assert(skip_view(a.drop_first(), k - 1) =~= skip_view(a, k));
        assert(skip_view(b.drop_first(), k - 1) =~= skip_view(b, k));
    }
}

/// The lexicographic order is transitive.
pub proof fn lemma_lex_transitive(a: Seq<u8>, b: Seq<u8>, c: Seq<u8>)
    requires
        lex_cmp(a, b) != core::cmp::Ordering::Greater,
        lex_cmp(b, c) != core::cmp::Ordering::Greater,
    ensures
        lex_cmp(a, c) != core::cmp::Ordering::Greater,
    decreases a.len(),
{
    if a.len() > 0 && c.len() > 0 && a[0] == c[0] {
        lemma_lex_transitive(a.drop_first(), b.drop_first(), c.drop_first());
    }
}

/// The lexicographic order says `Equal` exactly on equal sequences.
pub proof fn lemma_lex_equal(a: Seq<u8>, b: Seq<u8>)
    ensures
        (lex_cmp(a, b) == core::cmp::Ordering::Equal) <==> a == b,
    decreases a.len(),
{
    if a.len() > 0 && b.len() > 0 && a[0] == b[0] {
        lemma_lex_equal(a.drop_first(), b.drop_first());
        if a.drop_first() == b.drop_first() {
            assert forall|j: int| 0 <= j < a.len() implies a[j] == b[j] by {
                if j > 0 {
                    assert(a[j] == a.drop_first()[j - 1]);
                    assert(b[j] == b.drop_first()[j - 1]);
                }
            }
            assert(a =~= b);
        }
    } else if a.len() == 0 && b.len() == 0 {
        assert(a =~= b);
    }
}

/// Packs pairs of nibbles into bytes, high nibble first.
pub open spec fn pack_nibbles(s: Seq<u8>) -> Seq<u8> {
    Seq::new(s.len() / 2, |j: int| (s[2 * j] * 16 + s[2 * j + 1]) as u8)
}

/// First byte of the hex-prefix encoding: the leaf flag, the odd-length flag and,
/// for an odd length, the first nibble.
pub open spec fn hp_header(n: Seq<u8>, is_leaf: bool) -> u8 {
    ((if is_leaf { 0x20int } else { 0int }) + (if n.len() % 2 == 1 { 0x10 + n[0] } else { 0int })) as u8
}

/// Hex-prefix encoding of the nibbles `n` with the leaf flag `is_leaf`.
pub open spec fn hp_encode(n: Seq<u8>, is_leaf: bool) -> Seq<u8> {
    seq![hp_header(n, is_leaf)] + pack_nibbles(skip_view(n, (n.len() % 2) as int))
}

/// The leaf flag of a hex-prefix encoded key.
pub open spec fn hp_is_leaf(b: Seq<u8>) -> bool {
    (b[0] / 32) % 2 == 1
}

/// The nibbles of a hex-prefix encoded key.
pub open spec fn hp_decode(b: Seq<u8>) -> Seq<u8> {
    nibbles_from(b, if (b[0] / 16) % 2 == 1 { 1 } else { 2 })
}

proof fn lemma_byte_halves(x: u8, y: u8)
    requires
        x < 16,
        y < 16,
    ensures
        ((x * 16 + y) as u8) / 16 == x,
        ((x * 16 + y) as u8) % 16 == y,
{
    assert(((x * 16 + y) as u8) / 16 == x && ((x * 16 + y) as u8) % 16 == y) by (nonlinear_arith)
        requires
            x < 16,
            y < 16,
    ;
}

/// Decoding a hex-prefix encoding gives back the nibbles and the leaf flag.
pub proof fn lemma_hp_round_trip(n: Seq<u8>, is_leaf: bool)
    requires
        forall|i: int| 0 <= i < n.len() ==> #[trigger] n[i] < 16,
    ensures
        hp_decode(hp_encode(n, is_leaf)) == n,
        hp_is_leaf(hp_encode(n, is_leaf)) == is_leaf,
{
    let e = hp_encode(n, is_leaf);
    let p = (n.len() % 2) as int;
    let m = skip_view(n, p);
    let h = hp_header(n, is_leaf);
    assert(e[0] == h);
    let lb: int = if is_leaf { 2 } else { 0 };
    if p == 1 {
        assert(n[0] < 16);
        assert(h as int == lb * 16 + 16 + n[0]);
    } else {
        assert(h as int == lb * 16);
    }
    assert(h / 16 == lb + p);
    assert(h / 32 == lb / 2);
    let o: int = if p == 1 { 1 } else { 2 };
    let d = hp_decode(e);
    assert(d.len() == n.len());
    assert forall|i: int| 0 <= i < n.len() implies d[i] == n[i] by {
        let k = o + i;
        if k >= 2 {
            let q = k / 2;
            assert(e[q] == pack_nibbles(m)[q - 1]);
            assert(m[2 * (q - 1)] == n[p + 2 * q - 2]);
            assert(m[2 * (q - 1) + 1] == n[p + 2 * q - 1]);
            lemma_byte_halves(n[p + 2 * q - 2], n[p + 2 * q - 1]);
        } else {
            assert(h % 16 == n[0]);
        }
    }
    assert(d =~= n);
}

/// Encoding a view and decoding the result gives back the view and the flag.
pub proof fn lemma_encoded_round_trip(v: NibbleSlice, is_leaf: bool)
    ensures
        hp_decode(hp_encode(v@, is_leaf)) == v@,
        hp_is_leaf(hp_encode(v@, is_leaf)) == is_leaf,
{
    v.lemma_nibble_bound();
    lemma_hp_round_trip(v@, is_leaf);
}

/// Skipping `i` elements and then `j` more is skipping `i + j`.
pub proof fn lemma_mid_compose(s: Seq<u8>, i: int, j: int)
    requires
        0 <= i,
        0 <= j,
        i + j <= s.len(),
    ensures
        skip_view(skip_view(s, i), j) == skip_view(s, i + j),
{
    assert(skip_view(skip_view(s, i), j) =~= skip_view(s, i + j));
}

/// Nibble-oriented view onto a byte slice, allowing nibble-precision offsets.
///
/// The view never changes: every operation is pure and `mid` yields a new view
/// over the same bytes.
#[derive(Clone, Copy, Debug)]
pub struct NibbleSlice<'a> {
    data: &'a [u8],
    offset: usize,
}

impl<'a> NibbleSlice<'a> {
    #[verifier::type_invariant]
    spec fn inv(self) -> bool {
        &&& self.offset <= 2 * self.data@.len()
        &&& 2 * self.data@.len() <= usize::MAX
    }

    /// The nibbles that the view shows, in order.
    pub closed spec fn view(&self) -> Seq<u8> {
        nibbles_from(self.data@, self.offset as int)
    }

    /// Every nibble of a view is below 16.
    pub proof fn lemma_nibble_bound(&self)
        ensures
            forall|i: int| 0 <= i < self@.len() ==> #[trigger] self@[i] < 16,
    {
    }

    /// A view over the whole of `data`.
    pub fn new(data: &'a [u8]) -> (r: Self)
        requires
            2 * data@.len() <= usize::MAX,
        ensures
            r@ == nibbles_from(data@, 0),
    {
        NibbleSlice::new_offset(data, 0)
    }

    /// A view over `data` that starts `offset` nibbles in.
    pub fn new_offset(data: &'a [u8], offset: usize) -> (r: Self)
        requires
            offset <= 2 * data@.len(),
            2 * data@.len() <= usize::MAX,
        ensures
            r@ == nibbles_from(data@, offset as int),
            r@.len() == 2 * data@.len() - offset,
    {
        NibbleSlice { data, offset }
    }

    /// Whether the view shows no nibble.
    pub fn is_empty(&self) -> (r: bool)
        ensures
            r == (self@.len() == 0),
    {
        self.len() == 0
    }

    /// The number of nibbles in the view.
    pub fn len(&self) -> (r: usize)
        ensures
            r == self@.len(),
    {
        proof {
            use_type_invariant(self);
        }
        self.data.len() * 2 - self.offset
    }

    /// The nibble at position `i`.
    pub fn at(&self, i: usize) -> (r: u8)
        requires
            i < self@.len(),
        ensures
            r == self@[i as int],
            r < 16,
    {
        proof {
            use_type_invariant(self);
        }
        let k: usize = self.offset + i;
        let b: u8 = self.data[k / 2];
        proof {
            assert(b & 15u8 == b % 16) by (bit_vector);
            assert(b >> 4u8 == b / 16) by (bit_vector);
            assert(k & 1usize == 1usize <==> k % 2 == 1) by (bit_vector);
        }
        if k & 1 == 1 {
            b & 15u8
        } else {
            b >> 4
        }
    }

    /// A view onto the same bytes, `i` nibbles further on.
    pub fn mid(&self, i: usize) -> (r: NibbleSlice<'a>)
        requires
            i <= self@.len(),
        ensures
            r@ == skip_view(self@, i as int),
    {
        proof {
            use_type_invariant(self);
        }
        let r = NibbleSlice { data: self.data, offset: self.offset + i };
        assert(r@ =~= skip_view(self@, i as int));
        r
    }

    /// A view onto hex-prefix encoded bytes (such as the output of `encoded`), and
    /// the leaf flag that they carry.
    pub fn from_encoded(data: &'a [u8]) -> (r: (NibbleSlice<'a>, bool))
        requires
            data@.len() >= 1,
            2 * data@.len() <= usize::MAX,
        ensures
            r.0@ == hp_decode(data@),
            r.1 == hp_is_leaf(data@),
    {
        let b: u8 = data[0];
        proof {
            assert(b & 16u8 == 16u8 <==> (b / 16) % 2 == 1) by (bit_vector);
            assert(b & 32u8 == 32u8 <==> (b / 32) % 2 == 1) by (bit_vector);
        }
        let offset: usize = if b & 16 == 16 { 1 } else { 2 };
        (Self::new_offset(data, offset), b & 32 == 32)
    }

    /// Hex-prefix encoding of the first `l` nibbles.
    fn encode_prefix(&self, l: usize, is_leaf: bool) -> (r: ElasticArray36<u8>)
        requires
            l <= self@.len(),
        ensures
            elastic_bytes(r) == hp_encode(self@.take(l as int), is_leaf),
    {
        let ghost n = self@.take(l as int);
        let mut r = elastic_new();
        let mut i: usize = l % 2;
        let leaf_bits: u8 = if is_leaf { 0x20 } else { 0 };
        let head: u8 = if i == 1 { 0x10 + self.at(0) } else { 0 };
        elastic_push(&mut r, head + leaf_bits);
        assert(pack_nibbles(n.subrange((l % 2) as int, i as int)) =~= Seq::<u8>::empty());
        while i < l
            invariant
                n == self@.take(l as int),
                l <= self@.len(),
                l % 2 <= i <= l,
                (l - i) % 2 == 0,
                elastic_bytes(r) == seq![hp_header(n, is_leaf)] + pack_nibbles(
                    n.subrange((l % 2) as int, i as int),
                ),
            decreases l - i,
        {
            let hi = self.at(i);
            let lo = self.at(i + 1);
            let byte: u8 = hi * 16 + lo;
            elastic_push(&mut r, byte);
            proof {
                let a = (l % 2) as int;
                let old_p = pack_nibbles(n.subrange(a, i as int));
                let new_p = pack_nibbles(n.subrange(a, i + 2));
                assert(new_p.len() == old_p.len() + 1);
                assert forall|j: int| 0 <= j < old_p.len() implies new_p[j] == old_p[j] by {
                    assert(n.subrange(a, i + 2)[2 * j] == n.subrange(a, i as int)[2 * j]);
                    assert(n.subrange(a, i + 2)[2 * j + 1] == n.subrange(a, i as int)[2 * j + 1]);
                }
                assert(new_p[old_p.len() as int] == byte);
                assert(new_p =~= old_p.push(byte));
                assert(seq![hp_header(n, is_leaf)] + new_p =~= (seq![hp_header(n, is_leaf)]
                    + old_p).push(byte));
            }
            i += 2;
        }
        assert(n.subrange((l % 2) as int, l as int) =~= skip_view(n, (n.len() % 2) as int));
        r
    }

    /// Hex-prefix encoding of the whole view, noting whether it `is_leaf`.
    pub fn encoded(&self, is_leaf: bool) -> (r: ElasticArray36<u8>)
        ensures
            elastic_bytes(r) == hp_encode(self@, is_leaf),
    {
        let l = self.len();
        assert(self@.take(l as int) =~= self@);
        self.encode_prefix(l, is_leaf)
    }

    /// Hex-prefix encoding of the leftmost `n` nibbles (all of them if there are fewer),
    /// noting whether it `is_leaf`.
    pub fn encoded_leftmost(&self, n: usize, is_leaf: bool) -> (r: ElasticArray36<u8>)
        ensures
            elastic_bytes(r) == hp_encode(
                self@.take(if n < self@.len() { n as int } else { self@.len() as int }),
                is_leaf,
            ),
    {
        let len = self.len();
        let l: usize = if n < len { n } else { len };
        self.encode_prefix(l, is_leaf)
    }

    /// Iterator over the nibbles of the view, in order.
    pub fn iter(&'a self) -> (r: NibbleSliceIterator<'a>)
        ensures
            r.remaining() == self@,
    {
        let r = NibbleSliceIterator { p: self, i: 0 };
        assert(skip_view(self@, 0) =~= self@);
        r
    }

    /// Whether the view begins with all the nibbles of `them`.
    pub fn starts_with(&self, them: &Self) -> (r: bool)
        ensures
            r == has_prefix(self@, them@),
    {
        let c = self.common_prefix(them);
        proof {
            lemma_starts_with_common_prefix(self@, them@);
        }
        c == them.len()
    }

    /// How many nibbles at the start the view shares with `them`.
    pub fn common_prefix(&self, them: &Self) -> (r: usize)
        ensures
            r == common_prefix_len(self@, them@),
    {
        let a = self.len();
        let b = them.len();
        let s: usize = if a < b { a } else { b };
        let mut i: usize = 0;
        while i < s
            invariant
                s <= self@.len(),
                s <= them@.len(),
                s == self@.len() || s == them@.len(),
                i <= s,
                forall|j: int| 0 <= j < i ==> self@[j] == them@[j],
            decreases s - i,
        {
            if self.at(i) != them.at(i) {
                proof {
                    lemma_common_prefix_len_exact(self@, them@, i as int);
                }
                return i;
            }
            i += 1;
        }
        proof {
            lemma_common_prefix_len_exact(self@, them@, s as int);
        }
        s
    }

    /// Lexicographic comparison of the two nibble sequences.
    pub fn compare(&self, them: &Self) -> (r: core::cmp::Ordering)
        ensures
            r == lex_cmp(self@, them@),
    {
        let a = self.len();
        let b = them.len();
        let s: usize = if a < b { a } else { b };
        let mut i: usize = 0;
        while i < s
            invariant
                a == self@.len(),
                b == them@.len(),
                s <= a,
                s <= b,
                s == a || s == b,
                i <= s,
                forall|j: int| 0 <= j < i ==> self@[j] == them@[j],
            decreases s - i,
        {
            let x = self.at(i);
            let y = them.at(i);
            if x < y {
                proof {
                    lemma_lex_cmp_skip(self@, them@, i as int);
                }
                return core::cmp::Ordering::Less;
            } else if x > y {
                proof {
                    lemma_lex_cmp_skip(self@, them@, i as int);
                }
                return core::cmp::Ordering::Greater;
            }
            i += 1;
        }
        proof {
            lemma_lex_cmp_skip(self@, them@, s as int);
        }
        if a < b {
            core::cmp::Ordering::Less
        } else if a > b {
            core::cmp::Ordering::Greater
        } else {
            core::cmp::Ordering::Equal
        }
    }
}

/// Walks the nibbles of a view one at a time.
pub struct NibbleSliceIterator<'a> {
    p: &'a NibbleSlice<'a>,
    i: usize,
}

impl<'a> NibbleSliceIterator<'a> {
    #[verifier::type_invariant]
    spec fn inv(self) -> bool {
        self.i <= self.p@.len()
    }

    /// The nibbles that are yet to come.
    pub closed spec fn remaining(&self) -> Seq<u8> {
        skip_view(self.p@, self.i as int)
    }

    /// The next nibble, or `None` once all of them have come.
    pub fn next(&mut self) -> (r: Option<u8>)
        ensures
            old(self).remaining().len() == 0 ==> r.is_none() && final(self).remaining() == old(
                self,
            ).remaining(),
            old(self).remaining().len() > 0 ==> r == Some(old(self).remaining()[0])
                && final(self).remaining() == old(self).remaining().drop_first(),
    {
        proof {
            use_type_invariant(&*self);
        }
        if self.i < self.p.len() {
            let x = self.p.at(self.i);
            self.i = self.i + 1;
            assert(self.remaining() =~= old(self).remaining().drop_first());
            Some(x)
        } else {
            None
        }
    }
}

impl<'a> PartialEq for NibbleSlice<'a> {
    fn eq(&self, them: &Self) -> (r: bool) {
        let r = self.len() == them.len() && self.starts_with(them);
        proof {
            if r {
                assert(self@ =~= them@);
            }
        }
        r
    }
}

impl<'a> vstd::std_specs::cmp::PartialEqSpecImpl for NibbleSlice<'a> {
    open spec fn obeys_eq_spec() -> bool {
        true
    }

    open spec fn eq_spec(&self, them: &Self) -> bool {
        self@ == them@
    }
}

impl<'a> PartialOrd for NibbleSlice<'a> {
    fn partial_cmp(&self, them: &Self) -> (r: Option<core::cmp::Ordering>) {
        Some(self.compare(them))
    }
}

impl<'a> vstd::std_specs::cmp::PartialOrdSpecImpl for NibbleSlice<'a> {
    open spec fn obeys_partial_cmp_spec() -> bool {
        true
    }

    open spec fn partial_cmp_spec(&self, them: &Self) -> Option<core::cmp::Ordering> {
        Some(lex_cmp(self@, them@))
    }
}

} // verus!
