//! Identifiers, and the keys under which they are stored: each identifier as
//! four bytes, most significant first, so that keys order as the identifiers do.

use vstd::prelude::*;

verus! {

/// The four bytes of `v`, most significant first.
pub open spec fn be_bytes(v: u32) -> Seq<u8> {
    seq![
        (v as int / 0x100_0000) as u8,
        (v as int / 0x1_0000 % 0x100) as u8,
        (v as int / 0x100 % 0x100) as u8,
        (v as int % 0x100) as u8,
    ]
}

/// The number whose four bytes, most significant first, `b` starts with.
pub open spec fn be_value(b: Seq<u8>) -> int
    recommends
        b.len() >= 4,
{
    b[0] as int * 0x100_0000 + b[1] as int * 0x1_0000 + b[2] as int * 0x100 + b[3] as int
}

/// The bytes of the identifiers, one after the other.
pub open spec fn joined(ids: Seq<u32>) -> Seq<u8>
    decreases ids.len(),
{
    if ids.len() == 0 {
        Seq::empty()
    } else {
        be_bytes(ids.first()) + joined(ids.drop_first())
    }
}

/// `a` comes before `b` in the order of byte strings: at the first place
/// where they differ `a` has the lower byte, or `a` ends there and `b` goes on.
pub open spec fn bytes_lt(a: Seq<u8>, b: Seq<u8>) -> bool
    decreases a.len(),
{
    if b.len() == 0 {
        false
    } else if a.len() == 0 {
        true
    } else if a.first() != b.first() {
        a.first() < b.first()
    } else {
        bytes_lt(a.drop_first(), b.drop_first())
    }
}

/// `a` comes before `b` in the order of tuples: at the first place where they
/// differ `a` has the lower identifier, or `a` ends there and `b` goes on.
pub open spec fn ids_lt(a: Seq<u32>, b: Seq<u32>) -> bool
    decreases a.len(),
{
    if b.len() == 0 {
        false
    } else if a.len() == 0 {
        true
    } else if a.first() != b.first() {
        a.first() < b.first()
    } else {
        ids_lt(a.drop_first(), b.drop_first())
    }
}

/// The bytes of a number give the number back.
pub proof fn lemma_be_value(v: u32)
    ensures
        be_bytes(v).len() == 4,
        be_value(be_bytes(v)) == v,
{
    let n = v as int;
    assert(n / 0x100_0000 < 0x100 && (n / 0x100_0000) * 0x100_0000 + (n / 0x1_0000 % 0x100)
        * 0x1_0000 + (n / 0x100 % 0x100) * 0x100 + n % 0x100 == n) by (nonlinear_arith)
        requires
            0 <= n <= 0xffff_ffff,
    ;
}

/// Four bytes are the bytes of the number they give.
pub proof fn lemma_be_bytes(b: Seq<u8>)
    requires
        b.len() == 4,
    ensures
        0 <= be_value(b) <= u32::MAX,
        be_bytes(be_value(b) as u32) == b,
{
    let b0 = b[0] as int;
    let b1 = b[1] as int;
    let b2 = b[2] as int;
    let b3 = b[3] as int;
    let v = be_value(b);
    assert(v / 0x100_0000 == b0) by (nonlinear_arith)
        requires
            v == b0 * 0x100_0000 + b1 * 0x1_0000 + b2 * 0x100 + b3,
            0 <= b0 < 256,
            0 <= b1 < 256,
            0 <= b2 < 256,
            0 <= b3 < 256,
    ;
    assert(v / 0x1_0000 % 0x100 == b1) by (nonlinear_arith)
        requires
            v == b0 * 0x100_0000 + b1 * 0x1_0000 + b2 * 0x100 + b3,
            0 <= b0 < 256,
            0 <= b1 < 256,
            0 <= b2 < 256,
            0 <= b3 < 256,
    ;
    assert(v / 0x100 % 0x100 == b2) by (nonlinear_arith)
        requires
            v == b0 * 0x100_0000 + b1 * 0x1_0000 + b2 * 0x100 + b3,
            0 <= b0 < 256,
            0 <= b1 < 256,
            0 <= b2 < 256,
            0 <= b3 < 256,
    ;
    assert(v % 0x100 == b3) by (nonlinear_arith)
        requires
            v == b0 * 0x100_0000 + b1 * 0x1_0000 + b2 * 0x100 + b3,
            0 <= b0 < 256,
            0 <= b1 < 256,
            0 <= b2 < 256,
            0 <= b3 < 256,
    ;
    assert(be_bytes(v as u32) =~= b);
}

/// The bytes of numbers order as the numbers do.
pub proof fn lemma_be_order(x: u32, y: u32)
    ensures
        bytes_lt(be_bytes(x), be_bytes(y)) <==> x < y,
        be_bytes(x) == be_bytes(y) <==> x == y,
{
    let a = be_bytes(x);
    let b = be_bytes(y);
    lemma_be_value(x);
    lemma_be_value(y);
    let a1 = a.drop_first();
    let b1 = b.drop_first();
    let a2 = a1.drop_first();
    let b2 = b1.drop_first();
    let a3 = a2.drop_first();
    let b3 = b2.drop_first();
    assert(a1.len() == 3 && a2.len() == 2 && a3.len() == 1 && a3.drop_first().len() == 0);
    assert(b1.len() == 3 && b2.len() == 2 && b3.len() == 1 && b3.drop_first().len() == 0);
    assert(a1.first() == a[1] && a2.first() == a[2] && a3.first() == a[3]);
    assert(b1.first() == b[1] && b2.first() == b[2] && b3.first() == b[3]);
    assert(bytes_lt(a3, b3) == (a[3] < b[3])) by {
        assert(!bytes_lt(a3.drop_first(), b3.drop_first()));
    }
    assert(bytes_lt(a2, b2) == (a[2] < b[2] || (a[2] == b[2] && a[3] < b[3])));
    assert(bytes_lt(a1, b1) == (a[1] < b[1] || (a[1] == b[1] && bytes_lt(a2, b2))));
    assert(bytes_lt(a, b) == (a[0] < b[0] || (a[0] == b[0] && bytes_lt(a1, b1))));
}

/// Behind prefixes of one length, byte strings order by the prefixes where
/// these differ, and by what follows them where they do not.
pub proof fn lemma_bytes_lt_prefix(p: Seq<u8>, q: Seq<u8>, x: Seq<u8>, y: Seq<u8>)
    requires
        p.len() == q.len(),
    ensures
        bytes_lt(p + x, q + y) == if p == q {
            bytes_lt(x, y)
        } else {
            bytes_lt(p, q)
        },
    decreases p.len(),
{
    if p.len() == 0 {
        assert(p + x =~= x);
        assert(q + y =~= y);
        assert(p =~= q);
    } else {
        assert((p + x).first() == p.first());
        assert((q + y).first() == q.first());
        assert((p + x).drop_first() =~= p.drop_first() + x);
        assert((q + y).drop_first() =~= q.drop_first() + y);
        lemma_bytes_lt_prefix(p.drop_first(), q.drop_first(), x, y);
        assert(p =~= seq![p.first()] + p.drop_first());
        assert(q =~= seq![q.first()] + q.drop_first());
    }
}

/// Keys order as the tuples of identifiers that they were joined from.
pub proof fn lemma_joined_order(a: Seq<u32>, b: Seq<u32>)
    requires
        a.len() == b.len(),
    ensures
        joined(a).len() == 4 * a.len(),
        bytes_lt(joined(a), joined(b)) <==> ids_lt(a, b),
        joined(a) == joined(b) <==> a == b,
    decreases a.len(),
{
    if a.len() == 0 {
        assert(a =~= b);
    } else {
        lemma_joined_order(a.drop_first(), b.drop_first());
        lemma_be_order(a.first(), b.first());
        lemma_be_value(a.first());
        lemma_be_value(b.first());
        lemma_bytes_lt_prefix(
            be_bytes(a.first()),
            be_bytes(b.first()),
            joined(a.drop_first()),
            joined(b.drop_first()),
        );
        if joined(a) == joined(b) {
            assert(joined(a).subrange(0, 4) =~= be_bytes(a.first()));
            assert(joined(b).subrange(0, 4) =~= be_bytes(b.first()));
            assert(joined(a).subrange(4, joined(a).len() as int) =~= joined(a.drop_first()));
            assert(joined(b).subrange(4, joined(b).len() as int) =~= joined(b.drop_first()));
            assert(a =~= seq![a.first()] + a.drop_first());
            assert(b =~= seq![b.first()] + b.drop_first());
        }
    }
}


/// One more identifier behind the others adds its bytes behind theirs.
pub proof fn lemma_joined_push(ids: Seq<u32>, v: u32)
    ensures
        joined(ids.push(v)) == joined(ids) + be_bytes(v),
    decreases ids.len(),
{
    if ids.len() == 0 {
        assert(ids.push(v).drop_first() =~= Seq::<u32>::empty());
        assert(ids.push(v).first() == v);
        assert(joined(ids.push(v).drop_first()) =~= Seq::<u8>::empty());
        assert(joined(ids) =~= Seq::<u8>::empty());
        assert(joined(ids.push(v)) =~= joined(ids) + be_bytes(v));
    } else {
        assert(ids.push(v).drop_first() =~= ids.drop_first().push(v));
        assert(ids.push(v).first() == ids.first());
        lemma_joined_push(ids.drop_first(), v);
        assert(joined(ids.push(v)) =~= joined(ids) + be_bytes(v));
    }
}

/// A key has four bytes for each identifier.
pub proof fn lemma_joined_len(ids: Seq<u32>)
    ensures
        joined(ids).len() == 4 * ids.len(),
    decreases ids.len(),
{
    if ids.len() > 0 {
        lemma_joined_len(ids.drop_first());
    }
}

/// The `i`-th four bytes of a key are the bytes of its `i`-th identifier.
pub proof fn lemma_joined_index(ids: Seq<u32>, i: int)
    requires
        0 <= i < ids.len(),
    ensures
        joined(ids).len() == 4 * ids.len(),
        joined(ids).subrange(4 * i, 4 * i + 4) == be_bytes(ids[i]),
    decreases i,
{
    lemma_joined_len(ids);
    lemma_joined_len(ids.drop_first());
    if i == 0 {
        assert(joined(ids).subrange(0, 4) =~= be_bytes(ids[0]));
    } else {
        lemma_joined_index(ids.drop_first(), i - 1);
        assert(joined(ids).subrange(4 * i, 4 * i + 4) =~= joined(ids.drop_first()).subrange(
            4 * (i - 1),
            4 * (i - 1) + 4,
        ));
    }
}

/// The identifiers that a key holds: one for each four bytes.
pub open spec fn unjoined(b: Seq<u8>) -> Seq<u32> {
    Seq::new(b.len() / 4, |i: int| be_value(b.subrange(4 * i, 4 * i + 4)) as u32)
}

/// A key holds the identifiers that it was joined from.
pub proof fn lemma_unjoined(ids: Seq<u32>)
    ensures
        unjoined(joined(ids)) == ids,
{
    lemma_joined_len(ids);
    assert forall|i: int| 0 <= i < ids.len() implies unjoined(joined(ids))[i] == ids[i] by {
        lemma_joined_index(ids, i);
        lemma_be_value(ids[i]);
    }
    assert(unjoined(joined(ids)) =~= ids);
}

/// The bytes of `v` in the byte order of the store. The call is
/// `zerocopy::byteorder::U32::<byteorder::BigEndian>::new`, whose four bytes
/// are those of `v` with the most significant first.
#[verifier::external_body]
pub(crate) fn to_be(v: u32) -> (b: [u8; 4])
    ensures
        b@ == be_bytes(v),
{
    zerocopy::byteorder::U32::<byteorder::BigEndian>::new(v).into()
}

/// The number that four bytes in the byte order of the store stand for. The
/// calls are `zerocopy::byteorder::U32::<byteorder::BigEndian>::from_bytes`
/// and `get`, which reads the bytes with the most significant first.
#[verifier::external_body]
pub(crate) fn from_be(b: [u8; 4]) -> (v: u32)
    ensures
        v == be_value(b@),
{
    zerocopy::byteorder::U32::<byteorder::BigEndian>::from_bytes(b).get()
}

/// Appends the bytes of `v` to `out`.
pub fn push_be(out: &mut Vec<u8>, v: u32)
    ensures
        final(out)@ == old(out)@ + be_bytes(v),
{
    let b = to_be(v);
    let ghost before = out@;
    out.push(b[0]);
    out.push(b[1]);
    out.push(b[2]);
    out.push(b[3]);
    assert(out@ =~= before + be_bytes(v));
}

/// The number that the four bytes of `input` from `at` on stand for.
pub fn read_be(input: &[u8], at: usize) -> (v: u32)
    requires
        at + 4 <= input@.len(),
    ensures
        v == be_value(input@.subrange(at as int, at + 4)),
        be_bytes(v) == input@.subrange(at as int, at + 4),
{
    let b = [input[at], input[at + 1], input[at + 2], input[at + 3]];
    proof {
        assert(b@ =~= input@.subrange(at as int, at + 4));
        lemma_be_bytes(b@);
    }
    from_be(b)
}

/// The key of a tuple of identifiers: their bytes, one after the other.
pub fn join(ids: &[u32]) -> (key: Vec<u8>)
    ensures
        key@ == joined(ids@),
{
    let mut key: Vec<u8> = Vec::new();
    let mut i: usize = 0;
    proof {
        assert(ids@.take(0) =~= Seq::<u32>::empty());
    }
    while i < ids.len()
        invariant
            i <= ids@.len(),
            key@ == joined(ids@.take(i as int)),
        decreases ids@.len() - i,
    {
        proof {
            lemma_joined_push(ids@.take(i as int), ids@[i as int]);
            assert(ids@.take(i + 1) =~= ids@.take(i as int).push(ids@[i as int]));
        }
        push_be(&mut key, ids[i]);
        i += 1;
    }
    proof {
        assert(ids@.take(i as int) =~= ids@);
    }
    key
}

/// The tuple of identifiers that a key was joined from.
pub fn keys(input: &[u8]) -> (ids: Vec<u32>)
    requires
        input@.len() % 4 == 0,
    ensures
        joined(ids@) == input@,
        ids@ == unjoined(input@),
        ids@.len() * 4 == input@.len(),
{
    let mut ids: Vec<u32> = Vec::new();
    let mut i: usize = 0;
    proof {
        assert(input@.take(0) =~= Seq::<u8>::empty());
    }
    while i < input.len()
        invariant
            input@.len() % 4 == 0,
            i <= input@.len(),
            i % 4 == 0,
            ids@.len() * 4 == i,
            joined(ids@) == input@.take(i as int),
        decreases input@.len() - i,
    {
        let v = read_be(input, i);
        proof {
            lemma_joined_push(ids@, v);
            assert(input@.take(i + 4) =~= input@.take(i as int) + input@.subrange(
                i as int,
                i + 4,
            ));
        }
        ids.push(v);
        i += 4;
    }
    proof {
        assert(input@.take(i as int) =~= input@);
        lemma_unjoined(ids@);
    }
    ids
}

/// Appends `bytes` to `out`.
pub fn extend(out: &mut Vec<u8>, bytes: &[u8])
    ensures
        final(out)@ == old(out)@ + bytes@,
{
    let ghost before = out@;
    let mut i: usize = 0;
    while i < bytes.len()
        invariant
            i <= bytes@.len(),
            out@ == before + bytes@.take(i as int),
        decreases bytes@.len() - i,
    {
        out.push(bytes[i]);
        assert(bytes@.take(i + 1) =~= bytes@.take(i as int).push(bytes@[i as int]));
        assert(out@ =~= before + bytes@.take(i + 1));
        i += 1;
    }
    assert(bytes@.take(i as int) =~= bytes@);
}

/// Keys with their values, as byte strings.
pub open spec fn pairs(rows: Seq<(Vec<u8>, Vec<u8>)>) -> Seq<(Seq<u8>, Seq<u8>)> {
    Seq::new(rows.len(), |i: int| (rows[i].0@, rows[i].1@))
}

/// The identifier of a source.
#[derive(Clone, Copy, Debug, PartialEq, Eq, PartialOrd, Ord, Hash, Structural)]
pub struct SourceId(pub u32);

impl SourceId {
    pub fn new(value: u32) -> (id: Self)
        ensures
            id.0 == value,
    {
        Self(value)
    }

    /// The number of this identifier.
    pub fn get(self) -> (value: u32)
        ensures
            value == self.0,
    {
        self.0
    }
}

/// The identifier of a location in a source.
#[derive(Clone, Copy, Debug, PartialEq, Eq, PartialOrd, Ord, Hash, Structural)]
pub struct SourceLocationId(pub u32);

impl SourceLocationId {
    pub fn new(value: u32) -> (id: Self)
        ensures
            id.0 == value,
    {
        Self(value)
    }

    /// The number of this identifier.
    pub fn get(self) -> (value: u32)
        ensures
            value == self.0,
    {
        self.0
    }
}

/// The identifier of a type of annotation.
#[derive(Clone, Copy, Debug, PartialEq, Eq, PartialOrd, Ord, Hash, Structural)]
pub struct TypeId(pub u32);

impl TypeId {
    pub fn new(value: u32) -> (id: Self)
        ensures
            id.0 == value,
    {
        Self(value)
    }

    /// The number of this identifier.
    pub fn get(self) -> (value: u32)
        ensures
            value == self.0,
    {
        self.0
    }
}

/// The identifier of an annotation.
#[derive(Clone, Copy, Debug, PartialEq, Eq, PartialOrd, Ord, Hash, Structural)]
pub struct AnnotationId(pub u32);

impl AnnotationId {
    pub fn new(value: u32) -> (id: Self)
        ensures
            id.0 == value,
    {
        Self(value)
    }

    /// The number of this identifier.
    pub fn get(self) -> (value: u32)
        ensures
            value == self.0,
    {
        self.0
    }
}

/// The identifier of a file.
#[derive(Clone, Copy, Debug, PartialEq, Eq, PartialOrd, Ord, Hash, Structural)]
pub struct FileId(pub u32);

impl FileId {
    pub fn new(value: u32) -> (id: Self)
        ensures
            id.0 == value,
    {
        Self(value)
    }

    /// The number of this identifier.
    pub fn get(self) -> (value: u32)
        ensures
            value == self.0,
    {
        self.0
    }
}

/// The identifier of an instance.
#[derive(Clone, Copy, Debug, PartialEq, Eq, PartialOrd, Ord, Hash, Structural)]
pub struct InstanceId(pub u32);

impl InstanceId {
    pub fn new(value: u32) -> (id: Self)
        ensures
            id.0 == value,
    {
        Self(value)
    }

    /// The number of this identifier.
    pub fn get(self) -> (value: u32)
        ensures
            value == self.0,
    {
        self.0
    }
}

/// The identifier of an expansion.
#[derive(Clone, Copy, Debug, PartialEq, Eq, PartialOrd, Ord, Hash, Structural)]
pub struct ExpansionId(pub u32);

impl ExpansionId {
    pub fn new(value: u32) -> (id: Self)
        ensures
            id.0 == value,
    {
        Self(value)
    }

    /// The number of this identifier.
    pub fn get(self) -> (value: u32)
        ensures
            value == self.0,
    {
        self.0
    }
}

/// The identifier of a notification.
#[derive(Clone, Copy, Debug, PartialEq, Eq, PartialOrd, Ord, Hash, Structural)]
pub struct NotificationId(pub u32);

impl NotificationId {
    pub fn new(value: u32) -> (id: Self)
        ensures
            id.0 == value,
    {
        Self(value)
    }

    /// The number of this identifier.
    pub fn get(self) -> (value: u32)
        ensures
            value == self.0,
    {
        self.0
    }
}

/// The identifier of an instantiation.
#[derive(Clone, Copy, Debug, PartialEq, Eq, PartialOrd, Ord, Hash, Structural)]
pub struct InstantiationId(pub u32);

impl InstantiationId {
    pub fn new(value: u32) -> (id: Self)
        ensures
            id.0 == value,
    {
        Self(value)
    }

    /// The number of this identifier.
    pub fn get(self) -> (value: u32)
        ensures
            value == self.0,
    {
        self.0
    }
}

/// The identifier of a reporter.
#[derive(Clone, Copy, Debug, PartialEq, Eq, PartialOrd, Ord, Hash, Structural)]
pub struct ReporterId(pub u32);

impl ReporterId {
    pub fn new(value: u32) -> (id: Self)
        ensures
            id.0 == value,
    {
        Self(value)
    }

    /// The number of this identifier.
    pub fn get(self) -> (value: u32)
        ensures
            value == self.0,
    {
        self.0
    }
}

/// The identifier of an entity.
#[derive(Clone, Copy, Debug, PartialEq, Eq, PartialOrd, Ord, Hash, Structural)]
pub struct EntityId(pub u32);

impl EntityId {
    pub fn new(value: u32) -> (id: Self)
        ensures
            id.0 == value,
    {
        Self(value)
    }

    /// The number of this identifier.
    pub fn get(self) -> (value: u32)
        ensures
            value == self.0,
    {
        self.0
    }
}

impl InstanceId {
    /// The instance that is meant where none is named.
    pub fn default() -> (id: Self)
        ensures
            id.0 == 0,
    {
        Self::new(0)
    }
}

} // verus!
