use vstd::prelude::*;

verus! {

/// The mathematical shape of a bencode value. All contracts of this crate
/// speak about `SpecValue` trees, obtained from executable trees by
/// [`Value::deep`].
pub enum SpecValue {
    Int(int),
    Bytes(Seq<u8>),
    List(Seq<SpecValue>),
    Dict(Seq<(Seq<u8>, SpecValue)>),
}

/// A decoded bencode value: a tree of integers, byte strings, lists and
/// key-sorted dictionaries. Byte-string payloads are copied out of the input
/// buffer, so a `Value` owns all of its data. A dictionary is a vector of
/// (key, value) pairs whose keys are kept in strictly ascending
/// byte-lexicographic order, so re-encoding is canonical by construction.
#[derive(Debug, PartialEq)]
pub enum Value {
    Integer(isize),
    ByteString(Vec<u8>),
    List(Vec<Value>),
    Dictionary(Vec<(Vec<u8>, Value)>),
}

impl Value {
    /// The mathematical value that this tree represents.
    pub open spec fn deep(self) -> SpecValue
        decreases self,
    {
        match self {
            Value::Integer(i) => SpecValue::Int(i as int),
            Value::ByteString(b) => SpecValue::Bytes(b@),
            Value::List(l) => SpecValue::List(
                Seq::new(
                    l@.len(),
                    |i: int|
                        if 0 <= i < l@.len() {
                            l@[i].deep()
                        } else {
                            SpecValue::Int(0)
                        },
                ),
            ),
            Value::Dictionary(d) => SpecValue::Dict(
                Seq::new(
                    d@.len(),
                    |i: int|
                        if 0 <= i < d@.len() {
                            (d@[i].0@, d@[i].1.deep())
                        } else {
                            (Seq::empty(), SpecValue::Int(0))
                        },
                ),
            ),
        }
    }
}

/// The deep views of a sequence of values.
pub open spec fn deep_seq(s: Seq<Value>) -> Seq<SpecValue> {
    Seq::new(
        s.len(),
        |i: int|
            if 0 <= i < s.len() {
                s[i].deep()
            } else {
                SpecValue::Int(0)
            },
    )
}

/// The deep views of a sequence of dictionary entries.
pub open spec fn deep_entries(s: Seq<(Vec<u8>, Value)>) -> Seq<(Seq<u8>, SpecValue)> {
    Seq::new(
        s.len(),
        |i: int|
            if 0 <= i < s.len() {
                (s[i].0@, s[i].1.deep())
            } else {
                (Seq::empty(), SpecValue::Int(0))
            },
    )
}

pub proof fn lemma_deep_list(l: Vec<Value>)
    ensures
        Value::List(l).deep() == SpecValue::List(deep_seq(l@)),
{
    assert(Value::List(l).deep()->List_0 =~= deep_seq(l@));
}

pub proof fn lemma_deep_dictionary(d: Vec<(Vec<u8>, Value)>)
    ensures
        Value::Dictionary(d).deep() == SpecValue::Dict(deep_entries(d@)),
{
    assert(Value::Dictionary(d).deep()->Dict_0 =~= deep_entries(d@));
}

/// Strict byte-lexicographic order on keys; the order in which dictionary
/// entries are stored and encoded.
pub open spec fn lex_lt(a: Seq<u8>, b: Seq<u8>) -> bool
    decreases a.len(),
{
    if b.len() == 0 {
        false
    } else if a.len() == 0 {
        true
    } else if a[0] < b[0] {
        true
    } else if a[0] == b[0] {
        lex_lt(a.subrange(1, a.len() as int), b.subrange(1, b.len() as int))
    } else {
        false
    }
}

/// Any two keys are ordered, or they are equal.
pub proof fn lemma_lex_total(a: Seq<u8>, b: Seq<u8>)
    ensures
        lex_lt(a, b) || lex_lt(b, a) || a == b,
    decreases a.len(),
{
    if a.len() == 0 && b.len() == 0 {
        assert(a =~= b);
    } else if a.len() > 0 && b.len() > 0 && a[0] == b[0] {
        let a1 = a.subrange(1, a.len() as int);
        let b1 = b.subrange(1, b.len() as int);
        lemma_lex_total(a1, b1);
        if a1 == b1 {
            assert forall|j: int| 0 <= j < a.len() implies a[j] == b[j] by {
                if j > 0 {
                    assert(a[j] == a1[j - 1]);
                    assert(b[j] == b1[j - 1]);
                }
            }
            assert(a =~= b);
        }
    }
}

/// The order is strict: at most one of `a < b`, `a == b`, `b < a` holds.
pub proof fn lemma_lex_strict(a: Seq<u8>, b: Seq<u8>)
    ensures
        !(lex_lt(a, b) && lex_lt(b, a)),
        lex_lt(a, b) ==> a != b,
    decreases a.len(),
{
    if a.len() > 0 && b.len() > 0 && a[0] == b[0] {
        let a1 = a.subrange(1, a.len() as int);
        let b1 = b.subrange(1, b.len() as int);
        lemma_lex_strict(a1, b1);
        if a1 == b1 {
            assert forall|j: int| 0 <= j < a.len() implies a[j] == b[j] by {
                if j > 0 {
                    assert(a[j] == a1[j - 1]);
                    assert(b[j] == b1[j - 1]);
                }
            }
            assert(a =~= b);
        } else {
            assert(a != b);
        }
    }
}

/// The order is transitive.
pub proof fn lemma_lex_trans(a: Seq<u8>, b: Seq<u8>, c: Seq<u8>)
    requires
        lex_lt(a, b),
        lex_lt(b, c),
    ensures
        lex_lt(a, c),
    decreases a.len(),
{
    if a.len() > 0 && b.len() > 0 && c.len() > 0 && a[0] == b[0] && b[0] == c[0] {
        lemma_lex_trans(
            a.subrange(1, a.len() as int),
            b.subrange(1, b.len() as int),
            c.subrange(1, c.len() as int),
        );
    }
}

/// Equal prefixes do not affect the order of the remainders.
pub proof fn lemma_lex_skip(a: Seq<u8>, b: Seq<u8>, i: int)
    requires
        0 <= i <= a.len(),
        i <= b.len(),
        forall|j: int| 0 <= j < i ==> a[j] == b[j],
    ensures
        lex_lt(a, b) == lex_lt(a.skip(i), b.skip(i)),
    decreases i,
{
    if i > 0 {
        let a1 = a.subrange(1, a.len() as int);
        let b1 = b.subrange(1, b.len() as int);
        lemma_lex_skip(a1, b1, i - 1);
        assert(a1.skip(i - 1) =~= a.skip(i));
        assert(b1.skip(i - 1) =~= b.skip(i));
    } else {
        assert(a.skip(0) =~= a);
        assert(b.skip(0) =~= b);
    }
}

pub proof fn lemma_deep_seq_push(s: Seq<Value>, v: Value)
    ensures
        deep_seq(s.push(v)) == deep_seq(s).push(v.deep()),
{
    assert(deep_seq(s.push(v)) =~= deep_seq(s).push(v.deep()));
}

/// Well-formed value trees: integers fit the machine word, byte strings and
/// keys fit in memory, and dictionary keys are strictly ascending. Every
/// decoded value is well-formed, and well-formedness is exactly what the
/// round-trip law requires.
pub open spec fn wf(v: SpecValue) -> bool
    decreases v,
{
    match v {
        SpecValue::Int(i) => isize::MIN <= i <= isize::MAX,
        SpecValue::Bytes(b) => b.len() <= usize::MAX,
        SpecValue::List(l) => forall|i: int| 0 <= i < l.len() ==> wf(#[trigger] l[i]),
        SpecValue::Dict(d) => {
            &&& forall|i: int|
                0 <= i < d.len() ==> (#[trigger] d[i]).0.len() <= usize::MAX && wf(d[i].1)
            &&& forall|i: int, j: int|
                0 <= i < j < d.len() ==> lex_lt((#[trigger] d[i]).0, (#[trigger] d[j]).0)
        },
    }
}

/// The decimal digits of a non-negative integer, most significant first,
/// with no leading zero except for zero itself.
pub open spec fn dec_digits(n: int) -> Seq<u8>
    recommends
        n >= 0,
    decreases n,
{
    if n < 10 {
        seq![(48 + n) as u8]
    } else {
        dec_digits(n / 10) + seq![(48 + n % 10) as u8]
    }
}

/// The decimal rendering of an integer: a minus sign for negatives,
/// then the digits of the magnitude.
pub open spec fn int_digits(i: int) -> Seq<u8> {
    if i < 0 {
        seq![45u8] + dec_digits(-i)
    } else {
        dec_digits(i)
    }
}

/// The canonical bencode encoding of a value: `i<digits>e` for integers,
/// `<length>:<payload>` for byte strings, `l...e` for lists, and `d...e`
/// for dictionaries with entries in ascending key order.
pub open spec fn enc(v: SpecValue) -> Seq<u8>
    decreases v,
{
    match v {
        SpecValue::Int(i) => seq![105u8] + int_digits(i) + seq![101u8],
        SpecValue::Bytes(b) => dec_digits(b.len() as int) + seq![58u8] + b,
        SpecValue::List(l) => seq![108u8] + enc_seq(l) + seq![101u8],
        SpecValue::Dict(d) => seq![100u8] + enc_entries(d) + seq![101u8],
    }
}

/// The concatenated encodings of the elements of a list body.
pub open spec fn enc_seq(l: Seq<SpecValue>) -> Seq<u8>
    decreases l,
{
    if l.len() == 0 {
        Seq::empty()
    } else {
        enc(l[0]) + enc_seq(l.subrange(1, l.len() as int))
    }
}

/// The concatenated encodings of the entries of a dictionary body: each key
/// encoded as a byte string, followed by the encoding of its value.
pub open spec fn enc_entries(d: Seq<(Seq<u8>, SpecValue)>) -> Seq<u8>
    decreases d,
{
    if d.len() == 0 {
        Seq::empty()
    } else {
        dec_digits(d[0].0.len() as int) + seq![58u8] + d[0].0 + enc(d[0].1) + enc_entries(
            d.subrange(1, d.len() as int),
        )
    }
}

/// Appends the decimal digits of `n` to `out`.
fn push_dec_digits(out: &mut Vec<u8>, n: u128)
    ensures
        final(out)@ == old(out)@ + dec_digits(n as int),
{
    let mut temp: Vec<u8> = Vec::new();
    let mut m: u128 = n;
    while m >= 10
        invariant
            dec_digits(n as int) == dec_digits(m as int) + temp@,
        decreases m,
    {
        let d: u8 = (m % 10) as u8 + 48;
        temp.insert(0, d);
        m = m / 10;
    }
    let d: u8 = m as u8 + 48;
    temp.insert(0, d);
    out.append(&mut temp);
}

/// Appends the decimal rendering of `i` (minus sign, then magnitude digits)
/// to `out`.
fn push_int_digits(out: &mut Vec<u8>, i: isize)
    ensures
        final(out)@ == old(out)@ + int_digits(i as int),
{
    if i < 0 {
        out.push(45);
        let mag: u128 = (-(i as i128)) as u128;
        push_dec_digits(out, mag);
        proof {
            assert(out@ =~= old(out)@ + int_digits(i as int));
        }
    } else {
        push_dec_digits(out, i as u128);
    }
}

impl Value {
    /// Appends the canonical encoding of this value to `out`.
    #[verifier::loop_isolation(false)]
    fn encode_into(&self, out: &mut Vec<u8>)
        ensures
            final(out)@ == old(out)@ + enc(self.deep()),
        decreases *self,
    {
        match self {
            Value::Integer(i) => {
                out.push(105);
                push_int_digits(out, *i);
                out.push(101);
                proof {
                    assert(out@ =~= old(out)@ + enc(self.deep()));
                }
            },
            Value::ByteString(b) => {
                push_dec_digits(out, b.len() as u128);
                out.push(58);
                out.extend_from_slice(b.as_slice());
                proof {
                    assert(out@ =~= old(out)@ + enc(self.deep()));
                }
            },
            Value::List(l) => {
                out.push(108);
                let ghost s = deep_seq(l@);
                proof {
                    lemma_deep_list(*l);
                    assert(s.subrange(0, s.len() as int) =~= s);
                }
                let mut i: usize = 0;
                while i < l.len()
                    invariant
                        i <= l.len(),
                        s == deep_seq(l@),
                        out@ + enc_seq(s.subrange(i as int, s.len() as int)) == old(out)@
                            + seq![108u8] + enc_seq(s),
                    decreases l.len() - i,
                {
                    let element = &l[i];
                    proof {
                        let t = s.subrange(i as int, s.len() as int);
                        assert(t[0] == element.deep());
                        assert(t.subrange(1, t.len() as int) =~= s.subrange(
                            i + 1,
                            s.len() as int,
                        ));
                        assert(decreases_to!(*self => self->List_0));
                        assert(self->List_0 == *l);
                        assert(decreases_to!(*l => l@));
                        assert(decreases_to!(l@ => l@[i as int]));
                    }
                    element.encode_into(out);
                    i = i + 1;
                }
                out.push(101);
                proof {
                    assert(s.subrange(s.len() as int, s.len() as int) =~= Seq::<
                        SpecValue,
                    >::empty());
                    assert(out@ =~= old(out)@ + enc(self.deep()));
                }
            },
            Value::Dictionary(d) => {
                out.push(100);
                let ghost s = deep_entries(d@);
                proof {
                    lemma_deep_dictionary(*d);
                    assert(s.subrange(0, s.len() as int) =~= s);
                }
                let mut i: usize = 0;
                while i < d.len()
                    invariant
                        i <= d.len(),
                        s == deep_entries(d@),
                        out@ + enc_entries(s.subrange(i as int, s.len() as int)) == old(out)@
                            + seq![100u8] + enc_entries(s),
                    decreases d.len() - i,
                {
                    let entry = &d[i];
                    proof {
                        let t = s.subrange(i as int, s.len() as int);
                        assert(t[0] == (entry.0@, entry.1.deep()));
                        assert(t.subrange(1, t.len() as int) =~= s.subrange(
                            i + 1,
                            s.len() as int,
                        ));
                        assert(decreases_to!(*self => self->Dictionary_0));
                        assert(self->Dictionary_0 == *d);
                        assert(decreases_to!(*d => d@));
                        assert(decreases_to!(d@ => d@[i as int]));
                        assert(decreases_to!(d@[i as int] => d@[i as int].1));
                    }
                    push_dec_digits(out, entry.0.len() as u128);
                    out.push(58);
                    out.extend_from_slice(entry.0.as_slice());
                    entry.1.encode_into(out);
                    i = i + 1;
                }
                out.push(101);
                proof {
                    assert(s.subrange(s.len() as int, s.len() as int) =~= Seq::<
                        (Seq<u8>, SpecValue),
                    >::empty());
                    assert(out@ =~= old(out)@ + enc(self.deep()));
                }
            },
        }
    }

    /// Returns the canonical bencode encoding of this value: dictionary
    /// entries appear in ascending key order and no extraneous bytes are
    /// produced.
    pub fn encode(&self) -> (r: Vec<u8>)
        ensures
            r@ == enc(self.deep()),
    {
        let mut out: Vec<u8> = Vec::new();
        self.encode_into(&mut out);
        proof {
            assert(out@ =~= enc(self.deep()));
        }
        out
    }
}

} // verus!
