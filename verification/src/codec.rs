//! Byte-level framing of the values the store persists.
//!
//! Every record is written into the durable map backend as a byte string.
//! Integers are eight little-endian octets, byte strings and text are
//! length-prefixed, and booleans are a single octet.  Each reader is proved
//! complete against the corresponding encoding: whenever the input carries an
//! encoded value at the given position, the reader returns exactly that value.

use vstd::prelude::*;

verus! {

/// Little-endian encoding of a 64-bit integer, one byte per octet.
pub open spec fn enc_u64(n: u64) -> Seq<u8> {
    seq![
        (n & 0xff) as u8,
        ((n >> 8) & 0xff) as u8,
        ((n >> 16) & 0xff) as u8,
        ((n >> 24) & 0xff) as u8,
        ((n >> 32) & 0xff) as u8,
        ((n >> 40) & 0xff) as u8,
        ((n >> 48) & 0xff) as u8,
        ((n >> 56) & 0xff) as u8,
    ]
}

/// A byte string, framed by its length.
pub open spec fn enc_bytes(b: Seq<u8>) -> Seq<u8> {
    enc_u64(b.len() as u64) + b
}

/// A boolean as a single octet.
pub open spec fn enc_bool(b: bool) -> Seq<u8> {
    seq![if b { 1u8 } else { 0u8 }]
}

/// Two equal encodings come from the same integer.
pub proof fn lemma_enc_u64_injective(a: u64, b: u64)
    requires
        enc_u64(a) == enc_u64(b),
    ensures
        a == b,
{
    assert(enc_u64(a)[0] == enc_u64(b)[0]);
    assert(enc_u64(a)[1] == enc_u64(b)[1]);
    assert(enc_u64(a)[2] == enc_u64(b)[2]);
    assert(enc_u64(a)[3] == enc_u64(b)[3]);
    assert(enc_u64(a)[4] == enc_u64(b)[4]);
    assert(enc_u64(a)[5] == enc_u64(b)[5]);
    assert(enc_u64(a)[6] == enc_u64(b)[6]);
    assert(enc_u64(a)[7] == enc_u64(b)[7]);
    assert(a == b) by (bit_vector)
        requires
            (a & 0xff) as u8 == (b & 0xff) as u8,
            ((a >> 8) & 0xff) as u8 == ((b >> 8) & 0xff) as u8,
            ((a >> 16) & 0xff) as u8 == ((b >> 16) & 0xff) as u8,
            ((a >> 24) & 0xff) as u8 == ((b >> 24) & 0xff) as u8,
            ((a >> 32) & 0xff) as u8 == ((b >> 32) & 0xff) as u8,
            ((a >> 40) & 0xff) as u8 == ((b >> 40) & 0xff) as u8,
            ((a >> 48) & 0xff) as u8 == ((b >> 48) & 0xff) as u8,
            ((a >> 56) & 0xff) as u8 == ((b >> 56) & 0xff) as u8,
    ;
}

/// Splits a concatenation into its three parts by position.
pub proof fn lemma_chunk(v: Seq<u8>, pre: Seq<u8>, mid: Seq<u8>, post: Seq<u8>)
    requires
        v == pre + mid + post,
    ensures
        v.len() == pre.len() + mid.len() + post.len(),
        v.subrange(0, pre.len() as int) == pre,
        v.subrange(pre.len() as int, (pre.len() + mid.len()) as int) == mid,
        v.subrange((pre.len() + mid.len()) as int, v.len() as int) == post,
{
    assert(v.subrange(0, pre.len() as int) =~= pre);
    assert(v.subrange(pre.len() as int, (pre.len() + mid.len()) as int) =~= mid);
    assert(v.subrange((pre.len() + mid.len()) as int, v.len() as int) =~= post);
}

/// Appends the encoding of `n`.
pub fn write_u64(out: &mut Vec<u8>, n: u64)
    ensures
        final(out)@ == old(out)@ + enc_u64(n),
{
    proof {
        assert(n & 0xff < 256 && (n >> 8) & 0xff < 256 && (n >> 16) & 0xff < 256 && (n >> 24)
            & 0xff < 256 && (n >> 32) & 0xff < 256 && (n >> 40) & 0xff < 256 && (n >> 48) & 0xff
            < 256 && (n >> 56) & 0xff < 256) by (bit_vector);
    }
    out.push((n & 0xff) as u8);
    out.push(((n >> 8) & 0xff) as u8);
    out.push(((n >> 16) & 0xff) as u8);
    out.push(((n >> 24) & 0xff) as u8);
    out.push(((n >> 32) & 0xff) as u8);
    out.push(((n >> 40) & 0xff) as u8);
    out.push(((n >> 48) & 0xff) as u8);
    out.push(((n >> 56) & 0xff) as u8);
    proof {
        assert(out@ =~= old(out)@ + enc_u64(n));
    }
}

/// Appends the length-framed encoding of `b`.
pub fn write_bytes(out: &mut Vec<u8>, b: &Vec<u8>)
    ensures
        final(out)@ == old(out)@ + enc_bytes(b@),
{
    let n = b.len();
    write_u64(out, n as u64);
    let mut i: usize = 0;
    while i < n
        invariant
            n == b@.len(),
            i <= n,
            out@ == old(out)@ + enc_u64(n as u64) + b@.subrange(0, i as int),
        decreases n - i,
    {
        out.push(b[i]);
        i = i + 1;
        proof {
            assert(out@ =~= old(out)@ + enc_u64(n as u64) + b@.subrange(0, i as int));
        }
    }
    proof {
        assert(b@.subrange(0, n as int) =~= b@);
        assert(out@ =~= old(out)@ + enc_bytes(b@));
    }
}

/// Appends the encoding of `b`.
pub fn write_bool(out: &mut Vec<u8>, b: bool)
    ensures
        final(out)@ == old(out)@ + enc_bool(b),
{
    out.push(if b { 1u8 } else { 0u8 });
    proof {
        assert(out@ =~= old(out)@ + enc_bool(b));
    }
}

/// Reads an integer at `pos`; complete for every encoded integer.
pub fn read_u64(v: &Vec<u8>, pos: usize) -> (r: Option<(u64, usize)>)
    ensures
        r is Some ==> r->Some_0.1 == pos + 8 && pos + 8 <= v@.len(),
        forall|n: u64|
            pos + 8 <= v@.len() && v@.subrange(pos as int, pos as int + 8) == enc_u64(n) ==> r
                == Some((n, (pos + 8) as usize)),
{
    let len = v.len();
    if len < 8 || pos > len - 8 {
        return None;
    }
    let b0 = v[pos];
    let b1 = v[pos + 1];
    let b2 = v[pos + 2];
    let b3 = v[pos + 3];
    let b4 = v[pos + 4];
    let b5 = v[pos + 5];
    let b6 = v[pos + 6];
    let b7 = v[pos + 7];
    let n: u64 = (b0 as u64) | ((b1 as u64) << 8) | ((b2 as u64) << 16) | ((b3 as u64) << 24) | (
    (b4 as u64) << 32) | ((b5 as u64) << 40) | ((b6 as u64) << 48) | ((b7 as u64) << 56);
    proof {
        assert((n & 0xff) as u8 == b0 && ((n >> 8) & 0xff) as u8 == b1 && ((n >> 16) & 0xff) as u8
            == b2 && ((n >> 24) & 0xff) as u8 == b3 && ((n >> 32) & 0xff) as u8 == b4 && ((n >> 40)
            & 0xff) as u8 == b5 && ((n >> 48) & 0xff) as u8 == b6 && ((n >> 56) & 0xff) as u8 == b7)
            by (bit_vector)
            requires
                n == (b0 as u64) | ((b1 as u64) << 8) | ((b2 as u64) << 16) | ((b3 as u64) << 24)
                    | ((b4 as u64) << 32) | ((b5 as u64) << 40) | ((b6 as u64) << 48) | ((b7
                    as u64) << 56),
        ;
        assert(enc_u64(n) =~= v@.subrange(pos as int, pos as int + 8));
        assert forall|m: u64|
            pos + 8 <= v@.len() && v@.subrange(pos as int, pos as int + 8) == enc_u64(
                m,
            ) implies m == n by {
            lemma_enc_u64_injective(m, n);
        }
    }
    Some((n, pos + 8))
}

/// Reads a length-framed byte string at `pos`; complete for every encoding.
pub fn read_bytes(v: &Vec<u8>, pos: usize) -> (r: Option<(Vec<u8>, usize)>)
    ensures
        r is Some ==> pos <= r->Some_0.1 <= v@.len(),
        forall|b: Seq<u8>|
            pos + 8 + b.len() <= v@.len() && v@.subrange(pos as int, pos + 8 + b.len() as int)
                == enc_bytes(b) ==> r is Some && r->Some_0.0@ == b && r->Some_0.1 == pos + 8
                + b.len(),
{
    let len = v.len();
    let (n, body) = match read_u64(v, pos) {
        Some(p) => p,
        None => {
            proof {
                assert forall|b: Seq<u8>|
                    pos + 8 + b.len() <= v@.len() && v@.subrange(
                        pos as int,
                        pos + 8 + b.len() as int,
                    ) == enc_bytes(b) implies false by {
                    lemma_chunk(
                        v@.subrange(pos as int, pos + 8 + b.len() as int),
                        Seq::<u8>::empty(),
                        enc_u64(b.len() as u64),
                        b,
                    );
                    assert(v@.subrange(pos as int, pos as int + 8) =~= v@.subrange(
                        pos as int,
                        pos + 8 + b.len() as int,
                    ).subrange(0, 8));
                }
            }
            return None;
        },
    };
    if n > (len - body) as u64 {
        proof {
            assert forall|b: Seq<u8>|
                pos + 8 + b.len() <= v@.len() && v@.subrange(pos as int, pos + 8 + b.len() as int)
                    == enc_bytes(b) implies false by {
                lemma_chunk(
                    v@.subrange(pos as int, pos + 8 + b.len() as int),
                    Seq::<u8>::empty(),
                    enc_u64(b.len() as u64),
                    b,
                );
                assert(v@.subrange(pos as int, pos as int + 8) =~= v@.subrange(
                    pos as int,
                    pos + 8 + b.len() as int,
                ).subrange(0, 8));
            }
        }
        return None;
    }
    let count = n as usize;
    let mut out: Vec<u8> = Vec::new();
    let mut i: usize = 0;
    while i < count
        invariant
            body + count <= v@.len(),
            v@.len() <= usize::MAX,
            i <= count,
            out@ == v@.subrange(body as int, body + i as int),
        decreases count - i,
    {
        out.push(v[body + i]);
        i = i + 1;
        proof {
            assert(out@ =~= v@.subrange(body as int, body + i as int));
        }
    }
    proof {
        assert forall|b: Seq<u8>|
            pos + 8 + b.len() <= v@.len() && v@.subrange(pos as int, pos + 8 + b.len() as int)
                == enc_bytes(b) implies out@ == b && body + count == pos + 8 + b.len() by {
            let whole = v@.subrange(pos as int, pos + 8 + b.len() as int);
            lemma_chunk(whole, Seq::<u8>::empty(), enc_u64(b.len() as u64), b);
            assert(v@.subrange(pos as int, pos as int + 8) =~= whole.subrange(0, 8));
            assert(n == b.len() as u64);
            assert(b.len() as u64 as int == b.len());
            assert(out@ =~= whole.subrange(8, 8 + b.len() as int));
        }
    }
    Some((out, body + count))
}

/// The concatenation of length-framed fields.
pub open spec fn enc_fields_rec(fs: Seq<Seq<u8>>) -> Seq<u8>
    decreases fs.len(),
{
    if fs.len() == 0 {
        Seq::empty()
    } else {
        enc_bytes(fs.first()) + enc_fields_rec(fs.drop_first())
    }
}

/// A field list: its length, then each field length-framed.
pub open spec fn enc_fields(fs: Seq<Seq<u8>>) -> Seq<u8> {
    enc_u64(fs.len() as u64) + enc_fields_rec(fs)
}

/// Field framing distributes over concatenation of field lists.
pub proof fn lemma_enc_fields_rec_append(xs: Seq<Seq<u8>>, ys: Seq<Seq<u8>>)
    ensures
        enc_fields_rec(xs + ys) == enc_fields_rec(xs) + enc_fields_rec(ys),
    decreases xs.len(),
{
    if xs.len() == 0 {
        assert(xs + ys =~= ys);
        assert(enc_fields_rec(xs) + enc_fields_rec(ys) =~= enc_fields_rec(ys));
    } else {
        assert((xs + ys).first() == xs.first());
        assert((xs + ys).drop_first() =~= xs.drop_first() + ys);
        lemma_enc_fields_rec_append(xs.drop_first(), ys);
        assert(enc_fields_rec(xs + ys) =~= enc_fields_rec(xs) + enc_fields_rec(ys));
    }
}

/// Every field costs at least its eight-byte frame.
pub proof fn lemma_enc_fields_rec_len(fs: Seq<Seq<u8>>)
    ensures
        enc_fields_rec(fs).len() >= 8 * fs.len(),
    decreases fs.len(),
{
    if fs.len() > 0 {
        lemma_enc_fields_rec_len(fs.drop_first());
    }
}

/// Walks one step along a suffix of `v` made of a head and a rest.
pub proof fn lemma_tail_step(v: Seq<u8>, pos: int, head: Seq<u8>, rest: Seq<u8>)
    requires
        0 <= pos <= v.len(),
        v.subrange(pos, v.len() as int) == head + rest,
    ensures
        pos + head.len() + rest.len() == v.len(),
        v.subrange(pos, pos + head.len() as int) == head,
        v.subrange(pos + head.len() as int, v.len() as int) == rest,
{
    let whole = v.subrange(pos, v.len() as int);
    assert(v.subrange(pos, pos + head.len() as int) =~= whole.subrange(0, head.len() as int));
    assert(whole.subrange(0, head.len() as int) =~= head);
    assert(v.subrange(pos + head.len() as int, v.len() as int) =~= whole.subrange(
        head.len() as int,
        whole.len() as int,
    ));
    assert(whole.subrange(head.len() as int, whole.len() as int) =~= rest);
}

/// Reads a field list at `pos`; complete for every encoded list.
pub fn read_fields(v: &Vec<u8>, pos: usize) -> (r: Option<(Vec<Vec<u8>>, usize)>)
    ensures
        r is Some ==> pos <= r->Some_0.1 <= v@.len(),
        forall|fs: Seq<Seq<u8>>|
            pos + enc_fields(fs).len() <= v@.len() && v@.subrange(
                pos as int,
                pos + enc_fields(fs).len() as int,
            ) == enc_fields(fs) ==> r is Some && r->Some_0.0.deep_view() == fs && r->Some_0.1 == pos
                + enc_fields(fs).len(),
{
    let vlen = v.len();
    proof {
        assert forall|fs: Seq<Seq<u8>>|
            pos + enc_fields(fs).len() <= v@.len() && v@.subrange(
                pos as int,
                pos + enc_fields(fs).len() as int,
            ) == enc_fields(fs) implies {
            &&& v@.subrange(pos as int, pos as int + 8) == enc_u64(fs.len() as u64)
            &&& v@.subrange(pos as int + 8, pos + enc_fields(fs).len() as int) == enc_fields_rec(
                fs,
            )
            &&& fs.len() <= usize::MAX
        } by {
            let sub = v@.subrange(pos as int, pos + enc_fields(fs).len() as int);
            lemma_chunk(sub, Seq::<u8>::empty(), enc_u64(fs.len() as u64), enc_fields_rec(fs));
            assert(v@.subrange(pos as int, pos as int + 8) =~= sub.subrange(0, 8));
            assert(v@.subrange(pos as int + 8, pos + enc_fields(fs).len() as int) =~= sub.subrange(
                8,
                sub.len() as int,
            ));
            lemma_enc_fields_rec_len(fs);
            assert(vlen == v@.len());
        }
    }
    let (n, start) = match read_u64(v, pos) {
        Some(p) => p,
        None => {
            return None;
        },
    };
    proof {
        assert forall|fs: Seq<Seq<u8>>|
            pos + enc_fields(fs).len() <= v@.len() && v@.subrange(
                pos as int,
                pos + enc_fields(fs).len() as int,
            ) == enc_fields(fs) implies fs.len() == n && fs.skip(0) == fs by {
            assert(fs.len() as u64 == n);
            assert(fs.skip(0) =~= fs);
        }
    }
    let mut out: Vec<Vec<u8>> = Vec::new();
    let mut j: u64 = 0;
    let mut p: usize = start;
    while j < n
        invariant
            pos + 8 <= v@.len(),
            start == pos + 8,
            pos <= p <= v@.len(),
            j <= n,
            out@.len() == j,
            forall|fs: Seq<Seq<u8>>|
                pos + enc_fields(fs).len() <= v@.len() && v@.subrange(
                    pos as int,
                    pos + enc_fields(fs).len() as int,
                ) == enc_fields(fs) ==> {
                    &&& fs.len() == n
                    &&& j <= fs.len()
                    &&& (forall|i: int| 0 <= i < j ==> out@[i]@ == fs[i])
                    &&& p + enc_fields_rec(fs.skip(j as int)).len() == pos + enc_fields(fs).len()
                    &&& v@.subrange(p as int, pos + enc_fields(fs).len() as int)
                        == enc_fields_rec(fs.skip(j as int))
                },
        decreases n - j,
    {
        proof {
            assert forall|fs: Seq<Seq<u8>>|
                pos + enc_fields(fs).len() <= v@.len() && v@.subrange(
                    pos as int,
                    pos + enc_fields(fs).len() as int,
                ) == enc_fields(fs) implies {
                &&& p + 8 + fs[j as int].len() <= v@.len()
                &&& v@.subrange(p as int, p + 8 + fs[j as int].len() as int) == enc_bytes(
                    fs[j as int],
                )
                &&& p + 8 + fs[j as int].len() + enc_fields_rec(fs.skip(j as int + 1)).len() == pos
                    + enc_fields(fs).len()
                &&& v@.subrange(p + 8 + fs[j as int].len() as int, pos + enc_fields(fs).len() as int)
                    == enc_fields_rec(fs.skip(j as int + 1))
            } by {
                let tail = fs.skip(j as int);
                assert(tail.len() > 0);
                assert(tail.first() == fs[j as int]);
                assert(tail.drop_first() =~= fs.skip(j as int + 1));
                assert(enc_fields_rec(tail) == enc_bytes(fs[j as int]) + enc_fields_rec(
                    fs.skip(j as int + 1),
                ));
                let sub = v@.subrange(pos as int, pos + enc_fields(fs).len() as int);
                assert(sub.subrange(p - pos, sub.len() as int) =~= v@.subrange(
                    p as int,
                    pos + enc_fields(fs).len() as int,
                ));
                lemma_tail_step(
                    sub,
                    p - pos,
                    enc_bytes(fs[j as int]),
                    enc_fields_rec(fs.skip(j as int + 1)),
                );
                assert(v@.subrange(p as int, p + 8 + fs[j as int].len() as int) =~= sub.subrange(
                    p - pos,
                    p - pos + 8 + fs[j as int].len() as int,
                ));
                assert(v@.subrange(p + 8 + fs[j as int].len() as int, pos + enc_fields(
                    fs,
                ).len() as int) =~= sub.subrange(p - pos + 8 + fs[j as int].len() as int, sub.len() as int));
            }
        }
        let (field, next) = match read_bytes(v, p) {
            Some(x) => x,
            None => {
                return None;
            },
        };
        out.push(field);
        j = j + 1;
        p = next;
    }
    proof {
        assert forall|fs: Seq<Seq<u8>>|
            pos + enc_fields(fs).len() <= v@.len() && v@.subrange(
                pos as int,
                pos + enc_fields(fs).len() as int,
            ) == enc_fields(fs) implies out.deep_view() == fs && p == pos + enc_fields(
            fs,
        ).len() by {
            assert(fs.skip(j as int) =~= Seq::<Seq<u8>>::empty());
            assert(out.deep_view() =~~= fs);
        }
    }
    Some((out, p))
}

/// Reads a boolean octet at `pos`; complete for both encodings.
pub fn read_bool(v: &Vec<u8>, pos: usize) -> (r: Option<(bool, usize)>)
    ensures
        forall|b: bool|
            pos + 1 <= v@.len() && v@.subrange(pos as int, pos as int + 1) == enc_bool(b) ==> r
                == Some((b, (pos + 1) as usize)),
{
    if pos >= v.len() {
        return None;
    }
    proof {
        assert(forall|b: bool|
            v@.subrange(pos as int, pos as int + 1) == enc_bool(b) ==> v@[pos as int] == enc_bool(
                b,
            )[0]);
    }
    let byte = v[pos];
    if byte == 0 {
        Some((false, pos + 1))
    } else if byte == 1 {
        Some((true, pos + 1))
    } else {
        None
    }
}

} // verus!
