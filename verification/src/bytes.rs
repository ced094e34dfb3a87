//! Rows of bytes that fields can be told apart in.
use vstd::prelude::*;

verus! {

/// The lowest bytes of a number, the lowest first.
pub open spec fn le_bytes(n: nat, width: nat) -> Seq<u8>
    decreases width,
{
    if width == 0 {
        Seq::empty()
    } else {
        seq![(n % 256) as u8] + le_bytes(n / 256, (width - 1) as nat)
    }
}

/// The number that bytes spell, the lowest first.
pub open spec fn le_value(bytes: Seq<u8>) -> nat
    decreases bytes.len(),
{
    if bytes.len() == 0 {
        0
    } else {
        bytes[0] as nat + 256 * le_value(bytes.skip(1))
    }
}

spec fn power(width: nat) -> nat
    decreases width,
{
    if width == 0 {
        1
    } else {
        256 * power((width - 1) as nat)
    }
}

proof fn lemma_le_value(n: nat, width: nat)
    requires
        n < power(width),
    ensures
        le_bytes(n, width).len() == width,
        le_value(le_bytes(n, width)) == n,
    decreases width,
{
    if width > 0 {
        let rest = le_bytes(n / 256, (width - 1) as nat);
        assert(n / 256 < power((width - 1) as nat)) by (nonlinear_arith)
            requires
                n < 256 * power((width - 1) as nat),
        ;
        lemma_le_value(n / 256, (width - 1) as nat);
        assert(le_bytes(n, width).skip(1) =~= rest);
    }
}

/// The bytes of a field, behind eight bytes that hold their number.
pub open spec fn framed(value: Seq<u8>) -> Seq<u8> {
    le_bytes(value.len(), 8) + value
}

/// The fields of a list, one behind the other.
pub open spec fn frames(fields: Seq<Seq<u8>>) -> Seq<u8>
    decreases fields.len(),
{
    if fields.len() == 0 {
        Seq::empty()
    } else {
        frames(fields.drop_last()) + framed(fields.last())
    }
}

/// The lengths of the fields can be written in eight bytes.
pub open spec fn short_fields(fields: Seq<Seq<u8>>) -> bool {
    forall|i: int| 0 <= i < fields.len() ==> (#[trigger] fields[i]).len() <= u64::MAX
}

proof fn lemma_frames_front(fields: Seq<Seq<u8>>)
    requires
        fields.len() > 0,
    ensures
        frames(fields) == framed(fields[0]) + frames(fields.skip(1)),
    decreases fields.len(),
{
    if fields.len() == 1 {
        assert(fields.drop_last() =~= Seq::empty());
        assert(fields.skip(1) =~= Seq::empty());
        assert(frames(fields) =~= framed(fields[0]) + frames(fields.skip(1)));
    } else {
        lemma_frames_front(fields.drop_last());
        assert(fields.drop_last().skip(1) =~= fields.skip(1).drop_last());
        assert(frames(fields) =~= framed(fields[0]) + frames(fields.skip(1)));
    }
}

proof fn lemma_framed_head(a: Seq<u8>, b: Seq<u8>, x: Seq<u8>, y: Seq<u8>)
    requires
        a.len() <= u64::MAX,
        b.len() <= u64::MAX,
        framed(a) + x == framed(b) + y,
    ensures
        a == b,
        x == y,
{
    reveal_with_fuel(power, 9);
    lemma_le_value(a.len(), 8);
    lemma_le_value(b.len(), 8);
    let p = framed(a) + x;
    let q = framed(b) + y;
    assert(p.take(8) =~= le_bytes(a.len(), 8));
    assert(q.take(8) =~= le_bytes(b.len(), 8));
    assert(a.len() == b.len());
    let n = a.len() as int;
    assert(p.subrange(8, 8 + n) =~= a);
    assert(q.subrange(8, 8 + n) =~= b);
    assert(p.skip(8 + n) =~= x);
    assert(q.skip(8 + n) =~= y);
}

/// Different lists of fields are never written alike.
pub proof fn fields_can_be_told_apart(a: Seq<Seq<u8>>, b: Seq<Seq<u8>>)
    requires
        short_fields(a),
        short_fields(b),
        frames(a) == frames(b),
    ensures
        a == b,
    decreases a.len(),
{
    reveal_with_fuel(power, 9);
    if a.len() == 0 || b.len() == 0 {
        if b.len() > 0 {
            lemma_frames_front(b);
            lemma_le_value(b[0].len(), 8);
        }
        if a.len() > 0 {
            lemma_frames_front(a);
            lemma_le_value(a[0].len(), 8);
        }
        assert(a =~= b);
    } else {
        lemma_frames_front(a);
        lemma_frames_front(b);
        assert(a[0].len() <= u64::MAX && b[0].len() <= u64::MAX);
        lemma_framed_head(a[0], b[0], frames(a.skip(1)), frames(b.skip(1)));
        let c = a.skip(1);
        let d = b.skip(1);
        assert forall|i: int| 0 <= i < c.len() implies (#[trigger] c[i]).len() <= u64::MAX by {
            assert(c[i] == a[i + 1]);
        }
        assert forall|i: int| 0 <= i < d.len() implies (#[trigger] d[i]).len() <= u64::MAX by {
            assert(d[i] == b[i + 1]);
        }
        fields_can_be_told_apart(c, d);
        assert(a =~= seq![a[0]] + c);
        assert(b =~= seq![b[0]] + d);
    }
}

pub(crate) fn push_number(out: &mut Vec<u8>, n: u64)
    ensures
        final(out)@ == old(out)@ + le_bytes(n as nat, 8),
{
    let ghost start = out@;
    let mut rest: u64 = n;
    let mut i: usize = 0;
    while i < 8
        invariant
            i <= 8,
            start == old(out)@,
            out@ + le_bytes(rest as nat, (8 - i) as nat) == start + le_bytes(n as nat, 8),
        decreases 8 - i,
    {
        let ghost before = out@;
        out.push((rest % 256) as u8);
        proof {
            let tail = le_bytes((rest / 256) as nat, (8 - i - 1) as nat);
            assert(before + le_bytes(rest as nat, (8 - i) as nat) =~= out@ + tail);
        }
        rest = rest / 256;
        i = i + 1;
    }
    assert(out@ + le_bytes(rest as nat, 0) =~= out@);
}

/// Writes one more field.
pub(crate) fn push_field(out: &mut Vec<u8>, value: &[u8], Ghost(fields): Ghost<Seq<Seq<u8>>>)
    requires
        old(out)@ == frames(fields),
    ensures
        final(out)@ == frames(fields.push(value@)),
{
    let ghost start = out@;
    push_number(out, value.len() as u64);
    let ghost middle = out@;
    let mut i: usize = 0;
    while i < value.len()
        invariant
            i <= value@.len(),
            out@ == middle + value@.take(i as int),
        decreases value@.len() - i,
    {
        out.push(value[i]);
        assert(value@.take(i + 1) =~= value@.take(i as int).push(value@[i as int]));
        i = i + 1;
    }
    assert(value@.take(i as int) =~= value@);
    assert(fields.push(value@).drop_last() =~= fields);
    assert(out@ =~= start + framed(value@));
}

/// Writes one more field that holds the bytes of a text.
pub(crate) fn push_text(out: &mut Vec<u8>, value: &str, Ghost(fields): Ghost<Seq<Seq<u8>>>)
    requires
        old(out)@ == frames(fields),
    ensures
        final(out)@ == frames(fields.push(vstd::utf8::encode_utf8(value@))),
{
    push_field(out, value.as_bytes(), Ghost(fields));
}

} // verus!
