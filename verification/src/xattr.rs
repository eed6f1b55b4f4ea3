//! Extended attributes: a list of names and values in the `XAT1` format.

use vstd::prelude::*;

use crate::bytes::{
    append, bytes_equal, copy_bytes, get_u16, get_u32, le16, le32, lemma_concat_field,
    lemma_concat_front, lemma_le, put_u16_vec, put_u32_vec, u16_at, u32_at,
};
use crate::inode::Xattrs;

verus! {

/// Attributes, as the contracts see them.
pub type XattrView = Seq<(Seq<u8>, Seq<u8>)>;

/// The attributes of a list.
pub open spec fn attrs(s: Seq<(Vec<u8>, Vec<u8>)>) -> XattrView {
    Seq::new(s.len(), |i: int| (s[i].0@, s[i].1@))
}

/// `XAT1`
pub open spec fn xattr_magic() -> Seq<u8> {
    seq![88u8, 65, 84, 49]
}

/// An attribute on disk.
pub open spec fn attr_bytes(a: (Seq<u8>, Seq<u8>)) -> Seq<u8> {
    le16(a.0.len() as u16) + le32(a.1.len() as u32) + a.0 + a.1
}

/// Attributes on disk, one after the other.
pub open spec fn attrs_bytes(s: XattrView) -> Seq<u8>
    decreases s.len(),
{
    if s.len() == 0 {
        Seq::empty()
    } else {
        attrs_bytes(s.drop_last()) + attr_bytes(s.last())
    }
}

/// A list of attributes on disk.
pub open spec fn xattr_bytes(s: XattrView) -> Seq<u8> {
    xattr_magic() + le32(s.len() as u32) + attrs_bytes(s)
}

/// At most `n` attributes that stand one after the other from `off` on: those before the first
/// that does not fit into `s`.
pub open spec fn attrs_at(s: Seq<u8>, off: int, n: nat) -> XattrView
    decreases n,
{
    if n == 0 || off + 6 > s.len() {
        Seq::empty()
    } else {
        let nl = u16_at(s, off) as int;
        let vl = u32_at(s, off + 2) as int;
        if off + 6 + nl + vl > s.len() {
            Seq::empty()
        } else {
            seq![
                (
                    s.subrange(off + 6, off + 6 + nl),
                    s.subrange(off + 6 + nl, off + 6 + nl + vl),
                ),
            ] + attrs_at(s, off + 6 + nl + vl, (n - 1) as nat)
        }
    }
}

/// The attributes in `s`; none where it does not start as a list of them.
pub open spec fn parsed_xattrs(s: Seq<u8>) -> XattrView {
    if s.len() < 8 || s.subrange(0, 4) != xattr_magic() {
        Seq::empty()
    } else {
        attrs_at(s, 8, u32_at(s, 4) as nat)
    }
}

pub fn encode_xattrs(list: &[(Vec<u8>, Vec<u8>)]) -> (buf: Vec<u8>)
    ensures
        buf@ == xattr_bytes(attrs(list@)),
{
    let mut buf: Vec<u8> = copy_bytes(&[88u8, 65, 84, 49]);
    assert(buf@ =~= xattr_magic());
    let n: usize = list.len();
    put_u32_vec(&mut buf, n as u32);
    let ghost head = buf@;
    let mut i: usize = 0;
    assert(attrs(list@.take(0)) =~= Seq::<(Seq<u8>, Seq<u8>)>::empty());
    assert(buf@ =~= head + attrs_bytes(attrs(list@.take(0))));
    while i < n
        invariant
            i <= n,
            n == list@.len(),
            buf@ == head + attrs_bytes(attrs(list@.take(i as int))),
        decreases n - i,
    {
        let ghost before = buf@;
        let a = &list[i];
        put_u16_vec(&mut buf, a.0.len() as u16);
        put_u32_vec(&mut buf, a.1.len() as u32);
        append(&mut buf, a.0.as_slice());
        append(&mut buf, a.1.as_slice());
        assert(buf@ =~= before + attr_bytes((a.0@, a.1@)));
        assert(attrs(list@.take(i + 1)).drop_last() =~= attrs(list@.take(i as int)));
        assert(buf@ =~= head + attrs_bytes(attrs(list@.take(i + 1))));
        i = i + 1;
    }
    assert(list@.take(n as int) =~= list@);
    buf
}

pub fn decode_xattrs(buf: &[u8]) -> (out: Xattrs)
    ensures
        attrs(out@) == parsed_xattrs(buf@),
{
    let mut out: Xattrs = Vec::new();
    let total: usize = buf.len();
    let magic: &[u8] = &[88u8, 65, 84, 49];
    assert(magic@ =~= xattr_magic());
    assert(attrs(out@) =~= Seq::<(Seq<u8>, Seq<u8>)>::empty());
    if total < 8 || !bytes_equal(vstd::slice::slice_subrange(buf, 0, 4), magic) {
        return out;
    }
    let n: u32 = get_u32(buf, 4);
    let mut off: usize = 8;
    let mut i: u32 = 0;
    let ghost whole = attrs_at(buf@, 8, n as nat);
    assert(attrs(out@) + whole =~= whole);
    while i < n
        invariant_except_break
            whole == attrs(out@) + attrs_at(buf@, off as int, (n - i) as nat),
        invariant
            i <= n,
            total == buf@.len(),
            off <= total,
        ensures
            whole == attrs(out@),
        decreases n - i,
    {
        let ghost done = attrs(out@);
        if total - off < 6 {
            assert(done + Seq::<(Seq<u8>, Seq<u8>)>::empty() =~= done);
            break;
        }
        let nl: usize = get_u16(buf, off) as usize;
        let vl32: u32 = get_u32(buf, off + 2);
        let start: usize = off + 6;
        let room: usize = total - start;
        if nl > room || vl32 as u64 > (room - nl) as u64 {
            assert(done + Seq::<(Seq<u8>, Seq<u8>)>::empty() =~= done);
            break;
        }
        let vl: usize = vl32 as usize;
        let name = copy_bytes(vstd::slice::slice_subrange(buf, start, start + nl));
        let value = copy_bytes(vstd::slice::slice_subrange(buf, start + nl, start + nl + vl));
        let ghost a = (name@, value@);
        out.push((name, value));
        assert(attrs(out@) =~= done.push(a));
        let ghost rest = attrs_at(buf@, start + nl + vl, (n - i - 1) as nat);
        assert(done + (seq![a] + rest) =~= attrs(out@) + rest);
        off = start + nl + vl;
        i = i + 1;
        assert(i == n ==> attrs(out@) + rest =~= attrs(out@));
    }
    out
}

proof fn lemma_attrs_bytes_first(s: XattrView)
    requires
        s.len() > 0,
    ensures
        attrs_bytes(s) == attr_bytes(s[0]) + attrs_bytes(s.drop_first()),
    decreases s.len(),
{
    if s.len() == 1 {
        assert(s.drop_last() =~= Seq::<(Seq<u8>, Seq<u8>)>::empty());
        assert(s.drop_first() =~= Seq::<(Seq<u8>, Seq<u8>)>::empty());
        assert(attrs_bytes(s) =~= attr_bytes(s[0]) + attrs_bytes(s.drop_first()));
    } else {
        lemma_attrs_bytes_first(s.drop_last());
        assert(s.drop_last().drop_first() =~= s.drop_first().drop_last());
        assert(attrs_bytes(s) =~= attr_bytes(s[0]) + attrs_bytes(s.drop_first()));
    }
}

/// The names and values are short enough for their length fields.
pub open spec fn attrs_fit(s: XattrView) -> bool {
    forall|i: int|
        0 <= i < s.len() ==> (#[trigger] s[i]).0.len() <= 0xffff && s[i].1.len() <= u32::MAX
}

proof fn lemma_attr_fields(a: (Seq<u8>, Seq<u8>))
    requires
        a.0.len() <= 0xffff,
        a.1.len() <= u32::MAX,
    ensures
        ({
            let b = attr_bytes(a);
            let nl = a.0.len() as int;
            let vl = a.1.len() as int;
            &&& b.len() == 6 + nl + vl
            &&& u16_at(b, 0) == nl
            &&& u32_at(b, 2) == vl
            &&& b.subrange(6, 6 + nl) == a.0
            &&& b.subrange(6 + nl, 6 + nl + vl) == a.1
        }),
{
    broadcast use {lemma_concat_front, lemma_concat_field};

    lemma_le();
    let b = attr_bytes(a);
    assert(b.subrange(0, 2) == le16(a.0.len() as u16)) by {
        assert(le16(a.0.len() as u16).subrange(0, 2) =~= le16(a.0.len() as u16));
    }
    assert(b.subrange(2, 6) == le32(a.1.len() as u32));
}

proof fn lemma_attrs_at(s: Seq<u8>, off: int, list: XattrView)
    requires
        0 <= off,
        off + attrs_bytes(list).len() <= s.len(),
        s.subrange(off, off + attrs_bytes(list).len()) == attrs_bytes(list),
        attrs_fit(list),
    ensures
        attrs_at(s, off, list.len()) == list,
    decreases list.len(),
{
    if list.len() == 0 {
        assert(list =~= Seq::<(Seq<u8>, Seq<u8>)>::empty());
    } else {
        let a = list[0];
        let nl = a.0.len() as int;
        let vl = a.1.len() as int;
        lemma_attrs_bytes_first(list);
        lemma_attr_fields(a);
        let b = attr_bytes(a);
        let t = s.subrange(off, off + attrs_bytes(list).len());
        assert(s.subrange(off, off + 2) =~= b.subrange(0, 2)) by {
            assert(s.subrange(off, off + 2) =~= t.subrange(0, 2));
        }
        assert(s.subrange(off + 2, off + 6) =~= b.subrange(2, 6)) by {
            assert(s.subrange(off + 2, off + 6) =~= t.subrange(2, 6));
        }
        assert(s.subrange(off + 6, off + 6 + nl) =~= b.subrange(6, 6 + nl)) by {
            assert(s.subrange(off + 6, off + 6 + nl) =~= t.subrange(6, 6 + nl));
        }
        assert(s.subrange(off + 6 + nl, off + 6 + nl + vl) =~= b.subrange(
            6 + nl,
            6 + nl + vl,
        )) by {
            assert(s.subrange(off + 6 + nl, off + 6 + nl + vl) =~= t.subrange(
                6 + nl,
                6 + nl + vl,
            ));
        }
        let rest = list.drop_first();
        assert(s.subrange(off + b.len(), off + b.len() + attrs_bytes(rest).len())
            =~= attrs_bytes(rest)) by {
            assert(s.subrange(off + b.len(), off + b.len() + attrs_bytes(rest).len())
                =~= t.subrange(b.len() as int, t.len() as int));
        }
        assert(attrs_fit(rest)) by {
            assert forall|i: int| 0 <= i < rest.len() implies (#[trigger] rest[i]).0.len()
                <= 0xffff && rest[i].1.len() <= u32::MAX by {
                assert(rest[i] == list[i + 1]);
            }
        }
        lemma_attrs_at(s, off + b.len(), rest);
        assert(seq![a] + rest =~= list);
    }
}

/// A list of attributes is read back from the bytes it is written as, whatever follows them.
pub proof fn xattr_roundtrip(list: XattrView, tail: Seq<u8>)
    requires
        list.len() <= u32::MAX,
        attrs_fit(list),
    ensures
        parsed_xattrs(xattr_bytes(list) + tail) == list,
{
    broadcast use {lemma_concat_front, lemma_concat_field};

    lemma_le();
    let s = xattr_bytes(list) + tail;
    assert(s.subrange(0, 4) == xattr_magic()) by {
        assert(xattr_magic().subrange(0, 4) =~= xattr_magic());
    }
    assert(s.subrange(4, 8) == le32(list.len() as u32));
    assert(s.subrange(8, 8 + attrs_bytes(list).len() as int) =~= attrs_bytes(list));
    lemma_attrs_at(s, 8, list);
}

} // verus!
