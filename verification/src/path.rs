//! Unix path types. Names are raw bytes (any byte except `NUL` and `/`).

use vstd::prelude::*;
use vstd::string::*;
use vstd::utf8::*;

use crate::bytes::{append, copy_bytes};
use crate::error::{einval, enametoolong, Error, Result, EINVAL, ENAMETOOLONG};
use crate::text::utf8_str;

verus! {

/// Maximum filename length (Linux `NAME_MAX`).
pub const NAME_MAX: usize = 255;

/// Maximum number of symbolic links that one path resolution follows.
pub const SYMLOOP_MAX: usize = 40;

pub const SLASH: u8 = 47;

pub const DOT: u8 = 46;

/// `"."`
pub open spec fn dot() -> Seq<u8> {
    seq![DOT]
}

/// `".."`
pub open spec fn dot_dot() -> Seq<u8> {
    seq![DOT, DOT]
}

/// Whether `name` is `"."`.
pub fn is_dot(name: &[u8]) -> (b: bool)
    ensures
        b == (name@ == dot()),
{
    let b = name.len() == 1 && name[0] == DOT;
    assert(b ==> name@ =~= dot());
    b
}

/// Whether `name` is `".."`.
pub fn is_dot_dot(name: &[u8]) -> (b: bool)
    ensures
        b == (name@ == dot_dot()),
{
    let b = name.len() == 2 && name[0] == DOT && name[1] == DOT;
    assert(b ==> name@ =~= dot_dot());
    b
}

/// The name `"."`.
pub fn dot_name() -> (v: Vec<u8>)
    ensures
        v@ == dot(),
{
    let mut v: Vec<u8> = Vec::new();
    v.push(DOT);
    assert(v@ =~= dot());
    v
}

/// The name `".."`.
pub fn dot_dot_name() -> (v: Vec<u8>)
    ensures
        v@ == dot_dot(),
{
    let mut v: Vec<u8> = Vec::new();
    v.push(DOT);
    v.push(DOT);
    assert(v@ =~= dot_dot());
    v
}

/// A path component, as the contracts see it.
pub ghost enum Part {
    RootDir,
    CurDir,
    ParentDir,
    Normal(Seq<u8>),
}

/// Length of the name that `s` starts with: up to the first slash.
pub open spec fn name_len(s: Seq<u8>) -> nat
    decreases s.len(),
{
    if s.len() == 0 || s[0] == SLASH {
        0
    } else {
        1 + name_len(s.drop_first())
    }
}

/// The component that a name stands for.
pub open spec fn part_of(name: Seq<u8>) -> Part {
    if name == dot() {
        Part::CurDir
    } else if name == dot_dot() {
        Part::ParentDir
    } else {
        Part::Normal(name)
    }
}

pub proof fn lemma_name_len(s: Seq<u8>)
    ensures
        name_len(s) <= s.len(),
        forall|i: int| 0 <= i < name_len(s) ==> s[i] != SLASH,
        name_len(s) < s.len() ==> s[name_len(s) as int] == SLASH,
    decreases s.len(),
{
    if s.len() > 0 && s[0] != SLASH {
        lemma_name_len(s.drop_first());
        assert forall|i: int| 0 <= i < name_len(s) implies s[i] != SLASH by {
            if i > 0 {
                assert(s[i] == s.drop_first()[i - 1]);
            }
        }
    }
}

/// The name that `s` starts with has length `n` if there is no slash before `n`, and one at
/// `n` or the end.
pub proof fn lemma_name_len_is(s: Seq<u8>, n: int)
    requires
        0 <= n <= s.len(),
        forall|i: int| 0 <= i < n ==> s[i] != SLASH,
        n < s.len() ==> s[n] == SLASH,
    ensures
        name_len(s) == n,
{
    lemma_name_len(s);
}

/// The names between the slashes of `s`, in order.
pub open spec fn parts(s: Seq<u8>) -> Seq<Part>
    decreases s.len(),
{
    if s.len() == 0 {
        Seq::empty()
    } else if s[0] == SLASH {
        parts(s.drop_first())
    } else {
        proof {
            lemma_name_len(s);
        }
        let e = name_len(s) as int;
        seq![part_of(s.take(e))] + parts(s.skip(e))
    }
}

/// Whether a path starts at the root.
pub open spec fn absolute(s: Seq<u8>) -> bool {
    s.len() > 0 && s[0] == SLASH
}

/// The components of a path: the root directory for an absolute path, then its names.
pub open spec fn path_parts(s: Seq<u8>) -> Seq<Part> {
    if absolute(s) {
        seq![Part::RootDir] + parts(s)
    } else {
        parts(s)
    }
}

/// Leading slashes hold no component.
pub proof fn lemma_parts_trim(s: Seq<u8>, n: int)
    requires
        0 <= n <= s.len(),
        forall|i: int| 0 <= i < n ==> s[i] == SLASH,
    ensures
        parts(s.skip(n)) == parts(s),
    decreases n,
{
    if n == 0 {
        assert(s.skip(0) =~= s);
    } else {
        lemma_parts_trim(s.drop_first(), n - 1);
        assert(s.drop_first().skip(n - 1) =~= s.skip(n));
    }
}

/// Index of the last byte of `s` that is (`eq`) or is not (`!eq`) a slash.
pub open spec fn last_slash(s: Seq<u8>, eq: bool) -> Option<int>
    decreases s.len(),
{
    if s.len() == 0 {
        None
    } else if (s.last() == SLASH) == eq {
        Some(s.len() - 1)
    } else {
        last_slash(s.drop_last(), eq)
    }
}

pub proof fn lemma_last_slash(s: Seq<u8>, eq: bool)
    ensures
        last_slash(s, eq) matches Some(i) ==> 0 <= i < s.len() && (s[i] == SLASH) == eq,
    decreases s.len(),
{
    if s.len() > 0 && (s.last() == SLASH) != eq {
        lemma_last_slash(s.drop_last(), eq);
    }
}

/// `s` without its trailing slashes.
pub open spec fn trimmed(s: Seq<u8>) -> Seq<u8> {
    match last_slash(s, false) {
        Some(i) => s.take(i + 1),
        None => Seq::empty(),
    }
}

/// The root path.
pub open spec fn root_path() -> Seq<u8> {
    seq![SLASH]
}

/// The path of the parent directory: what stands before the last name, without its slash.
pub open spec fn parent_of(s: Seq<u8>) -> Option<Seq<u8>> {
    if s == root_path() || s.len() == 0 {
        None
    } else {
        match last_slash(trimmed(s), true) {
            None => None,
            Some(i) => if i == 0 {
                Some(root_path())
            } else {
                Some(s.take(i))
            },
        }
    }
}

/// The last name of a path.
pub open spec fn file_name_of(s: Seq<u8>) -> Option<Seq<u8>> {
    let t = trimmed(s);
    if t.len() == 0 {
        None
    } else {
        match last_slash(t, true) {
            Some(i) => Some(t.skip(i + 1)),
            None => Some(t),
        }
    }
}

/// `base` extended by `path`; an absolute `path` takes its place.
pub open spec fn joined(base: Seq<u8>, path: Seq<u8>) -> Seq<u8> {
    if absolute(path) {
        path
    } else if base.len() > 0 && base.last() != SLASH {
        base.push(SLASH) + path
    } else {
        base + path
    }
}

/// Index of the last slash (`eq`) or the last byte that is none (`!eq`).
fn rposition(b: &[u8], eq: bool) -> (r: Option<usize>)
    ensures
        match r {
            Some(i) => last_slash(b@, eq) == Some(i as int) && i < b@.len(),
            None => last_slash(b@, eq) is None,
        },
{
    let mut i: usize = b.len();
    assert(b@.take(i as int) =~= b@);
    while i > 0
        invariant
            i <= b@.len(),
            last_slash(b@, eq) == last_slash(b@.take(i as int), eq),
        decreases i,
    {
        assert(b@.take(i as int).drop_last() =~= b@.take(i - 1));
        if (b[i - 1] == SLASH) == eq {
            return Some(i - 1);
        }
        i = i - 1;
    }
    None
}

/// Borrowed Unix path (`/`-separated, no host `std::path` semantics).
#[derive(Debug, Clone, Copy)]
pub struct UnixPath<'a> {
    pub inner: &'a [u8],
}

impl<'a> View for UnixPath<'a> {
    type V = Seq<u8>;

    open spec fn view(&self) -> Seq<u8> {
        self.inner@
    }
}

/// Owned Unix path.
#[derive(Debug, Clone)]
pub struct UnixPathBuf {
    pub inner: Vec<u8>,
}

impl View for UnixPathBuf {
    type V = Seq<u8>;

    open spec fn view(&self) -> Seq<u8> {
        self.inner@
    }
}

/// The root path `"/"`.
fn root_bytes() -> (b: &'static [u8])
    ensures
        b@ == root_path(),
{
    let b: &[u8] = &[SLASH];
    assert(b@ =~= root_path());
    b
}

impl<'a> UnixPath<'a> {
    /// The path that a string spells.
    pub fn new(s: &'a str) -> (p: Self)
        ensures
            p@ == s.spec_bytes(),
    {
        Self { inner: s.as_bytes() }
    }

    pub fn from_bytes(bytes: &'a [u8]) -> (p: Self)
        ensures
            p@ == bytes@,
    {
        Self { inner: bytes }
    }

    pub fn as_bytes(&self) -> (b: &'a [u8])
        ensures
            b@ == self@,
    {
        self.inner
    }

    pub fn as_str(&self) -> (s: Option<&'a str>)
        ensures
            s is Some <==> valid_utf8(self@),
            s matches Some(t) ==> t.spec_bytes() == self@,
    {
        utf8_str(self.inner)
    }

    pub fn is_empty(&self) -> (b: bool)
        ensures
            b == (self@.len() == 0),
    {
        self.inner.len() == 0
    }

    pub fn is_absolute(&self) -> (b: bool)
        ensures
            b == absolute(self@),
    {
        self.inner.len() > 0 && self.inner[0] == SLASH
    }

    pub fn is_root(&self) -> (b: bool)
        ensures
            b == (self@ == root_path()),
    {
        let b = self.inner.len() == 1 && self.inner[0] == SLASH;
        assert(b ==> self@ =~= root_path());
        b
    }

    pub fn parent(&self) -> (p: Option<UnixPath<'a>>)
        ensures
            match p {
                Some(q) => parent_of(self@) == Some(q@),
                None => parent_of(self@) is None,
            },
    {
        if self.is_root() || self.is_empty() {
            return None;
        }
        let bytes = self.inner;
        let total: usize = bytes.len();
        let end: usize = match rposition(bytes, false) {
            Some(i) => i + 1,
            None => return None,
        };
        let head = vstd::slice::slice_subrange(bytes, 0, end);
        assert(head@ =~= trimmed(self@));
        assert(end <= total);
        let slash: usize = match rposition(head, true) {
            Some(i) => i,
            None => return None,
        };
        if slash == 0 {
            Some(UnixPath::from_bytes(root_bytes()))
        } else {
            let p = vstd::slice::slice_subrange(bytes, 0, slash);
            assert(p@ =~= self@.take(slash as int));
            Some(UnixPath::from_bytes(p))
        }
    }

    pub fn file_name(&self) -> (n: Option<&'a [u8]>)
        ensures
            match n {
                Some(b) => file_name_of(self@) == Some(b@),
                None => file_name_of(self@) is None,
            },
    {
        let bytes = trim_trailing_slashes(self.inner);
        if bytes.len() == 0 {
            return None;
        }
        match rposition(bytes, true) {
            Some(i) => {
                let n = vstd::slice::slice_subrange(bytes, i + 1, bytes.len());
                assert(n@ =~= bytes@.skip(i + 1));
                Some(n)
            },
            None => Some(bytes),
        }
    }

    pub fn components(&self) -> (c: Components<'a>)
        ensures
            c.remaining() == path_parts(self@),
    {
        let c = Components { bytes: self.inner, abs: self.is_absolute(), started: false };
        assert(c.remaining() =~= path_parts(self@));
        c
    }

    /// All components, in order.
    pub fn component_list(&self) -> (v: Vec<Component<'a>>)
        ensures
            part_views(v@) == path_parts(self@),
    {
        let mut v: Vec<Component<'a>> = Vec::new();
        let mut c = self.components();
        assert(part_views(v@) + c.remaining() =~= path_parts(self@));
        loop
            invariant_except_break
                part_views(v@) + c.remaining() == path_parts(self@),
            ensures
                part_views(v@) == path_parts(self@),
            decreases c.remaining().len(),
        {
            let ghost before = c.remaining();
            match c.next() {
                None => {
                    assert(part_views(v@) + before =~= part_views(v@));
                    break;
                },
                Some(p) => {
                    let ghost done = part_views(v@);
                    v.push(p);
                    assert(part_views(v@) =~= done.push(p@));
                    assert(part_views(v@) + c.remaining() =~= done + before);
                },
            }
        }
        v
    }

    pub fn to_path_buf(&self) -> (p: UnixPathBuf)
        ensures
            p@ == self@,
    {
        UnixPathBuf { inner: copy_bytes(self.inner) }
    }

    pub fn join(&self, other: UnixPath) -> (p: UnixPathBuf)
        ensures
            p@ == joined(self@, other@),
    {
        if other.is_absolute() {
            return other.to_path_buf();
        }
        let mut buf = self.to_path_buf();
        buf.push(other);
        buf
    }
}

impl UnixPathBuf {
    pub fn new() -> (p: Self)
        ensures
            p@ == Seq::<u8>::empty(),
    {
        Self { inner: Vec::new() }
    }

    /// The root path `"/"`.
    pub fn root() -> (p: Self)
        ensures
            p@ == root_path(),
    {
        Self { inner: copy_bytes(root_bytes()) }
    }

    pub fn from_bytes(bytes: Vec<u8>) -> (p: Self)
        ensures
            p@ == bytes@,
    {
        Self { inner: bytes }
    }

    pub fn as_path(&self) -> (p: UnixPath<'_>)
        ensures
            p@ == self@,
    {
        UnixPath { inner: self.inner.as_slice() }
    }

    pub fn push(&mut self, path: UnixPath)
        ensures
            final(self)@ == joined(old(self)@, path@),
    {
        if path.is_absolute() {
            self.inner = copy_bytes(path.inner);
            return;
        }
        let n: usize = self.inner.len();
        if n > 0 && self.inner[n - 1] != SLASH {
            self.inner.push(SLASH);
        }
        append(&mut self.inner, path.inner);
    }

    /// Cuts the path back to its parent, where it has one.
    pub fn pop(&mut self) -> (b: bool)
        ensures
            match parent_of(old(self)@) {
                Some(p) => b && final(self)@ == p,
                None => !b && final(self)@ == old(self)@,
            },
    {
        let p = match self.as_path().parent() {
            Some(p) => copy_bytes(p.inner),
            None => return false,
        };
        self.inner = p;
        true
    }

    pub fn into_bytes(self) -> (v: Vec<u8>)
        ensures
            v@ == self@,
    {
        self.inner
    }
}

/// The root path has no component but the root directory.
pub proof fn lemma_root_parts()
    ensures
        path_parts(root_path()) == seq![Part::RootDir],
{
    let s = root_path();
    reveal_with_fuel(parts, 3);
    assert(parts(s) =~= Seq::empty());
    assert(path_parts(s) =~= seq![Part::RootDir]);
}

/// The components of a path, one after the other (empty names are skipped, `.` is yielded).
#[derive(Debug, Clone, Copy)]
pub struct Components<'a> {
    pub bytes: &'a [u8],
    pub abs: bool,
    pub started: bool,
}

#[derive(Debug, Clone, Copy)]
pub enum Component<'a> {
    RootDir,
    CurDir,
    ParentDir,
    Normal(&'a [u8]),
}

impl<'a> View for Component<'a> {
    type V = Part;

    open spec fn view(&self) -> Part {
        match self {
            Component::RootDir => Part::RootDir,
            Component::CurDir => Part::CurDir,
            Component::ParentDir => Part::ParentDir,
            Component::Normal(n) => Part::Normal(n@),
        }
    }
}

/// The components of a list, as the contracts see them.
pub open spec fn part_views(s: Seq<Component>) -> Seq<Part> {
    Seq::new(s.len(), |i: int| s[i]@)
}

impl<'a> Components<'a> {
    /// The components that are still to come.
    pub open spec fn remaining(&self) -> Seq<Part> {
        if !self.started && self.abs {
            seq![Part::RootDir] + parts(self.bytes@)
        } else {
            parts(self.bytes@)
        }
    }

    /// The next component, if there is one.
    pub fn next(&mut self) -> (c: Option<Component<'a>>)
        ensures
            match c {
                None => old(self).remaining().len() == 0 && final(self).remaining().len() == 0,
                Some(p) => old(self).remaining() == seq![p@] + final(self).remaining(),
            },
    {
        if !self.started {
            self.started = true;
            if self.abs {
                self.bytes = trim_leading_slashes(self.bytes);
                return Some(Component::RootDir);
            }
        }
        self.bytes = trim_leading_slashes(self.bytes);
        let bytes = self.bytes;
        let n: usize = bytes.len();
        if n == 0 {
            return None;
        }
        let mut end: usize = 0;
        while end < n && bytes[end] != SLASH
            invariant
                end <= n,
                n == bytes@.len(),
                forall|i: int| 0 <= i < end ==> bytes@[i] != SLASH,
            decreases n - end,
        {
            end = end + 1;
        }
        proof {
            lemma_name_len_is(bytes@, end as int);
        }
        let part = vstd::slice::slice_subrange(bytes, 0, end);
        self.bytes = vstd::slice::slice_subrange(bytes, end, n);
        assert(part@ =~= bytes@.take(end as int));
        assert(self.bytes@ =~= bytes@.skip(end as int));
        if is_dot(part) {
            Some(Component::CurDir)
        } else if is_dot_dot(part) {
            Some(Component::ParentDir)
        } else {
            Some(Component::Normal(part))
        }
    }
}

fn trim_leading_slashes(b: &[u8]) -> (r: &[u8])
    ensures
        parts(r@) == parts(b@),
        r@.len() > 0 ==> r@[0] != SLASH,
{
    let n: usize = b.len();
    let mut i: usize = 0;
    while i < n && b[i] == SLASH
        invariant
            i <= n,
            n == b@.len(),
            forall|j: int| 0 <= j < i ==> b@[j] == SLASH,
        decreases n - i,
    {
        i = i + 1;
    }
    proof {
        lemma_parts_trim(b@, i as int);
    }
    let r = vstd::slice::slice_subrange(b, i, n);
    assert(r@ =~= b@.skip(i as int));
    r
}

fn trim_trailing_slashes(b: &[u8]) -> (r: &[u8])
    ensures
        r@ == trimmed(b@),
{
    let total: usize = b.len();
    match rposition(b, false) {
        Some(i) => {
            assert(i < total);
            let r = vstd::slice::slice_subrange(b, 0, i + 1);
            assert(r@ =~= trimmed(b@));
            r
        },
        None => {
            let r = vstd::slice::slice_subrange(b, 0, 0);
            assert(r@ =~= trimmed(b@));
            r
        },
    }
}

/// The errno for a name that no directory may hold, or `None` for a good one.
pub open spec fn name_error(name: Seq<u8>) -> Option<i32> {
    if name.len() == 0 || name == dot() || name == dot_dot() {
        Some(EINVAL)
    } else if name.len() > NAME_MAX {
        Some(ENAMETOOLONG)
    } else if name.contains(0) || name.contains(SLASH) {
        Some(EINVAL)
    } else {
        None
    }
}

/// Whether `b` occurs in `s`.
fn contains_byte(s: &[u8], b: u8) -> (r: bool)
    ensures
        r == s@.contains(b),
{
    let n: usize = s.len();
    let mut i: usize = 0;
    while i < n
        invariant
            i <= n,
            n == s@.len(),
            forall|j: int| 0 <= j < i ==> s@[j] != b,
        decreases n - i,
    {
        if s[i] == b {
            return true;
        }
        i = i + 1;
    }
    false
}

pub fn validate_name(name: &[u8]) -> (r: Result<()>)
    ensures
        match r {
            Ok(_) => name_error(name@) is None,
            Err(e) => name_error(name@) is Some && e.is(name_error(name@)->0),
        },
{
    if name.len() == 0 || is_dot(name) || is_dot_dot(name) {
        return Err(einval("invalid filename"));
    }
    if name.len() > NAME_MAX {
        return Err(enametoolong());
    }
    if contains_byte(name, 0) || contains_byte(name, SLASH) {
        return Err(Error::from_errno(EINVAL));
    }
    Ok(())
}

} // verus!
