//! The string and data pools of a @UTF table under construction.
//!
//! Strings are stored Shift-JIS encoded with a closing zero, each distinct
//! string once; blobs are appended as they come.

use vstd::prelude::*;

verus! {

/// Name for the Shift-JIS bytes that `encoding_rs` makes of a string.
pub uninterp spec fn shift_jis_bytes(s: Seq<char>) -> Seq<u8>;

/// The bytes of a string all of whose characters are ASCII.
pub open spec fn ascii_bytes(s: Seq<char>) -> Seq<u8> {
    Seq::new(s.len(), |i: int| s[i] as u8)
}

/// Every character is ASCII.
pub open spec fn is_ascii_chars(s: Seq<char>) -> bool {
    forall|i: int| 0 <= i < s.len() ==> (s[i] as u32) < 0x80
}

/// `encoding_rs::SHIFT_JIS.encode`, keeping the bytes. The result is a
/// function of the string, named `shift_jis_bytes`; the source returns the
/// string's own bytes when they are all ASCII, which the second clause
/// states. What it makes of other characters is left to the name.
#[verifier::external_body]
fn shift_jis_encode(s: &str) -> (r: Vec<u8>)
    ensures
        r@ == shift_jis_bytes(s@),
        is_ascii_chars(s@) ==> r@ == ascii_bytes(s@),
{
    let (encoded, _, _) = encoding_rs::SHIFT_JIS.encode(s);
    encoded.into_owned()
}

/// The pool entry of a string: its Shift-JIS bytes and a zero.
pub open spec fn pool_entry(s: Seq<char>) -> Seq<u8> {
    shift_jis_bytes(s).push(0u8)
}

/// The pool bytes of the strings `ss`, in order.
pub open spec fn pool_image(ss: Seq<Seq<char>>) -> Seq<u8>
    decreases ss.len(),
{
    if ss.len() == 0 {
        Seq::empty()
    } else {
        pool_image(ss.drop_last()) + pool_entry(ss.last())
    }
}

/// Index of the first occurrence of `s` in `ss`; `ss.len()` when absent.
pub open spec fn first_index(ss: Seq<Seq<char>>, s: Seq<char>) -> int
    decreases ss.len(),
{
    if ss.len() == 0 {
        0
    } else {
        let i = first_index(ss.drop_last(), s);
        if i < ss.len() - 1 {
            i
        } else if ss.last() == s {
            ss.len() - 1
        } else {
            ss.len() as int
        }
    }
}

/// A value cut to 32 bits, as `as u32` does.
pub open spec fn trunc32(x: int) -> int {
    x % 0x1_0000_0000
}

/// Offset of `s` in the pool of `ss`, cut to 32 bits.
pub open spec fn string_offset(ss: Seq<Seq<char>>, s: Seq<char>) -> int {
    trunc32(pool_image(ss.take(first_index(ss, s))).len() as int)
}

/// The strings after adding `s`: unchanged when it is already there.
pub open spec fn add_string(ss: Seq<Seq<char>>, s: Seq<char>) -> Seq<Seq<char>> {
    if ss.contains(s) {
        ss
    } else {
        ss.push(s)
    }
}

/// No string occurs twice.
pub open spec fn distinct(ss: Seq<Seq<char>>) -> bool {
    forall|i: int, j: int| 0 <= i < j < ss.len() ==> ss[i] != ss[j]
}

/// `first_index` finds the first occurrence, or reports absence.
pub proof fn lemma_first_index(ss: Seq<Seq<char>>, s: Seq<char>)
    ensures
        0 <= first_index(ss, s) <= ss.len(),
        (first_index(ss, s) < ss.len()) == ss.contains(s),
        first_index(ss, s) < ss.len() ==> ss[first_index(ss, s)] == s,
        forall|j: int| 0 <= j < first_index(ss, s) ==> ss[j] != s,
    decreases ss.len(),
{
    if ss.len() > 0 {
        let d = ss.drop_last();
        lemma_first_index(d, s);
        if ss.contains(s) {
            let w = choose|w: int| 0 <= w < ss.len() && ss[w] == s;
            if w < ss.len() - 1 {
                assert(d[w] == s);
                assert(d.contains(s));
            }
        }
        if d.contains(s) {
            let w = choose|w: int| 0 <= w < d.len() && d[w] == s;
            assert(ss[w] == s);
        }
        assert forall|j: int| 0 <= j < first_index(ss, s) implies ss[j] != s by {
            if j < d.len() {
                assert(ss[j] == d[j]);
            }
        }
    }
}

/// Adding a string keeps every string that was there, at the same offset.
pub proof fn lemma_add_keeps(ss: Seq<Seq<char>>, t: Seq<char>, x: Seq<char>)
    requires
        ss.contains(x),
    ensures
        add_string(ss, t).contains(x),
        string_offset(add_string(ss, t), x) == string_offset(ss, x),
        add_string(ss, t).contains(t),
{
    lemma_first_index(ss, x);
    if !ss.contains(t) {
        let p = ss.push(t);
        assert(p.drop_last() =~= ss);
        let w = choose|w: int| 0 <= w < ss.len() && ss[w] == x;
        assert(p[w] == x);
        assert(p[ss.len() as int] == t);
        let i = first_index(ss, x);
        assert(first_index(p, x) == i);
        assert(p.take(i) =~= ss.take(i));
    }
}

/// Adding a string a second time changes nothing: the pool keeps one copy
/// and the string keeps the offset it was first given.
pub proof fn law_add_string_twice(ss: Seq<Seq<char>>, s: Seq<char>)
    ensures
        add_string(add_string(ss, s), s) == add_string(ss, s),
        string_offset(add_string(add_string(ss, s), s), s) == string_offset(add_string(ss, s), s),
{
    if !ss.contains(s) {
        assert(ss.push(s)[ss.len() as int] == s);
    }
}

/// `ss2` starts with `ss`: it holds what `ss` holds, in the same places.
pub open spec fn extends(ss2: Seq<Seq<char>>, ss: Seq<Seq<char>>) -> bool {
    ss.len() <= ss2.len() && ss2.take(ss.len() as int) == ss
}

/// Adding a string extends the pool.
pub proof fn lemma_add_extends(ss: Seq<Seq<char>>, t: Seq<char>)
    ensures
        extends(add_string(ss, t), ss),
{
    assert(ss.take(ss.len() as int) =~= ss);
    assert(ss.push(t).take(ss.len() as int) =~= ss);
}

/// Extending is transitive.
pub proof fn lemma_extends_trans(a: Seq<Seq<char>>, b: Seq<Seq<char>>, c: Seq<Seq<char>>)
    requires
        extends(b, a),
        extends(c, b),
    ensures
        extends(c, a),
{
    assert(c.take(a.len() as int) =~= b.take(a.len() as int));
}

/// A pool extends itself.
pub proof fn lemma_extends_refl(a: Seq<Seq<char>>)
    ensures
        extends(a, a),
{
    assert(a.take(a.len() as int) =~= a);
}

/// A string held by a pool keeps its offset in every extension of it.
pub proof fn lemma_extends_keeps(ss: Seq<Seq<char>>, ss2: Seq<Seq<char>>, x: Seq<char>)
    requires
        extends(ss2, ss),
        ss.contains(x),
    ensures
        ss2.contains(x),
        string_offset(ss2, x) == string_offset(ss, x),
{
    lemma_first_index(ss, x);
    lemma_first_index(ss2, x);
    let i = first_index(ss, x);
    let i2 = first_index(ss2, x);
    assert(ss2[i] == ss.take(ss.len() as int)[i]);
    assert(ss2[i] == x);
    assert(ss2.contains(x));
    if i2 < i {
        assert(ss2[i2] == ss[i2]);
    }
    assert(i2 == i);
    assert(ss2.take(i) =~= ss.take(i)) by {
        assert forall|j: int| 0 <= j < i implies ss2.take(i)[j] == ss.take(i)[j] by {
            assert(ss2[j] == ss2.take(ss.len() as int)[j]);
        }
    }
}

/// The pool holds a string once it is added.
pub proof fn lemma_add_string_holds(ss: Seq<Seq<char>>, s: Seq<char>)
    ensures
        add_string(ss, s).contains(s),
{
    if !ss.contains(s) {
        assert(ss.push(s)[ss.len() as int] == s);
    }
}

/// Pool bytes grow by one entry when a string is pushed.
proof fn lemma_pool_push(ss: Seq<Seq<char>>, s: Seq<char>)
    ensures
        pool_image(ss.push(s)) == pool_image(ss) + pool_entry(s),
{
    assert(ss.push(s).drop_last() =~= ss);
}

/// Every ASCII string of the list is encoded as its own bytes.
pub open spec fn ascii_faithful(ss: Seq<Seq<char>>) -> bool {
    forall|i: int|
        0 <= i < ss.len() && is_ascii_chars(ss[i]) ==> #[trigger] shift_jis_bytes(ss[i])
            == ascii_bytes(ss[i])
}

/// Pool of the strings a table holds, each distinct string once, each with
/// the offset it was given.
pub struct StringTable {
    data: Vec<u8>,
    entries: Vec<(String, u32)>,
}

impl StringTable {
    /// The strings held, in the order they were added.
    pub closed spec fn strings(&self) -> Seq<Seq<char>> {
        self.entries@.map_values(|e: (String, u32)| e.0@)
    }

    /// The pool bytes.
    pub closed spec fn bytes(&self) -> Seq<u8> {
        self.data@
    }

    /// The pool bytes are the entries of the strings in order, no string is
    /// held twice, each recorded offset is where its entry starts, and every
    /// ASCII string was encoded as its own bytes.
    pub closed spec fn wf(&self) -> bool {
        &&& self.data@ == pool_image(self.strings())
        &&& distinct(self.strings())
        &&& ascii_faithful(self.strings())
        &&& forall|i: int|
            0 <= i < self.entries@.len() ==> #[trigger] self.entries@[i].1 == string_offset(
                self.strings(),
                self.strings()[i],
            )
    }

    pub fn new() -> (r: Self)
        ensures
            r.wf(),
            r.strings() == Seq::<Seq<char>>::empty(),
            r.bytes() == Seq::<u8>::empty(),
    {
        let r = StringTable { data: Vec::new(), entries: Vec::new() };
        assert(r.strings() =~= Seq::<Seq<char>>::empty());
        r
    }

    /// Add a string, or find it when it is already held; returns its offset.
    pub fn add(&mut self, s: &str) -> (r: u32)
        requires
            old(self).wf(),
        ensures
            final(self).wf(),
            final(self).strings() == add_string(old(self).strings(), s@),
            final(self).bytes() == pool_image(final(self).strings()),
            r == string_offset(final(self).strings(), s@),
            is_ascii_chars(s@) ==> pool_entry(s@) == ascii_bytes(s@).push(0u8),
            ascii_faithful(final(self).strings()),
    {
        let ghost ss = self.strings();
        let key: String = s.to_owned();
        let mut i: usize = 0;
        while i < self.entries.len()
            invariant
                self.wf(),
                self.strings() == ss,
                key@ == s@,
                i <= self.entries@.len(),
                forall|j: int| 0 <= j < i ==> ss[j] != s@,
            decreases self.entries@.len() - i,
        {
            if self.entries[i].0 == key {
                let off = self.entries[i].1;
                proof {
                    assert(ss[i as int] == s@);
                    assert(ss.contains(s@));
                    assert(shift_jis_bytes(ss[i as int]) == shift_jis_bytes(s@));
                }
                return off;
            }
            i = i + 1;
        }
        proof {
            assert(!ss.contains(s@)) by {
                if ss.contains(s@) {
                    let w = choose|w: int| 0 <= w < ss.len() && ss[w] == s@;
                    assert(ss[w] != s@);
                }
            }
        }
        let offset: u32 = (self.data.len() as u64 % 0x1_0000_0000) as u32;
        let encoded = shift_jis_encode(s);
        self.data.extend_from_slice(encoded.as_slice());
        self.data.push(0);
        self.entries.push((key, offset));
        proof {
            let ns = ss.push(s@);
            assert(self.strings() =~= ns);
            lemma_pool_push(ss, s@);
            assert(self.data@ =~= pool_image(ns));
            lemma_first_index(ss, s@);
            assert(ns.drop_last() =~= ss);
            assert(first_index(ns, s@) == ss.len());
            assert(ns.take(ss.len() as int) =~= ss);
            assert forall|a: int, b: int| 0 <= a < b < ns.len() implies ns[a] != ns[b] by {
                if b == ss.len() {
                    assert(ss.contains(ns[a]) || ns[a] != s@);
                    if ns[a] == s@ {
                        assert(ss[a] == s@);
                        assert(ss.contains(s@));
                    }
                }
            }
            assert forall|k: int| 0 <= k < self.entries@.len() implies #[trigger] self.entries@[k].1
                == string_offset(self.strings(), self.strings()[k]) by {
                if k < ss.len() {
                    assert(ss.contains(ss[k]));
                    lemma_add_keeps(ss, s@, ss[k]);
                }
            }
        }
        offset
    }

    /// Number of pool bytes.
    /// A well-formed pool encoded every ASCII string it holds as its own
    /// bytes.
    pub proof fn lemma_wf_ascii(&self)
        requires
            self.wf(),
        ensures
            ascii_faithful(self.strings()),
    {
    }

    pub fn len(&self) -> (r: usize)
        ensures
            r == self.bytes().len(),
    {
        self.data.len()
    }

    /// The pool bytes.
    pub fn data(&self) -> (r: &[u8])
        ensures
            r@ == self.bytes(),
    {
        self.data.as_slice()
    }
}

/// Pool of the blobs of a table, appended as they come.
pub struct DataTable {
    data: Vec<u8>,
}

impl DataTable {
    /// The pool bytes.
    pub closed spec fn bytes(&self) -> Seq<u8> {
        self.data@
    }

    pub fn new() -> (r: Self)
        ensures
            r.bytes() == Seq::<u8>::empty(),
    {
        DataTable { data: Vec::new() }
    }

    /// Append a blob; returns where it starts, cut to 32 bits.
    pub fn add(&mut self, d: &[u8]) -> (r: u32)
        ensures
            final(self).bytes() == old(self).bytes() + d@,
            r == trunc32(old(self).bytes().len() as int),
    {
        let offset: u32 = (self.data.len() as u64 % 0x1_0000_0000) as u32;
        self.data.extend_from_slice(d);
        proof {
            assert(self.data@ =~= old(self).bytes() + d@);
        }
        offset
    }

    /// Number of pool bytes.
    pub fn len(&self) -> (r: usize)
        ensures
            r == self.bytes().len(),
    {
        self.data.len()
    }

    /// The pool bytes.
    pub fn data(&self) -> (r: &[u8])
        ensures
            r@ == self.bytes(),
    {
        self.data.as_slice()
    }
}

} // verus!
